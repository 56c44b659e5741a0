//! What a comparison of a member with an operand keeps.

use vstd::arithmetic::power::{lemma_pow0, pow};
use vstd::prelude::*;

use crate::demand::{Asks, PredicateModel};
use crate::dialect::Dialect;
use crate::edit::members::ContainerKind;
use crate::error::Error;
use crate::laws::filters::{array_text_has_slots, filter_ask, keeps, keeps_what_holds};
use crate::laws::local::{copied, text_is_local, value_start};
use crate::laws::paths::text_value;
use crate::laws::members::{located, located_are_read, lookup_finds_the_member, members_are_located, span_reads, spans_read};
use crate::laws::shallow::all_members;
use crate::laws::slots::{container_is_laid, slot_reads, Slot};
use crate::lex::number::{
    after_minus, hex_prefix, infinity_text, nan_text, non_finite_of, normalized, without_minus, without_plus,
};
use crate::lex::skip::{starts_number, MAX_NESTING};
use crate::lex::stop_sets::{is_digit, run_end, run_end_facts, Digits, StopSet};
use crate::lex::string::{plain_end, plain_is_text};
use crate::number::{is_number, mantissa, num_order, order_of, plain_int, scale, scaled_order, spelled_order, digits_number, Num, Order};
use crate::scan::{scanned, Ask, JsonInput};
use crate::tape::built_scalar;
use crate::value::{ByteRange, Json};
use crate::walk::member::{
    bytes_at, equals_operand, false_text, holds, lookup, null_text, operand_order, satisfies, source_number, string_matches, true_text,
};
use crate::walk::model::WalkCtx;

verus! {

/// Integers without a fraction or an exponent order as the integers that they spell.
pub proof fn plain_integers_order_as_integers(x: Seq<u8>, y: Seq<u8>, a: int, c: int)
    requires
        plain_int(x) == Some(a),
        plain_int(y) == Some(c),
    ensures
        spelled_order(x, y) == (if a < c {
            Order::Less
        } else if a > c {
            Order::Greater
        } else {
            Order::Equal
        }),
{
    plain_is_whole(x);
    plain_is_whole(y);
    lemma_pow0(10);
    let m = digits_number(mantissa(x)) as int;
    let n = digits_number(mantissa(y)) as int;
    assert(m * pow(10, 0) == m) by (nonlinear_arith)
        requires
            pow(10, 0) == 1,
    ;
    assert(n * pow(10, 0) == n) by (nonlinear_arith)
        requires
            pow(10, 0) == 1,
    ;
    assert(scaled_order(m as nat, 0, n as nat, 0) == order_of(m, n));
}

/// A plain integer is its digits, at scale zero.
proof fn plain_is_whole(x: Seq<u8>)
    requires
        plain_int(x) is Some,
    ensures
        mantissa(x) == x.skip(after_minus(x, 0)),
        scale(x) == 0,
{
    let p = after_minus(x, 0);
    run_end_facts::<Digits>(x, p);
    assert(mantissa(x) =~= x.skip(p));
}

/// A spelling that the type holds is no hexadecimal and no word, and has no plus.
proof fn number_is_normal(raw: Seq<u8>)
    requires
        is_number(raw),
    ensures
        normalized(raw) == raw,
        non_finite_of(raw) is None,
{
    let p = after_minus(raw, 0);
    run_end_facts::<Digits>(raw, p);
    let unsigned = without_plus(without_minus(raw));
    assert(p < raw.len() && is_digit(raw[p]));
    assert(unsigned =~= raw.skip(p));
    if hex_prefix(unsigned, 0) {
        assert(raw[p + 1] == unsigned[1]);
        assert(Digits::stops(raw[p + 1]));
        assert(run_end::<Digits>(raw, p) == p + 1);
    }
    assert(infinity_text()[0] == 0x49 && nan_text()[0] == 0x4e);
    assert((seq![crate::ascii::MINUS] + infinity_text())[1] == 0x49);
    assert((seq![crate::ascii::MINUS] + nan_text())[1] == 0x4e);
}

/// The bytes of a number spell the number that is read.
proof fn number_is_spelled(b: Seq<u8>, s: ByteRange, n: Num, dialect: Dialect, depth: int)
    requires
        span_reads(b, s, Json::Number(n), dialect, depth),
    ensures
        source_number(bytes_at(b, s), dialect) == Some(n),
        dialect != Dialect::Json5 ==> n == Num::Finite(bytes_at(b, s)),
{
    reveal(built_scalar);
    let raw = bytes_at(b, s);
    if dialect == Dialect::Json5 && is_number(raw) {
        number_is_normal(raw);
    }
}

/// The bytes of another value spell no number.
proof fn other_is_no_number(b: Seq<u8>, s: ByteRange, x: Json, dialect: Dialect, depth: int)
    requires
        span_reads(b, s, x, dialect, depth),
        !(x is Number),
    ensures
        source_number(bytes_at(b, s), dialect) is None,
        plain_int(bytes_at(b, s)) is None,
{
    reveal(built_scalar);
    let got = bytes_at(b, s);
    assert(got[0] == b[s.start as int]);
    value_start(b, s.start as int, dialect, depth);
    assert(!starts_number(b[s.start as int], dialect));
    no_number_starts_so(got, dialect);
}

proof fn no_number_starts_so(got: Seq<u8>, dialect: Dialect)
    requires
        got.len() > 0,
        !starts_number(got[0], dialect),
    ensures
        source_number(got, dialect) is None,
        plain_int(got) is None,
{
    assert(after_minus(got, 0) == 0);
    run_end_facts::<Digits>(got, 0);
    assert(without_plus(without_minus(got)) == got || dialect != Dialect::Json5);
    assert(infinity_text()[0] == 0x49 && nan_text()[0] == 0x4e);
    assert((seq![crate::ascii::MINUS] + infinity_text())[0] == crate::ascii::MINUS);
    assert((seq![crate::ascii::MINUS] + nan_text())[0] == crate::ascii::MINUS);
}

/// Whether an order is the one that a comparison asks for.
pub open spec fn stands_so(asks: Asks, order: Option<Order>) -> bool {
    match asks {
        Asks::Gt => order == Some(Order::Greater),
        Asks::Lt => order == Some(Order::Less),
        Asks::Ge => order == Some(Order::Greater) || order == Some(Order::Equal),
        Asks::Le => order == Some(Order::Less) || order == Some(Order::Equal),
    }
}

/// Whether a value stands in an order to an operand: a number to a number, or to a flag
/// taken for one or zero. Nothing else stands in any order.
pub open spec fn value_stands(x: Json, asks: Asks, operand: Json) -> bool {
    match (x, operand) {
        (Json::Number(n), Json::Number(w)) => stands_so(asks, num_order(n, w)),
        (Json::Number(n), Json::Bool(flag)) => stands_so(
            asks,
            num_order(
                n,
                Num::Finite(
                    if flag {
                        seq![0x31u8]
                    } else {
                        seq![0x30u8]
                    },
                ),
            ),
        ),
        _ => false,
    }
}

/// Whether a member of a name has a value that stands in an order to an operand.
pub open spec fn member_stands(members: Seq<(Seq<u8>, Json)>, field: Seq<u8>, asks: Asks, operand: Json) -> bool {
    exists|i: int| 0 <= i < members.len() && (#[trigger] members[i]).0 == field && value_stands(members[i].1, asks, operand)
}

/// How the bytes of a value order against an operand is how the value does.
proof fn bytes_order_as_the_value(b: Seq<u8>, s: ByteRange, x: Json, asks: Asks, operand: Json, dialect: Dialect, depth: int)
    requires
        span_reads(b, s, x, dialect, depth),
    ensures
        satisfies(asks, operand_order(bytes_at(b, s), operand, dialect)) == value_stands(x, asks, operand),
{
    let got = bytes_at(b, s);
    match x {
        Json::Number(n) => {
            number_is_spelled(b, s, n, dialect, depth);
            if dialect != Dialect::Json5 && (operand matches Json::Number(Num::Finite(w)) && plain_int(w) is Some) && plain_int(got) is Some {
                let w = operand->Number_0->Finite_0;
                plain_integers_order_as_integers(got, w, plain_int(got)->0, plain_int(w)->0);
            }
        },
        _ => {
            other_is_no_number(b, s, x, dialect, depth);
        },
    }
}

/// The members that a scan keeps of an element that is an object, against those that are read.
pub(crate) proof fn row_members(b: Seq<u8>, s: Slot, ctx: WalkCtx, depth: int)
    requires
        b.len() <= usize::MAX,
        slot_reads(b, s, ContainerKind::Array, ctx.dialect, depth),
        s.read is Object,
        0 <= depth,
        ctx.max == MAX_NESTING,
    ensures
        spans_read(b, all_members(b, s.at + 1, ctx, true, Seq::empty()), s.read->Object_0, ctx.dialect, depth + 1),
{
    let slots = container_is_laid(b, s.at, ctx.dialect, depth, ContainerKind::Object);
    members_are_located(b, s.at, s.end, slots, ctx, depth + 1, 0);
    assert(slots.take(0) =~= Seq::<Slot>::empty());
    assert(located(slots.take(0)) =~= Seq::<(Seq<u8>, ByteRange)>::empty());
    located_are_read(b, slots, ctx.dialect, depth + 1);
}

/// Members with distinct names have one member of a name.
proof fn only_one(members: Seq<(Seq<u8>, Json)>, i: int, k: int)
    requires
        crate::laws::deletes::apart(members),
        0 <= i < members.len(),
        0 <= k < members.len(),
        members[i].0 == members[k].0,
    ensures
        i == k,
{
    if i < k {
        assert(members[i].0 != members[k].0);
    } else if k < i {
        assert(members[k].0 != members[i].0);
    }
}

proof fn member_orders(
    b: Seq<u8>,
    spans: Seq<(Seq<u8>, ByteRange)>,
    members: Seq<(Seq<u8>, Json)>,
    field: Seq<u8>,
    asks: Asks,
    operand: Json,
    dialect: Dialect,
    depth: int,
)
    requires
        spans_read(b, spans, members, dialect, depth),
    ensures
        holds(b, spans, PredicateModel::Order(field, asks, operand), dialect) == member_stands(members, field, asks, operand),
{
    lookup_finds_the_member(b, spans, members, dialect, depth, field);
    if let Some(s) = lookup(spans, field) {
        let i = choose|i: int|
            0 <= i < members.len() && (#[trigger] members[i]).0 == field && span_reads(b, s, members[i].1, dialect, depth);
        bytes_order_as_the_value(b, s, members[i].1, asks, operand, dialect, depth);
        if member_stands(members, field, asks, operand) {
            let k = choose|k: int|
                0 <= k < members.len() && (#[trigger] members[k]).0 == field && value_stands(members[k].1, asks, operand);
            only_one(members, i, k);
        }
    }
}

/// A comparison keeps an element exactly when it is an object with a member of that name
/// whose number stands in that order to the operand.
#[verifier::rlimit(60)]
pub proof fn comparison_keeps_by_the_member_value(
    b: Seq<u8>,
    like: Ask,
    field: Seq<u8>,
    asks: Asks,
    operand: Json,
    items: Seq<Json>,
    k: i64,
)
    requires
        b.len() <= usize::MAX,
        like.input == JsonInput::Text,
        like.ctx.max == MAX_NESTING,
        text_value(b, like.ctx.dialect) == Ok::<Json, Error>(Json::Array(items)),
        scanned(b, filter_ask(like, PredicateModel::Order(field, asks, operand))) is Ok,
        0 <= k < items.len(),
    ensures
        keeps(b, like, PredicateModel::Order(field, asks, operand), k) <==> (items[k as int] matches Json::Object(members)
            && member_stands(members, field, asks, operand)),
{
    let p = PredicateModel::Order(field, asks, operand);
    let slots = array_text_has_slots(b, like.ctx.dialect, items);
    keeps_what_holds(b, like, p, slots, k);
    let s = slots[k as int];
    assert(items[k as int] == s.read);
    assert(slot_reads(b, s, ContainerKind::Array, like.ctx.dialect, 1));
    if s.read is Object {
        row_members(b, s, like.ctx, 1);
        member_orders(
            b,
            all_members(b, s.at + 1, like.ctx, true, Seq::empty()),
            s.read->Object_0,
            field,
            asks,
            operand,
            like.ctx.dialect,
            2,
        );
    }
}

/// Whether a value equals a scalar operand: numbers by what they come to, others as they
/// are.
pub open spec fn value_equals(x: Json, operand: Json) -> bool {
    match (x, operand) {
        (Json::Number(n), Json::Number(w)) => num_order(n, w) == Some(Order::Equal),
        _ => x == operand,
    }
}

/// Whether a member of a name equals an operand.
pub open spec fn member_equals(members: Seq<(Seq<u8>, Json)>, field: Seq<u8>, operand: Json) -> bool {
    exists|i: int| 0 <= i < members.len() && (#[trigger] members[i]).0 == field && value_equals(members[i].1, operand)
}

/// Whether every member of a name is a string.
pub open spec fn strings_only(members: Seq<(Seq<u8>, Json)>, field: Seq<u8>) -> bool {
    forall|i: int| 0 <= i < members.len() && (#[trigger] members[i]).0 == field ==> members[i].1 is Str
}

/// The bytes of a literal are its spelling.
proof fn literal_is_spelled(b: Seq<u8>, s: ByteRange, x: Json, dialect: Dialect, depth: int)
    requires
        span_reads(b, s, x, dialect, depth),
    ensures
        x is Null <==> bytes_at(b, s) == null_text(),
        x == Json::Bool(true) <==> bytes_at(b, s) == true_text(),
        x == Json::Bool(false) <==> bytes_at(b, s) == false_text(),
{
    reveal(built_scalar);
    let got = bytes_at(b, s);
    assert(got[0] == b[s.start as int]);
    assert(null_text()[0] == 0x6e && true_text()[0] == 0x74 && false_text()[0] == 0x66);
    value_start(b, s.start as int, dialect, depth);
}

/// The bytes of a string match the text that it decodes to.
proof fn string_is_matched(b: Seq<u8>, s: ByteRange, text: Seq<u8>, want: Seq<u8>, dialect: Dialect, depth: int)
    requires
        span_reads(b, s, Json::Str(text), dialect, depth),
    ensures
        string_matches(bytes_at(b, s), want, dialect) == (text == want),
{
    reveal(built_scalar);
    let got = bytes_at(b, s);
    let at = s.start as int;
    let to = s.end as int;
    assert(got[0] == b[at]);
    assert(copied(b, at, to, got, -at)) by {
        assert forall|i: int| at <= i < to implies #[trigger] b[i] == got[i - at] by {}
    }
    text_is_local(b, at, to, got, -at, at, dialect);
    if plain_end(got, 0) is Some {
        plain_is_text(got, 0, dialect);
    }
}

proof fn bytes_equal_as_the_value(b: Seq<u8>, s: ByteRange, x: Json, operand: Json, dialect: Dialect, depth: int)
    requires
        span_reads(b, s, x, dialect, depth),
        !(operand is Array) && !(operand is Object),
        operand is Str ==> x is Str,
    ensures
        equals_operand(bytes_at(b, s), operand, dialect) == value_equals(x, operand),
{
    match operand {
        Json::Number(w) => {
            match x {
                Json::Number(n) => {
                    number_is_spelled(b, s, n, dialect, depth);
                },
                _ => {
                    other_is_no_number(b, s, x, dialect, depth);
                },
            }
        },
        Json::Str(want) => {
            string_is_matched(b, s, x->Str_0, want, dialect, depth);
        },
        _ => {
            literal_is_spelled(b, s, x, dialect, depth);
        },
    }
}

proof fn member_equality(
    b: Seq<u8>,
    spans: Seq<(Seq<u8>, ByteRange)>,
    members: Seq<(Seq<u8>, Json)>,
    field: Seq<u8>,
    operand: Json,
    dialect: Dialect,
    depth: int,
)
    requires
        spans_read(b, spans, members, dialect, depth),
        !(operand is Array) && !(operand is Object),
        operand is Str ==> strings_only(members, field),
    ensures
        holds(b, spans, PredicateModel::Eq(field, operand), dialect) == member_equals(members, field, operand),
        holds(b, spans, PredicateModel::Ne(field, operand), dialect) == !member_equals(members, field, operand),
{
    lookup_finds_the_member(b, spans, members, dialect, depth, field);
    if let Some(s) = lookup(spans, field) {
        let i = choose|i: int|
            0 <= i < members.len() && (#[trigger] members[i]).0 == field && span_reads(b, s, members[i].1, dialect, depth);
        bytes_equal_as_the_value(b, s, members[i].1, operand, dialect, depth);
        if member_equals(members, field, operand) {
            let k = choose|k: int|
                0 <= k < members.len() && (#[trigger] members[k]).0 == field && value_equals(members[k].1, operand);
            only_one(members, i, k);
        }
    }
}

/// An equality keeps an element exactly when it is an object with a member of that name
/// that equals the operand, and an inequality keeps exactly the other objects. The bytes of
/// a member that is no string are not read as one here.
#[verifier::rlimit(60)]
pub proof fn equality_keeps_by_the_member_value(
    b: Seq<u8>,
    like: Ask,
    field: Seq<u8>,
    operand: Json,
    items: Seq<Json>,
    k: i64,
)
    requires
        b.len() <= usize::MAX,
        like.input == JsonInput::Text,
        like.ctx.max == MAX_NESTING,
        text_value(b, like.ctx.dialect) == Ok::<Json, Error>(Json::Array(items)),
        scanned(b, filter_ask(like, PredicateModel::Eq(field, operand))) is Ok,
        scanned(b, filter_ask(like, PredicateModel::Ne(field, operand))) is Ok,
        0 <= k < items.len(),
        !(operand is Array) && !(operand is Object),
        operand is Str ==> (items[k as int] matches Json::Object(members) ==> strings_only(members, field)),
    ensures
        keeps(b, like, PredicateModel::Eq(field, operand), k) <==> (items[k as int] matches Json::Object(members) && member_equals(
            members,
            field,
            operand,
        )),
        keeps(b, like, PredicateModel::Ne(field, operand), k) <==> (items[k as int] matches Json::Object(members) && !member_equals(
            members,
            field,
            operand,
        )),
{
    let slots = array_text_has_slots(b, like.ctx.dialect, items);
    keeps_what_holds(b, like, PredicateModel::Eq(field, operand), slots, k);
    keeps_what_holds(b, like, PredicateModel::Ne(field, operand), slots, k);
    let s = slots[k as int];
    assert(items[k as int] == s.read);
    assert(slot_reads(b, s, ContainerKind::Array, like.ctx.dialect, 1));
    if s.read is Object {
        row_members(b, s, like.ctx, 1);
        member_equality(
            b,
            all_members(b, s.at + 1, like.ctx, true, Seq::empty()),
            s.read->Object_0,
            field,
            operand,
            like.ctx.dialect,
            2,
        );
    }
}

} // verus!
