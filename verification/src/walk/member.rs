//! Last-wins object members, row conditions over them, and the member names a
//! set of demands touches.

use vstd::prelude::*;
use vstd::utf8::valid_utf8;

use crate::demand::{
    lenses_model, predicate_model, Asks, DemandModel, Lens, Predicate, PredicateModel,
};
use crate::dialect::Dialect;
use crate::lex::number::{non_finite_of, non_finite_value, normalize_json5_into, normalized};
use crate::lex::string::{parse_string_into, plain_double_quoted, plain_end, string_text};
use crate::number::{is_number, num_order, order_of, plain_int, plain_int_bytes, Num, Number, Order};
use crate::text::{bytes_of, names_of, same_bytes, text_bytes, text_copy};
use crate::value::{json, ByteRange, Json, Value};
use crate::walk::marks::{Batch, ColumnCell};

verus! {

/// Distinct members in order of first appearance, each with the span of its
/// last value.
pub open spec fn find(members: Seq<(Seq<u8>, ByteRange)>, name: Seq<u8>) -> Option<int>
    decreases members.len(),
{
    if members.len() == 0 {
        None
    } else if members.last().0 == name {
        Some(members.len() - 1)
    } else {
        find(members.drop_last(), name)
    }
}

/// The span of a member.
pub open spec fn lookup(members: Seq<(Seq<u8>, ByteRange)>, name: Seq<u8>) -> Option<ByteRange> {
    match find(members, name) {
        Some(i) => Some(members[i].1),
        None => None,
    }
}

/// The members with one more value: a repeated name replaces its span in place.
pub open spec fn inserted(members: Seq<(Seq<u8>, ByteRange)>, name: Seq<u8>, span: ByteRange) -> Seq<
    (Seq<u8>, ByteRange),
> {
    match find(members, name) {
        Some(i) => members.update(i, (name, span)),
        None => members.push((name, span)),
    }
}

/// Names of the members.
pub open spec fn names_in(members: Seq<(Seq<u8>, ByteRange)>) -> Seq<Seq<u8>> {
    members.map_values(|m: (Seq<u8>, ByteRange)| m.0)
}

/// Spans lie inside a source of `len` bytes and hold at least one byte.
pub open spec fn spans_inside(members: Seq<(Seq<u8>, ByteRange)>, len: int) -> bool {
    forall|i: int|
        0 <= i < members.len() ==> (#[trigger] members[i]).1.start < members[i].1.end <= len
}

pub proof fn find_bounds(members: Seq<(Seq<u8>, ByteRange)>, name: Seq<u8>)
    ensures
        find(members, name) matches Some(i) ==> 0 <= i < members.len() && members[i].0 == name,
        find(members, name) is None ==> forall|k: int| 0 <= k < members.len() ==> (#[trigger] members[k]).0 != name,
    decreases members.len(),
{
    if members.len() > 0 && members.last().0 != name {
        let t = members.drop_last();
        find_bounds(t, name);
        assert forall|k: int| 0 <= k < members.len() && find(members, name) is None implies (#[trigger] members[k]).0
            != name by {
            if k < t.len() {
                assert(t[k] == members[k]);
            }
        }
    }
}

proof fn find_is(members: Seq<(Seq<u8>, ByteRange)>, name: Seq<u8>, at: int)
    requires
        0 <= at < members.len(),
        members[at].0 == name,
        forall|k: int| at < k < members.len() ==> (#[trigger] members[k]).0 != name,
    ensures
        find(members, name) == Some(at),
    decreases members.len(),
{
    if at < members.len() - 1 {
        assert(members[members.len() - 1].0 != name);
        find_is(members.drop_last(), name, at);
    }
}

proof fn find_none(members: Seq<(Seq<u8>, ByteRange)>, name: Seq<u8>)
    requires
        forall|k: int| 0 <= k < members.len() ==> (#[trigger] members[k]).0 != name,
    ensures
        find(members, name) is None,
    decreases members.len(),
{
    if members.len() > 0 {
        assert(members[members.len() - 1].0 != name);
        find_none(members.drop_last(), name);
    }
}

/// A repeated member's last value is the one that is found.
pub proof fn last_value_wins(members: Seq<(Seq<u8>, ByteRange)>, name: Seq<u8>, span: ByteRange)
    ensures
        lookup(inserted(members, name, span), name) == Some(span),
        forall|other: Seq<u8>| other != name ==> lookup(inserted(members, name, span), other) == #[trigger] lookup(
            members,
            other,
        ),
{
    find_bounds(members, name);
    let after = inserted(members, name, span);
    match find(members, name) {
        Some(i) => {
            last_of_name(members, name);
            find_is(after, name, i);
            assert forall|other: Seq<u8>| other != name implies lookup(after, other) == #[trigger] lookup(
                members,
                other,
            ) by {
                find_after_update(members, i, (name, span), other);
            }
        },
        None => {
            find_is(after, name, members.len() as int);
            assert forall|other: Seq<u8>| other != name implies lookup(after, other) == #[trigger] lookup(
                members,
                other,
            ) by {
                find_bounds(members, other);
                assert(after.drop_last() =~= members);
            }
        },
    }
}

proof fn last_of_name(members: Seq<(Seq<u8>, ByteRange)>, name: Seq<u8>)
    ensures
        find(members, name) matches Some(i) ==> forall|k: int|
            i < k < members.len() ==> (#[trigger] members[k]).0 != name,
    decreases members.len(),
{
    if members.len() > 0 && members.last().0 != name {
        let t = members.drop_last();
        last_of_name(t, name);
        find_bounds(t, name);
        if let Some(i) = find(t, name) {
            assert forall|k: int| i < k < members.len() implies (#[trigger] members[k]).0 != name by {
                if k < t.len() {
                    assert(t[k] == members[k]);
                }
            }
        }
    }
}

proof fn find_after_update(members: Seq<(Seq<u8>, ByteRange)>, i: int, entry: (Seq<u8>, ByteRange), other: Seq<u8>)
    requires
        0 <= i < members.len(),
        entry.0 == members[i].0,
        other != entry.0,
    ensures
        lookup(members.update(i, entry), other) == lookup(members, other),
        find(members.update(i, entry), other) == find(members, other),
    decreases members.len(),
{
    let after = members.update(i, entry);
    find_bounds(members, other);
    if i == members.len() - 1 {
        assert(after.drop_last() =~= members.drop_last());
        find_bounds(members.drop_last(), other);
    } else {
        assert(after.drop_last() =~= members.drop_last().update(i, entry));
        find_after_update(members.drop_last(), i, entry, other);
        assert(after.last() == members.last());
    }
}

/// Last-wins object members, in order of first appearance.
pub struct Members {
    entries: Vec<Entry>,
}

struct Entry {
    name: Vec<u8>,
    span: ByteRange,
}

impl View for Members {
    type V = Seq<(Seq<u8>, ByteRange)>;

    closed spec fn view(&self) -> Seq<(Seq<u8>, ByteRange)> {
        self.entries@.map_values(|e: Entry| (e.name@, e.span))
    }
}

impl Members {
    /// No member yet.
    pub fn new() -> (r: Members)
        ensures
            r@ == Seq::<(Seq<u8>, ByteRange)>::empty(),
    {
        let r: Members = Members { entries: Vec::new() };
        assert(r@ =~= Seq::empty());
        r
    }

    fn position(&self, name: &[u8]) -> (r: Option<usize>)
        ensures
            match find(self@, name@) {
                Some(i) => r is Some && r->0 == i && i < self.entries@.len(),
                None => r is None,
            },
            self@.len() == self.entries@.len(),
    {
        let mut i: usize = self.entries.len();
        while i > 0
            invariant
                i <= self.entries@.len(),
                self@.len() == self.entries@.len(),
                forall|k: int| i <= k < self@.len() ==> (#[trigger] self@[k]).0 != name@,
            decreases i,
        {
            i = i - 1;
            if same_bytes(self.entries[i].name.as_slice(), name) {
                proof {
                    find_is(self@, name@, i as int);
                }
                return Some(i);
            }
        }
        proof {
            find_none(self@, name@);
        }
        None
    }

    /// Add a member's value; a repeated name replaces its span in place.
    pub fn insert(&mut self, name: Vec<u8>, span: ByteRange)
        ensures
            final(self)@ == inserted(old(self)@, name@, span),
    {
        let ghost before = self@;
        match self.position(name.as_slice()) {
            Some(i) => {
                self.entries.set(i, Entry { name, span });
                assert(self@ =~= before.update(i as int, (name@, span)));
            },
            None => {
                self.entries.push(Entry { name, span });
                assert(self@ =~= before.push((name@, span)));
            },
        }
    }

    /// The span of a member's last value.
    pub fn get(&self, name: &[u8]) -> (r: Option<ByteRange>)
        ensures
            r == lookup(self@, name@),
    {
        match self.position(name) {
            Some(i) => Some(self.entries[i].span),
            None => None,
        }
    }

    /// Number of distinct members.
    pub fn len(&self) -> (r: usize)
        ensures
            r == self@.len(),
    {
        self.entries.len()
    }

    /// Distinct member names, in order of first appearance.
    pub fn keys(&self) -> (r: Vec<String>)
        requires
            forall|i: int| 0 <= i < self@.len() ==> valid_utf8((#[trigger] self@[i]).0),
        ensures
            names_of(r@) == names_in(self@),
    {
        let mut out: Vec<String> = Vec::new();
        let mut i: usize = 0;
        while i < self.entries.len()
            invariant
                i <= self.entries@.len(),
                self@.len() == self.entries@.len(),
                out@.len() == i,
                forall|k: int| 0 <= k < self@.len() ==> valid_utf8((#[trigger] self@[k]).0),
                forall|k: int| 0 <= k < i ==> bytes_of(#[trigger] out@[k]) == self@[k].0,
            decreases self.entries@.len() - i,
        {
            assert(valid_utf8(self@[i as int].0));
            out.push(text_copy(self.entries[i].name.as_slice()));
            i = i + 1;
        }
        assert(names_of(out@) =~= names_in(self@));
        out
    }
}

/// The number source bytes spell under `dialect`.
pub open spec fn source_number(got: Seq<u8>, dialect: Dialect) -> Option<Num> {
    let text = if dialect == Dialect::Json5 {
        normalized(got)
    } else {
        got
    };
    if dialect == Dialect::Json5 && non_finite_of(text) is Some {
        Some(Num::NonFinite(non_finite_of(text)->0))
    } else if is_number(text) {
        Some(Num::Finite(text))
    } else {
        None
    }
}

/// Whether a located string spells `text`.
pub open spec fn string_matches(got: Seq<u8>, text: Seq<u8>, dialect: Dialect) -> bool {
    match plain_end(got, 0) {
        Some(e) => got.subrange(1, e - 1) == text,
        None => got.len() > 0 && (string_text(got, 0, dialect) matches Ok((e, decoded)) && decoded == text),
    }
}

/// `true`.
pub open spec fn true_text() -> Seq<u8> {
    seq![0x74u8, 0x72, 0x75, 0x65]
}

/// `false`.
pub open spec fn false_text() -> Seq<u8> {
    seq![0x66u8, 0x61, 0x6c, 0x73, 0x65]
}

/// `null`.
pub open spec fn null_text() -> Seq<u8> {
    seq![0x6eu8, 0x75, 0x6c, 0x6c]
}

/// Whether located bytes equal a scalar operand. A container operand equals nothing.
pub open spec fn equals_operand(got: Seq<u8>, operand: Json, dialect: Dialect) -> bool {
    match operand {
        Json::Null => got == null_text(),
        Json::Bool(flag) => got == (if flag {
            true_text()
        } else {
            false_text()
        }),
        Json::Number(n) => source_number(got, dialect) matches Some(g) && num_order(g, n) == Some(Order::Equal),
        Json::Str(text) => string_matches(got, text, dialect),
        _ => false,
    }
}

/// The number a boolean operand orders as: `1` or `0`.
pub open spec fn flag_number(flag: bool) -> Num {
    Num::Finite(
        if flag {
            seq![0x31u8]
        } else {
            seq![0x30u8]
        },
    )
}

/// How located bytes order against an operand. A plain integer spelling orders
/// as an integer outside JSON5, leading zeros included.
pub open spec fn operand_order(got: Seq<u8>, operand: Json, dialect: Dialect) -> Option<Order> {
    if dialect != Dialect::Json5 && (operand matches Json::Number(Num::Finite(w)) && plain_int(w) is Some)
        && plain_int(got) is Some {
        Some(order_of(plain_int(got)->0, plain_int(operand->Number_0->Finite_0)->0))
    } else {
        match source_number(got, dialect) {
            None => None,
            Some(g) => match operand {
                Json::Number(n) => num_order(g, n),
                Json::Bool(flag) => num_order(g, flag_number(flag)),
                _ => None,
            },
        }
    }
}

/// Whether an ordering is the one asked for; no ordering never is.
pub open spec fn satisfies(asks: Asks, order: Option<Order>) -> bool {
    match order {
        Some(Order::Greater) => asks == Asks::Gt || asks == Asks::Ge,
        Some(Order::Less) => asks == Asks::Lt || asks == Asks::Le,
        Some(Order::Equal) => asks == Asks::Ge || asks == Asks::Le,
        None => false,
    }
}

/// Source bytes of a span.
pub open spec fn bytes_at(b: Seq<u8>, span: ByteRange) -> Seq<u8> {
    b.subrange(span.start as int, span.end as int)
}

/// Whether a condition holds for an object's members.
pub open spec fn holds(b: Seq<u8>, members: Seq<(Seq<u8>, ByteRange)>, p: PredicateModel, dialect: Dialect) -> bool
    decreases p,
{
    match p {
        PredicateModel::And(x, y) => holds(b, members, *x, dialect) && holds(b, members, *y, dialect),
        PredicateModel::Or(x, y) => holds(b, members, *x, dialect) || holds(b, members, *y, dialect),
        PredicateModel::Not(x) => !holds(b, members, *x, dialect),
        PredicateModel::Eq(field, value) => match lookup(members, field) {
            Some(span) => equals_operand(bytes_at(b, span), value, dialect),
            None => false,
        },
        PredicateModel::Ne(field, value) => match lookup(members, field) {
            Some(span) => !equals_operand(bytes_at(b, span), value, dialect),
            None => true,
        },
        PredicateModel::Order(field, asks, value) => match lookup(members, field) {
            Some(span) => satisfies(asks, operand_order(bytes_at(b, span), value, dialect)),
            None => false,
        },
    }
}

/// The number source bytes spell under `dialect`.
fn parse_src_number(got: &[u8], dialect: Dialect) -> (r: Option<Number>)
    ensures
        match source_number(got@, dialect) {
            Some(n) => r is Some && r->0@ == n,
            None => r is None,
        },
{
    if dialect.json5() {
        let mut text: Vec<u8> = Vec::new();
        normalize_json5_into(got, &mut text);
        if let Some(value) = non_finite_value(text.as_slice()) {
            return Some(Number::NonFinite(value));
        }
        match Number::parse_bytes(text.as_slice()) {
            Ok(n) => Some(n),
            Err(_) => None,
        }
    } else {
        match Number::parse_bytes(got) {
            Ok(n) => Some(n),
            Err(_) => None,
        }
    }
}

/// Whether a located string spells `expect`.
fn string_span_eq(got: &[u8], expect: &[u8], dialect: Dialect) -> (r: bool)
    ensures
        r == string_matches(got@, expect@, dialect),
{
    if let Some(end) = plain_double_quoted(got, 0) {
        return same_bytes(vstd::slice::slice_subrange(got, 1, end - 1), expect);
    }
    if got.len() == 0 {
        return false;
    }
    let mut decoded: Vec<u8> = Vec::new();
    match parse_string_into(got, 0, &mut decoded, dialect) {
        Ok(_) => same_bytes(decoded.as_slice(), expect),
        Err(_) => false,
    }
}

fn span_eq_value(got: &[u8], expect: &Value, dialect: Dialect) -> (r: bool)
    ensures
        r == equals_operand(got@, json(*expect), dialect),
{
    match expect {
        Value::Null => {
            let word: [u8; 4] = [0x6e, 0x75, 0x6c, 0x6c];
            assert(word@ =~= null_text());
            same_bytes(got, &word)
        },
        Value::Bool(true) => {
            let word: [u8; 4] = [0x74, 0x72, 0x75, 0x65];
            assert(word@ =~= true_text());
            same_bytes(got, &word)
        },
        Value::Bool(false) => {
            let word: [u8; 5] = [0x66, 0x61, 0x6c, 0x73, 0x65];
            assert(word@ =~= false_text());
            same_bytes(got, &word)
        },
        Value::Number(n) => match parse_src_number(got, dialect) {
            Some(g) => g.numeric_eq(n),
            None => false,
        },
        Value::Str(text) => string_span_eq(got, text_bytes(text), dialect),
        Value::Array(_) => false,
        Value::Object(_) => false,
    }
}

/// The number a boolean operand orders as.
fn flag_as_number(flag: bool) -> (r: Option<Number>)
    ensures
        r matches Some(n) && n@ == flag_number(flag),
{
    let digit: [u8; 1] = [if flag {
        0x31
    } else {
        0x30
    }];
    proof {
        one_digit_is_number(digit@[0]);
        assert(digit@ =~= seq![digit@[0]]);
    }
    match Number::parse_bytes(&digit) {
        Ok(n) => Some(n),
        Err(_) => None,
    }
}

proof fn one_digit_is_number(d: u8)
    requires
        0x30 <= d <= 0x39,
    ensures
        is_number(seq![d]),
{
    let s = seq![d];
    crate::lex::stop_sets::run_end_is::<crate::lex::stop_sets::Digits>(s, 0, 1);
    assert(crate::lex::stop_sets::run_end::<crate::lex::stop_sets::Digits>(s, 0) == 1);
}

fn order_against(got: &[u8], expect: &Value, dialect: Dialect) -> (r: Option<Order>)
    ensures
        r == operand_order(got@, json(*expect), dialect),
{
    match expect {
        Value::Number(n) => {
            if !dialect.json5() {
                if let Some(text) = n.spelling() {
                    if let (Some(wanted), Some(located)) = (plain_int_bytes(text), plain_int_bytes(got)) {
                        return Some(
                            if located < wanted {
                                Order::Less
                            } else if located == wanted {
                                Order::Equal
                            } else {
                                Order::Greater
                            },
                        );
                    }
                }
            }
            match parse_src_number(got, dialect) {
                Some(g) => g.numeric_order(n),
                None => None,
            }
        },
        Value::Bool(flag) => match parse_src_number(got, dialect) {
            Some(g) => match flag_as_number(*flag) {
                Some(n) => g.numeric_order(&n),
                None => None,
            },
            None => None,
        },
        _ => None,
    }
}

/// Whether an ordering is the one asked for; no ordering never is.
pub fn ordering_holds(asks: Asks, order: Option<Order>) -> (r: bool)
    ensures
        r == satisfies(asks, order),
{
    match order {
        Some(Order::Greater) => asks == Asks::Gt || asks == Asks::Ge,
        Some(Order::Less) => asks == Asks::Lt || asks == Asks::Le,
        Some(Order::Equal) => asks == Asks::Ge || asks == Asks::Le,
        None => false,
    }
}

/// Source bytes of a member's value.
fn member_bytes<'a>(bytes: &'a [u8], members: &Members, field: &String) -> (r: Option<&'a [u8]>)
    requires
        spans_inside(members@, bytes@.len() as int),
    ensures
        match lookup(members@, bytes_of(*field)) {
            Some(span) => r is Some && r->0@ == bytes_at(bytes@, span),
            None => r is None,
        },
{
    proof {
        find_bounds(members@, bytes_of(*field));
    }
    match members.get(text_bytes(field)) {
        Some(span) => Some(vstd::slice::slice_subrange(bytes, span.start, span.end)),
        None => None,
    }
}

fn order_on_members(bytes: &[u8], members: &Members, field: &String, asks: Asks, value: &Value, dialect: Dialect) -> (r:
    bool)
    requires
        spans_inside(members@, bytes@.len() as int),
    ensures
        r == holds(bytes@, members@, PredicateModel::Order(bytes_of(*field), asks, json(*value)), dialect),
{
    match member_bytes(bytes, members, field) {
        Some(got) => ordering_holds(asks, order_against(got, value, dialect)),
        None => false,
    }
}

/// Whether a condition holds for an object's members.
pub fn pred_on_members(bytes: &[u8], members: &Members, predicate: &Predicate, dialect: Dialect) -> (r: bool)
    requires
        spans_inside(members@, bytes@.len() as int),
    ensures
        r == holds(bytes@, members@, predicate_model(*predicate), dialect),
    decreases *predicate,
{
    match predicate {
        Predicate::And(a, b) => pred_on_members(bytes, members, a, dialect) && pred_on_members(
            bytes,
            members,
            b,
            dialect,
        ),
        Predicate::Or(a, b) => pred_on_members(bytes, members, a, dialect) || pred_on_members(
            bytes,
            members,
            b,
            dialect,
        ),
        Predicate::Not(a) => !pred_on_members(bytes, members, a, dialect),
        Predicate::Eq { field, value } => match member_bytes(bytes, members, field) {
            Some(got) => span_eq_value(got, value, dialect),
            None => false,
        },
        Predicate::Ne { field, value } => match member_bytes(bytes, members, field) {
            Some(got) => !span_eq_value(got, value, dialect),
            None => true,
        },
        Predicate::Gt { field, value } => order_on_members(bytes, members, field, Asks::Gt, value, dialect),
        Predicate::Lt { field, value } => order_on_members(bytes, members, field, Asks::Lt, value, dialect),
        Predicate::Ge { field, value } => order_on_members(bytes, members, field, Asks::Ge, value, dialect),
        Predicate::Le { field, value } => order_on_members(bytes, members, field, Asks::Le, value, dialect),
    }
}

/// Whether a name is among others.
pub open spec fn among(names: Seq<Seq<u8>>, name: Seq<u8>) -> bool {
    exists|i: int| 0 <= i < names.len() && #[trigger] names[i] == name
}

/// Whether a condition reads a member.
pub open spec fn reads(p: PredicateModel, name: Seq<u8>) -> bool
    decreases p,
{
    match p {
        PredicateModel::And(x, y) => reads(*x, name) || reads(*y, name),
        PredicateModel::Or(x, y) => reads(*x, name) || reads(*y, name),
        PredicateModel::Not(x) => reads(*x, name),
        PredicateModel::Eq(field, _) => field == name,
        PredicateModel::Ne(field, _) => field == name,
        PredicateModel::Order(field, _, _) => field == name,
    }
}

/// Whether a row demand touches a member.
pub open spec fn touches(d: DemandModel, name: Seq<u8>) -> bool {
    match d {
        DemandModel::Project { path, fields } => path.len() == 0 && among(fields, name),
        DemandModel::Filter { path, predicate, project } => path.len() == 0 && (among(project, name) || reads(
            predicate,
            name,
        )),
        _ => false,
    }
}

/// Whether one of several demands touches a member.
pub open spec fn wanted(hits: Seq<DemandModel>, name: Seq<u8>) -> bool {
    exists|i: int| 0 <= i < hits.len() && touches(#[trigger] hits[i], name)
}

fn names_hold(names: &[String], key: &[u8]) -> (r: bool)
    ensures
        r == among(names_of(names@), key@),
{
    let mut i: usize = 0;
    while i < names.len()
        invariant
            i <= names@.len(),
            forall|k: int| 0 <= k < i ==> #[trigger] names_of(names@)[k] != key@,
        decreases names@.len() - i,
    {
        if same_bytes(text_bytes(&names[i]), key) {
            assert(names_of(names@)[i as int] == key@);
            return true;
        }
        i = i + 1;
    }
    false
}

/// Whether a condition reads a member.
pub fn predicate_has_key(predicate: &Predicate, key: &[u8]) -> (r: bool)
    ensures
        r == reads(predicate_model(*predicate), key@),
    decreases *predicate,
{
    match predicate {
        Predicate::And(a, b) => predicate_has_key(a, key) || predicate_has_key(b, key),
        Predicate::Or(a, b) => predicate_has_key(a, key) || predicate_has_key(b, key),
        Predicate::Not(a) => predicate_has_key(a, key),
        Predicate::Eq { field, value: _ } => same_bytes(text_bytes(field), key),
        Predicate::Ne { field, value: _ } => same_bytes(text_bytes(field), key),
        Predicate::Gt { field, value: _ } => same_bytes(text_bytes(field), key),
        Predicate::Lt { field, value: _ } => same_bytes(text_bytes(field), key),
        Predicate::Ge { field, value: _ } => same_bytes(text_bytes(field), key),
        Predicate::Le { field, value: _ } => same_bytes(text_bytes(field), key),
    }
}

/// Whether a lens touches a member.
fn lens_has_key(lens: Lens<'_>, key: &[u8]) -> (r: bool)
    ensures
        r == touches(lens.model(), key@),
{
    match lens {
        Lens::Project { path, fields } => path.len() == 0 && names_hold(fields, key),
        Lens::Filter { path, predicate, project } => path.len() == 0 && (names_hold(project, key) || predicate_has_key(
            predicate,
            key,
        )),
        _ => false,
    }
}

/// Whether one of several lenses touches a member.
pub fn wants_member(hits: &[Lens<'_>], key: &[u8]) -> (r: bool)
    ensures
        r == wanted(lenses_model(hits@), key@),
{
    let mut i: usize = 0;
    while i < hits.len()
        invariant
            i <= hits@.len(),
            forall|k: int| 0 <= k < i ==> !touches(#[trigger] lenses_model(hits@)[k], key@),
        decreases hits@.len() - i,
    {
        if lens_has_key(hits[i], key) {
            assert(touches(lenses_model(hits@)[i as int], key@));
            return true;
        }
        i = i + 1;
    }
    false
}

/// The cells of one projected row.
pub open spec fn projected_cells(fields: Seq<Seq<u8>>, members: Seq<(Seq<u8>, ByteRange)>) -> Seq<ColumnCell> {
    fields.map_values(
        |name: Seq<u8>|
            match lookup(members, name) {
                Some(span) => ColumnCell::Span(span),
                None => ColumnCell::Absent,
            },
    )
}

/// The cells an object contributes to a flat row demand.
pub open spec fn object_cells(
    b: Seq<u8>,
    d: DemandModel,
    members: Seq<(Seq<u8>, ByteRange)>,
    object: ByteRange,
    dialect: Dialect,
) -> Seq<ColumnCell> {
    match d {
        DemandModel::Project { path, fields } => projected_cells(fields, members),
        DemandModel::Filter { path, predicate, project } => if holds(b, members, predicate, dialect) {
            if project.len() == 0 {
                seq![ColumnCell::Span(object)]
            } else {
                projected_cells(project, members)
            }
        } else {
            Seq::empty()
        },
        _ => Seq::empty(),
    }
}

/// Append one projected row.
fn push_project_row(acc: &mut Batch, fields: &[String], members: &Members)
    ensures
        final(acc)@.fields == old(acc)@.fields,
        final(acc)@.cells == old(acc)@.cells + projected_cells(names_of(fields@), members@),
{
    let ghost before = acc@;
    let ghost row = projected_cells(names_of(fields@), members@);
    let mut i: usize = 0;
    assert(before.cells + row.take(0) =~= before.cells);
    while i < fields.len()
        invariant
            i <= fields@.len(),
            row == projected_cells(names_of(fields@), members@),
            acc@.fields == before.fields,
            acc@.cells == before.cells + row.take(i as int),
        decreases fields@.len() - i,
    {
        match members.get(text_bytes(&fields[i])) {
            Some(span) => acc.push(ColumnCell::Span(span)),
            None => acc.push(ColumnCell::Absent),
        }
        i = i + 1;
        assert(acc@.cells =~= before.cells + row.take(i as int)) by {
            assert(row.take(i as int) =~= row.take(i - 1).push(row[i - 1]));
        }
    }
    assert(row.take(i as int) =~= row);
}

/// Append the row an object contributes to a flat row lens.
pub fn apply_object_row(acc: &mut Batch, lens: Lens<'_>, members: &Members, bytes: &[u8], object: ByteRange, dialect: Dialect)
    requires
        spans_inside(members@, bytes@.len() as int),
    ensures
        final(acc)@.fields == old(acc)@.fields,
        final(acc)@.cells == old(acc)@.cells + object_cells(bytes@, lens.model(), members@, object, dialect),
{
    assert(acc@.cells + Seq::<ColumnCell>::empty() =~= acc@.cells);
    match lens {
        Lens::Project { path: _, fields } => push_project_row(acc, fields, members),
        Lens::Filter { path: _, predicate, project } => {
            if pred_on_members(bytes, members, predicate, dialect) {
                if project.len() == 0 {
                    acc.push(ColumnCell::Span(object));
                } else {
                    push_project_row(acc, project, members);
                }
            }
        },
        _ => {},
    }
}

} // verus!
