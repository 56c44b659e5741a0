//! What an oracle answers of a text is what the parsed value shows.

use vstd::prelude::*;

use crate::answer::{answer_of, answers_of, AnswerModel};
use crate::ascii::{LBRACE, LBRACKET, RBRACE, RBRACKET};
use crate::demand::{flattened, DemandModel, OracleModel, StepModel, Strictness};
use crate::dialect::Dialect;
use crate::edit::members::ContainerKind;
use crate::error::Error;
use crate::framing::text_start;
use crate::laws::assign::text_facts;
use crate::laws::forms::{no_room, unbounded};
use crate::laws::local::{items_unfold, members_unfold};
use crate::laws::locate::valid_value_is_located;
use crate::laws::members::{elements_are_counted, located, located_are_read, lookup_finds_the_member, members_are_located, spans_read};
use crate::laws::parse::{key_agrees, parse_agrees_with_strict_skip, strict_ctx};
use crate::laws::paths::{position_of, spot, text_value, tree_at};
use crate::laws::replace::opens_as;
use crate::laws::shallow::{all_members, first_word, kind_tells, said};
use crate::laws::slots::{element_values, found_container_is_laid, Slot};
use crate::laws::walks::{a_kind, a_node, node_step};
use crate::lex::skip::{items, members, next_at, value, Check, Ctx, NextAt, MAX_NESTING};
use crate::lex::ws::{trivia_end, trivia_end_bounds, trivia_end_here};
use crate::scan::{any_filters_container, asked_facts, filters_container, fuses, root_env, scanned, Ask, JsonInput};
use crate::tape::{built, built_items, built_key, built_members, built_scalar, key_position, merged};
use crate::value::{kind_of, ByteRange, Json, ValueKind};
use crate::walk::marks::MarkModel;
use crate::walk::member::names_in;
use crate::walk::model::{enters, flat, kind_at, needs_container, node, only_located, oracle_mark, oracles, WalkCtx, Walked};

verus! {

/// Number of nodes of a value: itself, and the nodes of its elements or member values.
pub open spec fn nodes(j: Json) -> nat
    decreases j, 1nat, 0nat,
{
    match j {
        Json::Array(items) => 1 + item_nodes(j, items.len()),
        Json::Object(members) => 1 + member_nodes(j, members.len()),
        _ => 1,
    }
}

/// Number of nodes of the first `n` elements of an array.
pub open spec fn item_nodes(j: Json, n: nat) -> nat
    recommends
        j is Array,
        n <= j->Array_0.len(),
    decreases j, 0nat, n,
{
    if n == 0 || !(j is Array) || n > j->Array_0.len() {
        0
    } else {
        item_nodes(j, (n - 1) as nat) + nodes(j->Array_0[n - 1])
    }
}

/// Number of nodes of the first `n` member values of an object.
pub open spec fn member_nodes(j: Json, n: nat) -> nat
    recommends
        j is Object,
        n <= j->Object_0.len(),
    decreases j, 0nat, n,
{
    if n == 0 || !(j is Object) || n > j->Object_0.len() {
        0
    } else {
        member_nodes(j, (n - 1) as nat) + nodes(j->Object_0[n - 1].1)
    }
}

/// Whether no object in the value at `pos` writes a name twice.
pub open spec fn names_once(b: Seq<u8>, pos: int, dialect: Dialect, depth: int) -> bool
    decreases b.len() - pos, 0nat,
{
    if 0 <= pos < b.len() && b[pos] == LBRACKET {
        names_once_in_items(b, pos + 1, dialect, depth + 1, true)
    } else if 0 <= pos < b.len() && b[pos] == LBRACE {
        names_once_in_members(b, pos + 1, dialect, depth + 1, Seq::empty())
    } else {
        true
    }
}

/// Whether no object in the elements from `pos` on writes a name twice.
pub open spec fn names_once_in_items(b: Seq<u8>, pos: int, dialect: Dialect, depth: int, first: bool) -> bool
    decreases b.len() - pos, 1nat,
{
    match next_at(b, pos, dialect, RBRACKET, first) {
        Ok(NextAt::Item(p)) => match built(b, p, unbounded(dialect), no_room(), depth) {
            Ok((e, _, _)) => if pos <= p < e <= b.len() {
                names_once(b, p, dialect, depth) && names_once_in_items(b, e, dialect, depth, false)
            } else {
                true
            },
            Err(_) => true,
        },
        _ => true,
    }
}

/// Whether the members from `pos` on write no name twice nor one already seen, and no
/// object in their values does.
pub open spec fn names_once_in_members(b: Seq<u8>, pos: int, dialect: Dialect, depth: int, seen: Seq<Seq<u8>>) -> bool
    decreases b.len() - pos, 1nat,
{
    match next_at(b, pos, dialect, RBRACE, seen.len() == 0) {
        Ok(NextAt::Item(p)) => match built_key(b, p, unbounded(dialect), no_room()) {
            Ok((v, name, _)) => match built(b, v, unbounded(dialect), no_room(), depth) {
                Ok((e, _, _)) => if pos < v < e <= b.len() {
                    !seen.contains(name) && names_once(b, v, dialect, depth) && names_once_in_members(
                        b,
                        e,
                        dialect,
                        depth,
                        seen.push(name),
                    )
                } else {
                    true
                },
                Err(_) => true,
            },
            Err(_) => true,
        },
        _ => true,
    }
}

proof fn same_first_items(a: Seq<Json>, c: Seq<Json>, n: nat)
    requires
        n <= a.len(),
        n <= c.len(),
        forall|i: int| 0 <= i < n ==> #[trigger] a[i] == c[i],
    ensures
        item_nodes(Json::Array(a), n) == item_nodes(Json::Array(c), n),
    decreases n,
{
    if n > 0 {
        same_first_items(a, c, (n - 1) as nat);
        assert(a[n - 1] == c[n - 1]);
    }
}

proof fn one_item_more(a: Seq<Json>, x: Json)
    ensures
        item_nodes(Json::Array(a.push(x)), a.len() + 1) == item_nodes(Json::Array(a), a.len()) + nodes(x),
{
    same_first_items(a.push(x), a, a.len());
}

proof fn same_first_members(a: Seq<(Seq<u8>, Json)>, c: Seq<(Seq<u8>, Json)>, n: nat)
    requires
        n <= a.len(),
        n <= c.len(),
        forall|i: int| 0 <= i < n ==> #[trigger] a[i] == c[i],
    ensures
        member_nodes(Json::Object(a), n) == member_nodes(Json::Object(c), n),
    decreases n,
{
    if n > 0 {
        same_first_members(a, c, (n - 1) as nat);
        assert(a[n - 1] == c[n - 1]);
    }
}

proof fn one_member_more(a: Seq<(Seq<u8>, Json)>, x: (Seq<u8>, Json))
    ensures
        member_nodes(Json::Object(a.push(x)), a.len() + 1) == member_nodes(Json::Object(a), a.len()) + nodes(x.1),
{
    same_first_members(a.push(x), a, a.len());
}

proof fn one_member_other(a: Seq<(Seq<u8>, Json)>, k: int, x: (Seq<u8>, Json), n: nat)
    requires
        0 <= k < a.len(),
        n <= a.len(),
    ensures
        member_nodes(Json::Object(a.update(k, x)), n) <= member_nodes(Json::Object(a), n) + nodes(x.1),
        n <= k ==> member_nodes(Json::Object(a.update(k, x)), n) == member_nodes(Json::Object(a), n),
    decreases n,
{
    if n > 0 {
        one_member_other(a, k, x, (n - 1) as nat);
    }
}

/// A skip counts the nodes of the value that is read, and those of values that a repeated
/// name replaced.
proof fn value_nodes(b: Seq<u8>, pos: int, dialect: Dialect, depth: int)
    requires
        0 <= pos <= b.len(),
        built(b, pos, unbounded(dialect), no_room(), depth) is Ok,
    ensures
        ({
            let j = built(b, pos, unbounded(dialect), no_room(), depth)->Ok_0.1;
            value(b, pos, strict_ctx(dialect), depth) matches Ok((_, n)) && nodes(j) <= n && (names_once(b, pos, dialect, depth)
                ==> nodes(j) == n)
        }),
    decreases b.len() - pos, 0nat,
{
    parse_agrees_with_strict_skip(b, pos, dialect, depth);
    opens_as(b, pos, dialect, depth);
    let j = built(b, pos, unbounded(dialect), no_room(), depth)->Ok_0.1;
    if b[pos] == LBRACKET {
        items_nodes(b, pos + 1, dialect, depth + 1, Seq::empty());
        assert(item_nodes(Json::Array(Seq::empty()), 0) == 0);
    } else if b[pos] == LBRACE {
        members_nodes(b, pos + 1, dialect, depth + 1, Seq::empty(), Seq::empty());
        assert(member_nodes(Json::Object(Seq::empty()), 0) == 0);
    } else {
        reveal(built_scalar);
    }
}

proof fn items_nodes(b: Seq<u8>, pos: int, dialect: Dialect, depth: int, done: Seq<Json>)
    requires
        0 <= pos <= b.len(),
        built_items(b, pos, unbounded(dialect), no_room(), depth, done) is Ok,
    ensures
        ({
            let all = built_items(b, pos, unbounded(dialect), no_room(), depth, done)->Ok_0.1;
            let sum = item_nodes(Json::Array(all), all.len());
            let before = item_nodes(Json::Array(done), done.len());
            items(b, pos, strict_ctx(dialect), depth, done.len() == 0) matches Ok((_, n)) && sum <= before + n && (
            names_once_in_items(b, pos, dialect, depth, done.len() == 0) ==> sum == before + n)
        }),
    decreases b.len() - pos, 1nat,
{
    items_unfold(b, pos, dialect, depth, done);
    if let Ok(NextAt::Item(p)) = next_at(b, pos, dialect, RBRACKET, done.len() == 0) {
        let (m, item, _) = built(b, p, unbounded(dialect), no_room(), depth)->Ok_0;
        parse_agrees_with_strict_skip(b, p, dialect, depth);
        value_nodes(b, p, dialect, depth);
        items_nodes(b, m, dialect, depth, done.push(item));
        one_item_more(done, item);
    }
}

proof fn members_nodes(b: Seq<u8>, pos: int, dialect: Dialect, depth: int, done: Seq<(Seq<u8>, Json)>, seen: Seq<Seq<u8>>)
    requires
        0 <= pos <= b.len(),
        built_members(b, pos, unbounded(dialect), no_room(), depth, done) is Ok,
        (seen.len() == 0) == (done.len() == 0),
        forall|i: int| 0 <= i < done.len() ==> seen.contains((#[trigger] done[i]).0),
    ensures
        ({
            let all = built_members(b, pos, unbounded(dialect), no_room(), depth, done)->Ok_0.1;
            let sum = member_nodes(Json::Object(all), all.len());
            let before = member_nodes(Json::Object(done), done.len());
            members(b, pos, strict_ctx(dialect), depth, done.len() == 0) matches Ok((_, n)) && sum <= before + n && (
            names_once_in_members(b, pos, dialect, depth, seen) ==> sum == before + n)
        }),
    decreases b.len() - pos, 1nat,
{
    members_unfold(b, pos, dialect, depth, done);
    if let Ok(NextAt::Item(p)) = next_at(b, pos, dialect, RBRACE, done.len() == 0) {
        let (v, name, _) = built_key(b, p, unbounded(dialect), no_room())->Ok_0;
        let (m, x, _) = built(b, v, unbounded(dialect), no_room(), depth)->Ok_0;
        key_agrees(b, p, dialect);
        parse_agrees_with_strict_skip(b, v, dialect, depth);
        value_nodes(b, v, dialect, depth);
        let more = merged(done, name, x);
        let wider = seen.push(name);
        position_of(done, name, 0);
        let k = key_position(done, name, 0);
        assert(wider[seen.len() as int] == name);
        assert forall|i: int| 0 <= i < more.len() implies wider.contains((#[trigger] more[i]).0) by {
            if i < done.len() && i != k {
                assert(more[i] == done[i]);
                let w = choose|w: int| 0 <= w < seen.len() && seen[w] == done[i].0;
                assert(wider[w] == done[i].0);
            }
        }
        members_nodes(b, m, dialect, depth, more, wider);
        if k < done.len() {
            one_member_other(done, k, (name, x), done.len());
            assert(seen.contains(done[k].0));
        } else {
            one_member_more(done, (name, x));
        }
    }
}

/// The first byte of a value tells its kind.
pub(crate) proof fn kind_is_read(b: Seq<u8>, pos: int, dialect: Dialect, depth: int)
    requires
        0 <= pos < b.len(),
        built(b, pos, unbounded(dialect), no_room(), depth) is Ok,
    ensures
        kind_at(b[pos], dialect) == Some(kind_of(built(b, pos, unbounded(dialect), no_room(), depth)->Ok_0.1)),
{
    reveal(built_scalar);
}

/// The walk that answers a scan of a text.
pub(crate) proof fn text_is_walked(b: Seq<u8>, ask: Ask, j: Json) -> (w: Walked)
    requires
        ask.input == JsonInput::Text,
        ask.demands.len() > 0,
        text_value(b, ask.ctx.dialect) == Ok::<Json, Error>(j),
        scanned(b, ask) is Ok,
    ensures
        ({
            let pos = trivia_end(b, text_start(b), ask.ctx.dialect)->Ok_0;
            &&& 0 <= pos < b.len()
            &&& spot(b, pos, ask.ctx.dialect, 0, Seq::empty()) == Some(pos)
            &&& tree_at(j, Seq::empty()) == Some(j)
            &&& kind_at(b[pos], ask.ctx.dialect) == Some(kind_of(j))
            &&& a_kind(b, pos, kind_of(j), flat(ask.demands), ask.ctx, 0, root_env(ask)) == Ok::<Walked, Error>(w)
            &&& scanned(b, ask)->Ok_0.0 == answers_of(
                b,
                w.marks,
                ask.ctx.strictness == Strictness::Strict,
                ask.ctx.dialect,
                asked_facts(b, ask),
                fuses(ask),
            )
        }),
{
    let ctx = ask.ctx;
    let from = text_start(b);
    trivia_end_bounds(b, from, ctx.dialect);
    text_facts(b, ctx.dialect);
    let pos = trivia_end(b, from, ctx.dialect)->Ok_0;
    trivia_end_here(b, pos, ctx.dialect);
    kind_is_read(b, pos, ctx.dialect, 0);
    reveal(a_node);
    node_step(b, pos, ask.demands, ctx, 0, root_env(ask));
    a_node(b, pos, ask.demands, ctx, 0, root_env(ask))->Ok_0
}

/// What a scan of a text answers an oracle.
proof fn oracle_is_said(b: Seq<u8>, ask: Ask, i: int, o: OracleModel, j: Json)
    requires
        ask.input == JsonInput::Text,
        text_value(b, ask.ctx.dialect) == Ok::<Json, Error>(j),
        scanned(b, ask) is Ok,
        0 <= i < ask.demands.len(),
        flattened(ask.demands[i]) == DemandModel::Oracle(o),
    ensures
        ({
            let pos = trivia_end(b, text_start(b), ask.ctx.dialect)->Ok_0;
            &&& 0 <= pos < b.len()
            &&& spot(b, pos, ask.ctx.dialect, 0, Seq::empty()) == Some(pos)
            &&& tree_at(j, Seq::empty()) == Some(j)
            &&& scanned(b, ask)->Ok_0.0.len() == ask.demands.len()
            &&& scanned(b, ask)->Ok_0.0[i] == answer_of(
                b,
                oracle_said(b, pos, kind_of(j), o, ask.ctx),
                ask.ctx.strictness == Strictness::Strict,
                ask.ctx.dialect,
                asked_facts(b, ask),
                fuses(ask),
            )
        }),
{
    let w = text_is_walked(b, ask, j);
    let pos = trivia_end(b, text_start(b), ask.ctx.dialect)->Ok_0;
    let hits = flat(ask.demands);
    assert(hits[i] == DemandModel::Oracle(o));
    kind_tells(b, pos, kind_of(j), hits, i, ask.ctx, 0, root_env(ask));
    words_of_oracles(b, pos, kind_of(j), o, w.end, ask.ctx);
}

/// What is said of an oracle, which no end of the value enters.
pub(crate) open spec fn oracle_said(b: Seq<u8>, pos: int, kind: ValueKind, o: OracleModel, ctx: WalkCtx) -> MarkModel {
    let h = DemandModel::Oracle(o);
    said(b, pos, kind, h, first_word(b, pos, kind, h, false, ctx, 0), pos, ctx)
}

proof fn words_of_oracles(b: Seq<u8>, pos: int, kind: ValueKind, o: OracleModel, e: int, ctx: WalkCtx)
    ensures
        said(b, pos, kind, DemandModel::Oracle(o), first_word(b, pos, kind, DemandModel::Oracle(o), false, ctx, 0), e, ctx) == oracle_said(
            b,
            pos,
            kind,
            o,
            ctx,
        ),
{
}

/// The descendant count of a text is the number of nodes of its value, where no object
/// writes a name twice; values that a repeated name replaced are counted besides.
pub proof fn descendant_count_is_the_number_of_nodes(b: Seq<u8>, ask: Ask, i: int, j: Json)
    requires
        ask.input == JsonInput::Text,
        ask.ctx.max == MAX_NESTING,
        text_value(b, ask.ctx.dialect) == Ok::<Json, Error>(j),
        scanned(b, ask) is Ok,
        0 <= i < ask.demands.len(),
        flattened(ask.demands[i]) == DemandModel::Oracle(OracleModel::DescendCount),
    ensures
        scanned(b, ask)->Ok_0.0[i] matches AnswerModel::Count(n) && nodes(j) <= n && (names_once(
            b,
            trivia_end(b, text_start(b), ask.ctx.dialect)->Ok_0,
            ask.ctx.dialect,
            0,
        ) ==> n == nodes(j)),
{
    let ctx = ask.ctx;
    oracle_is_said(b, ask, i, OracleModel::DescendCount, j);
    text_facts(b, ctx.dialect);
    let pos = trivia_end(b, text_start(b), ctx.dialect)->Ok_0;
    value_nodes(b, pos, ctx.dialect, 0);
    valid_value_is_located(b, pos, MAX_NESTING, ctx.dialect, 0);
    reveal(oracle_mark);
    assert(ctx.under(Check::Values) == strict_ctx(ctx.dialect));
    assert(ctx.under(Check::Locate) == (Ctx { check: Check::Locate, max: MAX_NESTING, dialect: ctx.dialect }));
}

/// The kind of a text is the kind of its value.
pub proof fn kind_is_that_of_the_value(b: Seq<u8>, ask: Ask, i: int, j: Json)
    requires
        ask.input == JsonInput::Text,
        text_value(b, ask.ctx.dialect) == Ok::<Json, Error>(j),
        scanned(b, ask) is Ok,
        0 <= i < ask.demands.len(),
        flattened(ask.demands[i]) == DemandModel::Oracle(OracleModel::Kind),
    ensures
        scanned(b, ask)->Ok_0.0[i] == AnswerModel::Kind(
            match j {
                Json::Null => ValueKind::Null,
                Json::Bool(_) => ValueKind::Bool,
                Json::Number(_) => ValueKind::Number,
                Json::Str(_) => ValueKind::String,
                Json::Array(_) => ValueKind::Array,
                Json::Object(_) => ValueKind::Object,
            },
        ),
{
    oracle_is_said(b, ask, i, OracleModel::Kind, j);
    reveal(oracle_mark);
}

/// The byte length of a text that is a string is the length of the string that it
/// decodes to; nothing else has one.
pub proof fn string_length_is_that_of_the_value(b: Seq<u8>, ask: Ask, i: int, j: Json)
    requires
        ask.input == JsonInput::Text,
        text_value(b, ask.ctx.dialect) == Ok::<Json, Error>(j),
        scanned(b, ask) is Ok,
        0 <= i < ask.demands.len(),
        flattened(ask.demands[i]) == DemandModel::Oracle(OracleModel::StringByteLength),
    ensures
        scanned(b, ask)->Ok_0.0[i] == (match j {
            Json::Str(text) => AnswerModel::Length(text.len() as int),
            _ => AnswerModel::Mismatch(kind_of(j)),
        }),
{
    oracle_is_said(b, ask, i, OracleModel::StringByteLength, j);
    text_facts(b, ask.ctx.dialect);
    reveal(oracle_mark);
    reveal(built_scalar);
}

/// The members that a scan keeps of a text that is an object, against those of its value.
proof fn object_members(b: Seq<u8>, ctx: WalkCtx, j: Json, read: Seq<(Seq<u8>, Json)>) -> (spans: Seq<(Seq<u8>, ByteRange)>)
    requires
        b.len() <= usize::MAX,
        ctx.max == MAX_NESTING,
        text_value(b, ctx.dialect) == Ok::<Json, Error>(j),
        j == Json::Object(read),
    ensures
        spans == all_members(b, trivia_end(b, text_start(b), ctx.dialect)->Ok_0 + 1, ctx, true, Seq::empty()),
        spans_read(b, spans, read, ctx.dialect, 1),
{
    let pos = trivia_end(b, text_start(b), ctx.dialect)->Ok_0;
    let none = Seq::<StepModel>::empty();
    let slots = found_container_is_laid(b, ctx.dialect, none, j, ContainerKind::Object, pos);
    let close = built(b, pos, unbounded(ctx.dialect), no_room(), 0)->Ok_0.0;
    members_are_located(b, pos, close, slots, ctx, 1, 0);
    assert(slots.take(0) =~= Seq::<Slot>::empty());
    assert(located(slots.take(0)) =~= Seq::<(Seq<u8>, ByteRange)>::empty());
    located_are_read(b, slots, ctx.dialect, 1);
    located(slots)
}

/// The count of a text that is an array is its number of elements, that of one that is an
/// object its number of members; nothing else has one.
pub proof fn count_is_the_number_of_children(b: Seq<u8>, ask: Ask, i: int, j: Json)
    requires
        b.len() <= usize::MAX,
        ask.input == JsonInput::Text,
        ask.ctx.max == MAX_NESTING,
        text_value(b, ask.ctx.dialect) == Ok::<Json, Error>(j),
        scanned(b, ask) is Ok,
        0 <= i < ask.demands.len(),
        flattened(ask.demands[i]) == DemandModel::Oracle(OracleModel::Count),
    ensures
        scanned(b, ask)->Ok_0.0[i] == (match j {
            Json::Array(items) => AnswerModel::Count(items.len() as int),
            Json::Object(read) => AnswerModel::Count(read.len() as int),
            _ => AnswerModel::Mismatch(kind_of(j)),
        }),
{
    let ctx = ask.ctx;
    oracle_is_said(b, ask, i, OracleModel::Count, j);
    let pos = trivia_end(b, text_start(b), ctx.dialect)->Ok_0;
    match j {
        Json::Array(items) => {
            let none = Seq::<StepModel>::empty();
            let slots = found_container_is_laid(b, ctx.dialect, none, j, ContainerKind::Array, pos);
            let close = built(b, pos, unbounded(ctx.dialect), no_room(), 0)->Ok_0.0;
            elements_are_counted(b, pos, close, slots, ctx, 1, 0);
            assert(element_values(slots).len() == slots.len());
        },
        Json::Object(read) => {
            let spans = object_members(b, ctx, j, read);
        },
        _ => {
            reveal(oracle_mark);
        },
    }
}

/// The names of a text that is an object are those of its members, in order; nothing else
/// has any.
pub proof fn names_are_those_of_the_members(b: Seq<u8>, ask: Ask, i: int, j: Json)
    requires
        b.len() <= usize::MAX,
        ask.input == JsonInput::Text,
        ask.ctx.max == MAX_NESTING,
        text_value(b, ask.ctx.dialect) == Ok::<Json, Error>(j),
        scanned(b, ask) is Ok,
        0 <= i < ask.demands.len(),
        flattened(ask.demands[i]) == DemandModel::Oracle(OracleModel::MemberNames),
    ensures
        scanned(b, ask)->Ok_0.0[i] == (match j {
            Json::Object(read) => AnswerModel::Names(Seq::new(read.len(), |k: int| read[k].0)),
            _ => AnswerModel::Mismatch(kind_of(j)),
        }),
{
    oracle_is_said(b, ask, i, OracleModel::MemberNames, j);
    reveal(oracle_mark);
    if let Json::Object(read) = j {
        let spans = object_members(b, ask.ctx, j, read);
        assert(names_in(spans) =~= Seq::new(read.len(), |k: int| read[k].0)) by {
            assert forall|k: int| 0 <= k < spans.len() implies names_in(spans)[k] == (#[trigger] read[k]).0 by {
                assert(spans[k].0 == read[k].0);
            }
        }
    }
}

/// The member count of a text that is an object is its number of members; nothing else has
/// one.
pub proof fn member_count_is_the_number_of_members(b: Seq<u8>, ask: Ask, i: int, j: Json)
    requires
        b.len() <= usize::MAX,
        ask.input == JsonInput::Text,
        ask.ctx.max == MAX_NESTING,
        text_value(b, ask.ctx.dialect) == Ok::<Json, Error>(j),
        scanned(b, ask) is Ok,
        0 <= i < ask.demands.len(),
        flattened(ask.demands[i]) == DemandModel::Oracle(OracleModel::MemberCount),
    ensures
        scanned(b, ask)->Ok_0.0[i] == (match j {
            Json::Object(read) => AnswerModel::Count(read.len() as int),
            _ => AnswerModel::Mismatch(kind_of(j)),
        }),
{
    oracle_is_said(b, ask, i, OracleModel::MemberCount, j);
    reveal(oracle_mark);
    if let Json::Object(read) = j {
        let spans = object_members(b, ask.ctx, j, read);
    }
}

/// A text that is an object has a key exactly when one of its members has that name;
/// nothing else can be asked.
pub proof fn key_is_there_when_a_member_has_it(b: Seq<u8>, ask: Ask, i: int, name: Seq<u8>, j: Json)
    requires
        b.len() <= usize::MAX,
        ask.input == JsonInput::Text,
        ask.ctx.max == MAX_NESTING,
        text_value(b, ask.ctx.dialect) == Ok::<Json, Error>(j),
        scanned(b, ask) is Ok,
        0 <= i < ask.demands.len(),
        flattened(ask.demands[i]) == DemandModel::Oracle(OracleModel::HasKey(name)),
    ensures
        scanned(b, ask)->Ok_0.0[i] == (match j {
            Json::Object(read) => AnswerModel::HasKey(
                exists|k: int| 0 <= k < read.len() && (#[trigger] read[k]).0 == name,
            ),
            _ => AnswerModel::Mismatch(kind_of(j)),
        }),
{
    oracle_is_said(b, ask, i, OracleModel::HasKey(name), j);
    reveal(oracle_mark);
    if let Json::Object(read) = j {
        let spans = object_members(b, ask.ctx, j, read);
        lookup_finds_the_member(b, spans, read, ask.ctx.dialect, 1, name);
    }
}

/// Whether an oracle is answered without a look at the members of an object.
pub open spec fn asks_above(o: OracleModel) -> bool {
    o is Kind || o is DescendCount || o is StringByteLength
}

/// A scan for nothing but the kind, the descendant count or the string length of a text
/// that reads is answered.
pub proof fn lone_oracle_is_answered(b: Seq<u8>, like: Ask, o: OracleModel, j: Json)
    requires
        like.input == JsonInput::Text,
        like.ctx.max == MAX_NESTING,
        text_value(b, like.ctx.dialect) == Ok::<Json, Error>(j),
        asks_above(o),
    ensures
        scanned(b, Ask { demands: seq![DemandModel::Oracle(o)], ..like }) is Ok,
{
    let ask = Ask { demands: seq![DemandModel::Oracle(o)], ..like };
    let ctx = like.ctx;
    let dialect = ctx.dialect;
    let hits = seq![DemandModel::Oracle(o)];
    text_facts(b, dialect);
    let pos = trivia_end(b, text_start(b), dialect)->Ok_0;
    let e = built(b, pos, unbounded(dialect), no_room(), 0)->Ok_0.0;
    trivia_end_bounds(b, text_start(b), dialect);
    trivia_end_here(b, pos, dialect);
    kind_is_read(b, pos, dialect, 0);
    let kind = kind_of(j);
    parse_agrees_with_strict_skip(b, pos, dialect, 0);
    valid_value_is_located(b, pos, MAX_NESTING, dialect, 0);
    assert(ctx.under(Check::Values) == strict_ctx(dialect));
    assert(ctx.under(Check::Locate) == (Ctx { check: Check::Locate, max: MAX_NESTING, dialect }));
    lone_oracle_marks(b, pos, kind, o, ctx, j, e);
    assert(flat(hits) =~= hits);
    assert(!enters(hits, kind)) by {
        if enters(hits, kind) {
            let q = choose|q: int|
                0 <= q < hits.len() && (needs_container(#[trigger] hits[q]) || (kind == ValueKind::Object && hits[q] == DemandModel::Oracle(
                    OracleModel::Count,
                )));
            assert(hits[q] == DemandModel::Oracle(o));
        }
    }
    assert(only_located(hits));
    reveal(crate::walk::model::located);
    assert(!any_filters_container(ask.demands)) by {
        assert forall|q: int| 0 <= q < ask.demands.len() implies !filters_container(#[trigger] ask.demands[q]) by {
            assert(ask.demands[q] == DemandModel::Oracle(o));
        }
    }
    reveal(a_node);
    reveal(a_kind);
    node_step(b, pos, ask.demands, ctx, 0, root_env(ask));
    let w = node(b, pos, ask.demands, ctx, 0, root_env(ask));
    assert(w is Ok && w->Ok_0.end == e && !w->Ok_0.stopped);
}

proof fn lone_oracle_marks(b: Seq<u8>, pos: int, kind: ValueKind, o: OracleModel, ctx: WalkCtx, j: Json, e: int)
    requires
        asks_above(o),
        0 <= pos < b.len(),
        built(b, pos, unbounded(ctx.dialect), no_room(), 0) matches Ok((m, x, _)) && m == e && x == j,
        kind == kind_of(j),
        value(b, pos, ctx.under(Check::Values), 0) matches Ok((m, _)) && m == e,
        value(b, pos, ctx.under(Check::Locate), 0) matches Ok((m, _)) && m == e,
    ensures
        oracles(b, pos, kind, seq![DemandModel::Oracle(o)], 1, false, ctx, 0) matches Ok((_, r)) && (r == pos || r == e),
{
    let hits = seq![DemandModel::Oracle(o)];
    reveal(oracle_mark);
    reveal_with_fuel(oracles, 2);
    if kind == ValueKind::String {
        reveal(built_scalar);
    }
}

} // verus!
