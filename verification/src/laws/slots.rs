//! The members and elements of a container as they lie in the text.

use vstd::prelude::*;

use crate::ascii::{COMMA, LBRACE, LBRACKET, RBRACE, RBRACKET, SLASH};
use crate::demand::StepModel;
use crate::dialect::Dialect;
use crate::edit::members::{ContainerKind, inline_end, line_blanks_end, member_at, members_from, MemberModel};
use crate::error::Error;
use crate::laws::forms::{no_room, unbounded};
use crate::laws::local::{built_key_is, items_unfold, key_of, led_to, members_unfold, merged_is_not_empty, value_start};
use crate::laws::parse::{parse_agrees_with_strict_skip, strict_ctx};
use crate::framing::text_start;
use crate::laws::assign::{place_facts, text_facts};
use crate::laws::paths::{member_starts, read_at_lower_depth, spot, text_value, tree_at};
use crate::laws::replace::{next_is_a_boundary, opens_as, spot_reads};
use crate::laws::round_trip::{item_step, member_step};
use crate::lex::skip::{next_at, next_at_bounds, Check, Ctx, NextAt, MAX_NESTING};
use crate::lex::stop_sets::{is_space, run_end_is, StopSet, Ws};
use crate::lex::ws::{comment_end_bounds, token_end, trivia_end, trivia_end_bounds, trivia_end_here};
use crate::lex::key_text;
use crate::tape::{built, built_items, built_key, built_members, merged, Room};
use crate::value::Json;

verus! {

/// A member of an object or an element of an array, where it lies in the text.
pub struct Slot {
    /// Where the key of a member starts, or the element.
    pub at: int,
    /// Where the value starts.
    pub value: int,
    /// Past the value.
    pub end: int,
    /// The decoded key of a member.
    pub key: Seq<u8>,
    /// What the value reads as.
    pub read: Json,
}

/// The byte that closes a container.
pub open spec fn closer(kind: ContainerKind) -> u8 {
    if kind is Object {
        RBRACE
    } else {
        RBRACKET
    }
}

/// Whether a slot reads as it says.
pub open spec fn slot_reads(b: Seq<u8>, s: Slot, kind: ContainerKind, dialect: Dialect, depth: int) -> bool {
    &&& 0 <= s.at <= s.value < s.end <= b.len()
    &&& built(b, s.value, unbounded(dialect), no_room(), depth) == Ok::<(int, Json, Room), Error>((s.end, s.read, no_room()))
    &&& kind is Object ==> s.at < s.value && built_key(b, s.at, unbounded(dialect), no_room()) == Ok::<(int, Seq<u8>, Room), Error>(
        (s.value, s.key, no_room()),
    )
    &&& kind is Array ==> s.at == s.value
}

/// Past the slots before the one at position `i`.
pub open spec fn behind(open: int, slots: Seq<Slot>, i: int) -> int {
    if i == 0 {
        open + 1
    } else {
        slots[i - 1].end
    }
}

/// Whether the slot at position `i` is what comes next behind the ones before.
pub open spec fn comes_next(b: Seq<u8>, open: int, kind: ContainerKind, slots: Seq<Slot>, dialect: Dialect, i: int) -> bool {
    next_at(b, behind(open, slots, i), dialect, closer(kind), i == 0) == Ok::<NextAt, Error>(NextAt::Item(slots[i].at))
}

/// Whether slots lie one behind the other in the container that opens at `open`.
pub open spec fn lined_up(b: Seq<u8>, open: int, kind: ContainerKind, slots: Seq<Slot>, dialect: Dialect, depth: int) -> bool {
    &&& 0 <= open < b.len()
    &&& forall|i: int| 0 <= i < slots.len() ==> slot_reads(b, #[trigger] slots[i], kind, dialect, depth) && open < slots[i].at
    &&& forall|i: int, k: int| #![trigger slots[i], slots[k]] 0 <= i < k < slots.len() ==> slots[i].end < slots[k].at
    &&& forall|i: int| 0 <= i < slots.len() ==> #[trigger] comes_next(b, open, kind, slots, dialect, i)
}

/// Whether slots are all that the container from `open` to `close` holds.
pub open spec fn laid(
    b: Seq<u8>,
    open: int,
    close: int,
    kind: ContainerKind,
    slots: Seq<Slot>,
    dialect: Dialect,
    depth: int,
) -> bool {
    &&& lined_up(b, open, kind, slots, dialect, depth)
    &&& next_at(b, behind(open, slots, slots.len() as int), dialect, closer(kind), slots.len() == 0) == Ok::<NextAt, Error>(
        NextAt::Close(close),
    )
}

/// What the elements read as.
pub open spec fn element_values(slots: Seq<Slot>) -> Seq<Json> {
    slots.map_values(|s: Slot| s.read)
}

/// The members, with the last value of each name where the name first stands.
pub open spec fn member_values(slots: Seq<Slot>) -> Seq<(Seq<u8>, Json)>
    decreases slots.len(),
{
    if slots.len() == 0 {
        Seq::empty()
    } else {
        merged(member_values(slots.drop_last()), slots.last().key, slots.last().read)
    }
}

/// What a container with these slots reads as.
pub open spec fn container_value(kind: ContainerKind, slots: Seq<Slot>) -> Json {
    if kind is Object {
        Json::Object(member_values(slots))
    } else {
        Json::Array(element_values(slots))
    }
}

/// One more slot lines up behind the others.
proof fn one_more(b: Seq<u8>, open: int, kind: ContainerKind, done: Seq<Slot>, s: Slot, dialect: Dialect, depth: int)
    requires
        lined_up(b, open, kind, done, dialect, depth),
        slot_reads(b, s, kind, dialect, depth),
        next_at(b, behind(open, done, done.len() as int), dialect, closer(kind), done.len() == 0) == Ok::<NextAt, Error>(
            NextAt::Item(s.at),
        ),
    ensures
        lined_up(b, open, kind, done.push(s), dialect, depth),
{
    let pos = behind(open, done, done.len() as int);
    let n = done.len() as int;
    let next = done.push(s);
    if n > 0 {
        assert(slot_reads(b, done[n - 1], kind, dialect, depth));
    }
    next_at_bounds(b, pos, dialect, closer(kind), n == 0);
    assert forall|i: int| 0 <= i < next.len() implies slot_reads(b, #[trigger] next[i], kind, dialect, depth) && open < next[i].at by {
        if i < n {
            assert(next[i] == done[i]);
        } else if n > 0 {
            assert(open < done[n - 1].at);
        }
    }
    assert forall|i: int, k: int| #![trigger next[i], next[k]] 0 <= i < k < next.len() implies next[i].end < next[k].at by {
        assert(next[i] == done[i]);
        if k < n {
            assert(next[k] == done[k]);
        } else if i < n - 1 {
            assert(done[i].end < done[n - 1].at);
        }
    }
    assert forall|i: int| 0 <= i < next.len() implies #[trigger] comes_next(b, open, kind, next, dialect, i) by {
        if 0 < i {
            assert(next[i - 1] == done[i - 1]);
        }
        if i < n {
            assert(next[i] == done[i]);
            assert(comes_next(b, open, kind, done, dialect, i));
        }
    }
}

/// The elements of an array from behind those in `done` line up.
proof fn elements_lie(b: Seq<u8>, open: int, dialect: Dialect, depth: int, done: Seq<Slot>) -> (slots: Seq<Slot>)
    requires
        lined_up(b, open, ContainerKind::Array, done, dialect, depth),
        built_items(
            b,
            behind(open, done, done.len() as int),
            unbounded(dialect),
            no_room(),
            depth,
            element_values(done),
        ) is Ok,
    ensures
        ({
            let (e, items, _) = built_items(
                b,
                behind(open, done, done.len() as int),
                unbounded(dialect),
                no_room(),
                depth,
                element_values(done),
            )->Ok_0;
            laid(b, open, e, ContainerKind::Array, slots, dialect, depth) && items == element_values(slots)
        }),
    decreases b.len() - behind(open, done, done.len() as int),
{
    let pos = behind(open, done, done.len() as int);
    if done.len() > 0 {
        assert(slot_reads(b, done[done.len() - 1], ContainerKind::Array, dialect, depth));
    }
    items_unfold(b, pos, dialect, depth, element_values(done));
    match next_at(b, pos, dialect, RBRACKET, done.len() == 0) {
        Ok(NextAt::Item(p)) => {
            let (m, item, _) = built(b, p, unbounded(dialect), no_room(), depth)->Ok_0;
            let s = Slot { at: p, value: p, end: m, key: Seq::empty(), read: item };
            one_more(b, open, ContainerKind::Array, done, s, dialect, depth);
            assert(element_values(done.push(s)) =~= element_values(done).push(item));
            elements_lie(b, open, dialect, depth, done.push(s))
        },
        _ => done,
    }
}

/// The members of an object from behind those in `done` line up.
proof fn members_lie(b: Seq<u8>, open: int, dialect: Dialect, depth: int, done: Seq<Slot>) -> (slots: Seq<Slot>)
    requires
        lined_up(b, open, ContainerKind::Object, done, dialect, depth),
        built_members(
            b,
            behind(open, done, done.len() as int),
            unbounded(dialect),
            no_room(),
            depth,
            member_values(done),
        ) is Ok,
    ensures
        ({
            let (e, members, _) = built_members(
                b,
                behind(open, done, done.len() as int),
                unbounded(dialect),
                no_room(),
                depth,
                member_values(done),
            )->Ok_0;
            laid(b, open, e, ContainerKind::Object, slots, dialect, depth) && members == member_values(slots)
        }),
    decreases b.len() - behind(open, done, done.len() as int),
{
    let pos = behind(open, done, done.len() as int);
    if done.len() > 0 {
        assert(slot_reads(b, done[done.len() - 1], ContainerKind::Object, dialect, depth));
    }
    some_members(done);
    members_unfold(b, pos, dialect, depth, member_values(done));
    match next_at(b, pos, dialect, RBRACE, done.len() == 0) {
        Ok(NextAt::Item(p)) => {
            let (v, key, _) = built_key(b, p, unbounded(dialect), no_room())->Ok_0;
            let (m, x, _) = built(b, v, unbounded(dialect), no_room(), depth)->Ok_0;
            let s = Slot { at: p, value: v, end: m, key, read: x };
            one_more(b, open, ContainerKind::Object, done, s, dialect, depth);
            assert(done.push(s).drop_last() =~= done);
            members_lie(b, open, dialect, depth, done.push(s))
        },
        _ => done,
    }
}

pub(crate) proof fn some_members(slots: Seq<Slot>)
    ensures
        (member_values(slots).len() == 0) == (slots.len() == 0),
{
    if slots.len() > 0 {
        merged_is_not_empty(member_values(slots.drop_last()), slots.last().key, slots.last().read);
    }
}

/// A container that reads is laid out in slots.
pub(crate) proof fn container_is_laid(b: Seq<u8>, open: int, dialect: Dialect, depth: int, kind: ContainerKind) -> (slots: Seq<Slot>)
    requires
        0 <= open < b.len(),
        built(b, open, unbounded(dialect), no_room(), depth) matches Ok((_, j, _)) && (kind is Object ==> j is Object) && (
        kind is Array ==> j is Array),
    ensures
        laid(
            b,
            open,
            built(b, open, unbounded(dialect), no_room(), depth)->Ok_0.0,
            kind,
            slots,
            dialect,
            depth + 1,
        ),
        built(b, open, unbounded(dialect), no_room(), depth)->Ok_0.1 == container_value(kind, slots),
{
    opens_as(b, open, dialect, depth);
    let none = Seq::<Slot>::empty();
    assert(element_values(none) =~= Seq::<Json>::empty());
    assert(member_values(none) =~= Seq::<(Seq<u8>, Json)>::empty());
    if kind is Object {
        members_lie(b, open, dialect, depth + 1, none)
    } else {
        elements_lie(b, open, dialect, depth + 1, none)
    }
}

/// Elements that are laid out are read, from any of them on.
proof fn laid_elements_read(b: Seq<u8>, open: int, close: int, slots: Seq<Slot>, dialect: Dialect, depth: int, i: int)
    requires
        laid(b, open, close, ContainerKind::Array, slots, dialect, depth),
        0 <= i <= slots.len(),
    ensures
        built_items(b, behind(open, slots, i), unbounded(dialect), no_room(), depth, element_values(slots.take(i))) == Ok::<
            (int, Seq<Json>, Room),
            Error,
        >((close, element_values(slots), no_room())),
    decreases slots.len() - i,
{
    let pos = behind(open, slots, i);
    if i < slots.len() {
        laid_elements_read(b, open, close, slots, dialect, depth, i + 1);
        assert(slot_reads(b, slots[i], ContainerKind::Array, dialect, depth));
        assert(comes_next(b, open, ContainerKind::Array, slots, dialect, i));
        if i > 0 {
            assert(slots[i - 1].end < slots[i].at);
        }
        assert(open < slots[i].at);
        assert(element_values(slots.take(i + 1)) =~= element_values(slots.take(i)).push(slots[i].read));
        item_step(b, pos, slots[i].at, slots[i].end, slots[i].read, dialect, depth, element_values(slots.take(i)));
    } else {
        assert(slots.take(i) =~= slots);
    }
}

/// Members that are laid out are read, from any of them on.
proof fn laid_members_read(b: Seq<u8>, open: int, close: int, slots: Seq<Slot>, dialect: Dialect, depth: int, i: int)
    requires
        laid(b, open, close, ContainerKind::Object, slots, dialect, depth),
        0 <= i <= slots.len(),
    ensures
        built_members(b, behind(open, slots, i), unbounded(dialect), no_room(), depth, member_values(slots.take(i))) == Ok::<
            (int, Seq<(Seq<u8>, Json)>, Room),
            Error,
        >((close, member_values(slots), no_room())),
    decreases slots.len() - i,
{
    let pos = behind(open, slots, i);
    some_members(slots.take(i));
    if i < slots.len() {
        laid_members_read(b, open, close, slots, dialect, depth, i + 1);
        assert(slot_reads(b, slots[i], ContainerKind::Object, dialect, depth));
        assert(comes_next(b, open, ContainerKind::Object, slots, dialect, i));
        if i > 0 {
            assert(slots[i - 1].end < slots[i].at);
        }
        assert(open < slots[i].at);
        assert(slots.take(i + 1).drop_last() =~= slots.take(i));
        member_step(
            b,
            pos,
            slots[i].at,
            slots[i].value,
            slots[i].end,
            slots[i].key,
            slots[i].read,
            dialect,
            depth,
            member_values(slots.take(i)),
        );
    } else {
        assert(slots.take(i) =~= slots);
    }
}

/// A container that is laid out in slots reads as they do.
pub(crate) proof fn laid_container_reads(
    b: Seq<u8>,
    open: int,
    close: int,
    kind: ContainerKind,
    slots: Seq<Slot>,
    dialect: Dialect,
    depth: int,
)
    requires
        laid(b, open, close, kind, slots, dialect, depth + 1),
        depth < MAX_NESTING,
        b[open] == (if kind is Object {
            LBRACE
        } else {
            LBRACKET
        }),
    ensures
        built(b, open, unbounded(dialect), no_room(), depth) == Ok::<(int, Json, Room), Error>(
            (close, container_value(kind, slots), no_room()),
        ),
        open < close <= b.len(),
{
    assert(slots.take(0) =~= Seq::<Slot>::empty());
    assert(element_values(slots.take(0)) =~= Seq::<Json>::empty());
    let last = behind(open, slots, slots.len() as int);
    if slots.len() > 0 {
        let n = slots.len() - 1;
        assert(slot_reads(b, slots[n], kind, dialect, depth + 1) && open < slots[n].at);
    }
    next_at_bounds(b, last, dialect, closer(kind), slots.len() == 0);
    if kind is Object {
        laid_members_read(b, open, close, slots, dialect, depth + 1, 0);
    } else {
        laid_elements_read(b, open, close, slots, dialect, depth + 1, 0);
    }
}

/// The comment behind a value on its line is trivia that is passed anyway.
proof fn inline_is_trivia(b: Seq<u8>, pos: int, dialect: Dialect)
    requires
        0 <= pos <= b.len(),
        trivia_end(b, pos, dialect) is Ok,
    ensures
        inline_end(b, pos, dialect) matches Ok(e) && pos <= e <= b.len() && trivia_end(b, e, dialect) == trivia_end(
            b,
            pos,
            dialect,
        ),
{
    let c = line_blanks_end(b, pos);
    blanks_are_space(b, pos);
    if dialect.comments() && c < b.len() && b[c] == SLASH {
        run_end_is::<Ws>(b, pos, c);
        comment_end_bounds(b, c);
    }
}

pub(crate) proof fn blanks_are_space(b: Seq<u8>, pos: int)
    requires
        0 <= pos <= b.len(),
    ensures
        pos <= line_blanks_end(b, pos) <= b.len(),
        forall|i: int| pos <= i < line_blanks_end(b, pos) ==> is_space(#[trigger] b[i]),
    decreases b.len() - pos,
{
    if pos < b.len() {
        blanks_are_space(b, pos + 1);
    }
}

/// Where the glue of the slot at position `i` starts: behind the comma before it, or
/// behind the opener.
pub(crate) open spec fn glue_start(b: Seq<u8>, open: int, slots: Seq<Slot>, i: int, dialect: Dialect) -> int {
    if i == 0 {
        open + 1
    } else {
        trivia_end(b, slots[i - 1].end, dialect)->Ok_0 + 1
    }
}

/// The member that is collected for a slot.
pub(crate) open spec fn collected_as(m: MemberModel, b: Seq<u8>, start: int, s: Slot, kind: ContainerKind, dialect: Dialect) -> bool {
    &&& m.start == start
    &&& m.key_start == s.at
    &&& m.value_start == s.value
    &&& m.value_end == s.end
    &&& s.end <= m.end <= b.len()
    &&& inline_end(b, s.end, dialect) == Ok::<int, Error>(m.end)
    &&& trivia_end(b, m.end, dialect) == trivia_end(b, s.end, dialect)
    &&& m.key == (if kind is Object {
        Some(s.key)
    } else {
        None
    })
    &&& kind is Object ==> key_text(b, s.at, dialect) is Ok && m.key_end == key_text(b, s.at, dialect)->Ok_0.0
}

proof fn slot_is_collected(b: Seq<u8>, start: int, s: Slot, kind: ContainerKind, dialect: Dialect, depth: int)
    requires
        slot_reads(b, s, kind, dialect, depth),
        0 <= depth,
        trivia_end(b, s.end, dialect) is Ok,
    ensures
        member_at(b, start, s.at, kind, dialect) matches Ok(m) && collected_as(m, b, start, s, kind, dialect),
{
    reveal(member_at);
    read_at_lower_depth(b, s.value, dialect, depth, 0);
    parse_agrees_with_strict_skip(b, s.value, dialect, 0);
    value_start(b, s.value, dialect, 0);
    trivia_end_here(b, s.value, dialect);
    inline_is_trivia(b, s.end, dialect);
    if kind is Object {
        built_key_is(b, s.at, dialect);
        reveal(key_of);
        reveal(led_to);
    }
    assert(strict_ctx(dialect) == (Ctx { check: Check::Values, max: MAX_NESTING, dialect }));
}

/// What the separator law passes on the way to the next item, or to the closer.
pub(crate) proof fn next_is_separated(b: Seq<u8>, pos: int, dialect: Dialect, close: u8, first: bool)
    requires
        0 <= pos <= b.len(),
        close != COMMA,
    ensures
        match next_at(b, pos, dialect, close, first) {
            Ok(NextAt::Item(p)) => pos <= p && trivia_end(b, pos, dialect) is Ok && ({
                let c = trivia_end(b, pos, dialect)->Ok_0;
                &&& pos <= c < b.len()
                &&& p < b.len() ==> b[p] != close
                &&& if first {
                    c == p
                } else {
                    c < p && b[c] == COMMA && trivia_end(b, c + 1, dialect) == Ok::<int, Error>(p)
                }
            }),
            Ok(NextAt::Close(e)) => trivia_end(b, pos, dialect) is Ok && ({
                let c = trivia_end(b, pos, dialect)->Ok_0;
                &&& pos <= c < e <= b.len()
                &&& b[e - 1] == close
                &&& (b[c] == close && e == c + 1) || (!first && b[c] == COMMA && trivia_end(b, c + 1, dialect) == Ok::<int, Error>(
                    e - 1,
                ))
            }),
            Err(_) => true,
        },
{
    reveal(next_at);
    trivia_end_bounds(b, pos, dialect);
    if let Ok(c) = trivia_end(b, pos, dialect) {
        if c < b.len() {
            trivia_end_bounds(b, c + 1, dialect);
        }
    }
}

/// What stands behind a slot: the comma before the next, or the closer.
pub(crate) proof fn slot_is_followed(
    b: Seq<u8>,
    open: int,
    close: int,
    kind: ContainerKind,
    slots: Seq<Slot>,
    dialect: Dialect,
    depth: int,
    i: int,
)
    requires
        laid(b, open, close, kind, slots, dialect, depth),
        0 <= i < slots.len(),
    ensures
        slot_reads(b, slots[i], kind, dialect, depth),
        open < slots[i].at < close <= b.len(),
        b[slots[i].at] != closer(kind),
        b[slots[i].at] != COMMA,
        trivia_end(b, slots[i].end, dialect) matches Ok(c) && slots[i].end <= c < close && (i + 1 < slots.len() ==> b[c] == COMMA
            && trivia_end(b, c + 1, dialect) == Ok::<int, Error>(slots[i + 1].at)) && (i + 1 == slots.len() ==> (b[c] == closer(kind)
            && close == c + 1) || (b[c] == COMMA && trivia_end(b, c + 1, dialect) == Ok::<int, Error>(close - 1) && b[close - 1]
            == closer(kind))),
        trivia_end(b, glue_start(b, open, slots, i, dialect), dialect) == Ok::<int, Error>(slots[i].at),
        glue_start(b, open, slots, i, dialect) <= slots[i].at,
        i > 0 ==> 0 < glue_start(b, open, slots, i, dialect) && b[glue_start(b, open, slots, i, dialect) - 1] == COMMA
            && slots[i - 1].end < glue_start(b, open, slots, i, dialect),
{
    assert(slot_reads(b, slots[i], kind, dialect, depth) && open < slots[i].at);
    let n = slots.len() as int;
    assert(slot_reads(b, slots[n - 1], kind, dialect, depth));
    if i < n - 1 {
        assert(slots[i].end < slots[n - 1].at);
        assert(comes_next(b, open, kind, slots, dialect, i + 1));
        assert(behind(open, slots, i + 1) == slots[i].end);
        next_is_separated(b, slots[i].end, dialect, closer(kind), false);
    }
    assert(behind(open, slots, n) == slots[n - 1].end);
    next_is_separated(b, slots[n - 1].end, dialect, closer(kind), false);
    if i > 0 {
        assert(slot_reads(b, slots[i - 1], kind, dialect, depth) && open < slots[i - 1].at);
        assert(slots[i - 1].end < slots[i].at);
    }
    assert(comes_next(b, open, kind, slots, dialect, i));
    next_is_separated(b, behind(open, slots, i), dialect, closer(kind), i == 0);
    assert(i < n - 1 ==> slots[i + 1].at < close) by {
        if i < n - 1 {
            assert(slot_reads(b, slots[i + 1], kind, dialect, depth));
            if i + 1 < n - 1 {
                assert(slots[i + 1].end < slots[n - 1].at);
            }
        }
    }
    if kind is Object {
        built_key_is(b, slots[i].at, dialect);
        reveal(key_of);
        key_is_no_comma(b, slots[i].at, dialect);
    } else {
        value_start(b, slots[i].at, dialect, depth);
    }
}

proof fn key_is_no_comma(b: Seq<u8>, p: int, dialect: Dialect)
    requires
        0 <= p < b.len(),
        key_text(b, p, dialect) is Ok,
    ensures
        b[p] != COMMA,
{
}

/// A slot ends at a token boundary.
pub(crate) proof fn slot_ends_at_a_boundary(
    b: Seq<u8>,
    open: int,
    close: int,
    kind: ContainerKind,
    slots: Seq<Slot>,
    dialect: Dialect,
    depth: int,
    i: int,
)
    requires
        laid(b, open, close, kind, slots, dialect, depth),
        0 <= i < slots.len(),
    ensures
        token_end(b, slots[i].end, dialect),
{
    assert(slot_reads(b, slots[i], kind, dialect, depth));
    assert(behind(open, slots, i + 1) == slots[i].end);
    if i + 1 < slots.len() {
        assert(comes_next(b, open, kind, slots, dialect, i + 1));
    }
    next_is_a_boundary(b, slots[i].end, dialect, closer(kind));
}

/// The members that an edit collects are the slots, from any of them on.
proof fn slots_are_collected_from(
    b: Seq<u8>,
    open: int,
    close: int,
    kind: ContainerKind,
    slots: Seq<Slot>,
    dialect: Dialect,
    depth: int,
    i: int,
    done: Seq<MemberModel>,
)
    requires
        laid(b, open, close, kind, slots, dialect, depth),
        0 <= depth,
        0 <= i <= slots.len(),
        done.len() == i,
        forall|k: int|
            0 <= k < i ==> collected_as(#[trigger] done[k], b, glue_start(b, open, slots, k, dialect), slots[k], kind, dialect),
    ensures
        i < slots.len() || i == 0 ==> (members_from(b, glue_start(b, open, slots, i, dialect), close, kind, dialect, done) matches Ok(
            ms,
        ) && ms.len() == slots.len() && forall|k: int|
            0 <= k < slots.len() ==> collected_as(
                #[trigger] ms[k],
                b,
                glue_start(b, open, slots, k, dialect),
                slots[k],
                kind,
                dialect,
            )),
    decreases slots.len() - i,
{
    let start = glue_start(b, open, slots, i, dialect);
    if i < slots.len() {
        slot_is_followed(b, open, close, kind, slots, dialect, depth, i);
        slot_is_collected(b, start, slots[i], kind, dialect, depth);
        let m = member_at(b, start, slots[i].at, kind, dialect)->Ok_0;
        let more = done.push(m);
        assert forall|k: int| 0 <= k < i + 1 implies collected_as(
            #[trigger] more[k],
            b,
            glue_start(b, open, slots, k, dialect),
            slots[k],
            kind,
            dialect,
        ) by {
            if k < i {
                assert(more[k] == done[k]);
            }
        }
        let c = trivia_end(b, slots[i].end, dialect)->Ok_0;
        if i + 1 < slots.len() {
            slots_are_collected_from(b, open, close, kind, slots, dialect, depth, i + 1, more);
        } else if b[c] == COMMA {
            assert(members_from(b, c + 1, close, kind, dialect, more) == Ok::<Seq<MemberModel>, Error>(more));
        } else {
            trivia_end_here(b, c, dialect);
            assert(members_from(b, c, close, kind, dialect, more) == Ok::<Seq<MemberModel>, Error>(more));
        }
    } else if i == 0 {
        reveal(next_at);
        trivia_end_bounds(b, open + 1, dialect);
        assert(done =~= Seq::<MemberModel>::empty());
    }
}

/// The members that an edit collects of a container are its slots.
pub(crate) proof fn slots_are_collected(
    b: Seq<u8>,
    open: int,
    close: int,
    kind: ContainerKind,
    slots: Seq<Slot>,
    dialect: Dialect,
    depth: int,
) -> (ms: Seq<MemberModel>)
    requires
        laid(b, open, close, kind, slots, dialect, depth),
        0 <= depth,
    ensures
        members_from(b, open + 1, close, kind, dialect, Seq::empty()) == Ok::<Seq<MemberModel>, Error>(ms),
        ms.len() == slots.len(),
        forall|k: int|
            0 <= k < slots.len() ==> collected_as(#[trigger] ms[k], b, glue_start(b, open, slots, k, dialect), slots[k], kind, dialect),
{
    slots_are_collected_from(b, open, close, kind, slots, dialect, depth, 0, Seq::empty());
    members_from(b, open + 1, close, kind, dialect, Seq::empty())->Ok_0
}

/// Members with the last value of each name where the name first stands.
pub open spec fn gathered(members: Seq<(Seq<u8>, Json)>) -> Seq<(Seq<u8>, Json)>
    decreases members.len(),
{
    if members.len() == 0 {
        Seq::empty()
    } else {
        merged(gathered(members.drop_last()), members.last().0, members.last().1)
    }
}

/// The members of the object that a path leads to, as they stand in the text: a name
/// that repeats is there as often as it is written.
#[verifier::opaque]
pub open spec fn members_in(b: Seq<u8>, dialect: Dialect, path: Seq<StepModel>) -> Seq<(Seq<u8>, Json)> {
    let at = spot(b, trivia_end(b, text_start(b), dialect)->Ok_0, dialect, 0, path)->0;
    member_starts(b, at + 1, dialect, path.len() as int + 1, Seq::empty()).map_values(
        |m: (Seq<u8>, int)| (m.0, built(b, m.1, unbounded(dialect), no_room(), 0)->Ok_0.1),
    )
}

/// Names and values of slots.
pub(crate) open spec fn pairs(slots: Seq<Slot>) -> Seq<(Seq<u8>, Json)> {
    slots.map_values(|s: Slot| (s.key, s.read))
}

pub(crate) open spec fn named_starts(slots: Seq<Slot>) -> Seq<(Seq<u8>, int)> {
    slots.map_values(|s: Slot| (s.key, s.value))
}

pub(crate) proof fn members_are_gathered(slots: Seq<Slot>)
    ensures
        member_values(slots) == gathered(pairs(slots)),
    decreases slots.len(),
{
    if slots.len() > 0 {
        members_are_gathered(slots.drop_last());
        assert(pairs(slots).drop_last() =~= pairs(slots.drop_last()));
    }
}

pub(crate) proof fn member_starts_are_slots(b: Seq<u8>, open: int, close: int, slots: Seq<Slot>, dialect: Dialect, depth: int, i: int)
    requires
        laid(b, open, close, ContainerKind::Object, slots, dialect, depth),
        0 <= i <= slots.len(),
    ensures
        member_starts(b, behind(open, slots, i), dialect, depth, named_starts(slots.take(i))) == named_starts(slots),
    decreases slots.len() - i,
{
    let pos = behind(open, slots, i);
    if i < slots.len() {
        member_starts_are_slots(b, open, close, slots, dialect, depth, i + 1);
        assert(slot_reads(b, slots[i], ContainerKind::Object, dialect, depth) && open < slots[i].at);
        assert(comes_next(b, open, ContainerKind::Object, slots, dialect, i));
        if i > 0 {
            assert(slots[i - 1].end < slots[i].at);
        }
        assert(named_starts(slots.take(i + 1)) =~= named_starts(slots.take(i)).push((slots[i].key, slots[i].value)));
        assert(behind(open, slots, i + 1) == slots[i].end);
    } else {
        assert(slots.take(i) =~= slots);
    }
}

/// The members of an object as they stand in the text are its slots.
pub(crate) proof fn members_in_are_slots(b: Seq<u8>, dialect: Dialect, path: Seq<StepModel>, open: int, close: int, slots: Seq<Slot>)
    requires
        laid(b, open, close, ContainerKind::Object, slots, dialect, path.len() as int + 1),
        spot(b, trivia_end(b, text_start(b), dialect)->Ok_0, dialect, 0, path) == Some(open),
    ensures
        members_in(b, dialect, path) == pairs(slots),
{
    reveal(members_in);
    let depth = path.len() as int + 1;
    assert(named_starts(slots.take(0)) =~= Seq::<(Seq<u8>, int)>::empty());
    member_starts_are_slots(b, open, close, slots, dialect, depth, 0);
    assert forall|i: int| 0 <= i < slots.len() implies built(b, (#[trigger] slots[i]).value, unbounded(dialect), no_room(), 0)->Ok_0.1
        == slots[i].read by {
        assert(slot_reads(b, slots[i], ContainerKind::Object, dialect, depth));
        read_at_lower_depth(b, slots[i].value, dialect, depth, 0);
    }
    assert(members_in(b, dialect, path) =~= pairs(slots));
}

/// The container that a path leads to, laid out in slots.
pub(crate) proof fn found_container_is_laid(
    b: Seq<u8>,
    dialect: Dialect,
    path: Seq<StepModel>,
    j: Json,
    kind: ContainerKind,
    open: int,
) -> (slots: Seq<Slot>)
    requires
        text_value(b, dialect) == Ok::<Json, Error>(j),
        tree_at(j, path) matches Some(x) && (kind is Object ==> x is Object) && (kind is Array ==> x is Array),
        spot(b, trivia_end(b, text_start(b), dialect)->Ok_0, dialect, 0, path) == Some(open),
    ensures
        0 <= open < b.len(),
        path.len() < MAX_NESTING,
        b[open] == (if kind is Object {
            LBRACE
        } else {
            LBRACKET
        }),
        built(b, open, unbounded(dialect), no_room(), 0) matches Ok((close, x, _)) && tree_at(j, path) == Some(x) && laid(
            b,
            open,
            close,
            kind,
            slots,
            dialect,
            path.len() as int + 1,
        ) && x == container_value(kind, slots),
{
    let pos = trivia_end(b, text_start(b), dialect)->Ok_0;
    text_facts(b, dialect);
    place_facts(b, pos, dialect, path, open);
    spot_reads(b, pos, dialect, 0, path);
    opens_as(b, open, dialect, path.len() as int);
    container_is_laid(b, open, dialect, path.len() as int, kind)
}

} // verus!
