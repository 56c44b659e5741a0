//! The members that a scan keeps of an object are the members that a parse reads.

use vstd::prelude::*;

use crate::dialect::Dialect;
use crate::edit::members::ContainerKind;
use crate::error::Error;
use crate::laws::deletes::apart;
use crate::laws::ends::{ends_at_reach, reach};
use crate::laws::forms::{no_room, unbounded};
use crate::laws::local::{built_key_is, key_of, led_to};
use crate::laws::parse::parse_agrees_with_strict_skip;
use crate::laws::paths::position_of;
use crate::laws::shallow::{all_members, count_from};
use crate::laws::slots::{behind, comes_next, laid, member_values, slot_reads, Slot};
use crate::lex::skip::{Check, MAX_NESTING};
use crate::tape::{built, key_position, merged, Room};
use crate::value::{span, ByteRange, Json};
use crate::walk::member::{find, inserted, lookup};
use crate::walk::model::WalkCtx;

verus! {

/// Names and spans of slots, with the last span of each name where the name first stands.
pub(crate) open spec fn located(slots: Seq<Slot>) -> Seq<(Seq<u8>, ByteRange)>
    decreases slots.len(),
{
    if slots.len() == 0 {
        Seq::empty()
    } else {
        inserted(located(slots.drop_last()), slots.last().key, span(slots.last().value, slots.last().end))
    }
}

/// Whether a span holds a value that reads as `x`.
pub open spec fn span_reads(b: Seq<u8>, s: ByteRange, x: Json, dialect: Dialect, depth: int) -> bool {
    &&& s.start < s.end <= b.len()
    &&& built(b, s.start as int, unbounded(dialect), no_room(), depth) == Ok::<(int, Json, Room), Error>(
        (s.end as int, x, no_room()),
    )
}

/// Whether spans hold the values of members, name by name.
pub open spec fn spans_read(
    b: Seq<u8>,
    spans: Seq<(Seq<u8>, ByteRange)>,
    members: Seq<(Seq<u8>, Json)>,
    dialect: Dialect,
    depth: int,
) -> bool {
    &&& spans.len() == members.len()
    &&& apart(members)
    &&& forall|i: int|
        0 <= i < spans.len() ==> (#[trigger] spans[i]).0 == members[i].0 && span_reads(b, spans[i].1, members[i].1, dialect, depth)
}

/// A slot's value ends where a scan sees it end.
pub(crate) proof fn slot_is_reached(b: Seq<u8>, s: Slot, kind: ContainerKind, ctx: WalkCtx, depth: int)
    requires
        slot_reads(b, s, kind, ctx.dialect, depth),
        0 <= depth,
        ctx.max == MAX_NESTING,
    ensures
        reach(b, s.value, ctx) == Ok::<int, Error>(s.end),
{
    parse_agrees_with_strict_skip(b, s.value, ctx.dialect, depth);
    ends_at_reach(b, s.value, Check::Values, ctx, depth);
}

/// The members that a scan keeps are the slots, from any of them on.
pub(crate) proof fn members_are_located(b: Seq<u8>, open: int, close: int, slots: Seq<Slot>, ctx: WalkCtx, depth: int, i: int)
    requires
        laid(b, open, close, ContainerKind::Object, slots, ctx.dialect, depth),
        0 <= depth,
        ctx.max == MAX_NESTING,
        0 <= i <= slots.len(),
    ensures
        all_members(b, behind(open, slots, i), ctx, i == 0, located(slots.take(i))) == located(slots),
    decreases slots.len() - i,
{
    let kind = ContainerKind::Object;
    if i < slots.len() {
        members_are_located(b, open, close, slots, ctx, depth, i + 1);
        let s = slots[i];
        assert(slot_reads(b, s, kind, ctx.dialect, depth) && open < s.at);
        assert(comes_next(b, open, kind, slots, ctx.dialect, i));
        if i > 0 {
            assert(slots[i - 1].end < s.at);
        }
        slot_is_reached(b, s, kind, ctx, depth);
        built_key_is(b, s.at, ctx.dialect);
        reveal(key_of);
        reveal(led_to);
        assert(slots.take(i + 1).drop_last() =~= slots.take(i));
        assert(behind(open, slots, i + 1) == s.end);
    } else {
        assert(slots.take(i) =~= slots);
    }
}

/// The elements that a scan counts are the slots, from any of them on.
pub(crate) proof fn elements_are_counted(b: Seq<u8>, open: int, close: int, slots: Seq<Slot>, ctx: WalkCtx, depth: int, i: int)
    requires
        laid(b, open, close, ContainerKind::Array, slots, ctx.dialect, depth),
        0 <= depth,
        ctx.max == MAX_NESTING,
        0 <= i <= slots.len(),
    ensures
        count_from(b, behind(open, slots, i), ctx, i) == slots.len(),
    decreases slots.len() - i,
{
    let kind = ContainerKind::Array;
    if i < slots.len() {
        elements_are_counted(b, open, close, slots, ctx, depth, i + 1);
        let s = slots[i];
        assert(slot_reads(b, s, kind, ctx.dialect, depth) && open < s.at);
        assert(comes_next(b, open, kind, slots, ctx.dialect, i));
        if i > 0 {
            assert(slots[i - 1].end < s.at);
        }
        slot_is_reached(b, s, kind, ctx, depth);
        assert(behind(open, slots, i + 1) == s.end);
    }
}

/// Where a name is found among members with distinct names.
proof fn found_where_merged(
    b: Seq<u8>,
    spans: Seq<(Seq<u8>, ByteRange)>,
    members: Seq<(Seq<u8>, Json)>,
    dialect: Dialect,
    depth: int,
    name: Seq<u8>,
)
    requires
        spans_read(b, spans, members, dialect, depth),
    ensures
        find(spans, name) == (if key_position(members, name, 0) < members.len() {
            Some(key_position(members, name, 0))
        } else {
            None
        }),
{
    position_of(members, name, 0);
    found_is_last(spans, name);
    let k = key_position(members, name, 0);
    match find(spans, name) {
        Some(i) => {
            assert(spans[i].0 == members[i].0);
            if k < members.len() && k < i {
                assert(members[k].0 != members[i].0);
            }
        },
        None => {
            if k < members.len() {
                assert(spans[k].0 == members[k].0);
            }
        },
    }
}

pub(crate) proof fn found_is_last(spans: Seq<(Seq<u8>, ByteRange)>, name: Seq<u8>)
    ensures
        match find(spans, name) {
            Some(i) => 0 <= i < spans.len() && spans[i].0 == name,
            None => forall|i: int| 0 <= i < spans.len() ==> (#[trigger] spans[i]).0 != name,
        },
    decreases spans.len(),
{
    if spans.len() > 0 && spans.last().0 != name {
        found_is_last(spans.drop_last(), name);
        assert forall|i: int| 0 <= i < spans.len() - 1 implies #[trigger] spans[i] == spans.drop_last()[i] by {}
    }
}

/// The kept members hold the values of the members that are read.
pub(crate) proof fn located_are_read(b: Seq<u8>, slots: Seq<Slot>, dialect: Dialect, depth: int)
    requires
        b.len() <= usize::MAX,
        forall|i: int| 0 <= i < slots.len() ==> slot_reads(b, #[trigger] slots[i], ContainerKind::Object, dialect, depth),
    ensures
        spans_read(b, located(slots), member_values(slots), dialect, depth),
    decreases slots.len(),
{
    if slots.len() > 0 {
        let front = slots.drop_last();
        assert forall|i: int| 0 <= i < front.len() implies slot_reads(b, #[trigger] front[i], ContainerKind::Object, dialect, depth) by {
            assert(front[i] == slots[i]);
        }
        located_are_read(b, front, dialect, depth);
        let s = slots[slots.len() - 1];
        assert(slot_reads(b, s, ContainerKind::Object, dialect, depth));
        let spans = located(front);
        let members = member_values(front);
        found_where_merged(b, spans, members, dialect, depth, s.key);
        position_of(members, s.key, 0);
        let more = merged(members, s.key, s.read);
        let wider = inserted(spans, s.key, span(s.value, s.end));
        assert(apart(more)) by {
            assert forall|i: int, k: int| 0 <= i < k < more.len() implies (#[trigger] more[i]).0 != (#[trigger] more[k]).0 by {
                if k < members.len() {
                    assert(members[i].0 != members[k].0);
                }
            }
        }
        assert forall|i: int| 0 <= i < wider.len() implies (#[trigger] wider[i]).0 == more[i].0 && span_reads(
            b,
            wider[i].1,
            more[i].1,
            dialect,
            depth,
        ) by {
            if i < spans.len() {
                assert(spans[i].0 == members[i].0);
            }
        }
    } else {
        assert(member_values(slots) =~= Seq::<(Seq<u8>, Json)>::empty());
    }
}

/// What the lookup of a name among kept members finds: the value of the member of that
/// name, if there is one.
pub(crate) proof fn lookup_finds_the_member(
    b: Seq<u8>,
    spans: Seq<(Seq<u8>, ByteRange)>,
    members: Seq<(Seq<u8>, Json)>,
    dialect: Dialect,
    depth: int,
    name: Seq<u8>,
)
    requires
        spans_read(b, spans, members, dialect, depth),
    ensures
        match lookup(spans, name) {
            Some(s) => exists|i: int|
                0 <= i < members.len() && (#[trigger] members[i]).0 == name && span_reads(b, s, members[i].1, dialect, depth),
            None => forall|i: int| 0 <= i < members.len() ==> (#[trigger] members[i]).0 != name,
        },
{
    found_is_last(spans, name);
    match find(spans, name) {
        Some(i) => {
            assert(members[i].0 == name);
        },
        None => {
            assert forall|i: int| 0 <= i < members.len() implies (#[trigger] members[i]).0 != name by {
                assert(spans[i].0 == members[i].0);
            }
        },
    }
}

} // verus!
