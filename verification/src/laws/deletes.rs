//! A deleted member or element is gone from the value, and nothing else is.

use vstd::prelude::*;

use crate::ascii::{COMMA, LBRACE, LBRACKET, SLASH};
use crate::demand::StepModel;
use crate::dialect::Dialect;
use crate::answer::AnswerModel;
use crate::edit::apply::{any_fact, demands_of, edited, located_span, located_spans, locating, plan_of, planned_edit, planned_edits, writes_fact};
use crate::edit::comments::before_ws;
use crate::edit::dom::{updated, Change};
use crate::edit::members::{container_at, last_with_key, members_from, members_of, with_comma, ContainerKind, MemberModel};
use crate::edit::plan::{plain_splice, planned_delete, planned_splice, target_of};
use crate::edit::request::{at_path, edit_demand, EditModel};
use crate::edit::splice::{apply_order, first_conflict, first_outside, SpliceModel};
use crate::error::Error;
use crate::framing::text_start;
use crate::laws::assign::{
    edit_is_located, edit_is_one_splice, end_is_kept, exchanged, place_facts, read_text_is_strict, start_is_kept,
    text_facts, text_reads,
};
use crate::laws::forms::{no_room, unbounded};
use crate::laws::local::{
    block_is_local, built_key_is_local, comment_is_local, copied, next_is_local, read_is_local, run_is_local, trivia_is_local, value_start,
};
use crate::laws::indices::{path_is_found, tree_steps_on};
use crate::laws::paths::{answer_fits, path_answers_are_lookups, position_is, position_of, reads_at, spot, steps_of, text_value, tree_at};
use crate::laws::replace::{next_is_a_boundary, opens_as, swapped, value_swapped};
use crate::laws::slots::{
    found_container_is_laid, gathered, members_are_gathered, members_in, members_in_are_slots, pairs, behind, closer,
    collected_as, comes_next, container_value, element_values, glue_start, laid, laid_container_reads, member_values,
    slot_ends_at_a_boundary, slot_is_followed, slot_reads, slots_are_collected, Slot,
};
use crate::lex::skip::{next_at, next_at_bounds, NextAt, MAX_NESTING};
use crate::lex::stop_sets::{run_end, run_end_facts, run_end_is, NdjsonFrame, StopSet, Ws};
use crate::lex::ws::{comment_end, comment_end_bounds, token_end, trivia_end, trivia_end_bounds, trivia_end_here};
use crate::scan::{scanned, strict_ask};
use crate::tape::{built, key_position, merged, Room};
use crate::value::{ByteRange, Json};

verus! {

/// Whether `o` is `b` without the bytes `[x, y)`.
pub(crate) open spec fn cut_out(b: Seq<u8>, x: int, y: int, o: Seq<u8>) -> bool {
    &&& 0 <= x <= y <= b.len()
    &&& o.len() == b.len() - (y - x)
    &&& copied(b, 0, x, o, 0)
    &&& copied(b, y, b.len() as int, o, x - y)
}

/// Trivia up to a comma that is cut out goes on with the trivia behind the cut.
proof fn trivia_joins(b: Seq<u8>, x: int, y: int, o: Seq<u8>, pos: int, dialect: Dialect)
    requires
        cut_out(b, x, y, o),
        0 <= pos <= x < b.len(),
        trivia_end(b, pos, dialect) == Ok::<int, Error>(x),
        b[x] == COMMA,
        trivia_end(b, y, dialect) is Ok,
    ensures
        trivia_end(o, pos, dialect) == Ok::<int, Error>(trivia_end(b, y, dialect)->Ok_0 + (x - y)),
    decreases x - pos,
{
    let d = x - y;
    let p = run_end::<Ws>(b, pos);
    run_end_facts::<Ws>(b, pos);
    trivia_end_bounds(b, y, dialect);
    trivia_is_local(b, y, b.len() as int, o, d, y, dialect);
    if dialect.comments() && p < b.len() && b[p] == SLASH {
        comment_end_bounds(b, p);
        let ce = comment_end(b, p)->Ok_0;
        trivia_end_bounds(b, ce, dialect);
        run_is_local::<Ws>(b, 0, x, o, 0, pos);
        assert(b[p] == o[p + 0]);
        if ce < x {
            comment_is_local(b, 0, x, o, 0, p);
        } else {
            comment_to_comma(b, x, o, p);
        }
        trivia_joins(b, x, y, o, ce, dialect);
    } else {
        assert(p == x);
        let q = run_end::<Ws>(o, x);
        run_end_facts::<Ws>(o, x);
        assert forall|i: int| pos <= i < q implies !Ws::stops(#[trigger] o[i]) by {
            if i < x {
                assert(b[i] == o[i + 0]);
            }
        }
        run_end_is::<Ws>(o, pos, q);
    }
}

/// A comment that ends at a comma is a block.
proof fn comment_to_comma(b: Seq<u8>, x: int, o: Seq<u8>, p: int)
    requires
        copied(b, 0, x, o, 0),
        0 <= p < x < b.len(),
        b[x] == COMMA,
        b[p] == SLASH,
        comment_end(b, p) == Ok::<int, Error>(x),
    ensures
        comment_end(o, p) == Ok::<int, Error>(x),
{
    comment_end_bounds(b, p);
    assert(b[p] == o[p + 0]);
    assert(b[p + 1] == o[p + 1 + 0]);
    run_end_facts::<NdjsonFrame>(b, p + 2);
    block_is_local(b, 0, x, o, 0, p + 2);
}

/// Where the bytes to cut out lie around a slot.
pub(crate) open spec fn cuts_slot(
    b: Seq<u8>,
    x: int,
    y: int,
    open: int,
    slots: Seq<Slot>,
    k: int,
    dialect: Dialect,
) -> bool {
    let end = slots[k].end;
    if k > 0 {
        &&& trivia_end(b, slots[k - 1].end, dialect) == Ok::<int, Error>(x)
        &&& end <= y <= b.len()
        &&& trivia_end(b, y, dialect) == trivia_end(b, end, dialect)
    } else {
        &&& x == open + 1
        &&& trivia_end(b, end, dialect) is Ok
        &&& if b[trivia_end(b, end, dialect)->Ok_0] == COMMA {
            y == trivia_end(b, end, dialect)->Ok_0 + 1
        } else {
            end <= y <= b.len() && trivia_end(b, y, dialect) == trivia_end(b, end, dialect)
        }
    }
}

/// A slot that stands `d` further on.
pub(crate) open spec fn moved_slot(s: Slot, d: int) -> Slot {
    Slot { at: s.at + d, value: s.value + d, end: s.end + d, ..s }
}

/// The slots that are left without the one at position `k`, the later ones `d` further on.
pub(crate) open spec fn left_slots(slots: Seq<Slot>, k: int, d: int) -> Seq<Slot> {
    Seq::new(
        (slots.len() - 1) as nat,
        |i: int|
            if i < k {
                slots[i]
            } else {
                moved_slot(slots[i + 1], d)
            },
    )
}

/// A slot before the cut reads as it did.
proof fn slot_before(b: Seq<u8>, x: int, y: int, o: Seq<u8>, s: Slot, kind: ContainerKind, dialect: Dialect, depth: int)
    requires
        cut_out(b, x, y, o),
        slot_reads(b, s, kind, dialect, depth),
        s.end <= x,
        s.end < x ==> token_end(b, s.end, dialect),
        s.end == x ==> token_end(b, y, dialect),
    ensures
        slot_reads(o, s, kind, dialect, depth),
{
    if s.end < x {
        assert(b[s.end] == o[s.end + 0]);
    } else if y < b.len() {
        assert(b[y] == o[y + (x - y)]);
    }
    assert(copied(b, 0, s.end, o, 0));
    read_is_local(b, 0, s.end, o, 0, s.value, dialect, depth);
    built_key_is_local(b, 0, s.end, o, 0, s.at, dialect);
}

/// A slot behind the cut reads as it did.
proof fn slot_after(b: Seq<u8>, x: int, y: int, o: Seq<u8>, s: Slot, kind: ContainerKind, dialect: Dialect, depth: int)
    requires
        cut_out(b, x, y, o),
        slot_reads(b, s, kind, dialect, depth),
        y <= s.at,
    ensures
        slot_reads(o, moved_slot(s, x - y), kind, dialect, depth),
{
    let n = b.len() as int;
    read_is_local(b, y, n, o, x - y, s.value, dialect, depth);
    built_key_is_local(b, y, n, o, x - y, s.at, dialect);
}

/// What comes next where the cut is, behind another slot.
proof fn next_behind_a_slot(
    b: Seq<u8>,
    x: int,
    y: int,
    o: Seq<u8>,
    open: int,
    close: int,
    kind: ContainerKind,
    slots: Seq<Slot>,
    k: int,
    dialect: Dialect,
    depth: int,
)
    requires
        cut_out(b, x, y, o),
        laid(b, open, close, kind, slots, dialect, depth),
        0 < k < slots.len(),
        cuts_slot(b, x, y, open, slots, k, dialect),
    ensures
        open < x,
        x < y < close <= b.len(),
        k > 0 ==> slots[k - 1].end <= x && token_end(b, y, dialect),
        k + 1 < slots.len() ==> y <= slots[k + 1].at,
        next_at(o, behind(open, slots, k), dialect, closer(kind), k == 0) == Ok::<NextAt, Error>(
            if k + 1 < slots.len() {
                NextAt::Item(slots[k + 1].at + (x - y))
            } else {
                NextAt::Close(close + (x - y))
            },
        ),
{
    let d = x - y;
    slot_is_followed(b, open, close, kind, slots, dialect, depth, k);
    slot_is_followed(b, open, close, kind, slots, dialect, depth, k - 1);
    let c = trivia_end(b, slots[k].end, dialect)->Ok_0;
    trivia_end_bounds(b, y, dialect);
    trivia_joins(b, x, y, o, slots[k - 1].end, dialect);
    follows_again(b, slots[k].end, y, dialect, closer(kind));
    assert(behind(open, slots, k + 1) == slots[k].end);
    if k + 1 < slots.len() {
        slot_is_followed(b, open, close, kind, slots, dialect, depth, k + 1);
        assert(comes_next(b, open, kind, slots, dialect, k + 1));
    }
    next_is_a_boundary(b, y, dialect, closer(kind));
    reads_on(b, y, o, d, behind(open, slots, k), c, dialect, closer(kind), false);
}

/// What comes next where the cut is, behind the opener.
proof fn next_behind_the_opener(
    b: Seq<u8>,
    x: int,
    y: int,
    o: Seq<u8>,
    open: int,
    close: int,
    kind: ContainerKind,
    slots: Seq<Slot>,
    k: int,
    dialect: Dialect,
    depth: int,
)
    requires
        cut_out(b, x, y, o),
        laid(b, open, close, kind, slots, dialect, depth),
        k == 0,
        0 < slots.len(),
        cuts_slot(b, x, y, open, slots, k, dialect),
    ensures
        open < x,
        x < y < close <= b.len(),
        k > 0 ==> slots[k - 1].end <= x && token_end(b, y, dialect),
        k + 1 < slots.len() ==> y <= slots[k + 1].at,
        next_at(o, behind(open, slots, k), dialect, closer(kind), k == 0) == Ok::<NextAt, Error>(
            if k + 1 < slots.len() {
                NextAt::Item(slots[k + 1].at + (x - y))
            } else {
                NextAt::Close(close + (x - y))
            },
        ),
{
    let d = x - y;
    let n = b.len() as int;
    slot_is_followed(b, open, close, kind, slots, dialect, depth, 0);
    let c = trivia_end(b, slots[0].end, dialect)->Ok_0;
    if slots.len() > 1 {
        slot_is_followed(b, open, close, kind, slots, dialect, depth, 1);
    }
    trivia_end_bounds(b, y, dialect);
    trivia_is_local(b, y, n, o, d, y, dialect);
    let q = trivia_end(b, y, dialect)->Ok_0;
    assert(b[q] == o[q + d]);
    first_is(o, open + 1, q + d, dialect, closer(kind));
}

/// What comes next where the cut is.
proof fn next_at_cut(
    b: Seq<u8>,
    x: int,
    y: int,
    o: Seq<u8>,
    open: int,
    close: int,
    kind: ContainerKind,
    slots: Seq<Slot>,
    k: int,
    dialect: Dialect,
    depth: int,
)
    requires
        cut_out(b, x, y, o),
        laid(b, open, close, kind, slots, dialect, depth),
        0 <= k < slots.len(),
        cuts_slot(b, x, y, open, slots, k, dialect),
    ensures
        open < x,
        x < y < close <= b.len(),
        k > 0 ==> slots[k - 1].end <= x && token_end(b, y, dialect),
        k + 1 < slots.len() ==> y <= slots[k + 1].at,
        next_at(o, behind(open, slots, k), dialect, closer(kind), k == 0) == Ok::<NextAt, Error>(
            if k + 1 < slots.len() {
                NextAt::Item(slots[k + 1].at + (x - y))
            } else {
                NextAt::Close(close + (x - y))
            },
        ),
{
    if k > 0 {
        next_behind_a_slot(b, x, y, o, open, close, kind, slots, k, dialect, depth);
    } else {
        next_behind_the_opener(b, x, y, o, open, close, kind, slots, k, dialect, depth);
    }
}

/// What stands behind an opener.
pub(crate) proof fn first_is(o: Seq<u8>, pos: int, p: int, dialect: Dialect, close: u8)
    requires
        trivia_end(o, pos, dialect) == Ok::<int, Error>(p),
        p < o.len(),
    ensures
        next_at(o, pos, dialect, close, true) == Ok::<NextAt, Error>(
            if o[p] == close {
                NextAt::Close(p + 1)
            } else {
                NextAt::Item(p)
            },
        ),
{
    reveal(next_at);
}

/// The separator law goes by where the trivia ends.
proof fn follows_again(b: Seq<u8>, pos: int, y: int, dialect: Dialect, close: u8)
    requires
        trivia_end(b, y, dialect) == trivia_end(b, pos, dialect),
    ensures
        next_at(b, y, dialect, close, false) == next_at(b, pos, dialect, close, false),
{
    reveal(next_at);
}

/// What follows trivia that ends where it did in the other text, further on.
pub(crate) proof fn reads_on(b: Seq<u8>, y: int, o: Seq<u8>, d: int, pos: int, c: int, dialect: Dialect, close: u8, first: bool)
    requires
        copied(b, y, b.len() as int, o, d),
        o.len() == b.len() + d,
        0 <= y <= b.len(),
        trivia_end(b, y, dialect) == Ok::<int, Error>(c),
        trivia_end(o, pos, dialect) == Ok::<int, Error>(c + d),
        next_at(b, y, dialect, close, first) matches Ok(NextAt::Item(p)) ==> p < b.len(),
    ensures
        match next_at(b, y, dialect, close, first) {
            Ok(NextAt::Item(p)) => next_at(o, pos, dialect, close, first) == Ok::<NextAt, Error>(NextAt::Item(p + d)),
            Ok(NextAt::Close(e)) => next_at(o, pos, dialect, close, first) == Ok::<NextAt, Error>(NextAt::Close(e + d)),
            Err(_) => true,
        },
{
    next_is_local(b, y, b.len() as int, o, d, y, dialect, close, first);
    next_at_bounds(b, y, dialect, close, first);
    trivia_is_local(b, y, b.len() as int, o, d, y, dialect);
    trivia_end_bounds(b, y, dialect);
    reveal(next_at);
}

/// Where the other slots lie around a cut.
proof fn slot_beside(
    b: Seq<u8>,
    x: int,
    y: int,
    o: Seq<u8>,
    open: int,
    close: int,
    kind: ContainerKind,
    slots: Seq<Slot>,
    k: int,
    dialect: Dialect,
    depth: int,
    i: int,
)
    requires
        cut_out(b, x, y, o),
        laid(b, open, close, kind, slots, dialect, depth),
        0 <= k < slots.len(),
        cuts_slot(b, x, y, open, slots, k, dialect),
        0 <= i < slots.len(),
    ensures
        slot_reads(b, slots[i], kind, dialect, depth),
        open < slots[i].at < slots[i].end < close <= b.len(),
        i < k ==> slots[i].end <= x && (slots[i].end == x ==> i == k - 1),
        i > k ==> y <= slots[i].at && (slots[i].at == y ==> i == k + 1),
{
    next_at_cut(b, x, y, o, open, close, kind, slots, k, dialect, depth);
    slot_is_followed(b, open, close, kind, slots, dialect, depth, i);
    if i < k - 1 {
        slot_is_followed(b, open, close, kind, slots, dialect, depth, k - 1);
        assert(slots[i].end < slots[k - 1].at);
    }
    if i > k + 1 {
        slot_is_followed(b, open, close, kind, slots, dialect, depth, k + 1);
        assert(slots[k + 1].end < slots[i].at);
    }
}

/// A slot that is left reads as it did.
proof fn left_slot_reads(
    b: Seq<u8>,
    x: int,
    y: int,
    o: Seq<u8>,
    open: int,
    close: int,
    kind: ContainerKind,
    slots: Seq<Slot>,
    k: int,
    dialect: Dialect,
    depth: int,
    i: int,
)
    requires
        cut_out(b, x, y, o),
        laid(b, open, close, kind, slots, dialect, depth),
        0 <= k < slots.len(),
        cuts_slot(b, x, y, open, slots, k, dialect),
        0 <= i < slots.len() - 1,
    ensures
        slot_reads(o, left_slots(slots, k, x - y)[i], kind, dialect, depth),
        open < left_slots(slots, k, x - y)[i].at,
{
    next_at_cut(b, x, y, o, open, close, kind, slots, k, dialect, depth);
    if i < k {
        slot_beside(b, x, y, o, open, close, kind, slots, k, dialect, depth, i);
        slot_ends_at_a_boundary(b, open, close, kind, slots, dialect, depth, i);
        slot_before(b, x, y, o, slots[i], kind, dialect, depth);
    } else {
        slot_beside(b, x, y, o, open, close, kind, slots, k, dialect, depth, i + 1);
        slot_after(b, x, y, o, slots[i + 1], kind, dialect, depth);
    }
}

/// The slots that are left stay apart.
proof fn left_slots_apart(
    b: Seq<u8>,
    x: int,
    y: int,
    o: Seq<u8>,
    open: int,
    close: int,
    kind: ContainerKind,
    slots: Seq<Slot>,
    k: int,
    dialect: Dialect,
    depth: int,
    i: int,
    m: int,
)
    requires
        cut_out(b, x, y, o),
        laid(b, open, close, kind, slots, dialect, depth),
        0 <= k < slots.len(),
        cuts_slot(b, x, y, open, slots, k, dialect),
        0 <= i < m < slots.len() - 1,
    ensures
        left_slots(slots, k, x - y)[i].end < left_slots(slots, k, x - y)[m].at,
{
    let from = if i < k {
        i
    } else {
        i + 1
    };
    let to = if m < k {
        m
    } else {
        m + 1
    };
    slot_beside(b, x, y, o, open, close, kind, slots, k, dialect, depth, from);
    slot_beside(b, x, y, o, open, close, kind, slots, k, dialect, depth, to);
    assert(slots[from].end < slots[to].at);
    if from < k && to > k {
        next_at_cut(b, x, y, o, open, close, kind, slots, k, dialect, depth);
        next_at_bounds(o, behind(open, slots, k), dialect, closer(kind), k == 0);
    }
}

/// What comes next before the cut.
proof fn next_before_cut(
    b: Seq<u8>,
    x: int,
    y: int,
    o: Seq<u8>,
    open: int,
    close: int,
    kind: ContainerKind,
    slots: Seq<Slot>,
    k: int,
    dialect: Dialect,
    depth: int,
    i: int,
)
    requires
        cut_out(b, x, y, o),
        laid(b, open, close, kind, slots, dialect, depth),
        0 <= k < slots.len(),
        cuts_slot(b, x, y, open, slots, k, dialect),
        0 <= i < k,
    ensures
        ({
            let left = left_slots(slots, k, x - y);
            next_at(o, behind(open, left, i), dialect, closer(kind), i == 0) == Ok::<NextAt, Error>(
                if i < left.len() {
                    NextAt::Item(left[i].at)
                } else {
                    NextAt::Close(close + (x - y))
                },
            )
        }),
{
    let left = left_slots(slots, k, x - y);
    slot_beside(b, x, y, o, open, close, kind, slots, k, dialect, depth, i);
    assert(behind(open, left, i) == behind(open, slots, i));
    if i > 0 {
        slot_beside(b, x, y, o, open, close, kind, slots, k, dialect, depth, i - 1);
        assert(slots[i - 1].end < slots[i].at);
    }
    assert(comes_next(b, open, kind, slots, dialect, i));
    assert(left[i] == slots[i]);
    next_is_local(b, 0, x, o, 0, behind(open, slots, i), dialect, closer(kind), i == 0);
}

/// What comes next behind the cut.
proof fn next_after_cut(
    b: Seq<u8>,
    x: int,
    y: int,
    o: Seq<u8>,
    open: int,
    close: int,
    kind: ContainerKind,
    slots: Seq<Slot>,
    k: int,
    dialect: Dialect,
    depth: int,
    i: int,
)
    requires
        cut_out(b, x, y, o),
        laid(b, open, close, kind, slots, dialect, depth),
        0 <= k < slots.len(),
        cuts_slot(b, x, y, open, slots, k, dialect),
        k < i <= slots.len() - 1,
    ensures
        ({
            let left = left_slots(slots, k, x - y);
            next_at(o, behind(open, left, i), dialect, closer(kind), i == 0) == Ok::<NextAt, Error>(
                if i < left.len() {
                    NextAt::Item(left[i].at)
                } else {
                    NextAt::Close(close + (x - y))
                },
            )
        }),
{
    let d = x - y;
    let n = b.len() as int;
    let left = left_slots(slots, k, d);
    assert(left[i - 1] == moved_slot(slots[i], d));
    slot_beside(b, x, y, o, open, close, kind, slots, k, dialect, depth, i);
    assert(behind(open, slots, i + 1) == slots[i].end);
    if i + 1 < slots.len() {
        slot_beside(b, x, y, o, open, close, kind, slots, k, dialect, depth, i + 1);
        assert(comes_next(b, open, kind, slots, dialect, i + 1));
        assert(left[i] == moved_slot(slots[i + 1], d));
    }
    next_is_local(b, y, n, o, d, slots[i].end, dialect, closer(kind), false);
}

/// What comes next in the text that is left.
proof fn left_slot_is_next(
    b: Seq<u8>,
    x: int,
    y: int,
    o: Seq<u8>,
    open: int,
    close: int,
    kind: ContainerKind,
    slots: Seq<Slot>,
    k: int,
    dialect: Dialect,
    depth: int,
    i: int,
)
    requires
        cut_out(b, x, y, o),
        laid(b, open, close, kind, slots, dialect, depth),
        0 <= k < slots.len(),
        cuts_slot(b, x, y, open, slots, k, dialect),
        0 <= i <= slots.len() - 1,
    ensures
        ({
            let left = left_slots(slots, k, x - y);
            next_at(o, behind(open, left, i), dialect, closer(kind), i == 0) == Ok::<NextAt, Error>(
                if i < left.len() {
                    NextAt::Item(left[i].at)
                } else {
                    NextAt::Close(close + (x - y))
                },
            )
        }),
{
    let left = left_slots(slots, k, x - y);
    if i < k {
        next_before_cut(b, x, y, o, open, close, kind, slots, k, dialect, depth, i);
    } else if i == k {
        next_at_cut(b, x, y, o, open, close, kind, slots, k, dialect, depth);
        assert(behind(open, left, i) == behind(open, slots, k));
    } else {
        next_after_cut(b, x, y, o, open, close, kind, slots, k, dialect, depth, i);
    }
}

/// The slots that are left lie in the text that is left.
pub(crate) proof fn left_slots_lie(
    b: Seq<u8>,
    x: int,
    y: int,
    o: Seq<u8>,
    open: int,
    close: int,
    kind: ContainerKind,
    slots: Seq<Slot>,
    k: int,
    dialect: Dialect,
    depth: int,
)
    requires
        cut_out(b, x, y, o),
        laid(b, open, close, kind, slots, dialect, depth),
        0 <= k < slots.len(),
        cuts_slot(b, x, y, open, slots, k, dialect),
    ensures
        open < x < y < close <= b.len(),
        laid(o, open, close + (x - y), kind, left_slots(slots, k, x - y), dialect, depth),
{
    let left = left_slots(slots, k, x - y);
    next_at_cut(b, x, y, o, open, close, kind, slots, k, dialect, depth);
    assert forall|i: int| 0 <= i < left.len() implies slot_reads(o, #[trigger] left[i], kind, dialect, depth) && open < left[i].at by {
        left_slot_reads(b, x, y, o, open, close, kind, slots, k, dialect, depth, i);
    }
    assert forall|i: int, m: int| #![trigger left[i], left[m]] 0 <= i < m < left.len() implies left[i].end < left[m].at by {
        left_slots_apart(b, x, y, o, open, close, kind, slots, k, dialect, depth, i, m);
    }
    assert forall|i: int| 0 <= i < left.len() implies #[trigger] comes_next(o, open, kind, left, dialect, i) by {
        left_slot_is_next(b, x, y, o, open, close, kind, slots, k, dialect, depth, i);
    }
    left_slot_is_next(b, x, y, o, open, close, kind, slots, k, dialect, depth, left.len() as int);
}

/// The cut of a collected member: its bytes with the comma before it, else the comma
/// behind it.
proof fn member_is_cut(
    b: Seq<u8>,
    open: int,
    close: int,
    kind: ContainerKind,
    slots: Seq<Slot>,
    k: int,
    dialect: Dialect,
    depth: int,
    m: MemberModel,
)
    requires
        laid(b, open, close, kind, slots, dialect, depth),
        0 <= k < slots.len(),
        collected_as(m, b, glue_start(b, open, slots, k, dialect), slots[k], kind, dialect),
        b[open] == LBRACE || b[open] == LBRACKET,
    ensures
        cuts_slot(
            b,
            with_comma(b, m.start, m.end, dialect).0,
            with_comma(b, m.start, m.end, dialect).1,
            open,
            slots,
            k,
            dialect,
        ),
        0 <= with_comma(b, m.start, m.end, dialect).0 <= with_comma(b, m.start, m.end, dialect).1 <= b.len(),
{
    slot_is_followed(b, open, close, kind, slots, dialect, depth, k);
    if k > 0 {
        slot_is_followed(b, open, close, kind, slots, dialect, depth, k - 1);
    }
    assert(before_ws(b, m.start) == m.start);
}

/// The cut text.
proof fn exchanged_is_cut(b: Seq<u8>, x: int, y: int)
    requires
        0 <= x <= y <= b.len(),
    ensures
        cut_out(b, x, y, exchanged(b, x, y, Seq::empty())),
{
    let o = exchanged(b, x, y, Seq::empty());
    let d = x - y;
    assert forall|i: int| 0 <= i < x implies #[trigger] b[i] == o[i + 0] by {}
    assert forall|i: int| y <= i < b.len() implies #[trigger] b[i] == o[i + d] by {}
}

/// The splice that is planned for a delete is the cut of a collected member.
proof fn delete_is_planned(
    b: Seq<u8>,
    dialect: Dialect,
    path: Seq<StepModel>,
    kind: ContainerKind,
    s: ByteRange,
    ms: Seq<MemberModel>,
    m: MemberModel,
)
    requires
        path.len() > 0,
        s.start < s.end <= b.len(),
        b[s.start as int] == (if kind is Object {
            LBRACE
        } else {
            LBRACKET
        }),
        members_from(b, s.start + 1, s.end as int, kind, dialect, Seq::empty()) == Ok::<Seq<MemberModel>, Error>(ms),
        path.last() is Key == kind is Object,
        target_of(ms, path.last()) == Some(m),
    ensures
        planned_splice(b, 0, EditModel::Delete(path), Some(s), dialect) == Ok::<Seq<SpliceModel>, Error>(
            seq![
                plain_splice(
                    0,
                    with_comma(b, m.start, m.end, dialect).0,
                    with_comma(b, m.start, m.end, dialect).1,
                    Seq::empty(),
                ),
            ],
        ),
{
    trivia_end_here(b, s.start as int, dialect);
    let e = EditModel::Delete(path);
    assert(planned_splice(b, 0, e, Some(s), dialect) == planned_delete(b, 0, path, Some(s), dialect));
    assert(container_at(b, s.start as int, dialect) == Ok::<Option<ContainerKind>, Error>(Some(kind)));
    assert(members_of(b, s, dialect) == Ok::<Seq<MemberModel>, Error>(ms));
}

/// A text without the slot at position `k` of the container that a path leads to reads
/// as the value with the container without that slot.
#[verifier::rlimit(60)]
proof fn slot_text_is_cut(
    b: Seq<u8>,
    dialect: Dialect,
    before: Seq<StepModel>,
    j: Json,
    kind: ContainerKind,
    open: int,
    close: int,
    slots: Seq<Slot>,
    k: int,
    x: int,
    y: int,
)
    requires
        text_value(b, dialect) == Ok::<Json, Error>(j),
        tree_at(j, before) is Some,
        spot(b, trivia_end(b, text_start(b), dialect)->Ok_0, dialect, 0, before) == Some(open),
        built(b, open, unbounded(dialect), no_room(), 0) matches Ok((e, _, _)) && e == close,
        before.len() < MAX_NESTING,
        laid(b, open, close, kind, slots, dialect, before.len() as int + 1),
        b[open] == (if kind is Object {
            LBRACE
        } else {
            LBRACKET
        }),
        0 <= k < slots.len(),
        0 <= x <= y <= b.len(),
        cuts_slot(b, x, y, open, slots, k, dialect),
    ensures
        updated(j, before, Change::Put(container_value(kind, left_slots(slots, k, 0)))) matches Some(new) && text_value(
            exchanged(b, x, y, Seq::empty()),
            dialect,
        ) == Ok::<Json, Error>(new),
{
    let depth = before.len() as int;
    let d = x - y;
    let o = exchanged(b, x, y, Seq::empty());
    exchanged_is_cut(b, x, y);
    left_slots_lie(b, x, y, o, open, close, kind, slots, k, dialect, depth + 1);
    let left = left_slots(slots, k, d);
    let v = container_value(kind, left);
    values_do_not_move(kind, slots, k, d);
    assert(b[open] == o[open + 0]);
    laid_container_reads(o, open, close + d, kind, left, dialect, depth);
    container_is_exchanged(b, open, close, o, d, dialect, before, j, v);
}

/// A delete of the slot at position `k` of the container that a path leads to: the text
/// that comes out reads as the value with the container without that slot.
#[verifier::rlimit(60)]
proof fn slot_is_deleted(
    b: Seq<u8>,
    dialect: Dialect,
    before: Seq<StepModel>,
    step: StepModel,
    j: Json,
    kind: ContainerKind,
    s: ByteRange,
    slots: Seq<Slot>,
    ms: Seq<MemberModel>,
    k: int,
)
    requires
        text_value(b, dialect) == Ok::<Json, Error>(j),
        tree_at(j, before) is Some,
        scanned(b, locating(seq![EditModel::Delete(before.push(step))], dialect, false)) matches Ok((answers, _)) && answers.len()
            == 1 && (answers[0] matches AnswerModel::Document(found) && found.root == s),
        spot(b, trivia_end(b, text_start(b), dialect)->Ok_0, dialect, 0, before) == Some(s.start as int),
        built(b, s.start as int, unbounded(dialect), no_room(), 0) matches Ok((e, _, _)) && e == s.end,
        s.start < s.end <= b.len(),
        before.len() < MAX_NESTING,
        laid(b, s.start as int, s.end as int, kind, slots, dialect, before.len() as int + 1),
        b[s.start as int] == (if kind is Object {
            LBRACE
        } else {
            LBRACKET
        }),
        members_from(b, s.start + 1, s.end as int, kind, dialect, Seq::empty()) == Ok::<Seq<MemberModel>, Error>(ms),
        0 <= k < slots.len(),
        k < ms.len(),
        collected_as(ms[k], b, glue_start(b, s.start as int, slots, k, dialect), slots[k], kind, dialect),
        step is Key == kind is Object,
        target_of(ms, step) == Some(ms[k]),
    ensures
        edited(b, seq![EditModel::Delete(before.push(step))], dialect) matches Ok(out) && updated(
            j,
            before,
            Change::Put(container_value(kind, left_slots(slots, k, 0))),
        ) matches Some(new) && text_value(out, dialect) == Ok::<Json, Error>(new),
{
    let path = before.push(step);
    let e = EditModel::Delete(path);
    assert(path.drop_last() =~= before);
    let m = ms[k];
    let x = with_comma(b, m.start, m.end, dialect).0;
    let y = with_comma(b, m.start, m.end, dialect).1;
    delete_is_planned(b, dialect, path, kind, s, ms, m);
    member_is_cut(b, s.start as int, s.end as int, kind, slots, k, dialect, before.len() as int + 1, m);
    edit_is_one_splice(b, dialect, e, before, s, x, y, Seq::empty());
    slot_text_is_cut(b, dialect, before, j, kind, s.start as int, s.end as int, slots, k, x, y);
    read_text_is_strict(exchanged(b, x, y, Seq::empty()), dialect);
}

/// A container with another in its place.
pub(crate) proof fn container_is_exchanged(
    b: Seq<u8>,
    at: int,
    to: int,
    o: Seq<u8>,
    d: int,
    dialect: Dialect,
    path: Seq<StepModel>,
    j: Json,
    v: Json,
)
    requires
        text_value(b, dialect) == Ok::<Json, Error>(j),
        tree_at(j, path) is Some,
        swapped(b, at, to, o, d),
        spot(b, trivia_end(b, text_start(b), dialect)->Ok_0, dialect, 0, path) == Some(at),
        built(b, at, unbounded(dialect), no_room(), 0) matches Ok((e, _, _)) && e == to,
        built(o, at, unbounded(dialect), no_room(), path.len() as int) == Ok::<(int, Json, Room), Error>((to + d, v, no_room())),
    ensures
        updated(j, path, Change::Put(v)) matches Some(new) && text_value(o, dialect) == Ok::<Json, Error>(new),
{
    let pos = trivia_end(b, text_start(b), dialect)->Ok_0;
    let e = built(b, pos, unbounded(dialect), no_room(), 0)->Ok_0.0;
    text_facts(b, dialect);
    place_facts(b, pos, dialect, path, at);
    value_swapped(b, at, to, o, d, pos, dialect, 0, path, e, j, v);
    value_start(o, at, dialect, path.len() as int);
    start_is_kept(b, at, to, o, d, dialect, pos, path.len() as int);
    end_is_kept(b, at, to, o, d, e, dialect);
    let new = updated(j, path, Change::Put(v))->0;
    text_reads(o, pos, e + d, new, dialect);
}

/// What slots read as does not depend on where they stand.
proof fn values_do_not_move(kind: ContainerKind, slots: Seq<Slot>, k: int, d: int)
    requires
        0 <= k < slots.len(),
    ensures
        container_value(kind, left_slots(slots, k, d)) == container_value(kind, left_slots(slots, k, 0)),
        element_values(left_slots(slots, k, d)) == element_values(slots).remove(k),
{
    let a = left_slots(slots, k, d);
    let c = left_slots(slots, k, 0);
    assert(element_values(a) =~= element_values(c));
    assert(element_values(a) =~= element_values(slots).remove(k));
    same_members(a, c);
}

proof fn same_members(a: Seq<Slot>, c: Seq<Slot>)
    requires
        a.len() == c.len(),
        forall|i: int| 0 <= i < a.len() ==> (#[trigger] a[i]).key == c[i].key && a[i].read == c[i].read,
    ensures
        member_values(a) == member_values(c),
    decreases a.len(),
{
    if a.len() > 0 {
        assert forall|i: int| 0 <= i < a.len() - 1 implies (#[trigger] a.drop_last()[i]).key == c.drop_last()[i].key && a.drop_last()[i].read
            == c.drop_last()[i].read by {
            assert(a.drop_last()[i] == a[i]);
        }
        same_members(a.drop_last(), c.drop_last());
        let n = a.len() - 1;
        assert(a[n].key == c[n].key);
    }
}

/// A deleted element is gone, and the others keep their values and their order: the text
/// that comes out reads as the value with the array without that one element. An index
/// below zero names the element that many places before the end.
#[verifier::rlimit(60)]
pub proof fn deleted_element_is_gone(
    b: Seq<u8>,
    dialect: Dialect,
    before: Seq<StepModel>,
    index: i64,
    j: Json,
    items: Seq<Json>,
)
    requires
        b.len() <= usize::MAX,
        text_value(b, dialect) == Ok::<Json, Error>(j),
        tree_at(j, before) == Some(Json::Array(items)),
        -items.len() <= index < items.len(),
    ensures
        ({
            let k = if index < 0 {
                items.len() + index
            } else {
                index as int
            };
            edited(b, seq![EditModel::Delete(before.push(StepModel::Index(index)))], dialect) matches Ok(out) && updated(
                j,
                before,
                Change::Put(Json::Array(items.remove(k))),
            ) matches Some(new) && text_value(out, dialect) == Ok::<Json, Error>(new)
        }),
{
    let step = StepModel::Index(index);
    let e = EditModel::Delete(before.push(step));
    let k = if index < 0 {
        items.len() + index
    } else {
        index as int
    };
    assert(before.push(step).drop_last() =~= before);
    let s = edit_is_located(b, dialect, e, before, j);
    let slots = found_container_is_laid(b, dialect, before, j, ContainerKind::Array, s.start as int);
    assert(element_values(slots).len() == slots.len());
    let ms = slots_are_collected(
        b,
        s.start as int,
        s.end as int,
        ContainerKind::Array,
        slots,
        dialect,
        before.len() as int + 1,
    );
    assert(collected_as(ms[k], b, glue_start(b, s.start as int, slots, k, dialect), slots[k], ContainerKind::Array, dialect));
    slot_is_deleted(b, dialect, before, step, j, ContainerKind::Array, s, slots, ms, k);
    values_do_not_move(ContainerKind::Array, slots, k, 0);
}

/// The last member of a name is what a lookup among the collected ones finds.
pub(crate) proof fn last_is_found(ms: Seq<MemberModel>, name: Seq<u8>, k: int)
    requires
        0 <= k < ms.len(),
        ms[k].key == Some(name),
        forall|i: int| k < i < ms.len() ==> (#[trigger] ms[i]).key != Some(name),
    ensures
        last_with_key(ms, name) == Some(ms[k]),
    decreases ms.len(),
{
    if k < ms.len() - 1 {
        assert(ms[ms.len() - 1].key != Some(name));
        assert forall|i: int| k < i < ms.len() - 1 implies (#[trigger] ms.drop_last()[i]).key != Some(name) by {
            assert(ms.drop_last()[i] == ms[i]);
        }
        last_is_found(ms.drop_last(), name, k);
    }
}

/// Whether the member at position `k` is the last of a name.
pub open spec fn last_of_name(members: Seq<(Seq<u8>, Json)>, name: Seq<u8>, k: int) -> bool {
    &&& 0 <= k < members.len()
    &&& members[k].0 == name
    &&& forall|i: int| k < i < members.len() ==> (#[trigger] members[i]).0 != name
}

/// Whether no two members have this name.
pub open spec fn stands_once(members: Seq<(Seq<u8>, Json)>, name: Seq<u8>) -> bool {
    forall|i: int, k: int|
        #![trigger members[i], members[k]]
        0 <= i < k < members.len() ==> members[i].0 != name || members[k].0 != name
}

/// The last member of a name is the one that an edit takes.
pub(crate) proof fn member_is_targeted(
    b: Seq<u8>,
    dialect: Dialect,
    depth: int,
    name: Seq<u8>,
    s: ByteRange,
    slots: Seq<Slot>,
    k: int,
) -> (ms: Seq<MemberModel>)
    requires
        0 <= depth,
        laid(b, s.start as int, s.end as int, ContainerKind::Object, slots, dialect, depth),
        last_of_name(pairs(slots), name, k),
    ensures
        members_from(b, s.start + 1, s.end as int, ContainerKind::Object, dialect, Seq::empty()) == Ok::<Seq<MemberModel>, Error>(ms),
        ms.len() == slots.len(),
        forall|q: int|
            0 <= q < slots.len() ==> collected_as(
                #[trigger] ms[q],
                b,
                glue_start(b, s.start as int, slots, q, dialect),
                slots[q],
                ContainerKind::Object,
                dialect,
            ),
        target_of(ms, StepModel::Key(name)) == Some(ms[k]),
{
    let kind = ContainerKind::Object;
    let ms = slots_are_collected(b, s.start as int, s.end as int, kind, slots, dialect, depth);
    assert(collected_as(ms[k], b, glue_start(b, s.start as int, slots, k, dialect), slots[k], kind, dialect));
    assert forall|i: int| k < i < ms.len() implies (#[trigger] ms[i]).key != Some(name) by {
        assert(collected_as(ms[i], b, glue_start(b, s.start as int, slots, i, dialect), slots[i], kind, dialect));
        assert(pairs(slots)[i].0 != name);
    }
    last_is_found(ms, name, k);
    ms
}

/// A deleted member is gone, and the others keep their values and their order: the text
/// that comes out reads as the value with the object that has all members of the text but
/// the last one of that name.
#[verifier::rlimit(60)]
pub proof fn deleted_member_is_gone(
    b: Seq<u8>,
    dialect: Dialect,
    before: Seq<StepModel>,
    name: Seq<u8>,
    j: Json,
    k: int,
)
    requires
        b.len() <= usize::MAX,
        text_value(b, dialect) == Ok::<Json, Error>(j),
        tree_at(j, before) matches Some(x) && x is Object,
        last_of_name(members_in(b, dialect, before), name, k),
    ensures
        tree_at(j, before) == Some(Json::Object(gathered(members_in(b, dialect, before)))),
        edited(b, seq![EditModel::Delete(before.push(StepModel::Key(name)))], dialect) matches Ok(out) && updated(
            j,
            before,
            Change::Put(Json::Object(gathered(members_in(b, dialect, before).remove(k)))),
        ) matches Some(new) && text_value(out, dialect) == Ok::<Json, Error>(new),
{
    let step = StepModel::Key(name);
    let e = EditModel::Delete(before.push(step));
    let kind = ContainerKind::Object;
    assert(before.push(step).drop_last() =~= before);
    let s = edit_is_located(b, dialect, e, before, j);
    object_is_gathered(b, dialect, before, j, s.start as int);
    let slots = found_container_is_laid(b, dialect, before, j, kind, s.start as int);
    members_in_are_slots(b, dialect, before, s.start as int, s.end as int, slots);
    let ms = member_is_targeted(b, dialect, before.len() as int + 1, name, s, slots, k);
    slot_is_deleted(b, dialect, before, step, j, kind, s, slots, ms, k);
    left_is_gathered(slots, k);
}

proof fn left_is_gathered(slots: Seq<Slot>, k: int)
    requires
        0 <= k < slots.len(),
    ensures
        container_value(ContainerKind::Object, left_slots(slots, k, 0)) == Json::Object(gathered(pairs(slots).remove(k))),
{
    let left = left_slots(slots, k, 0);
    members_are_gathered(left);
    assert(pairs(left) =~= pairs(slots).remove(k));
}

/// Without a name, gathering leaves the other members as they are.
pub(crate) proof fn gathered_without(list: Seq<(Seq<u8>, Json)>, name: Seq<u8>)
    requires
        forall|i: int| 0 <= i < list.len() ==> (#[trigger] list[i]).0 != name,
    ensures
        forall|i: int| 0 <= i < gathered(list).len() ==> (#[trigger] gathered(list)[i]).0 != name,
    decreases list.len(),
{
    if list.len() > 0 {
        assert forall|i: int| 0 <= i < list.len() - 1 implies (#[trigger] list.drop_last()[i]).0 != name by {
            assert(list.drop_last()[i] == list[i]);
        }
        gathered_without(list.drop_last(), name);
        assert(list[list.len() - 1].0 != name);
        let done = gathered(list.drop_last());
        position_of(done, list.last().0, 0);
    }
}

/// A name that stands once is gathered to one member, and without it the others are
/// gathered as they were.
proof fn gathered_but_one(list: Seq<(Seq<u8>, Json)>, k: int) -> (at: int)
    requires
        0 <= k < list.len(),
        forall|i: int| 0 <= i < list.len() && i != k ==> (#[trigger] list[i]).0 != list[k].0,
    ensures
        0 <= at < gathered(list).len(),
        gathered(list)[at] == list[k],
        gathered(list.remove(k)) == gathered(list).remove(at),
    decreases list.len(),
{
    let name = list[k].0;
    let n = list.len() - 1;
    let front = list.drop_last();
    let done = gathered(front);
    if k == n {
        assert forall|i: int| 0 <= i < front.len() implies (#[trigger] front[i]).0 != name by {
            assert(front[i] == list[i]);
        }
        gathered_without(front, name);
        position_of(done, name, 0);
        assert(list.remove(k) =~= front);
        assert(gathered(list).remove(done.len() as int) =~= done);
        done.len() as int
    } else {
        assert forall|i: int| 0 <= i < front.len() && i != k implies (#[trigger] front[i]).0 != front[k].0 by {
            assert(front[i] == list[i]);
        }
        let at = gathered_but_one(front, k);
        let key = list.last().0;
        let x = list.last().1;
        assert(list[n].0 != name);
        assert(list.remove(k).drop_last() =~= front.remove(k));
        assert(list.remove(k).last() == list.last());
        let p = key_position(done, key, 0);
        position_of(done, key, 0);
        let less = done.remove(at);
        let q = if p < at {
            p
        } else {
            p - 1
        };
        assert(p != at);
        assert forall|i: int| 0 <= i < q implies (#[trigger] less[i]).0 != key by {
            if i < at {
                assert(less[i] == done[i]);
            } else {
                assert(less[i] == done[i + 1]);
            }
        }
        position_is(less, key, 0, q);
        assert(merged(less, key, x) =~= merged(done, key, x).remove(at));
        at
    }
}

/// An object reads as its members gathered, under distinct names.
pub(crate) proof fn object_is_gathered(b: Seq<u8>, dialect: Dialect, before: Seq<StepModel>, j: Json, open: int)
    requires
        text_value(b, dialect) == Ok::<Json, Error>(j),
        tree_at(j, before) matches Some(x) && x is Object,
        spot(b, trivia_end(b, text_start(b), dialect)->Ok_0, dialect, 0, before) == Some(open),
    ensures
        tree_at(j, before) == Some(Json::Object(gathered(members_in(b, dialect, before)))),
        apart(gathered(members_in(b, dialect, before))),
{
    let slots = found_container_is_laid(b, dialect, before, j, ContainerKind::Object, open);
    let close = built(b, open, unbounded(dialect), no_room(), 0)->Ok_0.0;
    members_in_are_slots(b, dialect, before, open, close, slots);
    members_are_gathered(slots);
    let read = gathered(members_in(b, dialect, before));
    let (e, x, r) = built(b, open, unbounded(dialect), no_room(), 0)->Ok_0;
    assert(x == Json::Object(read));
    crate::laws::parse::read_object_is_distinct(b, open, dialect, 0);
    assert(built(b, open, unbounded(dialect), no_room(), 0) == Ok::<(int, Json, Room), Error>((e, Json::Object(read), r)));
    names_apart(built(b, open, unbounded(dialect), no_room(), 0), e, read, r);
}

proof fn names_apart(told: Result<(int, Json, Room), Error>, e: int, read: Seq<(Seq<u8>, Json)>, r: Room)
    requires
        told == Ok::<(int, Json, Room), Error>((e, Json::Object(read), r)),
        told matches Ok((_, Json::Object(own), _)) ==> forall|i: int, k: int|
            0 <= i < k < own.len() ==> (#[trigger] own[i]).0 != (#[trigger] own[k]).0,
    ensures
        apart(read),
{
    let own = told->Ok_0.1->Object_0;
    assert(own == read);
    assert(apart(own)) by {
        assert forall|i: int, k: int| 0 <= i < k < own.len() implies (#[trigger] own[i]).0 != (#[trigger] own[k]).0 by {
            assert(own[i].0 != own[k].0);
        }
    }
}

/// Whether no two members have one name.
pub open spec fn apart(members: Seq<(Seq<u8>, Json)>) -> bool {
    forall|i: int, k: int| 0 <= i < k < members.len() ==> (#[trigger] members[i]).0 != (#[trigger] members[k]).0
}

/// Where the member that is gathered at a place stands, when its name stands once.
proof fn the_one_member(list: Seq<(Seq<u8>, Json)>, name: Seq<u8>, at: int) -> (k: int)
    requires
        apart(gathered(list)),
        0 <= at < gathered(list).len(),
        gathered(list)[at].0 == name,
        stands_once(list, name),
    ensures
        last_of_name(list, name, k),
        gathered(list.remove(k)) == gathered(list).remove(at),
{
    if forall|i: int| 0 <= i < list.len() ==> (#[trigger] list[i]).0 != name {
        gathered_without(list, name);
    }
    let k = choose|i: int| 0 <= i < list.len() && (#[trigger] list[i]).0 == name;
    assert forall|i: int| 0 <= i < list.len() && i != k implies (#[trigger] list[i]).0 != list[k].0 by {
        if i < k {
            assert(list[i].0 != name || list[k].0 != name);
        } else {
            assert(list[k].0 != name || list[i].0 != name);
        }
    }
    let place = gathered_but_one(list, k);
    let members = gathered(list);
    if place < at {
        assert(members[place].0 != members[at].0);
    } else if at < place {
        assert(members[at].0 != members[place].0);
    }
    k
}

/// A deleted member whose name stands once in its object is gone: the text that comes
/// out reads as the value with the object without that one member.
#[verifier::rlimit(60)]
pub proof fn deleted_name_is_gone(
    b: Seq<u8>,
    dialect: Dialect,
    before: Seq<StepModel>,
    name: Seq<u8>,
    j: Json,
    members: Seq<(Seq<u8>, Json)>,
    at: int,
)
    requires
        b.len() <= usize::MAX,
        text_value(b, dialect) == Ok::<Json, Error>(j),
        tree_at(j, before) == Some(Json::Object(members)),
        0 <= at < members.len(),
        members[at].0 == name,
        stands_once(members_in(b, dialect, before), name),
    ensures
        edited(b, seq![EditModel::Delete(before.push(StepModel::Key(name)))], dialect) matches Ok(out) && updated(
            j,
            before,
            Change::Put(Json::Object(members.remove(at))),
        ) matches Some(new) && text_value(out, dialect) == Ok::<Json, Error>(new),
{
    path_is_found(b, strict_ask(dialect, false), j, before);
    let open = spot(b, trivia_end(b, text_start(b), dialect)->Ok_0, dialect, 0, before)->0;
    object_is_gathered(b, dialect, before, j, open);
    let k = the_one_member(members_in(b, dialect, before), name, at);
    deleted_member_is_gone(b, dialect, before, name, j, k);
}

/// The plan of one edit that splices nothing leaves the text as it is.
#[verifier::rlimit(60)]
proof fn edit_is_no_splice(b: Seq<u8>, dialect: Dialect, e: EditModel, path: Seq<StepModel>, found: Option<ByteRange>)
    requires
        !(e is Fact),
        edit_demand(e, dialect) == Some(at_path(path)),
        planned_splice(b, 0, e, found, dialect) == Ok::<Seq<SpliceModel>, Error>(Seq::empty()),
        scanned(b, locating(seq![e], dialect, false)) matches Ok((answers, _)) && answers.len() == 1 && located_span(b, answers[0], e)
            == Ok::<Option<ByteRange>, Error>(found),
    ensures
        edited(b, seq![e], dialect) == Ok::<Seq<u8>, Error>(b),
{
    reveal(plan_of);
    reveal(planned_edit);
    let edits = seq![e];
    assert(!any_fact(edits)) by {
        assert forall|i: int| 0 <= i < edits.len() implies !writes_fact(#[trigger] edits[i]) by {}
    }
    let answers = scanned(b, locating(edits, dialect, false))->Ok_0.0;
    reveal_with_fuel(located_spans, 2);
    reveal_with_fuel(demands_of, 2);
    reveal_with_fuel(planned_edits, 2);
    let spans = located_spans(b, answers, 0, edits, 1, dialect);
    assert(spans == Ok::<Seq<Option<ByteRange>>, Error>(Seq::<Option<ByteRange>>::empty().push(found)));
    let none = Seq::<SpliceModel>::empty();
    assert(none + none =~= none);
    assert(planned_edits(b, edits, spans->Ok_0, 1, dialect, Seq::empty())->Ok_0.0 == none);
    reveal_with_fuel(apply_order, 2);
    reveal_with_fuel(first_conflict, 2);
    reveal_with_fuel(first_outside, 2);
}

/// Where there is nothing to delete nothing is planned.
#[verifier::rlimit(60)]
proof fn nothing_is_planned(b: Seq<u8>, dialect: Dialect, before: Seq<StepModel>, step: StepModel, j: Json, s: ByteRange)
    requires
        text_value(b, dialect) == Ok::<Json, Error>(j),
        tree_at(j, before) is Some,
        tree_at(j, before.push(step)) is None,
        spot(b, trivia_end(b, text_start(b), dialect)->Ok_0, dialect, 0, before) == Some(s.start as int),
        reads_at(b, s, tree_at(j, before)->0, dialect),
    ensures
        planned_splice(b, 0, EditModel::Delete(before.push(step)), Some(s), dialect) == Ok::<Seq<SpliceModel>, Error>(Seq::empty()),
{
    let path = before.push(step);
    let e = EditModel::Delete(path);
    let x = tree_at(j, before)->0;
    let open = s.start as int;
    assert(planned_splice(b, 0, e, Some(s), dialect) == planned_delete(b, 0, path, Some(s), dialect));
    tree_steps_on(j, before, step);
    let one = seq![step];
    assert(one.skip(1) =~= Seq::<StepModel>::empty());
    reveal_with_fuel(tree_at, 2);
    value_start(b, open, dialect, 0);
    trivia_end_here(b, open, dialect);
    opens_as(b, open, dialect, 0);
    crate::laws::oracles::kind_is_read(b, open, dialect, 0);
    if (x is Object && step is Key) || (x is Array && step is Index) {
        let kind = if x is Object {
            ContainerKind::Object
        } else {
            ContainerKind::Array
        };
        let depth = before.len() as int + 1;
        let slots = found_container_is_laid(b, dialect, before, j, kind, open);
        let ms = slots_are_collected(b, open, s.end as int, kind, slots, dialect, depth);
        assert(members_of(b, s, dialect) == Ok::<Seq<MemberModel>, Error>(ms));
        match step {
            StepModel::Key(name) => {
                no_slot_is_named(slots, name);
                assert forall|i: int| 0 <= i < ms.len() implies (#[trigger] ms[i]).key != Some(name) by {
                    assert(collected_as(ms[i], b, glue_start(b, open, slots, i, dialect), slots[i], kind, dialect));
                    assert(slots[i].key != name);
                }
                crate::laws::inserts::none_is_found(ms, name);
            },
            StepModel::Index(index) => {
                assert(element_values(slots).len() == slots.len());
            },
        }
    }
}

/// A name that no gathered member has is on no slot.
proof fn no_slot_is_named(slots: Seq<Slot>, name: Seq<u8>)
    requires
        crate::value::last_member(member_values(slots), name) is None,
    ensures
        forall|i: int| 0 <= i < slots.len() ==> (#[trigger] slots[i]).key != name,
{
    let members = member_values(slots);
    crate::value::last_member_facts(members, name);
    members_are_gathered(slots);
    assert forall|i: int| 0 <= i < slots.len() implies (#[trigger] slots[i]).key != name by {
        crate::laws::inserts::gathered_has(pairs(slots), i);
        let at = choose|at: int| 0 <= at < members.len() && (#[trigger] members[at]).0 == pairs(slots)[i].0;
        assert(members[at].0 != name);
    }
}

/// A delete of what is not there changes nothing: the text that comes out is the text
/// that went in.
#[verifier::rlimit(60)]
pub proof fn deleting_what_is_absent_changes_nothing(b: Seq<u8>, dialect: Dialect, before: Seq<StepModel>, step: StepModel, j: Json)
    requires
        b.len() <= usize::MAX,
        text_value(b, dialect) == Ok::<Json, Error>(j),
        tree_at(j, before.push(step)) is None,
    ensures
        edited(b, seq![EditModel::Delete(before.push(step))], dialect) == Ok::<Seq<u8>, Error>(b),
{
    let path = before.push(step);
    let e = EditModel::Delete(path);
    assert(path.drop_last() =~= before);
    if tree_at(j, before) is Some {
        let s = edit_is_located(b, dialect, e, before, j);
        nothing_is_planned(b, dialect, before, step, j, s);
        edit_is_no_splice(b, dialect, e, before, Some(s));
    } else {
        let ask = locating(seq![e], dialect, false);
        reveal_with_fuel(demands_of, 2);
        assert(ask.demands =~= seq![at_path(before)]);
        path_answers_are_lookups(b, ask, j);
        assert(steps_of(ask.demands[0]) == before);
        assert(answer_fits(scanned(b, ask)->Ok_0.0[0], None, dialect));
        edit_is_no_splice(b, dialect, e, before, None);
    }
}

} // verus!
