//! Which values own the comments around them.

use vstd::prelude::*;

use crate::answer::AnswerModel;
use crate::ascii::{COMMA, LBRACE, LBRACKET, RBRACE, RBRACKET, SLASH};
use crate::demand::StepModel;
use crate::dialect::Dialect;
use crate::edit::members::ContainerKind;
use crate::error::Error;
use crate::facts::{
    closes_next, collected, container_facts, fact, gap_fact, gap_facts, has_slash, next_child, top_facts,
    trailer_facts, trivia_read, value_after_key, value_facts, FactModel, FactRole,
};
use crate::framing::text_start;
use crate::laws::forms::{no_room, unbounded};
use crate::laws::locate::valid_value_is_located;
use crate::laws::oracles::kind_is_read;
use crate::laws::parse::parse_agrees_with_strict_skip;
use crate::laws::assign::{place_facts, text_facts};
use crate::laws::indices::{asked_at, found_at};
use crate::scan::{any_whole, scanned, strict_ask};
use crate::laws::filters::{array_text_has_slots, index_finds_the_slot, begins, array_starts_are_slots};
use crate::laws::replace::{opens_as, spot_reads};
use crate::laws::paths::{answer_fits, path_answers_are_lookups, steps_of, item_starts, read_at_lower_depth, last_start, member_starts, spot, text_value, tree_at};
use crate::laws::local::{built_key_is, key_of, led_to};
use crate::laws::locate::key_is_located;
use crate::lex::{key_text, key_text_end};
use crate::laws::slots::{
    named_starts, member_starts_are_slots, next_is_separated, behind, closer, comes_next, container_is_laid, laid,
    slot_is_followed, slot_reads, Slot,
};
use crate::lex::skip::{MAX_NESTING};
use crate::lex::stop_sets::{is_space, run_end, run_end_facts, CommentStart, StopSet, Ws};
use crate::lex::ws::{comment_end, comment_end_bounds, token_end, trivia_end, trivia_end_bounds};
use crate::tape::built;
use crate::value::{span, ByteRange, Json};

verus! {

/// Whether nothing but blanks of one line and separators stand in `[from, to)`.
pub open spec fn on_one_line(b: Seq<u8>, from: int, to: int) -> bool {
    &&& from <= to
    &&& forall|i: int| from <= i < to ==> (#[trigger] b[i] == 0x20 || b[i] == 0x09 || b[i] == 0x0d || b[i] == 0x2c)
}

/// Whether a fact that is a foot stands behind its owner, on the line where that ends.
pub open spec fn foot_is_placed(b: Seq<u8>, f: FactModel) -> bool {
    f.role == FactRole::CommentFoot ==> (f.source_span matches Some(c) && on_one_line(b, f.owner.end as int, c.start as int))
}

spec fn feet_are_placed(b: Seq<u8>, facts: Seq<FactModel>) -> bool {
    forall|i: int| 0 <= i < facts.len() ==> foot_is_placed(b, #[trigger] facts[i])
}

proof fn feet_join(b: Seq<u8>, x: Seq<FactModel>, y: Seq<FactModel>)
    requires
        feet_are_placed(b, x),
        feet_are_placed(b, y),
    ensures
        feet_are_placed(b, x + y),
{
    assert forall|i: int| 0 <= i < (x + y).len() implies foot_is_placed(b, #[trigger] (x + y)[i]) by {
        if i >= x.len() {
            assert((x + y)[i] == y[i - x.len()]);
        }
    }
}

proof fn gap_feet(b: Seq<u8>, comments: Seq<(int, int)>, previous: Option<ByteRange>, next: ByteRange)
    requires
        b.len() <= usize::MAX,
    ensures
        feet_are_placed(b, gap_facts(b, comments, previous, next, true)),
    decreases comments.len(),
{
    if comments.len() > 0 {
        gap_feet(b, comments.drop_last(), previous, next);
        let c = comments.last();
        let one = gap_fact(b, c, previous, next, true);
        assert(feet_are_placed(b, one));
        feet_join(b, gap_facts(b, comments.drop_last(), previous, next, true), one);
    }
}

proof fn value_feet(b: Seq<u8>, next: int, dialect: Dialect)
    requires
        b.len() <= usize::MAX,
    ensures
        feet_are_placed(b, value_facts(b, next, dialect, true).1),
    decreases b.len() - next, 0nat,
{
    if 0 <= next < b.len() {
        let close = if b[next] == LBRACKET {
            RBRACKET
        } else {
            RBRACE
        };
        container_feet(b, next, close, next + 1, None, Seq::empty(), dialect);
    }
}

proof fn container_feet(
    b: Seq<u8>,
    start: int,
    close: u8,
    pos: int,
    previous: Option<ByteRange>,
    found: Seq<FactModel>,
    dialect: Dialect,
)
    requires
        b.len() <= usize::MAX,
        feet_are_placed(b, found),
    ensures
        feet_are_placed(b, container_facts(b, start, close, pos, previous, found, dialect, true).1),
    decreases b.len() - pos, 1nat,
{
    if let Some((next, comments)) = next_child(b, pos, close, dialect) {
        if closes_next(b, pos, close) {
            let more = trailer_facts(b, comments, previous, span(start, next + 1), true);
            feet_join(b, found, more);
        } else if pos <= next < b.len() {
            value_feet(b, next, dialect);
            let (end, inner) = value_facts(b, next, dialect, true);
            let value = span(next, end);
            if next < end <= b.len() {
                let gap = gap_facts(b, comments, previous, value, true);
                gap_feet(b, comments, previous, value);
                feet_join(b, found, gap);
                feet_join(b, found + gap, inner);
                container_feet(b, start, close, end, Some(value), found + gap + inner, dialect);
            }
        }
    }
}

proof fn top_feet(
    b: Seq<u8>,
    from: int,
    to: int,
    pos: int,
    previous: Option<ByteRange>,
    root: Option<ByteRange>,
    found: Seq<FactModel>,
    dialect: Dialect,
)
    requires
        b.len() <= usize::MAX,
        feet_are_placed(b, found),
    ensures
        feet_are_placed(b, top_facts(b, from, to, pos, previous, root, found, dialect, true)),
    decreases b.len() - pos,
{
    if let Some((next, comments)) = trivia_read(b, pos, to) {
        let owner = match root {
            Some(r) => r,
            None => span(from, to),
        };
        let more = trailer_facts(b, comments, previous, owner, true);
        feet_join(b, found, more);
        if pos <= next < to && to <= b.len() {
            value_feet(b, next, dialect);
            let (end, inner) = value_facts(b, next, dialect, true);
            let value = span(next, end);
            if next < end <= b.len() {
                let gap = gap_facts(b, comments, previous, value, true);
                gap_feet(b, comments, previous, value);
                feet_join(b, found, gap);
                feet_join(b, found + gap, inner);
                let first = match root {
                    Some(r) => r,
                    None => value,
                };
                top_feet(b, from, to, end, Some(value), Some(first), found + gap + inner, dialect);
            }
        }
    }
}

/// Every comment that is a foot stands on the line where its owner ends, behind nothing
/// but blanks and a separator: no line feed stands between them.
pub proof fn feet_stand_on_their_owners_line(b: Seq<u8>, from: int, to: int, dialect: Dialect, i: int)
    requires
        b.len() <= usize::MAX,
        0 <= i < collected(b, from, to, dialect, true).len(),
    ensures
        foot_is_placed(b, collected(b, from, to, dialect, true)[i]),
{
    let end = if to > b.len() {
        b.len() as int
    } else {
        to
    };
    top_feet(b, from, end, from, None, None, Seq::empty(), dialect);
}

/// Whether nothing but whitespace, separators and whole comments stand in `[from, to)`.
pub open spec fn only_glue(b: Seq<u8>, from: int, to: int) -> bool
    decreases to - from,
{
    if from >= to {
        from == to
    } else if !(0 <= from && to <= b.len()) {
        false
    } else if is_space(b[from]) || b[from] == COMMA {
        only_glue(b, from + 1, to)
    } else if b[from] != SLASH {
        false
    } else {
        match comment_end(b, from) {
            Ok(e) => if from < e <= to {
                only_glue(b, e, to)
            } else {
                false
            },
            Err(_) => false,
        }
    }
}

/// Whether a comment takes the bytes `[c.0, c.1)`.
pub open spec fn is_comment_at(b: Seq<u8>, c: (int, int)) -> bool {
    &&& 0 <= c.0 < c.1 <= b.len()
    &&& b[c.0] == SLASH
    &&& comment_end(b, c.0) == Ok::<int, Error>(c.1)
}

/// Trivia that ends is read to the same end.
proof fn trivia_is_read(b: Seq<u8>, pos: int, dialect: Dialect)
    requires
        dialect.comments(),
        0 <= pos <= b.len(),
        trivia_end(b, pos, dialect) is Ok,
    ensures
        trivia_read(b, pos, b.len() as int) matches Some((t, _)) && trivia_end(b, pos, dialect) == Ok::<int, Error>(t),
    decreases b.len() - pos,
{
    run_end_facts::<Ws>(b, pos);
    let p = run_end::<Ws>(b, pos);
    if p < b.len() && b[p] == SLASH {
        comment_end_bounds(b, p);
        let e = comment_end(b, p)->Ok_0;
        trivia_is_read(b, e, dialect);
    }
}

/// A comment behind glue is among those that are read, or stands behind them.
proof fn glued_comment_is_read(b: Seq<u8>, pos: int, c: (int, int), dialect: Dialect)
    requires
        dialect.comments(),
        0 <= pos <= b.len(),
        trivia_end(b, pos, dialect) is Ok,
        only_glue(b, pos, c.0),
        is_comment_at(b, c),
    ensures
        ({
            let t = trivia_end(b, pos, dialect)->Ok_0;
            &&& trivia_read(b, pos, b.len() as int) is Some
            &&& c.0 < t ==> (trivia_read(b, pos, b.len() as int)->0).1.contains(c)
            &&& t <= c.0 ==> only_glue(b, t, c.0)
        }),
    decreases b.len() - pos,
{
    trivia_is_read(b, pos, dialect);
    run_end_facts::<Ws>(b, pos);
    let p = run_end::<Ws>(b, pos);
    if pos < b.len() && is_space(b[pos]) {
        assert(pos < c.0);
        assert(!Ws::stops(b[pos]));
        assert(run_end::<Ws>(b, pos + 1) == p);
        run_end_facts::<Ws>(b, pos + 1);
        assert(trivia_end(b, pos + 1, dialect) == trivia_end(b, pos, dialect));
        glued_comment_is_read(b, pos + 1, c, dialect);
        assert(trivia_read(b, pos + 1, b.len() as int) == trivia_read(b, pos, b.len() as int));
    } else if pos < b.len() && b[pos] == SLASH {
        assert(p == pos);
        comment_end_bounds(b, pos);
        let e = comment_end(b, pos)->Ok_0;
        trivia_end_bounds(b, e, dialect);
        let read = (trivia_read(b, pos, b.len() as int)->0).1;
        trivia_is_read(b, e, dialect);
        let rest = (trivia_read(b, e, b.len() as int)->0).1;
        assert(read == seq![(pos, e)] + rest);
        if c.0 == pos {
            assert(read[0] == c);
        } else {
            glued_comment_is_read(b, e, c, dialect);
            if rest.contains(c) {
                let q = choose|q: int| 0 <= q < rest.len() && rest[q] == c;
                assert(read[q + 1] == c);
            }
        }
    } else {
        assert(p == pos);
    }
}

/// The value before a slot, whose foot a comment may be.
pub(crate) open spec fn value_before(slots: Seq<Slot>, i: int) -> Option<ByteRange> {
    if i == 0 {
        None
    } else {
        Some(span(slots[i - 1].value, slots[i - 1].end))
    }
}

/// A member's value is found behind its key.
proof fn value_is_behind_key(b: Seq<u8>, s: Slot, dialect: Dialect, depth: int)
    requires
        dialect.comments(),
        slot_reads(b, s, ContainerKind::Object, dialect, depth),
    ensures
        value_after_key(b, s.at, dialect) matches Some((v, _)) && v == s.value,
{
    built_key_is(b, s.at, dialect);
    reveal(key_of);
    reveal(led_to);
    key_text_end(b, s.at, dialect);
    let end = key_text(b, s.at, dialect)->Ok_0.0;
    key_is_located(b, s.at, dialect);
    trivia_end_bounds(b, end, dialect);
    trivia_is_read(b, end, dialect);
    let colon = trivia_end(b, end, dialect)->Ok_0;
    trivia_is_read(b, colon + 1, dialect);
}

/// The next child of a container is its next slot, behind the comments in the glue.
#[verifier::rlimit(60)]
proof fn child_is_slot(
    b: Seq<u8>,
    open: int,
    close: int,
    kind: ContainerKind,
    slots: Seq<Slot>,
    dialect: Dialect,
    depth: int,
    i: int,
)
    requires
        dialect.comments(),
        laid(b, open, close, kind, slots, dialect, depth),
        0 <= i < slots.len(),
    ensures
        !closes_next(b, behind(open, slots, i), closer(kind)),
        next_child(b, behind(open, slots, i), closer(kind), dialect) matches Some((v, _)) && v == slots[i].value,
        forall|c: (int, int)|
            is_comment_at(b, c) && only_glue(b, behind(open, slots, i), c.0) && c.1 <= slots[i].at
                ==> (next_child(b, behind(open, slots, i), closer(kind), dialect)->0).1.contains(c),
{
    let pos = behind(open, slots, i);
    let n = b.len() as int;
    slot_is_followed(b, open, close, kind, slots, dialect, depth, i);
    assert(comes_next(b, open, kind, slots, dialect, i));
    if i > 0 {
        slot_is_followed(b, open, close, kind, slots, dialect, depth, i - 1);
    }
    next_is_separated(b, pos, dialect, closer(kind), i == 0);
    let t = trivia_end(b, pos, dialect)->Ok_0;
    trivia_is_read(b, pos, dialect);
    if i > 0 {
        trivia_is_read(b, t + 1, dialect);
    }
    if kind is Object {
        value_is_behind_key(b, slots[i], dialect, depth);
    }
    let before = (trivia_read(b, pos, n)->0).1;
    let after = (trivia_read(b, t + 1, n)->0).1;
    let more = (value_after_key(b, slots[i].at, dialect)->0).1;
    let all = (next_child(b, pos, closer(kind), dialect)->0).1;
    assert forall|c: (int, int)| is_comment_at(b, c) && only_glue(b, pos, c.0) && c.1 <= slots[i].at implies all.contains(c) by {
        glued_comment_is_read(b, pos, c, dialect);
        if c.0 < t {
            let q = choose|q: int| 0 <= q < before.len() && before[q] == c;
            assert((before + after)[q] == c);
            assert((before + after + more)[q] == c);
            assert((before + more)[q] == c);
        } else {
            assert(i > 0);
            assert(only_glue(b, t + 1, c.0));
            glued_comment_is_read(b, t + 1, c, dialect);
            let q = choose|q: int| 0 <= q < after.len() && after[q] == c;
            assert((before + after)[before.len() + q] == c);
            assert((before + after + more)[before.len() + q] == c);
        }
    }
}

/// What closes a container behind its last slot.
proof fn closer_is_next(b: Seq<u8>, open: int, close: int, kind: ContainerKind, slots: Seq<Slot>, dialect: Dialect, depth: int)
    requires
        dialect.comments(),
        laid(b, open, close, kind, slots, dialect, depth),
    ensures
        closes_next(b, behind(open, slots, slots.len() as int), closer(kind)),
        next_child(b, behind(open, slots, slots.len() as int), closer(kind), dialect) matches Some((q, _)) && q + 1 == close,
{
    let n = slots.len() as int;
    let pos = behind(open, slots, n);
    if n > 0 {
        assert(slot_reads(b, slots[n - 1], kind, dialect, depth));
    }
    next_is_separated(b, pos, dialect, closer(kind), n == 0);
    trivia_is_read(b, pos, dialect);
    let t = trivia_end(b, pos, dialect)->Ok_0;
    if b[t] == COMMA {
        trivia_is_read(b, t + 1, dialect);
    }
}

/// Whether all facts of one list are in another.
spec fn within(some: Seq<FactModel>, all: Seq<FactModel>) -> bool {
    forall|f: FactModel| some.contains(f) ==> #[trigger] all.contains(f)
}

proof fn within_sum(x: Seq<FactModel>, y: Seq<FactModel>, z: Seq<FactModel>)
    ensures
        within(x, x + y + z),
        within(y, x + y + z),
        within(z, x + y + z),
        within(x, x + y),
{
    let all = x + y + z;
    assert forall|f: FactModel| x.contains(f) implies #[trigger] all.contains(f) by {
        let q = choose|q: int| 0 <= q < x.len() && x[q] == f;
        assert(all[q] == f);
    }
    assert forall|f: FactModel| y.contains(f) implies #[trigger] all.contains(f) by {
        let q = choose|q: int| 0 <= q < y.len() && y[q] == f;
        assert(all[x.len() + q] == f);
    }
    assert forall|f: FactModel| z.contains(f) implies #[trigger] all.contains(f) by {
        let q = choose|q: int| 0 <= q < z.len() && z[q] == f;
        assert(all[x.len() + y.len() + q] == f);
    }
    assert forall|f: FactModel| x.contains(f) implies #[trigger] (x + y).contains(f) by {
        let q = choose|q: int| 0 <= q < x.len() && x[q] == f;
        assert((x + y)[q] == f);
    }
}

/// The facts that a slot brings: those of the comments before it, and those inside it.
spec fn slot_is_noted(b: Seq<u8>, open: int, kind: ContainerKind, slots: Seq<Slot>, dialect: Dialect, k: int, all: Seq<FactModel>) -> bool {
    &&& within(value_facts(b, slots[k].value, dialect, true).1, all)
    &&& within(
        gap_facts(
            b,
            (next_child(b, behind(open, slots, k), closer(kind), dialect)->0).1,
            value_before(slots, k),
            span(slots[k].value, slots[k].end),
            true,
        ),
        all,
    )
}

/// The facts of a value end where the value does.
proof fn facts_end_with_the_value(b: Seq<u8>, start: int, dialect: Dialect, depth: int)
    requires
        dialect.comments(),
        0 <= start < b.len(),
        0 <= depth,
        built(b, start, unbounded(dialect), no_room(), depth) is Ok,
    ensures
        value_facts(b, start, dialect, true).0 == built(b, start, unbounded(dialect), no_room(), depth)->Ok_0.0,
    decreases built(b, start, unbounded(dialect), no_room(), depth)->Ok_0.0 - start, 1nat, 0nat,
{
    let (e, x, _) = built(b, start, unbounded(dialect), no_room(), depth)->Ok_0;
    parse_agrees_with_strict_skip(b, start, dialect, depth);
    read_at_lower_depth(b, start, dialect, depth, 0);
    parse_agrees_with_strict_skip(b, start, dialect, 0);
    valid_value_is_located(b, start, MAX_NESTING, dialect, 0);
    kind_is_read(b, start, dialect, depth);
    if b[start] == LBRACKET || b[start] == LBRACE {
        let kind = if b[start] == LBRACE {
            ContainerKind::Object
        } else {
            ContainerKind::Array
        };
        let slots = container_is_laid(b, start, dialect, depth, kind);
        slots_are_noted(b, start, e, kind, slots, dialect, depth + 1, 0, Seq::empty());
    }
}

/// The facts of a container hold those of its slots, from any of them on.
#[verifier::rlimit(60)]
proof fn slots_are_noted(
    b: Seq<u8>,
    open: int,
    close: int,
    kind: ContainerKind,
    slots: Seq<Slot>,
    dialect: Dialect,
    depth: int,
    i: int,
    found: Seq<FactModel>,
)
    requires
        dialect.comments(),
        0 <= depth,
        laid(b, open, close, kind, slots, dialect, depth),
        0 <= i <= slots.len(),
    ensures
        ({
            let (e, all) = container_facts(
                b,
                open,
                closer(kind),
                behind(open, slots, i),
                value_before(slots, i),
                found,
                dialect,
                true,
            );
            &&& e == close
            &&& within(found, all)
            &&& forall|k: int| i <= k < slots.len() ==> #[trigger] slot_is_noted(b, open, kind, slots, dialect, k, all)
        }),
    decreases close - open, 0nat, slots.len() - i,
{
    let pos = behind(open, slots, i);
    let (e, all) = container_facts(b, open, closer(kind), pos, value_before(slots, i), found, dialect, true);
    if i < slots.len() {
        child_is_slot(b, open, close, kind, slots, dialect, depth, i);
        slot_is_followed(b, open, close, kind, slots, dialect, depth, i);
        let s = slots[i];
        if i > 0 {
            assert(slots[i - 1].end < s.at);
        }
        facts_end_with_the_value(b, s.value, dialect, depth);
        let inner = value_facts(b, s.value, dialect, true).1;
        let comments = (next_child(b, pos, closer(kind), dialect)->0).1;
        let gap = gap_facts(b, comments, value_before(slots, i), span(s.value, s.end), true);
        let more = found + gap + inner;
        slots_are_noted(b, open, close, kind, slots, dialect, depth, i + 1, more);
        within_sum(found, gap, inner);
        assert(behind(open, slots, i + 1) == s.end);
        assert(all == container_facts(b, open, closer(kind), s.end, value_before(slots, i + 1), more, dialect, true).1);
        assert(slot_is_noted(b, open, kind, slots, dialect, i, all));
    } else {
        closer_is_next(b, open, close, kind, slots, dialect, depth);
        let (next, comments) = next_child(b, pos, closer(kind), dialect)->0;
        let more = trailer_facts(b, comments, value_before(slots, i), span(open, next + 1), true);
        within_sum(found, more, more);
    }
}

/// Facts of the comments before a slot.
proof fn gap_is_noted(b: Seq<u8>, comments: Seq<(int, int)>, previous: Option<ByteRange>, next: ByteRange, c: (int, int))
    requires
        comments.contains(c),
    ensures
        gap_facts(b, comments, previous, next, true).contains(fact(b, FactRole::CommentLead, c, next, true)),
        (previous matches Some(s) && 0 <= c.0 <= b.len() && on_one_line(b, s.end as int, c.0)) ==> gap_facts(
            b,
            comments,
            previous,
            next,
            true,
        ).contains(fact(b, FactRole::CommentFoot, c, previous->0, true)),
    decreases comments.len(),
{
    let front = comments.drop_last();
    let last = comments.last();
    let x = gap_facts(b, front, previous, next, true);
    let y = gap_fact(b, last, previous, next, true);
    within_sum(x, y, Seq::empty());
    assert(x + y + Seq::<FactModel>::empty() =~= x + y);
    let lead = fact(b, FactRole::CommentLead, c, next, true);
    if last == c {
        assert(y[y.len() - 1] == lead);
        assert(y.contains(lead));
        if previous matches Some(s) && 0 <= c.0 <= b.len() && on_one_line(b, s.end as int, c.0) {
            assert(crate::facts::same_line(b, previous->0.end as int, c.0));
            assert(y[0] == fact(b, FactRole::CommentFoot, c, previous->0, true));
        }
    } else {
        let q = choose|q: int| 0 <= q < comments.len() && comments[q] == c;
        assert(front[q] == c);
        gap_is_noted(b, front, previous, next, c);
    }
}

/// The slot that a step leads to.
proof fn step_takes_a_slot(b: Seq<u8>, start: int, dialect: Dialect, depth: int, step: StepModel, j: Json, kind: ContainerKind, slots: Seq<Slot>) -> (k: int)
    requires
        0 <= start < b.len(),
        built(b, start, unbounded(dialect), no_room(), depth) matches Ok((e, x, _)) && x == j && laid(
            b,
            start,
            e,
            kind,
            slots,
            dialect,
            depth + 1,
        ),
        tree_at(j, seq![step]) is Some,
        spot(b, start, dialect, depth, seq![step]) is Some,
        kind is Object <==> j is Object,
        kind is Array <==> j is Array,
    ensures
        0 <= k < slots.len(),
        spot(b, start, dialect, depth, seq![step]) == Some(slots[k].value),
{
    let one = seq![step];
    let close = built(b, start, unbounded(dialect), no_room(), depth)->Ok_0.0;
    assert(one.skip(1) =~= Seq::<StepModel>::empty());
    reveal_with_fuel(spot, 2);
    match step {
        StepModel::Index(index) => {
            assert(begins(slots, 0) =~= Seq::<int>::empty());
            array_starts_are_slots(b, start, close, slots, dialect, depth + 1, 0, Seq::empty());
            let starts = item_starts(b, start + 1, dialect, depth + 1, Seq::empty());
            let k = if index < 0 {
                starts.len() + index
            } else {
                index as int
            };
            assert(slot_reads(b, slots[k], kind, dialect, depth + 1));
            k
        },
        StepModel::Key(name) => {
            assert(named_starts(slots.take(0)) =~= Seq::<(Seq<u8>, int)>::empty());
            member_starts_are_slots(b, start, close, slots, dialect, depth + 1, 0);
            let starts = member_starts(b, start + 1, dialect, depth + 1, Seq::empty());
            assert(starts == named_starts(slots));
            last_start_is_one(starts, name)
        },
    }
}

proof fn last_start_is_one(starts: Seq<(Seq<u8>, int)>, name: Seq<u8>) -> (k: int)
    requires
        last_start(starts, name) is Some,
    ensures
        0 <= k < starts.len(),
        last_start(starts, name) == Some(starts[k].1),
    decreases starts.len(),
{
    if starts.last().0 == name {
        starts.len() - 1
    } else {
        let k = last_start_is_one(starts.drop_last(), name);
        assert(starts.drop_last()[k] == starts[k]);
        k
    }
}

/// The facts inside a value hold those inside a part of it where a comment stands.
#[verifier::rlimit(60)]
proof fn part_is_noted(b: Seq<u8>, start: int, dialect: Dialect, depth: int, steps: Seq<StepModel>, j: Json, at: int, c: int)
    requires
        b.len() <= usize::MAX,
        dialect.comments(),
        0 <= start < b.len(),
        0 <= depth,
        built(b, start, unbounded(dialect), no_room(), depth) matches Ok((e, x, room)) && x == j && room == no_room() && token_end(
            b,
            e,
            dialect,
        ),
        tree_at(j, steps) is Some,
        spot(b, start, dialect, depth, steps) == Some(at),
        at <= c < b.len(),
        b[c] == SLASH,
        built(b, at, unbounded(dialect), no_room(), depth + steps.len()) matches Ok((m, _, _)) && c < m,
    ensures
        start <= at,
        c < built(b, start, unbounded(dialect), no_room(), depth)->Ok_0.0,
        within(value_facts(b, at, dialect, true).1, value_facts(b, start, dialect, true).1),
    decreases steps.len(),
{
    if steps.len() > 0 {
        let e = built(b, start, unbounded(dialect), no_room(), depth)->Ok_0.0;
        let step = steps[0];
        let rest = steps.skip(1);
        let none = Seq::<StepModel>::empty();
        let one = seq![step];
        assert(one.skip(1) =~= none);
        first_step(b, start, dialect, depth, steps, j);
        let v = spot(b, start, dialect, depth, one)->0;
        let y = tree_at(j, one)->0;
        spot_reads(b, start, dialect, depth, one);
        part_is_noted(b, v, dialect, depth + 1, rest, y, at, c);
        opens_as(b, start, dialect, depth);
        let kind = if j is Object {
            ContainerKind::Object
        } else {
            ContainerKind::Array
        };
        let slots = container_is_laid(b, start, dialect, depth, kind);
        let k = step_takes_a_slot(b, start, dialect, depth, step, j, kind, slots);
        slots_are_noted(b, start, e, kind, slots, dialect, depth + 1, 0, Seq::empty());
        slot_is_followed(b, start, e, kind, slots, dialect, depth + 1, k);
        container_is_entered(b, start, dialect, depth, c);
        assert(slot_is_noted(b, start, kind, slots, dialect, k, value_facts(b, start, dialect, true).1));
    }
}

/// A path goes by its first step.
proof fn first_step(b: Seq<u8>, start: int, dialect: Dialect, depth: int, steps: Seq<StepModel>, j: Json)
    requires
        steps.len() > 0,
        tree_at(j, steps) is Some,
        spot(b, start, dialect, depth, steps) is Some,
    ensures
        tree_at(j, seq![steps[0]]) is Some,
        spot(b, start, dialect, depth, seq![steps[0]]) is Some,
        tree_at(j, steps) == tree_at(tree_at(j, seq![steps[0]])->0, steps.skip(1)),
        spot(b, start, dialect, depth, steps) == spot(
            b,
            spot(b, start, dialect, depth, seq![steps[0]])->0,
            dialect,
            depth + 1,
            steps.skip(1),
        ),
        j is Array || j is Object,
{
    let one = seq![steps[0]];
    assert(one.skip(1) =~= Seq::<StepModel>::empty());
    reveal_with_fuel(tree_at, 2);
    reveal_with_fuel(spot, 2);
}

/// A container with a slash in it is looked into for comments.
proof fn container_is_entered(b: Seq<u8>, start: int, dialect: Dialect, depth: int, c: int)
    requires
        0 <= start < b.len(),
        0 <= depth,
        built(b, start, unbounded(dialect), no_room(), depth) matches Ok((e, x, _)) && c < e && (x is Array || x is Object),
        start <= c < b.len(),
        b[c] == SLASH,
    ensures
        value_facts(b, start, dialect, true) == container_facts(
            b,
            start,
            if b[start] == LBRACKET {
                RBRACKET
            } else {
                RBRACE
            },
            start + 1,
            None,
            Seq::empty(),
            dialect,
            true,
        ),
{
    parse_agrees_with_strict_skip(b, start, dialect, depth);
    read_at_lower_depth(b, start, dialect, depth, 0);
    parse_agrees_with_strict_skip(b, start, dialect, 0);
    valid_value_is_located(b, start, MAX_NESTING, dialect, 0);
    opens_as(b, start, dialect, depth);
    run_end_facts::<CommentStart>(b, start);
    assert(CommentStart::stops(b[c]));
}

/// The facts of a text hold those inside its value.
#[verifier::rlimit(60)]
proof fn text_is_noted(b: Seq<u8>, dialect: Dialect, c: int)
    requires
        b.len() <= usize::MAX,
        dialect.comments(),
        text_value(b, dialect) is Ok,
        trivia_end(b, text_start(b), dialect)->Ok_0 <= c < b.len(),
        b[c] == SLASH,
    ensures
        within(
            value_facts(b, trivia_end(b, text_start(b), dialect)->Ok_0, dialect, true).1,
            collected(b, text_start(b), b.len() as int, dialect, true),
        ),
{
    let from = text_start(b);
    let n = b.len() as int;
    text_facts(b, dialect);
    let pos = trivia_end(b, from, dialect)->Ok_0;
    trivia_end_bounds(b, from, dialect);
    run_end_facts::<CommentStart>(b, from);
    assert(CommentStart::stops(b[c]));
    assert(has_slash(b, from, n));
    trivia_is_read(b, from, dialect);
    facts_end_with_the_value(b, pos, dialect, 0);
    let (e, inner) = value_facts(b, pos, dialect, true);
    trivia_is_read(b, e, dialect);
    kind_is_read(b, pos, dialect, 0);
    let comments = (trivia_read(b, from, n)->0).1;
    let value = span(pos, e);
    let none = Seq::<FactModel>::empty();
    let gap = gap_facts(b, comments, None, value, true);
    let found = none + gap + inner;
    within_sum(none, gap, inner);
    let tail = (trivia_read(b, e, n)->0).1;
    let more = trailer_facts(b, tail, Some(value), value, true);
    within_sum(found, more, more);
    assert(top_facts(b, from, n, e, Some(value), Some(value), found, dialect, true) == found + more);
    assert(top_facts(b, from, n, from, None, None, none, dialect, true) == found + more);
}

/// Whether a fact of this role, of this comment and of this owner is among others.
pub open spec fn is_noted(facts: Seq<FactModel>, role: FactRole, c: (int, int), owner: ByteRange) -> bool {
    exists|i: int|
        0 <= i < facts.len() && (#[trigger] facts[i]).role == role && facts[i].source_span == Some(span(c.0, c.1)) && facts[i].owner
            == owner
}

/// The facts of the comments before a slot, behind another.
spec fn gap_of(b: Seq<u8>, dialect: Dialect, kind: ContainerKind, open: int, slots: Seq<Slot>, k: int) -> Seq<FactModel> {
    gap_facts(
        b,
        (next_child(b, behind(open, slots, k), closer(kind), dialect)->0).1,
        Some(span(slots[k - 1].value, slots[k - 1].end)),
        span(slots[k].value, slots[k].end),
        true,
    )
}

/// The facts of a gap with a comment in it are facts of the text.
#[verifier::rlimit(60)]
proof fn gap_is_in_the_text(
    b: Seq<u8>,
    dialect: Dialect,
    before: Seq<StepModel>,
    j: Json,
    kind: ContainerKind,
    open: int,
    slots: Seq<Slot>,
    k: int,
    c: (int, int),
)
    requires
        b.len() <= usize::MAX,
        dialect.comments(),
        text_value(b, dialect) == Ok::<Json, Error>(j),
        tree_at(j, before) matches Some(x) && (kind is Object ==> x is Object) && (kind is Array ==> x is Array),
        spot(b, trivia_end(b, text_start(b), dialect)->Ok_0, dialect, 0, before) == Some(open),
        laid(
            b,
            open,
            built(b, open, unbounded(dialect), no_room(), 0)->Ok_0.0,
            kind,
            slots,
            dialect,
            before.len() as int + 1,
        ),
        0 < k < slots.len(),
        is_comment_at(b, c),
        only_glue(b, slots[k - 1].end, c.0),
        c.1 <= slots[k].at,
    ensures
        within(gap_of(b, dialect, kind, open, slots, k), collected(b, text_start(b), b.len() as int, dialect, true)),
        0 <= slots[k - 1].value < slots[k - 1].end <= b.len(),
{
    let pos = trivia_end(b, text_start(b), dialect)->Ok_0;
    let depth = before.len() as int;
    text_facts(b, dialect);
    place_facts(b, pos, dialect, before, open);
    spot_reads(b, pos, dialect, 0, before);
    let close = built(b, open, unbounded(dialect), no_room(), 0)->Ok_0.0;
    slot_is_followed(b, open, close, kind, slots, dialect, depth + 1, k);
    slot_is_followed(b, open, close, kind, slots, dialect, depth + 1, k - 1);
    glue_goes_on(b, slots[k - 1].end, c.0);
    part_is_noted(b, pos, dialect, 0, before, j, open, c.0);
    text_is_noted(b, dialect, c.0);
    gap_is_in_the_container(b, dialect, depth, kind, open, slots, k, c.0);
}

proof fn gap_is_in_the_container(
    b: Seq<u8>,
    dialect: Dialect,
    depth: int,
    kind: ContainerKind,
    open: int,
    slots: Seq<Slot>,
    k: int,
    c: int,
)
    requires
        dialect.comments(),
        0 <= depth,
        0 <= open < b.len(),
        built(b, open, unbounded(dialect), no_room(), depth) matches Ok((close, x, _)) && (kind is Object ==> x is Object) && (
        kind is Array ==> x is Array) && laid(b, open, close, kind, slots, dialect, depth + 1) && c < close,
        0 < k < slots.len(),
        open <= c < b.len(),
        b[c] == SLASH,
    ensures
        within(gap_of(b, dialect, kind, open, slots, k), value_facts(b, open, dialect, true).1),
{
    let close = built(b, open, unbounded(dialect), no_room(), depth)->Ok_0.0;
    opens_as(b, open, dialect, depth);
    container_is_entered(b, open, dialect, depth, c);
    slots_are_noted(b, open, close, kind, slots, dialect, depth + 1, 0, Seq::empty());
    assert(slot_is_noted(b, open, kind, slots, dialect, k, value_facts(b, open, dialect, true).1));
}

/// A comment between two values of a container leads the later one, and is a foot of the
/// earlier one exactly when nothing but blanks and a separator stand between them on the
/// line where that value ends.
#[verifier::rlimit(60)]
pub proof fn comment_between_values_is_noted(
    b: Seq<u8>,
    dialect: Dialect,
    before: Seq<StepModel>,
    j: Json,
    kind: ContainerKind,
    open: int,
    slots: Seq<Slot>,
    k: int,
    c: (int, int),
)
    requires
        b.len() <= usize::MAX,
        dialect.comments(),
        text_value(b, dialect) == Ok::<Json, Error>(j),
        tree_at(j, before) matches Some(x) && (kind is Object ==> x is Object) && (kind is Array ==> x is Array),
        spot(b, trivia_end(b, text_start(b), dialect)->Ok_0, dialect, 0, before) == Some(open),
        laid(
            b,
            open,
            built(b, open, unbounded(dialect), no_room(), 0)->Ok_0.0,
            kind,
            slots,
            dialect,
            before.len() as int + 1,
        ),
        0 < k < slots.len(),
        is_comment_at(b, c),
        only_glue(b, slots[k - 1].end, c.0),
        c.1 <= slots[k].at,
    ensures
        ({
            let facts = collected(b, text_start(b), b.len() as int, dialect, true);
            let earlier = span(slots[k - 1].value, slots[k - 1].end);
            let later = span(slots[k].value, slots[k].end);
            &&& is_noted(facts, FactRole::CommentLead, c, later)
            &&& is_noted(facts, FactRole::CommentFoot, c, earlier) <==> on_one_line(b, slots[k - 1].end, c.0)
        }),
{
    gap_is_in_the_text(b, dialect, before, j, kind, open, slots, k, c);
    let close = built(b, open, unbounded(dialect), no_room(), 0)->Ok_0.0;
    child_is_slot(b, open, close, kind, slots, dialect, before.len() as int + 1, k);
    let earlier = span(slots[k - 1].value, slots[k - 1].end);
    let later = span(slots[k].value, slots[k].end);
    let comments = (next_child(b, behind(open, slots, k), closer(kind), dialect)->0).1;
    assert(behind(open, slots, k) == slots[k - 1].end);
    assert(comments.contains(c));
    gap_is_noted(b, comments, Some(earlier), later, c);
    owners_are_noted(b, collected(b, text_start(b), b.len() as int, dialect, true), gap_of(b, dialect, kind, open, slots, k), earlier, later, c);
    if is_noted(collected(b, text_start(b), b.len() as int, dialect, true), FactRole::CommentFoot, c, earlier) {
        noted_foot_is_placed(b, dialect, c, earlier);
    }
}

proof fn owners_are_noted(b: Seq<u8>, facts: Seq<FactModel>, gap: Seq<FactModel>, earlier: ByteRange, later: ByteRange, c: (int, int))
    requires
        within(gap, facts),
        gap.contains(fact(b, FactRole::CommentLead, c, later, true)),
        on_one_line(b, earlier.end as int, c.0) ==> gap.contains(fact(b, FactRole::CommentFoot, c, earlier, true)),
    ensures
        is_noted(facts, FactRole::CommentLead, c, later),
        on_one_line(b, earlier.end as int, c.0) ==> is_noted(facts, FactRole::CommentFoot, c, earlier),
{
    let lead = fact(b, FactRole::CommentLead, c, later, true);
    assert(facts.contains(lead));
    fact_is_noted(facts, lead, c);
    if on_one_line(b, earlier.end as int, c.0) {
        let foot = fact(b, FactRole::CommentFoot, c, earlier, true);
        assert(facts.contains(foot));
        fact_is_noted(facts, foot, c);
    }
}

proof fn noted_foot_is_placed(b: Seq<u8>, dialect: Dialect, c: (int, int), owner: ByteRange)
    requires
        b.len() <= usize::MAX,
        0 <= c.0 <= b.len(),
        is_noted(collected(b, text_start(b), b.len() as int, dialect, true), FactRole::CommentFoot, c, owner),
    ensures
        on_one_line(b, owner.end as int, c.0),
{
    let facts = collected(b, text_start(b), b.len() as int, dialect, true);
    let i = choose|i: int|
        0 <= i < facts.len() && (#[trigger] facts[i]).role == FactRole::CommentFoot && facts[i].source_span == Some(
            span(c.0, c.1),
        ) && facts[i].owner == owner;
    feet_stand_on_their_owners_line(b, text_start(b), b.len() as int, dialect, i);
}

proof fn fact_is_noted(facts: Seq<FactModel>, f: FactModel, c: (int, int))
    requires
        facts.contains(f),
        f.source_span == Some(span(c.0, c.1)),
    ensures
        is_noted(facts, f.role, c, f.owner),
{
    let q = choose|q: int| 0 <= q < facts.len() && facts[q] == f;
    assert(facts[q].role == f.role);
}

/// Glue goes forward.
proof fn glue_goes_on(b: Seq<u8>, from: int, to: int)
    requires
        only_glue(b, from, to),
    ensures
        from <= to,
{
}

/// The facts of a text are those of the document that a Strict scan with facts answers.
pub proof fn document_facts_are_collected(b: Seq<u8>, dialect: Dialect, j: Json)
    requires
        dialect.comments(),
        text_value(b, dialect) == Ok::<Json, Error>(j),
        b.len() <= usize::MAX,
    ensures
        scanned(b, strict_ask(dialect, true)) matches Ok((answers, _)) && answers.len() == 1 && (
        answers[0] matches AnswerModel::Document(d) && d.facts == collected(b, text_start(b), b.len() as int, dialect, true)),
{
    let ask = strict_ask(dialect, true);
    let none = Seq::<StepModel>::empty();
    path_answers_are_lookups(b, ask, j);
    assert(ask.demands[0] is Whole);
    assert(any_whole(ask.demands));
    assert(answer_fits(scanned(b, ask)->Ok_0.0[0], tree_at(j, steps_of(ask.demands[0])), dialect));
}

/// Between two elements of an array a comment leads the later one, and is a foot of the
/// earlier one exactly when nothing but blanks and a separator stand between them on the
/// line where that element ends, in the document that a Strict scan with facts answers.
#[verifier::rlimit(60)]
pub proof fn comment_between_elements_is_noted(
    b: Seq<u8>,
    dialect: Dialect,
    items: Seq<Json>,
    k: i64,
    s: ByteRange,
    t: ByteRange,
    c: (int, int),
)
    requires
        b.len() <= usize::MAX,
        dialect.comments(),
        text_value(b, dialect) == Ok::<Json, Error>(Json::Array(items)),
        0 < k < items.len(),
        found_at(b, asked_at(strict_ask(dialect, false), seq![StepModel::Index((k - 1) as i64)])) == Some(s),
        found_at(b, asked_at(strict_ask(dialect, false), seq![StepModel::Index(k)])) == Some(t),
        is_comment_at(b, c),
        only_glue(b, s.end as int, c.0),
        c.1 <= t.start,
    ensures
        scanned(b, strict_ask(dialect, true)) matches Ok((answers, _)) && (answers[0] matches AnswerModel::Document(d)
            && is_noted(d.facts, FactRole::CommentLead, c, t) && (is_noted(d.facts, FactRole::CommentFoot, c, s) <==> on_one_line(
            b,
            s.end as int,
            c.0,
        ))),
{
    let like = strict_ask(dialect, false);
    let slots = array_text_has_slots(b, dialect, items);
    index_finds_the_slot(b, like, slots, (k - 1) as i64);
    index_finds_the_slot(b, like, slots, k);
    let none = Seq::<StepModel>::empty();
    let pos = trivia_end(b, text_start(b), dialect)->Ok_0;
    let close = built(b, pos, unbounded(dialect), no_room(), 0)->Ok_0.0;
    slot_is_followed(b, pos, close, ContainerKind::Array, slots, dialect, 1, k as int);
    slot_is_followed(b, pos, close, ContainerKind::Array, slots, dialect, 1, k - 1);
    comment_between_values_is_noted(b, dialect, none, Json::Array(items), ContainerKind::Array, pos, slots, k as int, c);
    document_facts_are_collected(b, dialect, Json::Array(items));
}

} // verus!
