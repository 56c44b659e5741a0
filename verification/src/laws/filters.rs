//! Which elements of an array a filter keeps.

use vstd::prelude::*;

use crate::answer::AnswerModel;
use crate::demand::{DemandModel, PredicateModel, StepModel};
use crate::dialect::Dialect;
use crate::edit::members::ContainerKind;
use crate::error::Error;
use crate::framing::text_start;
use crate::laws::forms::{no_room, unbounded};
use crate::laws::indices::{asked_at, found_at, index_leads_to, one_step, path_is_found};
use crate::laws::members::{slot_is_reached, span_reads};
use crate::laws::oracles::text_is_walked;
use crate::laws::assign::text_facts;
use crate::laws::paths::{item_starts, read_at_lower_depth, reads_at, spot, text_value, tree_at};
use crate::laws::replace::opens_as;
use crate::laws::shallow::{all_members, array_tells_rows, cells_at, oracles_say, rows_from};
use crate::laws::slots::{behind, comes_next, element_values, found_container_is_laid, laid, slot_reads, Slot};
use crate::laws::walks::{a_kind, kind_step};
use crate::lex::skip::MAX_NESTING;
use crate::lex::ws::trivia_end;
use crate::scan::{root_env, scanned, Ask, JsonInput};
use crate::tape::built;
use crate::value::{span, ByteRange, Json, ValueKind};
use crate::walk::marks::ColumnCell;
use crate::walk::member::holds;
use crate::walk::model::{beside, beside_marks, enters, flat, flat_row, needs_container, oracles, row_mark, WalkCtx, Walked};

verus! {

/// The cells of the slots of an array from position `i` on, one after the other.
pub(crate) open spec fn cells_from(b: Seq<u8>, slots: Seq<Slot>, h: DemandModel, ctx: WalkCtx, i: int) -> Seq<ColumnCell>
    decreases slots.len() - i,
{
    if 0 <= i < slots.len() {
        cells_at(b, slots[i].at, h, ctx) + cells_from(b, slots, h, ctx, i + 1)
    } else {
        Seq::empty()
    }
}

/// The rows of an array are those of its slots, from any of them on.
proof fn rows_are_cells(b: Seq<u8>, open: int, close: int, slots: Seq<Slot>, h: DemandModel, ctx: WalkCtx, depth: int, i: int)
    requires
        laid(b, open, close, ContainerKind::Array, slots, ctx.dialect, depth),
        0 <= depth,
        ctx.max == MAX_NESTING,
        0 <= i <= slots.len(),
    ensures
        rows_from(b, behind(open, slots, i), ctx, i == 0, h) == cells_from(b, slots, h, ctx, i),
    decreases slots.len() - i,
{
    let kind = ContainerKind::Array;
    if i < slots.len() {
        rows_are_cells(b, open, close, slots, h, ctx, depth, i + 1);
        let s = slots[i];
        assert(slot_reads(b, s, kind, ctx.dialect, depth) && open < s.at);
        assert(comes_next(b, open, kind, slots, ctx.dialect, i));
        if i > 0 {
            assert(slots[i - 1].end < s.at);
        }
        slot_is_reached(b, s, kind, ctx, depth);
        assert(behind(open, slots, i + 1) == s.end);
    }
}

/// Whether slots are those of a text that is an array.
pub(crate) open spec fn text_slots(b: Seq<u8>, dialect: Dialect, slots: Seq<Slot>) -> bool {
    let pos = trivia_end(b, text_start(b), dialect)->Ok_0;
    &&& 0 <= pos < b.len()
    &&& spot(b, pos, dialect, 0, Seq::empty()) == Some(pos)
    &&& laid(b, pos, built(b, pos, unbounded(dialect), no_room(), 0)->Ok_0.0, ContainerKind::Array, slots, dialect, 1)
    &&& text_value(b, dialect) == Ok::<Json, Error>(Json::Array(element_values(slots)))
}

/// A text that is an array has slots.
pub(crate) proof fn array_text_has_slots(b: Seq<u8>, dialect: Dialect, items: Seq<Json>) -> (slots: Seq<Slot>)
    requires
        text_value(b, dialect) == Ok::<Json, Error>(Json::Array(items)),
    ensures
        text_slots(b, dialect, slots),
        items == element_values(slots),
{
    text_facts(b, dialect);
    let pos = trivia_end(b, text_start(b), dialect)->Ok_0;
    let none = Seq::<StepModel>::empty();
    found_container_is_laid(b, dialect, none, Json::Array(items), ContainerKind::Array, pos)
}

/// What a scan of a text that is an array answers a row demand on it.
pub(crate) proof fn rows_are_told(b: Seq<u8>, ask: Ask, i: int, h: DemandModel, slots: Seq<Slot>)
    requires
        ask.input == JsonInput::Text,
        ask.ctx.max == MAX_NESTING,
        text_slots(b, ask.ctx.dialect, slots),
        scanned(b, ask) is Ok,
        0 <= i < ask.demands.len(),
        ask.demands[i] == h,
        flat_row(h),
    ensures
        scanned(b, ask)->Ok_0.0.len() == ask.demands.len(),
        scanned(b, ask)->Ok_0.0[i] matches AnswerModel::Columns(_, batch) && batch.cells == cells_from(b, slots, h, ask.ctx, 0),
{
    let ctx = ask.ctx;
    let w = text_is_walked(b, ask, Json::Array(element_values(slots)));
    let pos = trivia_end(b, text_start(b), ctx.dialect)->Ok_0;
    let close = built(b, pos, unbounded(ctx.dialect), no_room(), 0)->Ok_0.0;
    rows_are_cells(b, pos, close, slots, h, ctx, 1, 0);
    text_facts(b, ctx.dialect);
    opens_as(b, pos, ctx.dialect, 0);
    rows_are_walked(b, pos, flat(ask.demands), i, h, ctx, root_env(ask), w);
}

proof fn rows_are_walked(
    b: Seq<u8>,
    pos: int,
    hits: Seq<DemandModel>,
    i: int,
    h: DemandModel,
    ctx: WalkCtx,
    env: crate::walk::model::Env,
    w: Walked,
)
    requires
        0 <= i < hits.len(),
        hits[i] == h,
        flat_row(h),
        !env.element,
        0 <= pos < b.len(),
        b[pos] == crate::ascii::LBRACKET,
        a_kind(b, pos, ValueKind::Array, hits, ctx, 0, env) == Ok::<Walked, Error>(w),
    ensures
        w.marks.len() == hits.len(),
        w.marks[i] == row_mark(h, rows_from(b, pos + 1, ctx, true, h)),
{
    kind_step(b, pos, ValueKind::Array, hits, ctx, 0, env);
    assert(needs_container(hits[i]));
    assert(enters(hits, ValueKind::Array));
    let (answered, r) = oracles(b, pos, ValueKind::Array, hits, hits.len(), true, ctx, 0)->Ok_0;
    oracles_say(b, pos, ValueKind::Array, hits, hits.len(), i, true, ctx, 0);
    let side = beside(hits, env);
    assert(side[i] == h);
    array_tells_rows(b, pos, side, i, beside_marks(hits, answered, env), ctx, 0, env);
}

/// The scan of `like` for nothing but the elements that a condition keeps.
pub open spec fn filter_ask(like: Ask, p: PredicateModel) -> Ask {
    Ask { demands: seq![DemandModel::Filter { path: Seq::empty(), predicate: p, project: Seq::empty() }], ..like }
}

/// Whether a scan for the elements that a condition keeps answers with the element at
/// position `k`.
pub open spec fn keeps(b: Seq<u8>, like: Ask, p: PredicateModel, k: i64) -> bool {
    scanned(b, filter_ask(like, p)) matches Ok((answers, _)) && (answers[0] matches AnswerModel::Columns(_, batch) && (found_at(
        b,
        asked_at(like, seq![StepModel::Index(k)]),
    ) matches Some(s) && batch.cells.contains(ColumnCell::Span(s))))
}

/// The span that a slot takes.
pub(crate) open spec fn slot_span(s: Slot) -> ByteRange {
    span(s.at, s.end)
}

/// Whether a condition holds for the object in a slot.
pub(crate) open spec fn holds_in(b: Seq<u8>, s: Slot, p: PredicateModel, ctx: WalkCtx) -> bool {
    s.read is Object && holds(b, all_members(b, s.at + 1, ctx, true, Seq::empty()), p, ctx.dialect)
}

/// The cells of a slot under a filter.
proof fn filtered_cells(b: Seq<u8>, s: Slot, p: PredicateModel, ctx: WalkCtx, depth: int)
    requires
        slot_reads(b, s, ContainerKind::Array, ctx.dialect, depth),
        0 <= depth,
        ctx.max == MAX_NESTING,
    ensures
        cells_at(
            b,
            s.at,
            DemandModel::Filter { path: Seq::empty(), predicate: p, project: Seq::empty() },
            ctx,
        ) == (if holds_in(b, s, p, ctx) {
            seq![ColumnCell::Span(slot_span(s))]
        } else {
            Seq::<ColumnCell>::empty()
        }),
{
    slot_is_reached(b, s, ContainerKind::Array, ctx, depth);
    opens_as(b, s.value, ctx.dialect, depth);
    crate::laws::oracles::kind_is_read(b, s.value, ctx.dialect, depth);
}

/// Which cells stand among those of the slots from position `i` on.
proof fn kept_cells(b: Seq<u8>, open: int, close: int, slots: Seq<Slot>, p: PredicateModel, ctx: WalkCtx, depth: int, i: int, k: int)
    requires
        b.len() <= usize::MAX,
        laid(b, open, close, ContainerKind::Array, slots, ctx.dialect, depth),
        0 <= depth,
        ctx.max == MAX_NESTING,
        0 <= i <= slots.len(),
        0 <= k < slots.len(),
    ensures
        cells_from(
            b,
            slots,
            DemandModel::Filter { path: Seq::empty(), predicate: p, project: Seq::empty() },
            ctx,
            i,
        ).contains(ColumnCell::Span(slot_span(slots[k]))) == (i <= k && holds_in(b, slots[k], p, ctx)),
    decreases slots.len() - i,
{
    let h = DemandModel::Filter { path: Seq::empty(), predicate: p, project: Seq::empty() };
    let c = ColumnCell::Span(slot_span(slots[k]));
    if i < slots.len() {
        kept_cells(b, open, close, slots, p, ctx, depth, i + 1, k);
        let s = slots[i];
        assert(slot_reads(b, s, ContainerKind::Array, ctx.dialect, depth));
        assert(slot_reads(b, slots[k], ContainerKind::Array, ctx.dialect, depth));
        filtered_cells(b, s, p, ctx, depth);
        let rest = cells_from(b, slots, h, ctx, i + 1);
        let head = cells_at(b, s.at, h, ctx);
        let all = head + rest;
        if i != k {
            assert(slot_span(s) != slot_span(slots[k])) by {
                if i < k {
                    assert(slots[i].end < slots[k].at);
                } else {
                    assert(slots[k].end < slots[i].at);
                }
            }
        }
        if rest.contains(c) {
            let q = choose|q: int| 0 <= q < rest.len() && rest[q] == c;
            assert(all[head.len() + q] == c);
        }
        if head.len() > 0 && i == k {
            assert(all[0] == c);
        }
        if all.contains(c) {
            let q = choose|q: int| 0 <= q < all.len() && all[q] == c;
            if q >= head.len() {
                assert(rest[q - head.len()] == c);
            } else {
                assert(head[q] == c);
            }
        }
    }
}

/// Where the first `n` slots start.
pub(crate) open spec fn begins(slots: Seq<Slot>, n: nat) -> Seq<int> {
    Seq::new(n, |q: int| slots[q].at)
}

/// The elements of an array start where its slots do.
pub(crate) proof fn array_starts_are_slots(b: Seq<u8>, open: int, close: int, slots: Seq<Slot>, dialect: Dialect, depth: int, i: int, done: Seq<int>)
    requires
        laid(b, open, close, ContainerKind::Array, slots, dialect, depth),
        0 <= i <= slots.len(),
        done == begins(slots, i as nat),
    ensures
        item_starts(b, behind(open, slots, i), dialect, depth, done) == begins(slots, slots.len()),
    decreases slots.len() - i,
{
    let kind = ContainerKind::Array;
    if i < slots.len() {
        let more = done.push(slots[i].at);
        assert(more =~= begins(slots, (i + 1) as nat));
        array_starts_are_slots(b, open, close, slots, dialect, depth, i + 1, more);
        assert(slot_reads(b, slots[i], kind, dialect, depth) && open < slots[i].at);
        assert(comes_next(b, open, kind, slots, dialect, i));
        if i > 0 {
            assert(slots[i - 1].end < slots[i].at);
        }
        assert(behind(open, slots, i + 1) == slots[i].end);
    }
}

/// An index leads to the slot at that position.
proof fn slot_is_spotted(b: Seq<u8>, dialect: Dialect, slots: Seq<Slot>, k: i64)
    requires
        text_slots(b, dialect, slots),
        0 <= k < slots.len(),
    ensures
        spot(b, trivia_end(b, text_start(b), dialect)->Ok_0, dialect, 0, seq![StepModel::Index(k)]) == Some(slots[k as int].at),
        span_reads(b, span(slots[k as int].at, slots[k as int].end), slots[k as int].read, dialect, 0) || b.len() > usize::MAX,
        0 <= slots[k as int].at < slots[k as int].end <= b.len(),
        tree_at(text_value(b, dialect)->Ok_0, seq![StepModel::Index(k)]) == Some(slots[k as int].read),
{
    let none = Seq::<StepModel>::empty();
    let items = element_values(slots);
    let step = StepModel::Index(k);
    assert(none.push(step) =~= seq![step]);
    reveal_with_fuel(tree_at, 1);
    index_leads_to(Json::Array(items), none, items, k);
    let pos = trivia_end(b, text_start(b), dialect)->Ok_0;
    let close = built(b, pos, unbounded(dialect), no_room(), 0)->Ok_0.0;
    assert(begins(slots, 0) =~= Seq::<int>::empty());
    array_starts_are_slots(b, pos, close, slots, dialect, 1, 0, Seq::empty());
    let starts = item_starts(b, pos + 1, dialect, 1, Seq::empty());
    one_step(b, pos, dialect, 0, k, starts);
    let s = slots[k as int];
    assert(slot_reads(b, s, ContainerKind::Array, dialect, 1));
    read_at_lower_depth(b, s.at, dialect, 1, 0);
}

/// A scan by an index finds the slot at that position.
#[verifier::rlimit(60)]
pub(crate) proof fn index_finds_the_slot(b: Seq<u8>, like: Ask, slots: Seq<Slot>, k: i64)
    requires
        b.len() <= usize::MAX,
        like.input == JsonInput::Text,
        like.ctx.max == MAX_NESTING,
        text_slots(b, like.ctx.dialect, slots),
        0 <= k < slots.len(),
    ensures
        found_at(b, asked_at(like, seq![StepModel::Index(k)])) == Some(slot_span(slots[k as int])),
{
    slot_is_spotted(b, like.ctx.dialect, slots, k);
    path_is_found(b, like, text_value(b, like.ctx.dialect)->Ok_0, seq![StepModel::Index(k)]);
    let s = slots[k as int];
    same_span(b, like.ctx.dialect, found_at(b, asked_at(like, seq![StepModel::Index(k)]))->0, span(s.at, s.end), s.read, s.read);
}

proof fn same_span(b: Seq<u8>, dialect: Dialect, a: ByteRange, c: ByteRange, x: Json, y: Json)
    requires
        reads_at(b, a, x, dialect),
        span_reads(b, c, y, dialect, 0),
        a.start == c.start,
    ensures
        a == c,
{
}

/// What a filter keeps is what its condition holds for.
#[verifier::rlimit(60)]
pub(crate) proof fn keeps_what_holds(b: Seq<u8>, like: Ask, p: PredicateModel, slots: Seq<Slot>, k: i64)
    requires
        b.len() <= usize::MAX,
        like.input == JsonInput::Text,
        like.ctx.max == MAX_NESTING,
        text_slots(b, like.ctx.dialect, slots),
        scanned(b, filter_ask(like, p)) is Ok,
        0 <= k < slots.len(),
    ensures
        keeps(b, like, p, k) == holds_in(b, slots[k as int], p, like.ctx),
{
    let ask = filter_ask(like, p);
    rows_are_told(b, ask, 0, ask.demands[0], slots);
    index_finds_the_slot(b, like, slots, k);
    let pos = trivia_end(b, text_start(b), like.ctx.dialect)->Ok_0;
    let close = built(b, pos, unbounded(like.ctx.dialect), no_room(), 0)->Ok_0.0;
    kept_cells(b, pos, close, slots, p, like.ctx, 1, 0, k as int);
}

/// A filter by one condition or another keeps what a filter by either keeps.
pub proof fn or_keeps_what_either_keeps(b: Seq<u8>, like: Ask, p: PredicateModel, q: PredicateModel, items: Seq<Json>, k: i64)
    requires
        b.len() <= usize::MAX,
        like.input == JsonInput::Text,
        like.ctx.max == MAX_NESTING,
        text_value(b, like.ctx.dialect) == Ok::<Json, Error>(Json::Array(items)),
        scanned(b, filter_ask(like, p)) is Ok,
        scanned(b, filter_ask(like, q)) is Ok,
        scanned(b, filter_ask(like, PredicateModel::Or(Box::new(p), Box::new(q)))) is Ok,
        0 <= k < items.len(),
    ensures
        keeps(b, like, PredicateModel::Or(Box::new(p), Box::new(q)), k) <==> keeps(b, like, p, k) || keeps(b, like, q, k),
{
    let slots = array_text_has_slots(b, like.ctx.dialect, items);
    keeps_what_holds(b, like, p, slots, k);
    keeps_what_holds(b, like, q, slots, k);
    keeps_what_holds(b, like, PredicateModel::Or(Box::new(p), Box::new(q)), slots, k);
}

/// A filter by two conditions keeps what filters by each of them keep.
pub proof fn and_keeps_what_both_keep(b: Seq<u8>, like: Ask, p: PredicateModel, q: PredicateModel, items: Seq<Json>, k: i64)
    requires
        b.len() <= usize::MAX,
        like.input == JsonInput::Text,
        like.ctx.max == MAX_NESTING,
        text_value(b, like.ctx.dialect) == Ok::<Json, Error>(Json::Array(items)),
        scanned(b, filter_ask(like, p)) is Ok,
        scanned(b, filter_ask(like, q)) is Ok,
        scanned(b, filter_ask(like, PredicateModel::And(Box::new(p), Box::new(q)))) is Ok,
        0 <= k < items.len(),
    ensures
        keeps(b, like, PredicateModel::And(Box::new(p), Box::new(q)), k) <==> keeps(b, like, p, k) && keeps(b, like, q, k),
{
    let slots = array_text_has_slots(b, like.ctx.dialect, items);
    keeps_what_holds(b, like, p, slots, k);
    keeps_what_holds(b, like, q, slots, k);
    keeps_what_holds(b, like, PredicateModel::And(Box::new(p), Box::new(q)), slots, k);
}

/// A filter by the opposite of a condition keeps the objects that a filter by the
/// condition does not keep.
pub proof fn not_keeps_the_other_objects(b: Seq<u8>, like: Ask, p: PredicateModel, items: Seq<Json>, k: i64)
    requires
        b.len() <= usize::MAX,
        like.input == JsonInput::Text,
        like.ctx.max == MAX_NESTING,
        text_value(b, like.ctx.dialect) == Ok::<Json, Error>(Json::Array(items)),
        scanned(b, filter_ask(like, p)) is Ok,
        scanned(b, filter_ask(like, PredicateModel::Not(Box::new(p)))) is Ok,
        0 <= k < items.len(),
    ensures
        keeps(b, like, PredicateModel::Not(Box::new(p)), k) <==> items[k as int] is Object && !keeps(b, like, p, k),
{
    let slots = array_text_has_slots(b, like.ctx.dialect, items);
    keeps_what_holds(b, like, p, slots, k);
    keeps_what_holds(b, like, PredicateModel::Not(Box::new(p)), slots, k);
    assert(items[k as int] == slots[k as int].read);
}

} // verus!
