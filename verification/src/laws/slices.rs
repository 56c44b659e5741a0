//! Which elements of an array a window holds.

use vstd::prelude::*;

use crate::answer::AnswerModel;
use crate::ascii::{LBRACKET, RBRACKET};
use crate::demand::{DemandModel, Range, StepModel, Strictness};
use crate::edit::members::ContainerKind;
use crate::error::Error;
use crate::framing::text_start;
use crate::laws::assign::text_facts;
use crate::laws::ends::{array_ends_well, child_ends_well, kind_ends_well, reach};
use crate::laws::filters::{array_text_has_slots, begins, index_finds_the_slot, text_slots};
use crate::laws::folds::{items_from, one_piece_more, piece_at, pieces};
use crate::laws::forms::{no_room, unbounded};
use crate::laws::indices::{asked_at, found_at};
use crate::laws::strict::item_is_settled;
use crate::laws::members::slot_is_reached;
use crate::laws::oracles::text_is_walked;
use crate::laws::paths::{kept_at_rank, text_value};
use crate::laws::projections::{items_are_slots, pieces_in_rows, pieces_len};
use crate::laws::replace::opens_as;
use crate::laws::shallow::{array_end_at, kind_tells, oracles_say};
use crate::laws::slots::{element_values, slot_reads, Slot};
use crate::laws::walks::{
    a_child, a_kind, a_node, an_array, array_end, array_step, child_step, elements_step, first_element, kind_step, need_of, node_step, some_elements,
};
use crate::lex::skip::{next_at, next_at_bounds, NextAt, MAX_NESTING};
use crate::lex::ws::trivia_end;
use crate::scan::{root_env, scanned, Ask, JsonInput};
use crate::tape::built;
use crate::value::{span, Json, ValueKind};
use crate::walk::marks::{folded, retained, row_fields, row_shape, with_cells, BatchModel, ColumnCell, MarkModel};
use crate::walk::model::{
    all_rows, array_hits, batch_of, beside, beside_marks, child_mark, element_env, enters, flat, flat_row, kept, kind_at, needs_container, next_element, oracles,
    rank, ArrayState, Env, WalkCtx, Walked,
};

verus! {

/// A window of whole elements.
pub open spec fn window_of(range: Range) -> DemandModel {
    DemandModel::Slice { range, nested: None }
}

/// Every element.
pub(crate) open spec fn every() -> DemandModel {
    DemandModel::Collection { keys: None, nested: None }
}

/// An element answers a window with its span.
proof fn child_is_spanned(b: Seq<u8>, p: int, hits: Seq<DemandModel>, i: int, range: Range, idx: int, ctx: WalkCtx, depth: int)
    requires
        0 <= i < hits.len(),
        hits[i] == window_of(range),
        0 <= p <= b.len(),
        trivia_end(b, p, ctx.dialect) == Ok::<int, Error>(p),
        0 <= depth,
    ensures
        ({
            let opts = array_hits(hits, idx);
            a_child(b, p, kept(opts), hits, ctx, depth, element_env()) matches Ok(w) ==> reach(b, p, ctx) == Ok::<int, Error>(w.end)
                && p < w.end <= b.len() && child_mark(opts, w.marks, i) == MarkModel::Span(span(p, w.end))
        }),
{
    let opts = array_hits(hits, idx);
    let env = element_env();
    child_ends_well(b, p, kept(opts), hits, ctx, depth, env);
    child_step(b, p, kept(opts), hits, ctx, depth, env);
    assert(opts[i] == Some(DemandModel::Whole));
    kept_at_rank(opts, i);
    let r = rank(opts, i);
    let reaching = kept(opts);
    node_step(b, p, reaching, ctx, depth, env);
    if let Ok(w) = a_node(b, p, reaching, ctx, depth, env) {
        let kind = kind_at(b[p], ctx.dialect)->0;
        assert(flat(reaching)[r] == DemandModel::Whole);
        kind_ends_well(b, p, kind, flat(reaching), ctx, depth, env);
        kind_tells(b, p, kind, flat(reaching), r, ctx, depth, env);
    }
}

/// The spans of the elements that a window goes over.
proof fn window_rows(b: Seq<u8>, st: ArrayState, hits: Seq<DemandModel>, i: int, range: Range, ctx: WalkCtx, depth: int)
    requires
        0 <= i < hits.len(),
        hits[i] == window_of(range),
        st.marks.len() == hits.len(),
        st.marks[i] is Rows,
        0 <= st.pos <= b.len(),
        0 <= st.idx,
        0 <= depth,
    ensures
        some_elements(b, st, hits, ctx, depth, None) matches Ok(last) ==> last.marks.len() == hits.len() && last.idx == st.idx
            + items_from(b, st.pos, ctx, st.idx == 0).len() && last.marks[i] == MarkModel::Rows(
            with_cells(batch_of(st.marks[i]), pieces(b, items_from(b, st.pos, ctx, st.idx == 0), every(), ctx)),
        ),
    decreases b.len() - st.pos,
{
    let g = hits[i];
    let batch = batch_of(st.marks[i]);
    elements_step(b, st, hits, ctx, depth, None);
    next_at_bounds(b, st.pos, ctx.dialect, RBRACKET, st.idx == 0);
    assert(with_cells(batch, Seq::empty()).cells =~= batch.cells);
    if let Ok(NextAt::Item(p)) = next_at(b, st.pos, ctx.dialect, RBRACKET, st.idx == 0) {
        item_is_settled(b, st.pos, ctx.dialect, RBRACKET, st.idx == 0);
        let opts = array_hits(hits, st.idx);
        child_is_spanned(b, p, hits, i, range, st.idx, ctx, depth);
        if let Ok(w) = a_child(b, p, kept(opts), hits, ctx, depth, element_env()) {
            let next = next_element(st, hits, opts, w, p);
            let piece = piece_at(b, p, every(), ctx);
            let shape = row_shape(g)->0;
            assert(folded(batch, shape, child_mark(opts, w.marks, i), span(p, w.end)) == with_cells(batch, piece));
            window_rows(b, next, hits, i, range, ctx, depth);
            let rest = items_from(b, w.end, ctx, false);
            one_piece_more(b, p, rest, every(), ctx);
            assert((batch.cells + piece) + pieces(b, rest, every(), ctx) =~= batch.cells + (piece + pieces(b, rest, every(), ctx)));
        }
    }
}

/// What an array answers a window of whole elements.
proof fn array_tells_window(
    b: Seq<u8>,
    start: int,
    hits: Seq<DemandModel>,
    i: int,
    range: Range,
    answered: Seq<MarkModel>,
    ctx: WalkCtx,
    depth: int,
    env: Env,
)
    requires
        0 <= i < hits.len(),
        hits[i] == window_of(range),
        answered.len() == hits.len(),
        0 <= start < b.len(),
        b[start] == LBRACKET,
        0 <= depth,
        !env.may_stop,
    ensures
        an_array(b, start, hits, answered, ctx, depth, env) matches Ok(w) ==> ({
            let all = items_from(b, start + 1, ctx, true);
            w.marks.len() == hits.len() && w.marks[i] == MarkModel::Rows(
                retained(
                    BatchModel { fields: row_fields(row_shape(hits[i])->0), cells: pieces(b, all, every(), ctx) },
                    range.from(all.len() as int),
                    range.to(all.len() as int),
                ),
            )
        }),
{
    array_step(b, start, hits, answered, ctx, depth, env);
    array_ends_well(b, start, hits, answered, ctx, depth, env);
    if let Ok(w) = an_array(b, start, hits, answered, ctx, depth, env) {
        assert(!all_rows(hits)) by {
            assert(!flat_row(hits[i]));
        }
        assert(need_of(hits, env) is None);
        let first = first_element(start, hits, answered);
        window_rows(b, first, hits, i, range, ctx, depth + 1);
        reveal(array_end);
        let st = some_elements(b, first, hits, ctx, depth + 1, None)->Ok_0;
        array_end_at(b, start, hits, hits.len(), i, st, ctx, depth, env);
        let all = pieces(b, items_from(b, start + 1, ctx, true), every(), ctx);
        assert(Seq::<ColumnCell>::empty() + all =~= all);
    }
}

/// A bound of a window among `len` elements: one below zero counts from the end, and one
/// outside comes to the nearer end.
pub open spec fn bound_at(bound: Option<i64>, open: int, len: int) -> int {
    match bound {
        None => open,
        Some(i) => {
            let at = if i < 0 {
                len + i
            } else {
                i as int
            };
            if at < 0 {
                0
            } else if at > len {
                len
            } else {
                at
            }
        },
    }
}

proof fn window_is_walked(b: Seq<u8>, pos: int, hits: Seq<DemandModel>, i: int, range: Range, ctx: WalkCtx, env: Env, w: Walked)
    requires
        0 <= i < hits.len(),
        hits[i] == window_of(range),
        !env.element,
        !env.may_stop,
        0 <= pos < b.len(),
        b[pos] == LBRACKET,
        a_kind(b, pos, ValueKind::Array, hits, ctx, 0, env) == Ok::<Walked, Error>(w),
    ensures
        ({
            let all = items_from(b, pos + 1, ctx, true);
            w.marks.len() == hits.len() && w.marks[i] == MarkModel::Rows(
                retained(
                    BatchModel { fields: row_fields(row_shape(hits[i])->0), cells: pieces(b, all, every(), ctx) },
                    range.from(all.len() as int),
                    range.to(all.len() as int),
                ),
            )
        }),
{
    kind_step(b, pos, ValueKind::Array, hits, ctx, 0, env);
    assert(needs_container(hits[i]));
    assert(enters(hits, ValueKind::Array));
    let (answered, r) = oracles(b, pos, ValueKind::Array, hits, hits.len(), true, ctx, 0)->Ok_0;
    oracles_say(b, pos, ValueKind::Array, hits, hits.len(), i, true, ctx, 0);
    let side = beside(hits, env);
    assert(side[i] == hits[i]);
    array_tells_window(b, pos, side, i, range, beside_marks(hits, answered, env), ctx, 0, env);
}

/// What is retained of one cell for each element.
proof fn cells_are_retained(cells: Seq<ColumnCell>, fields: Seq<Seq<u8>>, from: int, to: int)
    requires
        fields.len() == 1,
        0 <= from <= to <= cells.len(),
    ensures
        retained(BatchModel { fields, cells }, from, to).cells == cells.subrange(from, to),
{
    assert(from * 1 == from && to * 1 == to);
}

/// The scan of `like` for nothing but a window of whole elements.
pub open spec fn slice_ask(like: Ask, range: Range) -> Ask {
    Ask { demands: seq![window_of(range)], ..like }
}

/// What a scan of a text that is an array answers a window.
proof fn window_is_told(b: Seq<u8>, like: Ask, range: Range, slots: Seq<Slot>)
    requires
        like.input == JsonInput::Text,
        like.ctx.max == MAX_NESTING,
        like.ctx.strictness == Strictness::Strict,
        text_slots(b, like.ctx.dialect, slots),
        scanned(b, slice_ask(like, range)) is Ok,
    ensures
        scanned(b, slice_ask(like, range))->Ok_0.0[0] matches AnswerModel::Columns(source, batch) && source == b && batch
            == retained(
            BatchModel {
                fields: row_fields(row_shape(window_of(range))->0),
                cells: pieces(b, begins(slots, slots.len()), every(), like.ctx),
            },
            range.from(slots.len() as int),
            range.to(slots.len() as int),
        ),
{
    let ask = slice_ask(like, range);
    let ctx = like.ctx;
    let w = text_is_walked(b, ask, Json::Array(element_values(slots)));
    let pos = trivia_end(b, text_start(b), ctx.dialect)->Ok_0;
    let close = built(b, pos, unbounded(ctx.dialect), no_room(), 0)->Ok_0.0;
    items_are_slots(b, pos, close, slots, ctx, 1, 0);
    assert(begins(slots, slots.len()).skip(0) =~= begins(slots, slots.len()));
    text_facts(b, ctx.dialect);
    opens_as(b, pos, ctx.dialect, 0);
    assert(flat(ask.demands)[0] == window_of(range));
    window_is_walked(b, pos, flat(ask.demands), 0, range, ctx, root_env(ask), w);
}

/// Whether a cell is the element that a scan by its index finds.
pub open spec fn is_element(b: Seq<u8>, like: Ask, cell: ColumnCell, k: i64) -> bool {
    found_at(b, asked_at(like, seq![StepModel::Index(k)])) matches Some(s) && cell == ColumnCell::Span(s)
}

/// A window holds exactly the elements from its first bound up to its second, in order,
/// each as a scan by its index finds it.
#[verifier::rlimit(60)]
pub proof fn window_holds_the_elements_in_it(b: Seq<u8>, like: Ask, range: Range, items: Seq<Json>)
    requires
        b.len() <= usize::MAX,
        like.input == JsonInput::Text,
        like.ctx.max == MAX_NESTING,
        like.ctx.strictness == Strictness::Strict,
        text_value(b, like.ctx.dialect) == Ok::<Json, Error>(Json::Array(items)),
        scanned(b, slice_ask(like, range)) is Ok,
        items.len() <= i64::MAX,
    ensures
        ({
            let lo = bound_at(range.start, 0, items.len() as int);
            let hi = bound_at(range.end, items.len() as int, items.len() as int);
            scanned(b, slice_ask(like, range))->Ok_0.0[0] matches AnswerModel::Columns(source, batch) && source == b
                && batch.cells.len() == (if lo < hi {
                hi - lo
            } else {
                0
            }) && forall|q: int| 0 <= q < batch.cells.len() ==> is_element(b, like, #[trigger] batch.cells[q], (lo + q) as i64)
        }),
{
    let n = items.len() as int;
    let lo = bound_at(range.start, 0, n);
    let hi = bound_at(range.end, n, n);
    let slots = array_text_has_slots(b, like.ctx.dialect, items);
    window_is_told(b, like, range, slots);
    let all = begins(slots, slots.len());
    let cells = pieces(b, all, every(), like.ctx);
    assert forall|q: int| 0 <= q < all.len() implies piece_at(b, #[trigger] all[q], every(), like.ctx).len() == 1 by {}
    pieces_len(b, all, every(), like.ctx, 1);
    let fields = row_fields(row_shape(window_of(range))->0);
    assert(fields.len() == 1);
    let to = if hi < lo {
        lo
    } else {
        hi
    };
    assert(range.from(n) == lo && range.to(n) == to);
    cells_are_retained(cells, fields, lo, to);
    let kept_cells = cells.subrange(lo, to);
    assert forall|q: int| 0 <= q < kept_cells.len() implies is_element(b, like, #[trigger] kept_cells[q], (lo + q) as i64) by {
        let k = lo + q;
        index_finds_the_slot(b, like, slots, k as i64);
        pieces_in_rows(b, all, every(), like.ctx, 1, k, 0);
        assert(slot_reads(b, slots[k], ContainerKind::Array, like.ctx.dialect, 1));
        slot_is_reached(b, slots[k], ContainerKind::Array, like.ctx, 1);
    }
}

} // verus!
