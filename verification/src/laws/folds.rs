//! What the parts of an array answer, one behind the other, is what the array answers.

use vstd::prelude::*;

use crate::answer::AnswerModel;
use crate::ascii::{LBRACKET, RBRACKET};
use crate::demand::DemandModel;
use crate::error::Error;
use crate::framing::{at_least_one, packed, packed_runs, with_range};
use crate::laws::alone::nodes_agree;
use crate::laws::ends::{array_ends_well, child_ends_well, ends_at_reach, node_ends_well, reach};
use crate::laws::levels::{array_is_cut_to_go_on, closes_at, goes_on_at, resumes, spans_begin};
use crate::laws::paths::kept_at_rank;
use crate::laws::records::{entries_hold_live, reads, slot_after};
use crate::laws::row_parts::folds_to;
use crate::laws::rowless::{node_rowless, rowless};
use crate::laws::shallow::{
    array_end_at, array_tells_rows, cells_at, count_from, element_cells, kind_tells, prefix_is_bound, rows_from,
};
use crate::laws::strict::item_is_settled;
use crate::laws::walks::{
    a_child, a_node, an_array, array_end, array_step, child_step, elements_step, first_element, need_of, node_step,
    some_elements,
};
use crate::lex::skip::{next_at, next_at_bounds, NextAt};
use crate::lex::ws::{trivia_end, trivia_end_bounds};
use crate::shard::path::located_end;
use crate::scan::{Ask, JsonInput};
use crate::shard::cut::serial_elements;
use crate::shard::plan::part_scanned;
use crate::shard::window::{
    any_sum, counted, mapped, mapped_from, mapped_marks, on_array, shard_of, window_answers, window_next, Shard,
};
use crate::stream::{
    all_missing, entries, entry_of, every_law, live, record_walk, row_of, rows_asked, rows_so_far, slot_of,
    slots_after,
};
use crate::value::{span, ByteRange};
use crate::walk::marks::{folded, row_fields, row_shape, with_cells, BatchModel, ColumnCell, MarkModel, Shape};
use crate::walk::model::{
    all_rows, array_hits, batch_of, bounded_end, child_mark, element_env, flat, flat_row, kept, kind_at, next_element,
    node, rank, row_mark, rows, ArrayState, Env, WalkCtx, Walked,
};

verus! {

/// Where the elements of an array stand, from `pos` on.
pub open spec fn items_from(b: Seq<u8>, pos: int, ctx: WalkCtx, first: bool) -> Seq<int>
    decreases b.len() - pos,
{
    match next_at(b, pos, ctx.dialect, RBRACKET, first) {
        Ok(NextAt::Item(p)) => match reach(b, p, ctx) {
            Ok(e) => if pos < e <= b.len() {
                seq![p] + items_from(b, e, ctx, false)
            } else {
                Seq::empty()
            },
            Err(_) => Seq::empty(),
        },
        _ => Seq::empty(),
    }
}

/// Where the elements of an array stand, from `pos` on and before `end`.
pub open spec fn items_before(b: Seq<u8>, pos: int, end: int, ctx: WalkCtx, first: bool) -> Seq<int>
    decreases b.len() - pos,
{
    match next_at(b, pos, ctx.dialect, RBRACKET, first) {
        Ok(NextAt::Item(p)) => match reach(b, p, ctx) {
            Ok(e) => if pos < e <= b.len() && p < end {
                seq![p] + items_before(b, e, end, ctx, false)
            } else {
                Seq::empty()
            },
            Err(_) => Seq::empty(),
        },
        _ => Seq::empty(),
    }
}

/// Elements up to a place where they can go on, and from there on, are all of them.
pub(crate) proof fn items_split(b: Seq<u8>, pos: int, first: bool, s: int, ctx: WalkCtx)
    requires
        0 <= pos <= b.len(),
        resumes(b, pos, first, s, ctx),
    ensures
        items_from(b, pos, ctx, first) == items_before(b, pos, s, ctx, first) + items_from(b, s, ctx, true),
        closes_at(b, s, ctx, true) == closes_at(b, pos, ctx, first),
    decreases b.len() - pos,
{
    next_at_bounds(b, pos, ctx.dialect, RBRACKET, first);
    if goes_on_at(b, pos, first, s, ctx) {
        assert(items_before(b, pos, s, ctx, first) =~= Seq::empty());
        items_start(b, pos, first, s, ctx);
        assert(items_from(b, pos, ctx, first) =~= items_before(b, pos, s, ctx, first) + items_from(b, s, ctx, true));
    } else {
        let p = next_at(b, pos, ctx.dialect, RBRACKET, first)->Ok_0->Item_0;
        let e = reach(b, p, ctx)->Ok_0;
        items_split(b, e, false, s, ctx);
        let head = items_before(b, e, s, ctx, false);
        let tail = items_from(b, s, ctx, true);
        assert((seq![p] + head) + tail =~= seq![p] + (head + tail));
    }
}

/// From where the elements can go on, they do.
proof fn items_start(b: Seq<u8>, pos: int, first: bool, s: int, ctx: WalkCtx)
    requires
        0 <= pos <= b.len(),
        goes_on_at(b, pos, first, s, ctx),
    ensures
        items_from(b, pos, ctx, first) == items_from(b, s, ctx, true),
        closes_at(b, s, ctx, true) == closes_at(b, pos, ctx, first),
{
    next_at_bounds(b, pos, ctx.dialect, RBRACKET, first);
    if let Ok(NextAt::Item(p)) = next_at(b, pos, ctx.dialect, RBRACKET, first) {
        if let Ok(e) = reach(b, p, ctx) {
            reach_bounds(b, p, ctx);
        }
    }
}

pub(crate) proof fn reach_bounds(b: Seq<u8>, p: int, ctx: WalkCtx)
    requires
        0 <= p <= b.len(),
    ensures
        reach(b, p, ctx) matches Ok(e) ==> p < e <= b.len(),
{
    reveal(reach);
    crate::lex::skip::value_bounds(b, p, crate::laws::ends::locating(ctx), p - b.len());
}

/// No element stands behind the array's closer.
proof fn items_end(b: Seq<u8>, pos: int, first: bool, end: int, ctx: WalkCtx)
    requires
        0 <= pos <= b.len(),
        closes_at(b, pos, ctx, first) matches Some(c) && c <= end,
    ensures
        items_before(b, pos, end, ctx, first) == items_from(b, pos, ctx, first),
        closes_at(b, pos, ctx, first)->0 > pos,
    decreases b.len() - pos,
{
    next_at_bounds(b, pos, ctx.dialect, RBRACKET, first);
    if let Ok(NextAt::Item(p)) = next_at(b, pos, ctx.dialect, RBRACKET, first) {
        let e = reach(b, p, ctx)->Ok_0;
        reach_bounds(b, p, ctx);
        items_end(b, e, false, end, ctx);
    }
}

/// Places where an array can go on follow one another.
proof fn resumes_on(b: Seq<u8>, pos: int, first: bool, s: int, t: int, ctx: WalkCtx)
    requires
        0 <= pos <= b.len(),
        resumes(b, pos, first, s, ctx),
        resumes(b, pos, first, t, ctx),
        s <= t,
    ensures
        resumes(b, s, true, t, ctx),
    decreases b.len() - pos,
{
    next_at_bounds(b, pos, ctx.dialect, RBRACKET, first);
    if goes_on_at(b, pos, first, s, ctx) {
        if !goes_on_at(b, pos, first, t, ctx) {
            let p = next_at(b, pos, ctx.dialect, RBRACKET, first)->Ok_0->Item_0;
            reach_bounds(b, p, ctx);
        }
    } else {
        let p = next_at(b, pos, ctx.dialect, RBRACKET, first)->Ok_0->Item_0;
        let e = reach(b, p, ctx)->Ok_0;
        assert(!goes_on_at(b, pos, first, t, ctx));
        resumes_on(b, e, false, s, t, ctx);
    }
}

/// The next value of a window is the next element, when that stands before its end.
proof fn window_goes(b: Seq<u8>, pos: int, end: int, ctx: WalkCtx, first: bool)
    requires
        0 <= pos <= b.len(),
        0 <= end <= b.len(),
    ensures
        window_next(b, pos, end, ctx.dialect, first) matches Ok(Some(p)) ==> next_at(b, pos, ctx.dialect, RBRACKET, first)
            == Ok::<NextAt, Error>(NextAt::Item(p)) && p < end,
        window_next(b, pos, end, ctx.dialect, first) matches Ok(None) ==> (next_at(b, pos, ctx.dialect, RBRACKET, first) matches Ok(
            NextAt::Item(p),
        ) ==> p >= end),
{
    reveal(window_next);
    reveal(next_at);
    trivia_end_bounds(b, pos, ctx.dialect);
    if let Ok(p) = trivia_end(b, pos, ctx.dialect) {
        if p < b.len() {
            trivia_end_bounds(b, p + 1, ctx.dialect);
        }
    }
}

/// A window counts the elements in it.
pub(crate) proof fn window_counts(b: Seq<u8>, pos: int, end: int, ctx: WalkCtx, first: bool, n: int)
    requires
        0 <= pos <= b.len(),
        0 <= end <= b.len(),
    ensures
        counted(b, pos, end, ctx, first, n) matches Ok(m) ==> m == n + items_before(b, pos, end, ctx, first).len(),
    decreases b.len() - pos,
{
    window_goes(b, pos, end, ctx, first);
    next_at_bounds(b, pos, ctx.dialect, RBRACKET, first);
    if let Ok(Some(p)) = window_next(b, pos, end, ctx.dialect, first) {
        item_is_settled(b, pos, ctx.dialect, RBRACKET, first);
        if let Ok(e) = located_end(b, p, ctx.unread(), ctx.max, ctx.dialect) {
            ends_at_reach(b, p, ctx.unread(), ctx, 0);
            window_counts(b, e, end, ctx, false, n + 1);
        }
    }
}

/// A count of an array is the number of its elements.
pub(crate) proof fn count_is_items(b: Seq<u8>, pos: int, ctx: WalkCtx, n: int)
    requires
        0 <= pos <= b.len(),
        0 <= n,
    ensures
        count_from(b, pos, ctx, n) == n + items_from(b, pos, ctx, n == 0).len(),
    decreases b.len() - pos,
{
    if let Ok(NextAt::Item(p)) = next_at(b, pos, ctx.dialect, RBRACKET, n == 0) {
        if let Ok(e) = reach(b, p, ctx) {
            if pos < e <= b.len() {
                count_is_items(b, e, ctx, n + 1);
            }
        }
    }
}

/// Whether an element answers a demand with what it adds to rows, not with rows of its own.
pub open spec fn adds_alone(inner: DemandModel) -> bool {
    inner is Project || inner is Filter || (rowless(inner) && row_of(inner, false) == inner)
}

/// Whether a demand on an array answers with rows that its elements add to, one after the
/// other.
pub open spec fn adds_rows(g: DemandModel) -> bool {
    flat_row(g) || (g matches DemandModel::Collection { keys, nested } && (nested matches Some(inner) ==> adds_alone(*inner)))
}

/// Whether some walk of the value at `p`, as an element, answers a demand with a mark.
pub open spec fn element_answers(b: Seq<u8>, p: int, h: DemandModel, ctx: WalkCtx, mark: MarkModel) -> bool {
    exists|hits: Seq<DemandModel>, r: int, depth: int, env: Env|
        #![trigger node(b, p, hits, ctx, depth, env), hits[r]]
        0 <= r < hits.len() && hits[r] == h && 0 <= depth && env.element && !env.may_stop && node(b, p, hits, ctx, depth, env) is Ok
            && node(b, p, hits, ctx, depth, env)->Ok_0.marks[r] == mark
}

/// What a walk of the value at `p`, as an element, answers a demand.
pub open spec fn element_mark(b: Seq<u8>, p: int, h: DemandModel, ctx: WalkCtx) -> MarkModel {
    choose|mark: MarkModel| element_answers(b, p, h, ctx, mark)
}

/// The cells that a mark adds to rows of a shape.
pub open spec fn added_cells(shape: Shape, mark: MarkModel, at: ByteRange) -> Seq<ColumnCell> {
    folded(BatchModel { fields: row_fields(shape), cells: Seq::empty() }, shape, mark, at).cells
}

/// The cells that the element at `p` adds to the rows of a demand on its array.
pub open spec fn piece_at(b: Seq<u8>, p: int, g: DemandModel, ctx: WalkCtx) -> Seq<ColumnCell> {
    let at = span(p, reach(b, p, ctx)->Ok_0);
    match g {
        DemandModel::Collection { keys, nested } => match nested {
            Some(inner) => if flat_row(*inner) {
                cells_at(b, p, *inner, ctx)
            } else {
                added_cells(row_shape(g)->0, element_mark(b, p, *inner, ctx), at)
            },
            None => match keys {
                Some(names) => cells_at(b, p, DemandModel::Project { path: Seq::empty(), fields: names }, ctx),
                None => seq![ColumnCell::Span(at)],
            },
        },
        _ => cells_at(b, p, g, ctx),
    }
}

/// The cells that elements add to the rows of a demand on their array.
pub open spec fn pieces(b: Seq<u8>, items: Seq<int>, g: DemandModel, ctx: WalkCtx) -> Seq<ColumnCell>
    decreases items.len(),
{
    if items.len() == 0 {
        Seq::empty()
    } else {
        piece_at(b, items[0], g, ctx) + pieces(b, items.skip(1), g, ctx)
    }
}

pub(crate) proof fn pieces_split(b: Seq<u8>, x: Seq<int>, y: Seq<int>, g: DemandModel, ctx: WalkCtx)
    ensures
        pieces(b, x + y, g, ctx) == pieces(b, x, g, ctx) + pieces(b, y, g, ctx),
    decreases x.len(),
{
    if x.len() == 0 {
        assert(x + y =~= y);
        assert(Seq::<ColumnCell>::empty() + pieces(b, y, g, ctx) =~= pieces(b, y, g, ctx));
    } else {
        assert((x + y).skip(1) =~= x.skip(1) + y);
        pieces_split(b, x.skip(1), y, g, ctx);
        let head = piece_at(b, x[0], g, ctx);
        assert(head + (pieces(b, x.skip(1), g, ctx) + pieces(b, y, g, ctx)) =~= (head + pieces(b, x.skip(1), g, ctx)) + pieces(
            b,
            y,
            g,
            ctx,
        ));
    }
}

pub(crate) proof fn one_piece_more(b: Seq<u8>, p: int, rest: Seq<int>, g: DemandModel, ctx: WalkCtx)
    ensures
        pieces(b, seq![p] + rest, g, ctx) == piece_at(b, p, g, ctx) + pieces(b, rest, g, ctx),
{
    let all = seq![p] + rest;
    assert(all.skip(1) =~= rest);
}

/// Whether a mark adds cells to whatever rows came before.
pub(crate) open spec fn adds(mark: MarkModel, shape: Shape, at: ByteRange, cells: Seq<ColumnCell>) -> bool {
    forall|acc: BatchModel| #[trigger] folded(acc, shape, mark, at) == with_cells(acc, cells)
}

/// Walks of an element answer a demand alike, at whatever depth and beside whatever else.
proof fn element_mark_is(b: Seq<u8>, p: int, hits: Seq<DemandModel>, r: int, ctx: WalkCtx, depth: int, env: Env)
    requires
        0 <= p <= b.len(),
        0 <= r < hits.len(),
        0 <= depth,
        env.element,
        !env.may_stop,
        a_node(b, p, hits, ctx, depth, env) is Ok,
    ensures
        element_mark(b, p, hits[r], ctx) == a_node(b, p, hits, ctx, depth, env)->Ok_0.marks[r],
{
    let h = hits[r];
    let mark = a_node(b, p, hits, ctx, depth, env)->Ok_0.marks[r];
    assert(element_answers(b, p, h, ctx, mark)) by {
        reveal(a_node);
        assert(node(b, p, hits, ctx, depth, env) is Ok && hits[r] == h);
    }
    let chosen = element_mark(b, p, h, ctx);
    let (some, j, deep, other) = choose|some: Seq<DemandModel>, j: int, deep: int, other: Env|
        #![trigger node(b, p, some, ctx, deep, other), some[j]]
        0 <= j < some.len() && some[j] == h && 0 <= deep && other.element && !other.may_stop && node(b, p, some, ctx, deep, other) is Ok
            && node(b, p, some, ctx, deep, other)->Ok_0.marks[j] == chosen;
    assert(a_node(b, p, some, ctx, deep, other) == node(b, p, some, ctx, deep, other)) by {
        reveal(a_node);
    }
    node_ends_well(b, p, some, ctx, deep, other);
    nodes_agree(b, p, hits, r, some, j, ctx, depth, deep, env, other);
}

/// A mark that is no rows, or rows under names, adds to whatever rows came before.
proof fn mark_adds(shape: Shape, mark: MarkModel, at: ByteRange)
    requires
        shape is Whole ==> !(mark is Rows),
    ensures
        adds(mark, shape, at, added_cells(shape, mark, at)),
{
    let empty = BatchModel { fields: row_fields(shape), cells: Seq::<ColumnCell>::empty() };
    let cells = added_cells(shape, mark, at);
    assert forall|acc: BatchModel| #[trigger] folded(acc, shape, mark, at) == with_cells(acc, cells) by {
        let one = folded(empty, shape, mark, at);
        assert(folded(acc, shape, mark, at).cells =~= acc.cells + one.cells);
    }
}

/// What an element answers a row demand adds its piece.
pub(crate) proof fn element_adds(
    b: Seq<u8>,
    p: int,
    reaching: Seq<DemandModel>,
    r: int,
    ctx: WalkCtx,
    depth: int,
    env: Env,
    g: DemandModel,
)
    requires
        adds_rows(g),
        0 <= r < reaching.len(),
        reaching[r] == row_of(g, false),
        0 <= p <= b.len(),
        trivia_end(b, p, ctx.dialect) == Ok::<int, Error>(p),
        0 <= depth,
        env.element,
        !env.may_stop,
    ensures
        a_node(b, p, reaching, ctx, depth, env) matches Ok(w) ==> reach(b, p, ctx) == Ok::<int, Error>(w.end) && adds(
            w.marks[r],
            row_shape(g)->0,
            span(p, w.end),
            piece_at(b, p, g, ctx),
        ),
{
    let row = reaching[r];
    reveal_with_fuel(row_of, 3);
    node_ends_well(b, p, reaching, ctx, depth, env);
    if let Ok(w) = a_node(b, p, reaching, ctx, depth, env) {
        if flat_row(row) {
            element_cells(b, p, reaching, r, ctx, depth, env);
            assert(row_shape(g) == row_shape(row));
            let cells = piece_at(b, p, g, ctx);
            assert forall|acc: BatchModel| #[trigger] folded(acc, row_shape(g)->0, w.marks[r], span(p, w.end)) == with_cells(
                acc,
                cells,
            ) by {
                assert(folds_to(w.marks[r], row, cells));
            }
        } else if g->Collection_nested is None {
            assert(row == DemandModel::Whole);
            node_step(b, p, reaching, ctx, depth, env);
            let kind = kind_at(b[p], ctx.dialect)->0;
            assert(flat(reaching)[r] == DemandModel::Whole);
            kind_tells(b, p, kind, flat(reaching), r, ctx, depth, env);
        } else {
            element_mark_is(b, p, reaching, r, ctx, depth, env);
            let shape = row_shape(g)->0;
            if rowless(row) {
                node_rowless(b, p, reaching, r, ctx, depth, env);
            }
            mark_adds(shape, w.marks[r], span(p, w.end));
        }
    }
}

/// What an element of an array adds to the rows of a collection.
proof fn child_adds(b: Seq<u8>, p: int, hits: Seq<DemandModel>, i: int, idx: int, ctx: WalkCtx, depth: int)
    requires
        0 <= i < hits.len(),
        adds_rows(hits[i]),
        hits[i] is Collection,
        0 <= p <= b.len(),
        trivia_end(b, p, ctx.dialect) == Ok::<int, Error>(p),
        0 <= depth,
    ensures
        ({
            let opts = array_hits(hits, idx);
            a_child(b, p, kept(opts), hits, ctx, depth, element_env()) matches Ok(w) ==> reach(b, p, ctx) == Ok::<int, Error>(w.end)
                && p < w.end <= b.len() && adds(
                child_mark(opts, w.marks, i),
                row_shape(hits[i])->0,
                span(p, w.end),
                piece_at(b, p, hits[i], ctx),
            )
        }),
{
    let opts = array_hits(hits, idx);
    child_ends_well(b, p, kept(opts), hits, ctx, depth, element_env());
    child_step(b, p, kept(opts), hits, ctx, depth, element_env());
    match opts[i] {
        Some(d) => {
            kept_at_rank(opts, i);
            reveal_with_fuel(row_of, 3);
            assert(d == row_of(hits[i], false));
            element_adds(b, p, kept(opts), rank(opts, i), ctx, depth, element_env(), hits[i]);
        },
        None => {},
    }
}

/// The rows of a collection over the elements of an array.
proof fn collection_rows(b: Seq<u8>, st: ArrayState, hits: Seq<DemandModel>, i: int, ctx: WalkCtx, depth: int)
    requires
        0 <= i < hits.len(),
        adds_rows(hits[i]),
        hits[i] is Collection,
        st.marks.len() == hits.len(),
        st.marks[i] is Rows,
        0 <= st.pos <= b.len(),
        0 <= st.idx,
        0 <= depth,
    ensures
        some_elements(b, st, hits, ctx, depth, None) matches Ok(last) ==> last.marks.len() == hits.len() && last.marks[i]
            == MarkModel::Rows(
            with_cells(batch_of(st.marks[i]), pieces(b, items_from(b, st.pos, ctx, st.idx == 0), hits[i], ctx)),
        ),
    decreases b.len() - st.pos,
{
    let g = hits[i];
    let batch = batch_of(st.marks[i]);
    elements_step(b, st, hits, ctx, depth, None);
    next_at_bounds(b, st.pos, ctx.dialect, RBRACKET, st.idx == 0);
    assert(with_cells(batch, Seq::empty()).cells =~= batch.cells);
    if let Ok(NextAt::Item(p)) = next_at(b, st.pos, ctx.dialect, RBRACKET, st.idx == 0) {
        item_is_settled(b, st.pos, ctx.dialect, RBRACKET, st.idx == 0);
        let opts = array_hits(hits, st.idx);
        child_adds(b, p, hits, i, st.idx, ctx, depth);
        if let Ok(w) = a_child(b, p, kept(opts), hits, ctx, depth, element_env()) {
            let next = next_element(st, hits, opts, w, p);
            let piece = piece_at(b, p, g, ctx);
            let shape = row_shape(g)->0;
            assert(folded(batch, shape, child_mark(opts, w.marks, i), span(p, w.end)) == with_cells(batch, piece));
            collection_rows(b, next, hits, i, ctx, depth);
            let rest = items_from(b, w.end, ctx, false);
            one_piece_more(b, p, rest, g, ctx);
            assert((batch.cells + piece) + pieces(b, rest, g, ctx) =~= batch.cells + (piece + pieces(b, rest, g, ctx)));
        }
    }
}

/// Rows are what the elements add.
proof fn rows_are_pieces(b: Seq<u8>, pos: int, ctx: WalkCtx, first: bool, g: DemandModel)
    requires
        flat_row(g),
    ensures
        rows_from(b, pos, ctx, first, g) == pieces(b, items_from(b, pos, ctx, first), g, ctx),
    decreases b.len() - pos,
{
    if let Ok(NextAt::Item(p)) = next_at(b, pos, ctx.dialect, RBRACKET, first) {
        if let Ok(e) = reach(b, p, ctx) {
            if pos < e <= b.len() {
                rows_are_pieces(b, e, ctx, false, g);
                one_piece_more(b, p, items_from(b, e, ctx, false), g, ctx);
            }
        }
    }
}

/// What an array answers a demand that its elements add rows to.
pub(crate) proof fn array_adds_up(
    b: Seq<u8>,
    start: int,
    hits: Seq<DemandModel>,
    i: int,
    answered: Seq<MarkModel>,
    ctx: WalkCtx,
    depth: int,
    env: Env,
)
    requires
        0 <= i < hits.len(),
        adds_rows(hits[i]),
        answered.len() == hits.len(),
        0 <= start < b.len(),
        b[start] == LBRACKET,
        0 <= depth,
    ensures
        an_array(b, start, hits, answered, ctx, depth, env) matches Ok(w) ==> w.marks.len() == hits.len() && w.marks[i]
            == row_mark(hits[i], pieces(b, items_from(b, start + 1, ctx, true), hits[i], ctx)),
{
    let g = hits[i];
    if flat_row(g) {
        array_tells_rows(b, start, hits, i, answered, ctx, depth, env);
        rows_are_pieces(b, start + 1, ctx, true, g);
    } else {
        array_step(b, start, hits, answered, ctx, depth, env);
        array_ends_well(b, start, hits, answered, ctx, depth, env);
        if let Ok(w) = an_array(b, start, hits, answered, ctx, depth, env) {
            assert(!all_rows(hits)) by {
                assert(!flat_row(hits[i]));
            }
            prefix_is_bound(hits);
            assert(need_of(hits, env) is None) by {
                assert(bounded_end(hits[i]) is None);
            }
            let first = first_element(start, hits, answered);
            collection_rows(b, first, hits, i, ctx, depth + 1);
            reveal(array_end);
            let st = some_elements(b, first, hits, ctx, depth + 1, None)->Ok_0;
            array_end_at(b, start, hits, hits.len(), i, st, ctx, depth, env);
            let all = pieces(b, items_from(b, start + 1, ctx, true), g, ctx);
            assert(Seq::<ColumnCell>::empty() + all =~= all);
        }
    }
}

/// A window adds the pieces of the elements in it.
proof fn window_adds(
    b: Seq<u8>,
    pos: int,
    end: int,
    demands: Seq<DemandModel>,
    i: int,
    ctx: WalkCtx,
    first: bool,
    acc: Seq<MarkModel>,
    n: int,
)
    requires
        0 <= i < demands.len(),
        adds_rows(demands[i]),
        acc.len() == demands.len(),
        acc[i] is Rows || acc[i] is Missing,
        0 <= pos <= b.len(),
        0 <= end <= b.len(),
    ensures
        mapped_from(b, pos, end, demands, ctx, first, acc, n) matches Ok((marks, m)) ==> ({
            let g = demands[i];
            let cells = pieces(b, items_before(b, pos, end, ctx, first), g, ctx);
            let so_far = rows_so_far(acc[i], row_shape(g)->0);
            &&& marks.len() == demands.len()
            &&& marks[i] is Rows || (marks[i] is Missing && acc[i] is Missing)
            &&& rows_so_far(marks[i], row_shape(g)->0) == with_cells(so_far, cells)
        }),
    decreases b.len() - pos,
{
    let g = demands[i];
    let shape = row_shape(g)->0;
    let so_far = rows_so_far(acc[i], shape);
    window_goes(b, pos, end, ctx, first);
    next_at_bounds(b, pos, ctx.dialect, RBRACKET, first);
    assert(with_cells(so_far, Seq::empty()).cells =~= so_far.cells);
    if let Ok(Some(p)) = window_next(b, pos, end, ctx.dialect, first) {
        item_is_settled(b, pos, ctx.dialect, RBRACKET, first);
        if let Ok(w) = record_walk(b, p, demands, 0, 0, ctx) {
            let row = row_of(g, false);
            let entry = entry_of(g, i, 0, 0)->0;
            assert(entry.row == row && entry.law == Some(shape));
            assert(reads(g, 0, 0));
            slot_after(b, p, acc, demands, i, 0, 0, w, ctx.dialect);
            entries_hold_live(demands, demands.len(), 0, 0);
            let all = entries(demands, demands.len(), 0, 0);
            let active = live(demands, demands.len(), 0, 0);
            let r = live(demands, i as nat, 0, 0).len() as int;
            let env = Env { element: true, may_stop: false, lane: active.len() == all.len() };
            assert(a_node(b, p, rows_asked(active), ctx, 0, env) == Ok::<Walked, Error>(w)) by {
                reveal(record_walk);
                reveal(a_node);
            }
            assert(rows_asked(active)[r] == row);
            element_adds(b, p, rows_asked(active), r, ctx, 0, env, g);
            let next = slots_after(b, p, acc, demands, 0, 0, w, ctx.dialect);
            let piece = piece_at(b, p, g, ctx);
            assert(folded(so_far, shape, w.marks[r], span(p, w.end)) == with_cells(so_far, piece));
            assert(next[i] == MarkModel::Rows(with_cells(so_far, piece)));
            reach_bounds(b, p, ctx);
            window_adds(b, w.end, end, demands, i, ctx, false, next, n + 1);
            let rest = items_before(b, w.end, end, ctx, false);
            one_piece_more(b, p, rest, g, ctx);
            assert((so_far.cells + piece) + pieces(b, rest, g, ctx) =~= so_far.cells + (piece + pieces(b, rest, g, ctx)));
        }
    }
}

/// What a window of an array answers a demand that its elements add rows to.
pub(crate) proof fn window_adds_up(b: Seq<u8>, start: int, end: int, demands: Seq<DemandModel>, i: int, ctx: WalkCtx)
    requires
        0 <= i < demands.len(),
        adds_rows(demands[i]),
        0 <= start <= b.len(),
        0 <= end <= b.len(),
    ensures
        mapped_marks(b, start, end, demands, ctx) matches Ok(marks) ==> marks.len() == demands.len() && marks[i]
            == row_mark(demands[i], pieces(b, items_before(b, start, end, ctx, true), demands[i], ctx)),
{
    reveal(mapped_marks);
    let g = demands[i];
    let acc = all_missing(demands.len());
    window_adds(b, start, end, demands, i, ctx, true, acc, 0);
    let cells = pieces(b, items_before(b, start, end, ctx, true), g, ctx);
    assert(Seq::<ColumnCell>::empty() + cells =~= cells);
    assert(slot_of(g, 0) is Every);
    assert(every_law(g, row_of(g, false)) == row_shape(g));
}

/// What elements of an array answer a demand on it: how many they are, or the rows that
/// they add.
pub open spec fn array_answer(b: Seq<u8>, items: Seq<int>, d: DemandModel, ctx: WalkCtx) -> AnswerModel {
    if shard_of(d) == Shard::Sum {
        AnswerModel::Count(items.len() as int)
    } else {
        AnswerModel::Columns(
            b,
            BatchModel { fields: row_fields(row_shape(on_array(d))->0), cells: pieces(b, items, on_array(d), ctx) },
        )
    }
}

/// One part's answer in front of what later parts came to: counts are added, and cells
/// follow one another.
pub open spec fn joined_answers(x: AnswerModel, y: AnswerModel) -> Option<AnswerModel> {
    match (x, y) {
        (AnswerModel::Count(n), AnswerModel::Count(m)) => Some(AnswerModel::Count(n + m)),
        (AnswerModel::Columns(source, head), AnswerModel::Columns(_, tail)) => Some(
            AnswerModel::Columns(
                source,
                BatchModel {
                    fields: if head.cells.len() > 0 {
                        head.fields
                    } else {
                        tail.fields
                    },
                    cells: head.cells + tail.cells,
                },
            ),
        ),
        _ => None,
    }
}

/// What the answers of parts to one demand fold to: the one answer, or each joined to
/// those of the later parts.
pub open spec fn stitched(answers: Seq<AnswerModel>) -> Option<AnswerModel>
    decreases answers.len(),
{
    if answers.len() == 0 {
        None
    } else if answers.len() == 1 {
        Some(answers[0])
    } else {
        match stitched(answers.skip(1)) {
            Some(rest) => joined_answers(answers[0], rest),
            None => None,
        }
    }
}

/// The answers of parts to one demand of a request.
pub open spec fn part_answers(b: Seq<u8>, parts: Seq<ByteRange>, ask: Ask, j: int) -> Seq<AnswerModel> {
    parts.map_values(|part: ByteRange| part_scanned(b, part, ask)->Ok_0.0[j])
}

/// Whether every part of a plan is read.
pub open spec fn parts_read(b: Seq<u8>, parts: Seq<ByteRange>, ask: Ask) -> bool {
    forall|k: int| 0 <= k < parts.len() ==> part_scanned(b, #[trigger] parts[k], ask) is Ok
}

/// Whether the parts of an array fold for a demand on it.
pub open spec fn folds(d: DemandModel) -> bool {
    shard_of(d) == Shard::Sum || (shard_of(d) == Shard::Concat && adds_rows(on_array(d)))
}

/// Where a demand stands among those that are mapped over a part.
proof fn mapped_at(demands: Seq<DemandModel>, m: nat, i: int)
    requires
        0 <= i < m <= demands.len(),
        shard_of(demands[i]) != Shard::Sum,
    ensures
        mapped(demands, i as nat).len() < mapped(demands, m).len(),
        mapped(demands, m)[mapped(demands, i as nat).len() as int] == on_array(demands[i]),
    decreases m,
{
    if i < m - 1 {
        mapped_at(demands, (m - 1) as nat, i);
    }
}

/// A part of an array answers with the elements in it.
proof fn part_answers_items(b: Seq<u8>, part: ByteRange, ask: Ask, j: int)
    requires
        ask.input == JsonInput::Text,
        0 <= j < ask.demands.len(),
        folds(ask.demands[j]),
        0 < part.start <= part.end <= b.len(),
        part_scanned(b, part, ask) is Ok,
    ensures
        part_scanned(b, part, ask)->Ok_0.0.len() == ask.demands.len(),
        part_scanned(b, part, ask)->Ok_0.0[j] == array_answer(
            b,
            items_before(b, part.start as int, part.end as int, ask.ctx, true),
            ask.demands[j],
            ask.ctx,
        ),
{
    reveal(part_scanned);
    reveal(window_answers);
    let d = ask.demands[j];
    let start = part.start as int;
    let end = part.end as int;
    if shard_of(d) == Shard::Sum {
        assert(any_sum(ask.demands));
        window_counts(b, start, end, ask.ctx, true, 0);
    } else {
        let rows = mapped(ask.demands, ask.demands.len());
        mapped_at(ask.demands, ask.demands.len(), j);
        window_adds_up(b, start, end, rows, mapped(ask.demands, j as nat).len() as int, ask.ctx);
    }
}

/// What two runs of elements answer joins to what both answer.
proof fn answers_join(b: Seq<u8>, x: Seq<int>, y: Seq<int>, d: DemandModel, ctx: WalkCtx)
    ensures
        joined_answers(array_answer(b, x, d, ctx), array_answer(b, y, d, ctx)) == Some(array_answer(b, x + y, d, ctx)),
{
    pieces_split(b, x, y, on_array(d), ctx);
}

/// Packed runs of an array's elements fold to all of them.
proof fn packed_folds(
    b: Seq<u8>,
    start: int,
    spans: Seq<ByteRange>,
    c: int,
    from: int,
    i: int,
    target: int,
    ask: Ask,
    j: int,
)
    requires
        b.len() <= usize::MAX,
        0 <= start < b.len(),
        spans_begin(b, start, spans, c, ask.ctx),
        0 <= from < spans.len(),
        from <= i <= spans.len(),
        ask.input == JsonInput::Text,
        0 <= j < ask.demands.len(),
        folds(ask.demands[j]),
        parts_read(b, packed(spans, i, spans[from].start as int, target, true, c), ask),
    ensures
        packed(spans, i, spans[from].start as int, target, true, c).len() > 0,
        stitched(part_answers(b, packed(spans, i, spans[from].start as int, target, true, c), ask, j)) == Some(
            array_answer(b, items_from(b, spans[from].start as int, ask.ctx, true), ask.demands[j], ask.ctx),
        ),
    decreases spans.len() - i,
{
    let s = spans[from].start as int;
    let ctx = ask.ctx;
    let d = ask.demands[j];
    let all = packed(spans, i, s, target, true, c);
    items_split(b, start + 1, true, s, ctx);
    resume_inside(b, start + 1, true, s, ctx);
    items_end(b, s, true, c, ctx);
    if i < spans.len() {
        if spans[i].end - s >= target && i + 1 < spans.len() {
            let t = spans[i + 1].start as int;
            assert(spans[from].start < spans[i + 1].start);
            let rest = packed(spans, i + 1, t, target, true, c);
            let part = span(s, t);
            resumes_on(b, start + 1, true, s, t, ctx);
            resume_inside(b, start + 1, true, t, ctx);
            assert(with_range(Seq::empty(), s, t) =~= seq![part]);
            assert(all == seq![part] + rest);
            assert forall|k: int| 0 <= k < rest.len() implies part_scanned(b, #[trigger] rest[k], ask) is Ok by {
                assert(all[k + 1] == rest[k]);
            }
            assert(all[0] == part);
            packed_folds(b, start, spans, c, i + 1, i + 1, target, ask, j);
            part_answers_items(b, part, ask, j);
            items_split(b, s, true, t, ctx);
            let answers = part_answers(b, all, ask, j);
            assert(answers.skip(1) =~= part_answers(b, rest, ask, j));
            answers_join(b, items_before(b, s, t, ctx, true), items_from(b, t, ctx, true), d, ctx);
        } else {
            packed_folds(b, start, spans, c, from, i + 1, target, ask, j);
        }
    } else {
        let part = span(s, c);
        assert(with_range(Seq::empty(), s, c) =~= seq![part]);
        assert(all[0] == part);
        part_answers_items(b, part, ask, j);
    }
}

/// Where an array can go on lies inside it.
proof fn resume_inside(b: Seq<u8>, pos: int, first: bool, s: int, ctx: WalkCtx)
    requires
        0 <= pos <= b.len(),
        resumes(b, pos, first, s, ctx),
        closes_at(b, pos, ctx, first) is Some,
    ensures
        pos <= s < closes_at(b, pos, ctx, first)->0,
        s <= b.len(),
    decreases b.len() - pos,
{
    next_at_bounds(b, pos, ctx.dialect, RBRACKET, first);
    if goes_on_at(b, pos, first, s, ctx) {
        if let Ok(NextAt::Item(p)) = next_at(b, pos, ctx.dialect, RBRACKET, first) {
            reach_bounds(b, p, ctx);
            items_end(b, pos, first, closes_at(b, pos, ctx, first)->0, ctx);
            items_end(b, reach(b, p, ctx)->Ok_0, false, closes_at(b, pos, ctx, first)->0, ctx);
        }
    } else {
        let p = next_at(b, pos, ctx.dialect, RBRACKET, first)->Ok_0->Item_0;
        reach_bounds(b, p, ctx);
        resume_inside(b, reach(b, p, ctx)->Ok_0, false, s, ctx);
    }
}

/// The runs that an array's elements are packed into fold to what the array answers.
pub(crate) proof fn runs_fold(b: Seq<u8>, start: int, spans: Seq<ByteRange>, c: int, target: int, ask: Ask, j: int)
    requires
        0 <= start < b.len() <= usize::MAX,
        closes_at(b, start + 1, ask.ctx, true) is Some,
        serial_elements(b, start + 1) == Ok::<(Seq<ByteRange>, int), Error>((spans, c)),
        spans.len() > 0,
        ask.input == JsonInput::Text,
        0 <= j < ask.demands.len(),
        folds(ask.demands[j]),
        parts_read(b, packed_runs(spans, target, true, c), ask),
    ensures
        stitched(part_answers(b, packed_runs(spans, target, true, c), ask, j)) == Some(
            array_answer(b, items_from(b, start + 1, ask.ctx, true), ask.demands[j], ask.ctx),
        ),
{
    let close = closes_at(b, start + 1, ask.ctx, true)->0;
    array_is_cut_to_go_on(b, start, ask.ctx, close);
    items_start(b, start + 1, true, spans[0].start as int, ask.ctx);
    packed_folds(b, start, spans, c, 0, 0, at_least_one(target), ask, j);
}

} // verus!
