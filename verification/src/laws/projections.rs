//! What the rows of a text that is an array hold.

use vstd::prelude::*;

use crate::answer::AnswerModel;
use crate::demand::{DemandModel, PredicateModel, StepModel};
use crate::dialect::Dialect;
use crate::edit::members::ContainerKind;
use crate::error::Error;
use crate::framing::text_start;
use crate::laws::assign::text_facts;
use crate::laws::compares::row_members;
use crate::laws::filters::{
    array_text_has_slots, begins, cells_from, filter_ask, holds_in, index_finds_the_slot, keeps, keeps_what_holds, rows_are_told, text_slots,
};
use crate::laws::folds::{adds_rows, array_adds_up, items_from, piece_at, pieces};
use crate::laws::forms::{no_room, unbounded};
use crate::laws::indices::{asked_at, found_at};
use crate::laws::members::{lookup_finds_the_member, slot_is_reached, span_reads};
use crate::laws::oracles::{kind_is_read, text_is_walked};
use crate::laws::paths::text_value;
use crate::laws::replace::opens_as;
use crate::laws::shallow::{all_members, cells_at, oracles_say};
use crate::laws::slots::{behind, comes_next, element_values, laid, slot_reads, Slot};
use crate::laws::walks::{a_kind, kind_step};
use crate::lex::skip::MAX_NESTING;
use crate::lex::ws::trivia_end;
use crate::scan::{root_env, scanned, Ask, JsonInput};
use crate::tape::built;
use crate::value::{Json, ValueKind};
use crate::walk::marks::ColumnCell;
use crate::walk::model::{beside, beside_marks, enters, flat, needs_container, oracles, row_mark, Env, WalkCtx, Walked};

verus! {

/// The elements that a scan passes are the slots, from any of them on.
pub(crate) proof fn items_are_slots(b: Seq<u8>, open: int, close: int, slots: Seq<Slot>, ctx: WalkCtx, depth: int, i: int)
    requires
        laid(b, open, close, ContainerKind::Array, slots, ctx.dialect, depth),
        0 <= depth,
        ctx.max == MAX_NESTING,
        0 <= i <= slots.len(),
    ensures
        items_from(b, behind(open, slots, i), ctx, i == 0) == begins(slots, slots.len()).skip(i),
    decreases slots.len() - i,
{
    let kind = ContainerKind::Array;
    if i < slots.len() {
        items_are_slots(b, open, close, slots, ctx, depth, i + 1);
        let s = slots[i];
        assert(slot_reads(b, s, kind, ctx.dialect, depth) && open < s.at);
        assert(comes_next(b, open, kind, slots, ctx.dialect, i));
        if i > 0 {
            assert(slots[i - 1].end < s.at);
        }
        slot_is_reached(b, s, kind, ctx, depth);
        assert(behind(open, slots, i + 1) == s.end);
        assert(seq![s.at] + begins(slots, slots.len()).skip(i + 1) =~= begins(slots, slots.len()).skip(i));
    } else {
        assert(begins(slots, slots.len()).skip(i) =~= Seq::<int>::empty());
    }
}

proof fn rows_are_added(b: Seq<u8>, pos: int, hits: Seq<DemandModel>, i: int, h: DemandModel, ctx: WalkCtx, env: Env, w: Walked)
    requires
        0 <= i < hits.len(),
        hits[i] == h,
        adds_rows(h),
        !env.element,
        0 <= pos < b.len(),
        b[pos] == crate::ascii::LBRACKET,
        a_kind(b, pos, ValueKind::Array, hits, ctx, 0, env) == Ok::<Walked, Error>(w),
    ensures
        w.marks.len() == hits.len(),
        w.marks[i] == row_mark(h, pieces(b, items_from(b, pos + 1, ctx, true), h, ctx)),
{
    kind_step(b, pos, ValueKind::Array, hits, ctx, 0, env);
    assert(needs_container(hits[i]));
    assert(enters(hits, ValueKind::Array));
    let (answered, r) = oracles(b, pos, ValueKind::Array, hits, hits.len(), true, ctx, 0)->Ok_0;
    oracles_say(b, pos, ValueKind::Array, hits, hits.len(), i, true, ctx, 0);
    let side = beside(hits, env);
    assert(side[i] == h);
    array_adds_up(b, pos, side, i, beside_marks(hits, answered, env), ctx, 0, env);
}

/// What a scan of a text that is an array answers a demand that its elements add rows to.
proof fn pieces_are_told(b: Seq<u8>, ask: Ask, i: int, h: DemandModel, slots: Seq<Slot>)
    requires
        ask.input == JsonInput::Text,
        ask.ctx.max == MAX_NESTING,
        text_slots(b, ask.ctx.dialect, slots),
        scanned(b, ask) is Ok,
        0 <= i < ask.demands.len(),
        ask.demands[i] == h,
        adds_rows(h),
    ensures
        scanned(b, ask)->Ok_0.0.len() == ask.demands.len(),
        scanned(b, ask)->Ok_0.0[i] matches AnswerModel::Columns(source, batch) && source == b && batch.cells == pieces(
            b,
            begins(slots, slots.len()),
            h,
            ask.ctx,
        ),
{
    let ctx = ask.ctx;
    let w = text_is_walked(b, ask, Json::Array(element_values(slots)));
    let pos = trivia_end(b, text_start(b), ctx.dialect)->Ok_0;
    let close = built(b, pos, unbounded(ctx.dialect), no_room(), 0)->Ok_0.0;
    items_are_slots(b, pos, close, slots, ctx, 1, 0);
    assert(begins(slots, slots.len()).skip(0) =~= begins(slots, slots.len()));
    text_facts(b, ctx.dialect);
    opens_as(b, pos, ctx.dialect, 0);
    rows_are_added(b, pos, flat(ask.demands), i, h, ctx, root_env(ask), w);
}

/// Pieces of one width stand row by row.
pub(crate) proof fn pieces_in_rows(b: Seq<u8>, items: Seq<int>, h: DemandModel, ctx: WalkCtx, width: nat, k: int, c: int)
    requires
        forall|q: int| 0 <= q < items.len() ==> piece_at(b, #[trigger] items[q], h, ctx).len() == width,
        0 <= k < items.len(),
        0 <= c < width,
    ensures
        pieces(b, items, h, ctx).len() == items.len() * width,
        k * width + c < pieces(b, items, h, ctx).len(),
        pieces(b, items, h, ctx)[k * width + c] == piece_at(b, items[k], h, ctx)[c],
    decreases items.len(),
{
    let rest = items.skip(1);
    assert forall|q: int| 0 <= q < rest.len() implies piece_at(b, #[trigger] rest[q], h, ctx).len() == width by {
        assert(rest[q] == items[q + 1]);
    }
    let head = piece_at(b, items[0], h, ctx);
    assert(items[0] == items[0]);
    pieces_len(b, rest, h, ctx, width);
    let n = items.len() as int;
    let m = width as int;
    assert((n - 1) * m + m == n * m) by (nonlinear_arith);
    if k > 0 {
        pieces_in_rows(b, rest, h, ctx, width, k - 1, c);
        assert((k - 1) * m + m == k * m) by (nonlinear_arith);
        assert(rest[k - 1] == items[k]);
        assert(0 <= (k - 1) * m) by (nonlinear_arith)
            requires
                k >= 1,
                m >= 0,
        ;
    } else {
        assert(k * m == 0) by (nonlinear_arith)
            requires
                k == 0,
        ;
        assert(0 <= (n - 1) * m) by (nonlinear_arith)
            requires
                n >= 1,
                m >= 0,
        ;
    }
}

pub(crate) proof fn pieces_len(b: Seq<u8>, items: Seq<int>, h: DemandModel, ctx: WalkCtx, width: nat)
    requires
        forall|q: int| 0 <= q < items.len() ==> piece_at(b, #[trigger] items[q], h, ctx).len() == width,
    ensures
        pieces(b, items, h, ctx).len() == items.len() * width,
    decreases items.len(),
{
    let n = items.len() as int;
    let m = width as int;
    if items.len() > 0 {
        let rest = items.skip(1);
        assert forall|q: int| 0 <= q < rest.len() implies piece_at(b, #[trigger] rest[q], h, ctx).len() == width by {
            assert(rest[q] == items[q + 1]);
        }
        assert(items[0] == items[0]);
        pieces_len(b, rest, h, ctx, width);
        assert((n - 1) * m + m == n * m) by (nonlinear_arith);
    } else {
        assert(n * m == 0) by (nonlinear_arith)
            requires
                n == 0,
        ;
    }
}

/// A collection of whole elements has one cell for each element of the array, in order:
/// the span that a scan by the element's index finds.
#[verifier::rlimit(60)]
pub proof fn collection_holds_every_element(b: Seq<u8>, like: Ask, items: Seq<Json>, k: i64)
    requires
        b.len() <= usize::MAX,
        like.input == JsonInput::Text,
        like.ctx.max == MAX_NESTING,
        text_value(b, like.ctx.dialect) == Ok::<Json, Error>(Json::Array(items)),
        scanned(b, Ask { demands: seq![DemandModel::Collection { keys: None, nested: None }], ..like }) is Ok,
        0 <= k < items.len(),
    ensures
        scanned(b, Ask { demands: seq![DemandModel::Collection { keys: None, nested: None }], ..like })->Ok_0.0[0] matches AnswerModel::Columns(
            source,
            batch,
        ) && source == b && batch.cells.len() == items.len() && (found_at(b, asked_at(like, seq![StepModel::Index(k)])) matches Some(s)
            && batch.cells[k as int] == ColumnCell::Span(s)),
{
    let h = DemandModel::Collection { keys: None, nested: None };
    let ask = Ask { demands: seq![h], ..like };
    let slots = array_text_has_slots(b, like.ctx.dialect, items);
    pieces_are_told(b, ask, 0, h, slots);
    index_finds_the_slot(b, like, slots, k);
    let all = begins(slots, slots.len());
    assert forall|q: int| 0 <= q < all.len() implies piece_at(b, #[trigger] all[q], h, like.ctx).len() == 1 by {}
    pieces_in_rows(b, all, h, like.ctx, 1, k as int, 0);
    assert(slot_reads(b, slots[k as int], ContainerKind::Array, like.ctx.dialect, 1));
    slot_is_reached(b, slots[k as int], ContainerKind::Array, like.ctx, 1);
}

/// Whether a cell is that of a field of a row: the span of the value of the member of that
/// name where the row is an object that has one, and else none.
pub open spec fn cell_fits(b: Seq<u8>, cell: ColumnCell, row: Json, field: Seq<u8>, dialect: Dialect) -> bool {
    match cell {
        ColumnCell::Span(s) => row is Object && exists|i: int|
            0 <= i < row->Object_0.len() && (#[trigger] row->Object_0[i]).0 == field && span_reads(
                b,
                s,
                row->Object_0[i].1,
                dialect,
                2,
            ),
        ColumnCell::Absent => row is Object ==> forall|i: int|
            0 <= i < row->Object_0.len() ==> (#[trigger] row->Object_0[i]).0 != field,
    }
}

proof fn piece_fits(b: Seq<u8>, s: Slot, fields: Seq<Seq<u8>>, c: int, ctx: WalkCtx)
    requires
        b.len() <= usize::MAX,
        slot_reads(b, s, ContainerKind::Array, ctx.dialect, 1),
        ctx.max == MAX_NESTING,
        0 <= c < fields.len(),
    ensures
        cell_fits(
            b,
            piece_at(b, s.at, DemandModel::Project { path: Seq::empty(), fields }, ctx)[c],
            s.read,
            fields[c],
            ctx.dialect,
        ),
{
    kind_is_read(b, s.value, ctx.dialect, 1);
    opens_as(b, s.value, ctx.dialect, 1);
    if s.read is Object {
        let spans = all_members(b, s.at + 1, ctx, true, Seq::empty());
        row_members(b, s, ctx, 1);
        lookup_finds_the_member(b, spans, s.read->Object_0, ctx.dialect, 2, fields[c]);
    }
}

/// The scan of `like` for nothing but fields of the elements.
pub open spec fn project_ask(like: Ask, fields: Seq<Seq<u8>>) -> Ask {
    Ask { demands: seq![DemandModel::Project { path: Seq::empty(), fields }], ..like }
}

/// A projection has one row for each element of the array, in order, with one cell for
/// each field: where the element is an object with a member of that name the cell is the
/// span of the member's value, and else there is none.
#[verifier::rlimit(60)]
pub proof fn projection_holds_the_member_values(b: Seq<u8>, like: Ask, fields: Seq<Seq<u8>>, items: Seq<Json>, k: int, c: int)
    requires
        b.len() <= usize::MAX,
        like.input == JsonInput::Text,
        like.ctx.max == MAX_NESTING,
        text_value(b, like.ctx.dialect) == Ok::<Json, Error>(Json::Array(items)),
        scanned(b, project_ask(like, fields)) is Ok,
        0 <= k < items.len(),
        0 <= c < fields.len(),
    ensures
        scanned(b, project_ask(like, fields))->Ok_0.0[0] matches AnswerModel::Columns(source, batch) && source == b
            && batch.cells.len() == items.len() * fields.len() && k * fields.len() + c < batch.cells.len() && cell_fits(
            b,
            batch.cells[k * fields.len() + c],
            items[k],
            fields[c],
            like.ctx.dialect,
        ),
{
    let h = DemandModel::Project { path: Seq::empty(), fields };
    let slots = array_text_has_slots(b, like.ctx.dialect, items);
    assert(slot_reads(b, slots[k], ContainerKind::Array, like.ctx.dialect, 1));
    piece_fits(b, slots[k], fields, c, like.ctx);
    let all = begins(slots, slots.len());
    assert forall|q: int| 0 <= q < all.len() implies piece_at(b, #[trigger] all[q], h, like.ctx).len() == fields.len() by {}
    pieces_in_rows(b, all, h, like.ctx, fields.len(), k, c);
    pieces_are_told(b, project_ask(like, fields), 0, h, slots);
}

/// The rows that a condition keeps of a projection, from position `k` on.
pub open spec fn kept_rows(b: Seq<u8>, like: Ask, p: PredicateModel, cells: Seq<ColumnCell>, width: int, n: int, k: int) -> Seq<
    ColumnCell,
>
    decreases n - k,
{
    if k >= n {
        Seq::empty()
    } else {
        (if keeps(b, like, p, k as i64) {
            cells.subrange(k * width, k * width + width)
        } else {
            Seq::empty()
        }) + kept_rows(b, like, p, cells, width, n, k + 1)
    }
}

/// The scan of `like` for nothing but fields of the elements that a condition keeps.
pub open spec fn filter_fields_ask(like: Ask, p: PredicateModel, fields: Seq<Seq<u8>>) -> Ask {
    Ask { demands: seq![DemandModel::Filter { path: Seq::empty(), predicate: p, project: fields }], ..like }
}

/// The rows of a projection stand one behind the other.
proof fn rows_stand_apart(b: Seq<u8>, slots: Seq<Slot>, fields: Seq<Seq<u8>>, ctx: WalkCtx, i: int, k: int)
    requires
        0 <= i <= k < slots.len(),
    ensures
        ({
            let h = DemandModel::Project { path: Seq::empty(), fields };
            let m = fields.len() as int;
            let all = cells_from(b, slots, h, ctx, i);
            &&& 0 <= (k - i) * m
            &&& (k - i) * m + m <= all.len()
            &&& all.subrange((k - i) * m, (k - i) * m + m) == cells_at(b, slots[k].at, h, ctx)
        }),
    decreases k - i,
{
    let h = DemandModel::Project { path: Seq::empty(), fields };
    let m = fields.len() as int;
    let all = cells_from(b, slots, h, ctx, i);
    let head = cells_at(b, slots[i].at, h, ctx);
    let rest = cells_from(b, slots, h, ctx, i + 1);
    assert(head.len() == m);
    assert(all == head + rest);
    if i == k {
        assert((k - i) * m == 0) by (nonlinear_arith)
            requires
                k == i,
        ;
        assert(all.subrange(0, m) =~= head);
    } else {
        rows_stand_apart(b, slots, fields, ctx, i + 1, k);
        let from = (k - (i + 1)) * m;
        assert((k - i) * m == from + m) by (nonlinear_arith)
            requires
                from == (k - (i + 1)) * m,
        ;
        assert(all.subrange(from + m, from + m + m) =~= rest.subrange(from, from + m));
    }
}

/// The cells of a filter with fields, slot by slot.
proof fn fields_are_kept(b: Seq<u8>, like: Ask, p: PredicateModel, fields: Seq<Seq<u8>>, slots: Seq<Slot>, k: int)
    requires
        b.len() <= usize::MAX,
        like.input == JsonInput::Text,
        like.ctx.max == MAX_NESTING,
        text_slots(b, like.ctx.dialect, slots),
        scanned(b, filter_ask(like, p)) is Ok,
        fields.len() > 0,
        0 <= k <= slots.len() <= i64::MAX,
    ensures
        cells_from(
            b,
            slots,
            DemandModel::Filter { path: Seq::empty(), predicate: p, project: fields },
            like.ctx,
            k,
        ) == kept_rows(
            b,
            like,
            p,
            cells_from(b, slots, DemandModel::Project { path: Seq::empty(), fields }, like.ctx, 0),
            fields.len() as int,
            slots.len() as int,
            k,
        ),
    decreases slots.len() - k,
{
    if k < slots.len() {
        fields_are_kept(b, like, p, fields, slots, k + 1);
        rows_stand_apart(b, slots, fields, like.ctx, 0, k);
        assert(k - 0 == k);
        let s = slots[k];
        assert(slot_reads(b, s, ContainerKind::Array, like.ctx.dialect, 1));
        keeps_what_holds(b, like, p, slots, k as i64);
        kind_is_read(b, s.value, like.ctx.dialect, 1);
        opens_as(b, s.value, like.ctx.dialect, 1);
        row_is_kept_whole(b, s, p, fields, like.ctx);
    }
}

proof fn row_is_kept_whole(b: Seq<u8>, s: Slot, p: PredicateModel, fields: Seq<Seq<u8>>, ctx: WalkCtx)
    requires
        0 <= s.at < b.len(),
        s.read is Object <==> b[s.at] == crate::ascii::LBRACE,
        fields.len() > 0,
    ensures
        cells_at(b, s.at, DemandModel::Filter { path: Seq::empty(), predicate: p, project: fields }, ctx) == (if holds_in(b, s, p, ctx) {
            cells_at(b, s.at, DemandModel::Project { path: Seq::empty(), fields }, ctx)
        } else {
            Seq::<ColumnCell>::empty()
        }),
{
}

/// A filter with fields answers with the rows that a projection of those fields has for
/// the elements that the filter keeps, in order.
#[verifier::rlimit(60)]
pub proof fn filter_with_fields_projects_what_it_keeps(
    b: Seq<u8>,
    like: Ask,
    p: PredicateModel,
    fields: Seq<Seq<u8>>,
    items: Seq<Json>,
)
    requires
        b.len() <= usize::MAX,
        like.input == JsonInput::Text,
        like.ctx.max == MAX_NESTING,
        text_value(b, like.ctx.dialect) == Ok::<Json, Error>(Json::Array(items)),
        scanned(b, filter_ask(like, p)) is Ok,
        scanned(b, project_ask(like, fields)) is Ok,
        scanned(b, filter_fields_ask(like, p, fields)) is Ok,
        fields.len() > 0,
        items.len() <= i64::MAX,
    ensures
        scanned(b, project_ask(like, fields))->Ok_0.0[0] matches AnswerModel::Columns(_, rows) && (scanned(
            b,
            filter_fields_ask(like, p, fields),
        )->Ok_0.0[0] matches AnswerModel::Columns(_, some) && some.cells == kept_rows(
            b,
            like,
            p,
            rows.cells,
            fields.len() as int,
            items.len() as int,
            0,
        )),
{
    let slots = array_text_has_slots(b, like.ctx.dialect, items);
    rows_are_told(b, project_ask(like, fields), 0, DemandModel::Project { path: Seq::empty(), fields }, slots);
    rows_are_told(
        b,
        filter_fields_ask(like, p, fields),
        0,
        DemandModel::Filter { path: Seq::empty(), predicate: p, project: fields },
        slots,
    );
    fields_are_kept(b, like, p, fields, slots, 0);
}

} // verus!
