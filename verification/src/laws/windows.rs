//! How the rows of a window grow with the elements that were read.

use vstd::prelude::*;

use crate::demand::{flattened, nested_or_whole, DemandModel};
use crate::walk::marks::{folded, retained, row_fields, row_shape, BatchModel, MarkModel};
use crate::walk::model::{batch_of, bounded_end};

verus! {

/// Whether a demand is for a whole value or for its fields.
pub open spec fn plain(h: DemandModel) -> bool {
    match h {
        DemandModel::Whole => true,
        DemandModel::Project { path, .. } => path.len() == 0,
        _ => false,
    }
}

/// Whether a demand is a bounded window of whole elements, or of their fields.
pub open spec fn is_window(h: DemandModel) -> bool {
    match h {
        DemandModel::Slice { nested, .. } => bounded_end(h) is Some && plain(flattened(nested_or_whole(nested))),
        _ => false,
    }
}

/// How many cells an element adds to a window.
pub(crate) open spec fn unit(h: DemandModel) -> nat {
    match h {
        DemandModel::Project { fields, .. } => fields.len(),
        _ => 1,
    }
}

/// Whether a mark answers a plain demand: a span, or one row of fields at most.
pub(crate) open spec fn answers(mark: MarkModel, h: DemandModel) -> bool {
    match h {
        DemandModel::Project { fields, .. } => match mark {
            MarkModel::Rows(batch) => batch.cells.len() == fields.len(),
            _ => true,
        },
        _ => mark is Span,
    }
}

/// What the elements of a window are asked for.
pub(crate) open spec fn asked(h: DemandModel) -> DemandModel {
    match h {
        DemandModel::Slice { nested, .. } => flattened(nested_or_whole(nested)),
        _ => h,
    }
}

/// Whether a window's mark holds the rows of `idx` elements.
pub(crate) open spec fn holds_rows(mark: MarkModel, h: DemandModel, idx: int) -> bool {
    match mark {
        MarkModel::Rows(batch) => batch.fields == row_fields(row_shape(h)->0) && batch.cells.len() == idx * unit(asked(h)),
        _ => false,
    }
}

/// Whether rows only came behind those of an earlier mark.
pub(crate) open spec fn grew(before: MarkModel, after: MarkModel) -> bool {
    match (before, after) {
        (MarkModel::Rows(x), MarkModel::Rows(y)) => x.fields == y.fields && x.cells.len() <= y.cells.len() && y.cells.take(
            x.cells.len() as int,
        ) == x.cells,
        _ => false,
    }
}

spec fn all_grew(before: Seq<MarkModel>, after: Seq<MarkModel>) -> bool {
    before.len() == after.len() && forall|i: int| 0 <= i < after.len() ==> grew(before[i], #[trigger] after[i])
}

proof fn grew_on(x: Seq<MarkModel>, y: Seq<MarkModel>, z: Seq<MarkModel>)
    requires
        all_grew(x, y),
        all_grew(y, z),
    ensures
        all_grew(x, z),
{
    assert forall|i: int| 0 <= i < z.len() implies grew(x[i], #[trigger] z[i]) by {
        assert(grew(x[i], y[i]));
        let n = x[i]->Rows_0.cells.len() as int;
        let m = y[i]->Rows_0.cells.len() as int;
        let cells = z[i]->Rows_0.cells;
        assert(cells.take(m).take(n) =~= cells.take(n));
    }
}

/// One element adds its unit of cells to every window.
pub(crate) proof fn window_grows(mark: MarkModel, h: DemandModel, idx: int, elem: MarkModel, at: crate::value::ByteRange)
    requires
        is_window(h),
        idx >= 0,
        holds_rows(mark, h, idx),
        answers(elem, asked(h)),
    ensures
        ({
            let after = MarkModel::Rows(folded(batch_of(mark), row_shape(h)->0, elem, at));
            holds_rows(after, h, idx + 1) && grew(mark, after)
        }),
{
    let batch = batch_of(mark);
    let after = folded(batch, row_shape(h)->0, elem, at);
    let u = unit(asked(h)) as int;
    assert((idx + 1) * u == idx * u + u) by (nonlinear_arith);
    assert(after.cells.take(batch.cells.len() as int) =~= batch.cells);
}

/// The window of a cut is that of the whole.
pub(crate) proof fn same_window(h: DemandModel, part: MarkModel, full: MarkModel, some: int, all: int)
    requires
        is_window(h),
        holds_rows(part, h, some),
        holds_rows(full, h, all),
        grew(part, full),
        bounded_end(h)->0 <= some <= all,
    ensures
        ({
            let range = h->Slice_range;
            retained(batch_of(part), range.from(some), range.to(some)) == retained(
                batch_of(full),
                range.from(all),
                range.to(all),
            )
        }),
{
    let range = h->Slice_range;
    let x = batch_of(part);
    let y = batch_of(full);
    let u = unit(asked(h)) as int;
    let n = x.cells.len() as int;
    let m = y.cells.len() as int;
    let from = range.from(some);
    let to = range.to(some);
    if u == 0 {
        assert(n == 0 && m == 0) by (nonlinear_arith)
            requires
                u == 0,
                n == some * u,
                m == all * u,
        ;
        assert(x.cells =~= y.cells);
        assert(retained(x, from, to).cells =~= retained(y, range.from(all), range.to(all)).cells);
    } else {
        let width = if x.fields.len() == 0 {
            1
        } else {
            x.fields.len() as int
        };
        assert(width == u);
        if from < to {
            assert(from == range.from(all) && to == range.to(all));
            assert(from * u <= to * u <= n <= m) by (nonlinear_arith)
                requires
                    0 <= from <= to <= some <= all,
                    u >= 0,
                    n == some * u,
                    m == all * u,
            ;
            assert(x.cells.subrange(from * u, to * u) =~= y.cells.subrange(from * u, to * u)) by {
                assert forall|k: int| 0 <= k < to * u - from * u implies x.cells.subrange(from * u, to * u)[k]
                    == #[trigger] y.cells.subrange(from * u, to * u)[k] by {
                    assert(y.cells.take(n)[from * u + k] == y.cells[from * u + k]);
                }
            }
        } else {
            assert(range.from(all) >= range.to(all));
            no_rows(x, from, to);
            no_rows(y, range.from(all), range.to(all));
        }
    }
}

proof fn no_rows(batch: BatchModel, from: int, to: int)
    requires
        0 <= to <= from,
    ensures
        retained(batch, from, to) == (BatchModel { fields: batch.fields, cells: Seq::empty() }),
{
    let width = if batch.fields.len() == 0 {
        1
    } else {
        batch.fields.len() as int
    };
    assert(0 <= to * width <= from * width) by (nonlinear_arith)
        requires
            0 <= to <= from,
            width >= 1,
    ;
    assert(retained(batch, from, to).cells =~= Seq::empty());
}

/// Whether `n` marks are all rows.
pub open spec fn all_rows_marks(marks: Seq<MarkModel>, n: nat) -> bool {
    marks.len() == n && forall|i: int| 0 <= i < n ==> #[trigger] marks[i] is Rows
}

} // verus!
