//! What an element adds to the rows of its array, whatever rows came before.

use vstd::prelude::*;

use crate::demand::DemandModel;
use crate::dialect::Dialect;
use crate::value::{ByteRange, ValueKind};
use crate::walk::marks::{absent_row, folded, row_shape, BatchModel, ColumnCell, MarkModel};
use crate::walk::member::object_cells;
use crate::walk::model::{flat_row, row_mark};

verus! {

/// Whether a mark folds to the cells of an element.
pub(crate) open spec fn folds_to(mark: MarkModel, h: DemandModel, cells: Seq<ColumnCell>) -> bool {
    forall|acc: BatchModel, at: ByteRange|
        #[trigger] folded(acc, row_shape(h)->0, mark, at) == (BatchModel { fields: acc.fields, cells: acc.cells + cells })
}

pub(crate) proof fn mismatch_folds(h: DemandModel, kind: ValueKind, cells: Seq<ColumnCell>)
    requires
        flat_row(h),
        cells == (match h {
            DemandModel::Project { fields, .. } => absent_row(fields.len()),
            _ => Seq::empty(),
        }),
    ensures
        folds_to(MarkModel::Mismatch(kind), h, cells),
{
    assert forall|acc: BatchModel, at: ByteRange| #[trigger] folded(
        acc,
        row_shape(h)->0,
        MarkModel::Mismatch(kind),
        at,
    ) == (BatchModel { fields: acc.fields, cells: acc.cells + cells }) by {
        assert(acc.cells + Seq::<ColumnCell>::empty() =~= acc.cells);
    }
}

pub(crate) proof fn object_folds(b: Seq<u8>, h: DemandModel, members: Seq<(Seq<u8>, ByteRange)>, at: ByteRange, dialect: Dialect)
    requires
        flat_row(h),
    ensures
        folds_to(row_mark(h, object_cells(b, h, members, at, dialect)), h, object_cells(b, h, members, at, dialect)),
{
    let cells = object_cells(b, h, members, at, dialect);
    let mark = row_mark(h, cells);
    assert forall|acc: BatchModel, s: ByteRange| #[trigger] folded(acc, row_shape(h)->0, mark, s) == (BatchModel {
        fields: acc.fields,
        cells: acc.cells + cells,
    }) by {
        if let DemandModel::Project { fields, .. } = h {
            assert(cells.len() == fields.len());
            if cells.len() == 0 {
                assert(absent_row(0) =~= cells);
            }
        }
    }
}

} // verus!
