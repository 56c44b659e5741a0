//! What a walk leaves for each demand, and the one-row-per-element law.

use vstd::prelude::*;

use crate::demand::{borrowed_nested, flattened, nested_or_whole, DemandModel, Lens};
use crate::text::{copy_names, names_of, text_bytes};
use crate::value::{ByteRange, ValueKind};

verus! {

/// One cell of a column batch.
#[derive(Clone, Copy, Debug, PartialEq, Eq, Structural)]
pub enum ColumnCell {
    /// A located value.
    Span(ByteRange),
    /// The row has no such field.
    Absent,
}

/// A batch of rows: field names, and cells row by row.
#[derive(Debug, PartialEq, Eq)]
pub struct Batch {
    /// Field names, one per column.
    pub fields: Vec<String>,
    /// Cells, row by row.
    pub cells: Vec<ColumnCell>,
}

/// [`Batch`] over sequences.
pub struct BatchModel {
    /// Field names, one per column.
    pub fields: Seq<Seq<u8>>,
    /// Cells, row by row.
    pub cells: Seq<ColumnCell>,
}

impl View for Batch {
    type V = BatchModel;

    open spec fn view(&self) -> BatchModel {
        BatchModel { fields: names_of(self.fields@), cells: self.cells@ }
    }
}

/// What a walk leaves for one demand.
#[derive(Debug, PartialEq, Eq)]
pub enum Mark {
    /// Nothing there (not null).
    Missing,
    /// A located value.
    Span(ByteRange),
    /// A batch of rows.
    Rows(Batch),
    /// Kind of the value.
    Kind(ValueKind),
    /// A count.
    Count(u64),
    /// Decoded length of a string.
    Length(u64),
    /// Whether the member is there.
    HasKey(bool),
    /// Distinct member names.
    Names(Vec<String>),
    /// The demand met the wrong kind.
    Mismatch(ValueKind),
}

/// [`Mark`] over sequences.
pub enum MarkModel {
    /// Nothing there (not null).
    Missing,
    /// A located value.
    Span(ByteRange),
    /// A batch of rows.
    Rows(BatchModel),
    /// Kind of the value.
    Kind(ValueKind),
    /// A count.
    Count(int),
    /// Decoded length of a string.
    Length(int),
    /// Whether the member is there.
    HasKey(bool),
    /// Distinct member names.
    Names(Seq<Seq<u8>>),
    /// The demand met the wrong kind.
    Mismatch(ValueKind),
}

impl View for Mark {
    type V = MarkModel;

    open spec fn view(&self) -> MarkModel {
        match *self {
            Mark::Missing => MarkModel::Missing,
            Mark::Span(span) => MarkModel::Span(span),
            Mark::Rows(batch) => MarkModel::Rows(batch@),
            Mark::Kind(kind) => MarkModel::Kind(kind),
            Mark::Count(n) => MarkModel::Count(n as int),
            Mark::Length(n) => MarkModel::Length(n as int),
            Mark::HasKey(flag) => MarkModel::HasKey(flag),
            Mark::Names(names) => MarkModel::Names(names_of(names@)),
            Mark::Mismatch(kind) => MarkModel::Mismatch(kind),
        }
    }
}

/// What several marks are.
pub open spec fn marks_model(marks: Seq<Mark>) -> Seq<MarkModel> {
    marks.map_values(|m: Mark| m@)
}

/// The synthetic column of a whole-element row.
pub open spec fn dollar() -> Seq<Seq<u8>> {
    seq![seq![0x24u8]]
}

/// The row an element contributes, by the demand's shape.
pub enum Shape {
    /// Exactly one row per element; an element without the fields is an absent row.
    Projected(Seq<Seq<u8>>),
    /// Zero or one row per element.
    Filtered(Seq<Seq<u8>>),
    /// The element's own answer is the row.
    Whole,
}

/// The row shape of what a collection or slice nests.
pub open spec fn nested_shape(nested: Option<Box<DemandModel>>) -> Shape {
    match flattened(nested_or_whole(nested)) {
        DemandModel::Project { path, fields } => Shape::Projected(fields),
        DemandModel::Filter { path, predicate, project } => Shape::Filtered(project),
        _ => Shape::Whole,
    }
}

/// The row shape a demand accumulates; `None` for one that accumulates no rows.
pub open spec fn row_shape(d: DemandModel) -> Option<Shape> {
    match d {
        DemandModel::Project { path, fields } => if path.len() == 0 {
            Some(Shape::Projected(fields))
        } else {
            None
        },
        DemandModel::Filter { path, predicate, project } => if path.len() == 0 {
            Some(Shape::Filtered(project))
        } else {
            None
        },
        DemandModel::Collection { keys, nested } => if keys is Some && nested is None {
            Some(Shape::Projected(keys->0))
        } else {
            Some(nested_shape(nested))
        },
        DemandModel::Slice { range, nested } => Some(nested_shape(nested)),
        _ => None,
    }
}

/// Field names of a shape's batch.
pub open spec fn row_fields(shape: Shape) -> Seq<Seq<u8>> {
    match shape {
        Shape::Projected(fields) => fields,
        Shape::Filtered(project) => if project.len() > 0 {
            project
        } else {
            dollar()
        },
        Shape::Whole => dollar(),
    }
}

/// A row without any of its fields.
pub open spec fn absent_row(n: nat) -> Seq<ColumnCell> {
    Seq::new(n, |i: int| ColumnCell::Absent)
}

/// Number of rows of a batch.
pub open spec fn rows_of(batch: BatchModel) -> nat {
    if batch.fields.len() == 0 {
        batch.cells.len()
    } else {
        batch.cells.len() / batch.fields.len()
    }
}

/// `batch` with more cells.
pub open spec fn with_cells(batch: BatchModel, cells: Seq<ColumnCell>) -> BatchModel {
    BatchModel { fields: batch.fields, cells: batch.cells + cells }
}

/// An element's own answer folded into the rows before it: the one place a
/// collection row is created.
pub open spec fn folded(acc: BatchModel, shape: Shape, elem: MarkModel, span: ByteRange) -> BatchModel {
    match shape {
        Shape::Projected(fields) => match elem {
            MarkModel::Rows(batch) => if batch.cells.len() > 0 {
                with_cells(acc, batch.cells)
            } else {
                with_cells(acc, absent_row(fields.len()))
            },
            _ => with_cells(acc, absent_row(fields.len())),
        },
        Shape::Filtered(project) => match elem {
            MarkModel::Rows(batch) => with_cells(acc, batch.cells),
            _ => acc,
        },
        Shape::Whole => match elem {
            MarkModel::Span(s) => with_cells(acc, seq![ColumnCell::Span(s)]),
            MarkModel::Rows(batch) => if rows_of(acc) == 0 && acc.fields != batch.fields {
                batch
            } else {
                with_cells(acc, batch.cells)
            },
            MarkModel::Missing => with_cells(acc, seq![ColumnCell::Span(span)]),
            _ => acc,
        },
    }
}

/// The rows `[from, to)` of a batch.
pub open spec fn retained(batch: BatchModel, from: int, to: int) -> BatchModel {
    let width = if batch.fields.len() == 0 {
        1
    } else {
        batch.fields.len() as int
    };
    let n = batch.cells.len() as int;
    let a = if from * width > n {
        n
    } else {
        from * width
    };
    let z = if to * width > n {
        n
    } else {
        to * width
    };
    BatchModel {
        fields: batch.fields,
        cells: if a <= z {
            batch.cells.subrange(a, z)
        } else {
            Seq::empty()
        },
    }
}

/// [`Shape`] borrowed from a request.
#[derive(Clone, Copy)]
pub enum RowShape<'a> {
    /// Exactly one row per element; an element without the fields is an absent row.
    Projected(&'a [String]),
    /// Zero or one row per element.
    Filtered(&'a [String]),
    /// The element's own answer is the row.
    Whole,
}

impl<'a> RowShape<'a> {
    /// What this shape is.
    pub open spec fn model(self) -> Shape {
        match self {
            RowShape::Projected(fields) => Shape::Projected(names_of(fields@)),
            RowShape::Filtered(project) => Shape::Filtered(names_of(project@)),
            RowShape::Whole => Shape::Whole,
        }
    }

    /// Field names of this shape's batch.
    pub fn fields(self) -> (r: Vec<String>)
        ensures
            names_of(r@) == row_fields(self.model()),
    {
        match self {
            RowShape::Projected(fields) => copy_names(fields),
            RowShape::Filtered(project) => {
                if project.len() > 0 {
                    copy_names(project)
                } else {
                    dollar_fields()
                }
            },
            RowShape::Whole => dollar_fields(),
        }
    }
}

/// The synthetic column of a whole-element row.
pub fn dollar_fields() -> (r: Vec<String>)
    ensures
        names_of(r@) == dollar(),
{
    let mut bytes: Vec<u8> = Vec::new();
    bytes.push(0x24);
    proof {
        assert(bytes@ =~= seq![0x24u8]);
        crate::lex::string::ascii_run_is_valid(bytes@);
    }
    let mut out: Vec<String> = Vec::new();
    out.push(crate::text::text_from(bytes));
    assert(names_of(out@) =~= dollar());
    out
}

fn shape_of_nested<'a>(nested: Option<&'a crate::demand::Demand>) -> (r: RowShape<'a>)
    ensures
        r.model() == nested_shape(borrowed_nested(nested)),
{
    match Lens::from_nested(nested).flatten() {
        Lens::Project { path: _, fields } => RowShape::Projected(fields),
        Lens::Filter { path: _, predicate: _, project } => RowShape::Filtered(project),
        _ => RowShape::Whole,
    }
}

/// The row shape a lens accumulates; `None` for one that accumulates no rows.
pub fn shape_of<'a>(lens: Lens<'a>) -> (r: Option<RowShape<'a>>)
    ensures
        match row_shape(lens.model()) {
            Some(shape) => r is Some && r->0.model() == shape,
            None => r is None,
        },
{
    match lens {
        Lens::Project { path, fields } => {
            if path.len() == 0 {
                Some(RowShape::Projected(fields))
            } else {
                None
            }
        },
        Lens::Filter { path, predicate: _, project } => {
            if path.len() == 0 {
                Some(RowShape::Filtered(project))
            } else {
                None
            }
        },
        Lens::Collection { keys, nested } => match (keys, nested) {
            (Some(names), None) => Some(RowShape::Projected(names)),
            _ => Some(shape_of_nested(nested)),
        },
        Lens::Slice { range: _, nested } => Some(shape_of_nested(nested)),
        _ => None,
    }
}

impl Batch {
    /// An empty batch of `shape`.
    pub fn of(shape: RowShape<'_>) -> (r: Batch)
        ensures
            r@ == (BatchModel { fields: row_fields(shape.model()), cells: Seq::empty() }),
    {
        Batch { fields: shape.fields(), cells: Vec::new() }
    }

    /// Append one cell.
    pub fn push(&mut self, cell: ColumnCell)
        ensures
            final(self)@ == with_cells(old(self)@, seq![cell]),
    {
        self.cells.push(cell);
        assert(self.cells@ =~= old(self).cells@ + seq![cell]);
    }

    /// Append a row without any of its `n` fields.
    pub fn push_absent(&mut self, n: usize)
        ensures
            final(self)@ == with_cells(old(self)@, absent_row(n as nat)),
    {
        let ghost before = self@;
        let mut i: usize = 0;
        assert(before.cells + absent_row(0) =~= before.cells);
        while i < n
            invariant
                i <= n,
                self@ == with_cells(before, absent_row(i as nat)),
            decreases n - i,
        {
            self.cells.push(ColumnCell::Absent);
            i = i + 1;
            assert(self.cells@ =~= before.cells + absent_row(i as nat));
        }
    }

    /// Append every cell of `other`.
    pub fn absorb(&mut self, other: &Batch)
        ensures
            final(self)@ == with_cells(old(self)@, other@.cells),
    {
        let ghost before = self@;
        let mut i: usize = 0;
        assert(before.cells + other.cells@.take(0) =~= before.cells);
        while i < other.cells.len()
            invariant
                i <= other.cells@.len(),
                self@ == with_cells(before, other.cells@.take(i as int)),
            decreases other.cells@.len() - i,
        {
            self.cells.push(other.cells[i]);
            i = i + 1;
            assert(self.cells@ =~= before.cells + other.cells@.take(i as int));
        }
        assert(other.cells@.take(i as int) =~= other.cells@);
    }

    /// Number of rows.
    pub fn rows(&self) -> (r: usize)
        ensures
            r == rows_of(self@),
    {
        if self.fields.len() == 0 {
            self.cells.len()
        } else {
            self.cells.len() / self.fields.len()
        }
    }

    /// Whether two batches name the same fields.
    fn same_fields(&self, other: &Batch) -> (r: bool)
        ensures
            r == (self@.fields == other@.fields),
    {
        if self.fields.len() != other.fields.len() {
            assert(self@.fields.len() != other@.fields.len());
            return false;
        }
        let mut i: usize = 0;
        while i < self.fields.len()
            invariant
                i <= self.fields@.len(),
                self.fields@.len() == other.fields@.len(),
                forall|k: int| 0 <= k < i ==> #[trigger] self@.fields[k] == other@.fields[k],
            decreases self.fields@.len() - i,
        {
            if !crate::text::same_bytes(text_bytes(&self.fields[i]), text_bytes(&other.fields[i])) {
                assert(self@.fields[i as int] != other@.fields[i as int]);
                return false;
            }
            i = i + 1;
        }
        assert(self@.fields =~= other@.fields);
        true
    }

    /// Fold one element's own answer into these rows.
    pub fn fold(&mut self, shape: RowShape<'_>, elem: Mark, span: ByteRange)
        ensures
            final(self)@ == folded(old(self)@, shape.model(), elem@, span),
    {
        match shape {
            RowShape::Projected(fields) => match elem {
                Mark::Rows(batch) => {
                    if batch.cells.len() > 0 {
                        self.absorb(&batch);
                    } else {
                        self.push_absent(fields.len());
                    }
                },
                _ => self.push_absent(fields.len()),
            },
            RowShape::Filtered(_) => match elem {
                Mark::Rows(batch) => self.absorb(&batch),
                _ => {},
            },
            RowShape::Whole => match elem {
                Mark::Span(s) => self.push(ColumnCell::Span(s)),
                Mark::Rows(batch) => {
                    if self.rows() == 0 && !self.same_fields(&batch) {
                        *self = batch;
                    } else {
                        self.absorb(&batch);
                    }
                },
                Mark::Missing => self.push(ColumnCell::Span(span)),
                _ => {},
            },
        }
    }

    /// Keep only the rows `[from, to)`.
    pub fn retain_rows(&mut self, from: usize, to: usize)
        requires
            from <= to,
        ensures
            final(self)@ == retained(old(self)@, from as int, to as int),
    {
        let ghost before = self@;
        let n: usize = self.cells.len();
        let width: usize = if self.fields.len() == 0 {
            1
        } else {
            self.fields.len()
        };
        let a: usize = clip_product(from, width, n);
        let z: usize = clip_product(to, width, n);
        assert(a <= z) by {
            assert(from * width <= to * width) by (nonlinear_arith)
                requires
                    from <= to,
            ;
        }
        let mut kept: Vec<ColumnCell> = Vec::new();
        let mut i: usize = a;
        while i < z
            invariant
                a <= i <= z <= n,
                n == self.cells@.len(),
                kept@ == self.cells@.subrange(a as int, i as int),
            decreases z - i,
        {
            kept.push(self.cells[i]);
            i = i + 1;
            assert(kept@ =~= self.cells@.subrange(a as int, i as int));
        }
        self.cells = kept;
    }
}

/// `a * b`, at most `limit`.
fn clip_product(a: usize, b: usize, limit: usize) -> (r: usize)
    requires
        b > 0,
    ensures
        r == (if a * b > limit {
            limit as int
        } else {
            a * b
        }),
{
    match a.checked_mul(b) {
        Some(p) => {
            if p > limit {
                limit
            } else {
                p
            }
        },
        None => limit,
    }
}

impl Mark {
    /// A mark with the same contents.
    pub fn copied(&self) -> (r: Mark)
        ensures
            r@ == self@,
    {
        match self {
            Mark::Missing => Mark::Missing,
            Mark::Span(span) => Mark::Span(*span),
            Mark::Rows(batch) => Mark::Rows(batch.copied()),
            Mark::Kind(kind) => Mark::Kind(*kind),
            Mark::Count(n) => Mark::Count(*n),
            Mark::Length(n) => Mark::Length(*n),
            Mark::HasKey(flag) => Mark::HasKey(*flag),
            Mark::Names(names) => Mark::Names(copy_names(names.as_slice())),
            Mark::Mismatch(kind) => Mark::Mismatch(*kind),
        }
    }
}

impl Batch {
    /// A batch with the same contents.
    pub fn copied(&self) -> (r: Batch)
        ensures
            r@ == self@,
    {
        let mut out: Batch = Batch { fields: copy_names(self.fields.as_slice()), cells: Vec::new() };
        out.absorb(self);
        assert(Seq::<ColumnCell>::empty() + self.cells@ =~= self.cells@);
        out
    }
}

} // verus!
