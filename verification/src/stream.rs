//! Stream scans: a stream is a virtual array of its records.

use vstd::prelude::*;

use crate::control::{can_stop_with, is_stop_of};
use crate::demand::{
    demand_model, demands_model, flattened, lenses_model, nested_or_whole, steps_model, Demand, DemandModel, Lens,
    Oracle, OracleModel, Step, StepModel,
};
use crate::dialect::Dialect;
use crate::error::{at, Error, ErrorKind};
use crate::framing::{adjacent_split, json_seq_ranges, ndjson_payloads, payloads_from, seq_from, split, with_range};
use crate::lex::skip::{end_at, skip_value, value_past_trivia, Check};
use crate::lex::ws::{skip_trivia, trivia_end, trivia_end_bounds};
use crate::scan::JsonInput;
use crate::trace::TraceEvent;
use crate::value::{resolve_index, resolved, span, ByteRange, ValueKind};
use crate::walk::hits::row_step_into;
use crate::walk::events::{node_events, noted, noted_nothing, noted_then, owed, owed_none, owed_step, region};
use crate::walk::host::Host;
use crate::walk::marks::{
    dollar, dollar_fields, folded, marks_model, row_fields, row_shape, shape_of, with_cells, Batch, BatchModel,
    ColumnCell, Mark, MarkModel, RowShape, Shape,
};
use crate::walk::model::{node, Env, WalkCtx, Walked};
use crate::walk::node::{host_stopped, walk_node, Walk};

verus! {

/// A demand on the virtual array mapped onto one record. `consumed` drops the
/// path that led to the array.
pub open spec fn row_of(d: DemandModel, consumed: bool) -> DemandModel
    decreases d,
{
    match d {
        DemandModel::Whole => DemandModel::Whole,
        DemandModel::Collection { keys, nested } => match nested {
            Some(inner) => row_of(*inner, false),
            None => match keys {
                Some(names) => DemandModel::Project { path: Seq::empty(), fields: names },
                None => DemandModel::Whole,
            },
        },
        DemandModel::Project { path, fields } => if consumed {
            DemandModel::Project { path: Seq::empty(), fields }
        } else {
            d
        },
        DemandModel::Filter { path, predicate, project } => if consumed {
            DemandModel::Filter { path: Seq::empty(), predicate, project }
        } else {
            d
        },
        DemandModel::Path { steps, nested } => match nested {
            None => if consumed || steps.len() == 0 {
                DemandModel::Whole
            } else {
                d
            },
            Some(inner) => if consumed {
                row_of(*inner, false)
            } else {
                d
            },
        },
        _ => d,
    }
}

/// A demand with its first path step dropped.
pub open spec fn without_step(d: DemandModel) -> DemandModel {
    match d {
        DemandModel::Path { steps, nested } => DemandModel::Path { steps: steps.skip(1), nested },
        DemandModel::Project { path, fields } => DemandModel::Project { path: path.skip(1), fields },
        DemandModel::Filter { path, predicate, project } => DemandModel::Filter {
            path: path.skip(1),
            predicate,
            project,
        },
        _ => d,
    }
}

/// The path a demand follows from the root.
pub open spec fn leading_path(d: DemandModel) -> Seq<StepModel> {
    match d {
        DemandModel::Path { steps, nested } => steps,
        DemandModel::Project { path, fields } => path,
        DemandModel::Filter { path, predicate, project } => path,
        _ => Seq::empty(),
    }
}

/// Which records a demand reads.
pub enum SlotModel {
    /// None.
    Never,
    /// Every record.
    Every(DemandModel),
    /// One record.
    At(int, DemandModel),
}

/// Which records of `n` a demand reads, and what it asks of them.
pub open spec fn slot_of(d: DemandModel, n: int) -> SlotModel {
    if d is Oracle {
        SlotModel::Never
    } else if leading_path(d).len() > 0 {
        match leading_path(d)[0] {
            StepModel::Key(_) => SlotModel::Never,
            StepModel::Index(i) => match resolved(n, i as int) {
                Some(k) => SlotModel::At(k, row_of(without_step(d), false)),
                None => SlotModel::Never,
            },
        }
    } else {
        match d {
            DemandModel::Path { steps, nested } => SlotModel::Every(row_of(nested_or_whole(nested), false)),
            DemandModel::Slice { range, nested } => SlotModel::Every(row_of(nested_or_whole(nested), false)),
            _ => SlotModel::Every(row_of(d, false)),
        }
    }
}

/// The row law of a record in element position: a projection or a filter
/// contributes rows, anything else is the record's own answer.
pub open spec fn element_law(row: DemandModel) -> Option<Shape> {
    match flattened(row) {
        DemandModel::Project { path, fields } => Some(Shape::Projected(fields)),
        DemandModel::Filter { path, predicate, project } => Some(Shape::Filtered(project)),
        _ => None,
    }
}

/// The row law of a demand on every record: the virtual array's law, or the
/// element law for what is no row demand.
pub open spec fn every_law(d: DemandModel, row: DemandModel) -> Option<Shape> {
    match flattened(d) {
        DemandModel::Whole => Some(Shape::Whole),
        other => match row_shape(other) {
            Some(shape) => Some(shape),
            None => element_law(row),
        },
    }
}

/// One demand's work on one record.
pub struct RowEntry {
    /// Answer slot.
    pub owner: int,
    /// What it asks of the record.
    pub row: DemandModel,
    /// How the record's answer folds into the demand's.
    pub law: Option<Shape>,
}

/// The entry a demand has at record `i` of `n`, if any.
pub open spec fn entry_of(d: DemandModel, owner: int, n: int, i: int) -> Option<RowEntry> {
    match slot_of(d, n) {
        SlotModel::Never => None,
        SlotModel::Every(row) => Some(RowEntry { owner, row, law: every_law(d, row) }),
        SlotModel::At(k, row) => if k == i {
            Some(RowEntry { owner, row, law: element_law(row) })
        } else {
            None
        },
    }
}

/// Whether record `i` of `n` is in a demand's window.
pub open spec fn in_window(d: DemandModel, n: int, i: int) -> bool {
    match d {
        DemandModel::Slice { range, nested } => range.from(n) <= i < range.to(n),
        _ => true,
    }
}

/// The entries of the first `k` demands at record `i` of `n`.
pub open spec fn entries(demands: Seq<DemandModel>, k: nat, n: int, i: int) -> Seq<RowEntry>
    decreases k,
{
    if k == 0 {
        Seq::empty()
    } else {
        let before = entries(demands, (k - 1) as nat, n, i);
        match entry_of(demands[k - 1], k - 1, n, i) {
            Some(e) => before.push(e),
            None => before,
        }
    }
}

/// The entries of the first `k` demands whose window holds record `i` of `n`.
pub open spec fn live(demands: Seq<DemandModel>, k: nat, n: int, i: int) -> Seq<RowEntry>
    decreases k,
{
    if k == 0 {
        Seq::empty()
    } else {
        let before = live(demands, (k - 1) as nat, n, i);
        match entry_of(demands[k - 1], k - 1, n, i) {
            Some(e) => if in_window(demands[k - 1], n, i) {
                before.push(e)
            } else {
                before
            },
            None => before,
        }
    }
}

/// What entries ask of the record.
pub open spec fn rows_asked(es: Seq<RowEntry>) -> Seq<DemandModel> {
    es.map_values(|e: RowEntry| e.row)
}

/// Where a record no demand reads ends.
#[verifier::opaque]
pub open spec fn record_end(b: Seq<u8>, start: int, ctx: WalkCtx) -> Result<int, Error> {
    end_at(value_past_trivia(b, start, ctx.under(ctx.unread()), 0))
}

/// The walk of one record: its entries' hits in element position, or a skip
/// when no demand reads it.
#[verifier::opaque]
pub open spec fn record_walk(b: Seq<u8>, start: int, demands: Seq<DemandModel>, n: int, i: int, ctx: WalkCtx) -> Result<
    Walked,
    Error,
> {
    let all = entries(demands, demands.len(), n, i);
    let active = live(demands, demands.len(), n, i);
    if all.len() == 0 {
        match record_end(b, start, ctx) {
            Err(error) => Err(error),
            Ok(e) => Ok(Walked { end: e, stopped: false, marks: Seq::empty() }),
        }
    } else {
        node(
            b,
            start,
            rows_asked(active),
            ctx,
            0,
            Env { element: true, may_stop: false, lane: active.len() == all.len() },
        )
    }
}

/// The text of a record and what comes before it: nothing is read past its frame.
pub open spec fn frame_text(b: Seq<u8>, frame: ByteRange) -> Seq<u8> {
    b.take(frame.end as int)
}

/// The refusal of what stands behind a record's value, when that is not trivia up to
/// the end of its frame.
pub open spec fn tail_refusal(t: Seq<u8>, end: int, dialect: Dialect) -> Option<Error> {
    match trivia_end(t, end, dialect) {
        Err(error) => Some(error),
        Ok(tail) => if tail < t.len() {
            Some(at(ErrorKind::TrailingContent, tail))
        } else {
            None
        },
    }
}

/// Where the record of a frame ends: one value, with trivia at most behind it.
pub open spec fn framed_end(b: Seq<u8>, frame: ByteRange, ctx: WalkCtx) -> Result<int, Error> {
    let t = frame_text(b, frame);
    match record_end(t, frame.start as int, ctx) {
        Err(error) => Err(error),
        Ok(e) => match tail_refusal(t, e, ctx.dialect) {
            Some(error) => Err(error),
            None => Ok(e),
        },
    }
}

/// A record walk that reaches the end of its text.
pub open spec fn closed_walk(t: Seq<u8>, start: int, demands: Seq<DemandModel>, n: int, i: int, ctx: WalkCtx) -> Result<
    Walked,
    Error,
> {
    match record_walk(t, start, demands, n, i, ctx) {
        Err(error) => Err(error),
        Ok(w) => match tail_refusal(t, w.end, ctx.dialect) {
            Some(error) => Err(error),
            None => Ok(w),
        },
    }
}

/// The walk of the record of a frame: one value, with trivia at most behind it.
pub open spec fn framed_walk(b: Seq<u8>, frame: ByteRange, demands: Seq<DemandModel>, n: int, i: int, ctx: WalkCtx) -> Result<
    Walked,
    Error,
> {
    closed_walk(frame_text(b, frame), frame.start as int, demands, n, i, ctx)
}

/// One record's answer after another without a row law: located values become
/// rows, batches join, and otherwise the first answer stays.
pub open spec fn joined(acc: MarkModel, next: MarkModel) -> MarkModel {
    match (acc, next) {
        (MarkModel::Missing, _) => next,
        (MarkModel::Rows(a), MarkModel::Rows(n)) => MarkModel::Rows(with_cells(a, n.cells)),
        (MarkModel::Rows(a), MarkModel::Span(s)) => MarkModel::Rows(with_cells(a, seq![ColumnCell::Span(s)])),
        (MarkModel::Rows(a), _) => MarkModel::Rows(a),
        (MarkModel::Span(s), MarkModel::Rows(n)) => MarkModel::Rows(
            BatchModel { fields: dollar(), cells: seq![ColumnCell::Span(s)] + n.cells },
        ),
        (_, MarkModel::Rows(n)) => MarkModel::Rows(n),
        (MarkModel::Span(s), MarkModel::Span(t)) => MarkModel::Rows(
            BatchModel { fields: dollar(), cells: seq![ColumnCell::Span(s), ColumnCell::Span(t)] },
        ),
        _ => acc,
    }
}

/// The rows so far of a slot with a row law.
pub open spec fn rows_so_far(acc: MarkModel, shape: Shape) -> BatchModel {
    match acc {
        MarkModel::Rows(batch) => batch,
        _ => BatchModel { fields: row_fields(shape), cells: Seq::empty() },
    }
}

/// One record's answer folded into its slot.
pub open spec fn folded_mark(acc: MarkModel, law: Option<Shape>, next: MarkModel, record: ByteRange) -> MarkModel {
    match law {
        Some(shape) => MarkModel::Rows(folded(rows_so_far(acc, shape), shape, next, record)),
        None => joined(acc, next),
    }
}

/// The slots after the first `k` live entries' answers were folded in.
pub open spec fn folded_slots(
    acc: Seq<MarkModel>,
    active: Seq<RowEntry>,
    marks: Seq<MarkModel>,
    k: nat,
    record: ByteRange,
) -> Seq<MarkModel>
    decreases k,
{
    if k == 0 {
        acc
    } else {
        let before = folded_slots(acc, active, marks, (k - 1) as nat, record);
        let e = active[k - 1];
        before.update(e.owner, folded_mark(before[e.owner], e.law, marks[k - 1], record))
    }
}

/// Where a record's value starts.
pub open spec fn record_at(b: Seq<u8>, start: int, dialect: Dialect) -> int {
    match trivia_end(b, start, dialect) {
        Ok(p) => p,
        Err(_) => start,
    }
}

/// The slots after record `i` was walked.
#[verifier::opaque]
pub open spec fn slots_after(
    b: Seq<u8>,
    start: int,
    acc: Seq<MarkModel>,
    demands: Seq<DemandModel>,
    n: int,
    i: int,
    w: Walked,
    dialect: Dialect,
) -> Seq<MarkModel> {
    let active = live(demands, demands.len(), n, i);
    if entries(demands, demands.len(), n, i).len() == 0 {
        acc
    } else {
        folded_slots(acc, active, w.marks, active.len(), span(record_at(b, start, dialect), w.end))
    }
}

/// A stream loop's outcome.
pub struct StreamOutcome {
    /// One mark per demand.
    pub marks: Seq<MarkModel>,
    /// Records read.
    pub records: int,
    /// Recovered refusals.
    pub issues: Seq<Error>,
}

/// The record loop from record `i` on: a refusal of the last record is
/// recovered from, any other refuses the scan.
pub open spec fn stream_from(
    b: Seq<u8>,
    frames: Seq<ByteRange>,
    i: int,
    st: StreamOutcome,
    demands: Seq<DemandModel>,
    ctx: WalkCtx,
) -> Result<StreamOutcome, Error>
    decreases frames.len() - i,
{
    if !(0 <= i < frames.len()) {
        Ok(st)
    } else {
        match framed_walk(b, frames[i], demands, frames.len() as int, i, ctx) {
            Err(error) => if i + 1 == frames.len() {
                Ok(StreamOutcome { issues: st.issues.push(error), ..st })
            } else {
                Err(error)
            },
            Ok(w) => stream_from(
                b,
                frames,
                i + 1,
                StreamOutcome {
                    marks: slots_after(
                        frame_text(b, frames[i]),
                        frames[i].start as int,
                        st.marks,
                        demands,
                        frames.len() as int,
                        i,
                        w,
                        ctx.dialect,
                    ),
                    records: st.records + 1,
                    issues: st.issues,
                },
                demands,
                ctx,
            ),
        }
    }
}

/// A demand's final mark on a stream: its oracles read the virtual array, a
/// key names no record, and a row demand no record answered is an empty batch.
pub open spec fn final_mark(d: DemandModel, n: int, mark: MarkModel, records: int) -> MarkModel {
    match d {
        DemandModel::Oracle(o) => match o {
            OracleModel::Count => MarkModel::Count(records),
            OracleModel::DescendCount => MarkModel::Count(records),
            OracleModel::MemberCount => MarkModel::Count(records),
            OracleModel::Kind => MarkModel::Kind(ValueKind::Array),
            OracleModel::MemberNames => MarkModel::Mismatch(ValueKind::Array),
            OracleModel::HasKey(_) => MarkModel::Mismatch(ValueKind::Array),
            OracleModel::StringByteLength => mark,
        },
        _ => if leading_path(d).len() > 0 && leading_path(d)[0] is Key {
            MarkModel::Mismatch(ValueKind::Array)
        } else if mark is Missing && slot_of(d, n) is Every {
            MarkModel::Rows(
                BatchModel {
                    fields: match every_law(d, slot_of(d, n)->Every_0) {
                        Some(shape) => row_fields(shape),
                        None => dollar(),
                    },
                    cells: Seq::empty(),
                },
            )
        } else {
            mark
        },
    }
}

/// Every demand's final mark on a stream.
pub open spec fn final_marks(demands: Seq<DemandModel>, n: int, marks: Seq<MarkModel>, records: int) -> Seq<MarkModel> {
    Seq::new(demands.len(), |i: int| final_mark(demands[i], n, marks[i], records))
}

/// No demand answered yet.
pub open spec fn all_missing(n: nat) -> Seq<MarkModel> {
    Seq::new(n, |i: int| MarkModel::Missing)
}

/// Whether every demand is for the whole value.
pub open spec fn all_whole(demands: Seq<DemandModel>) -> bool {
    forall|i: int| 0 <= i < demands.len() ==> #[trigger] demands[i] is Whole
}

/// The rows of whole records from record `i` on.
pub open spec fn whole_from(
    b: Seq<u8>,
    frames: Seq<ByteRange>,
    i: int,
    cells: Seq<ColumnCell>,
    ctx: WalkCtx,
) -> Result<(Seq<ColumnCell>, Seq<Error>), Error>
    decreases frames.len() - i,
{
    if !(0 <= i < frames.len()) {
        Ok((cells, Seq::empty()))
    } else {
        match framed_end(b, frames[i], ctx) {
            Err(error) => if i + 1 == frames.len() {
                Ok((cells, seq![error]))
            } else {
                Err(error)
            },
            Ok(e) => whole_from(
                b,
                frames,
                i + 1,
                cells.push(ColumnCell::Span(span(frames[i].start as int, e))),
                ctx,
            ),
        }
    }
}

/// The record frames of a stream. An adjacent stream's partial tail joins as
/// one final frame.
pub open spec fn frames_of(b: Seq<u8>, input: JsonInput, max: u32, dialect: Dialect) -> Result<Seq<ByteRange>, Error> {
    match input {
        JsonInput::Ndjson => payloads_from(b, 0, dialect),
        JsonInput::JsonSeq => seq_from(b, 0, max, dialect, false),
        _ => {
            let (ranges, tail) = split(b, max, dialect);
            Ok(with_range(ranges, tail, b.len() as int))
        },
    }
}

/// Whether a stream has a record.
pub open spec fn has_records(b: Seq<u8>, input: JsonInput, ctx: WalkCtx) -> bool {
    frames_of(b, input, ctx.max, ctx.dialect) matches Ok(frames) && frames.len() > 0
}

/// The marks and recovered refusals of a request over record frames.
pub open spec fn frames_marks(b: Seq<u8>, frames: Seq<ByteRange>, demands: Seq<DemandModel>, ctx: WalkCtx) -> Result<
    (Seq<MarkModel>, Seq<Error>),
    Error,
> {
    if all_whole(demands) {
        match whole_from(b, frames, 0, Seq::empty(), ctx) {
            Err(error) => Err(error),
            Ok((cells, issues)) => Ok(
                (
                    Seq::new(
                        demands.len(),
                        |i: int| MarkModel::Rows(BatchModel { fields: dollar(), cells }),
                    ),
                    issues,
                ),
            ),
        }
    } else {
        let first = StreamOutcome { marks: all_missing(demands.len()), records: 0, issues: Seq::empty() };
        match stream_from(b, frames, 0, first, demands, ctx) {
            Err(error) => Err(error),
            Ok(st) => Ok((final_marks(demands, frames.len() as int, st.marks, st.records), st.issues)),
        }
    }
}

/// The marks and recovered refusals of a stream request.
pub open spec fn stream_marks(b: Seq<u8>, input: JsonInput, demands: Seq<DemandModel>, ctx: WalkCtx) -> Result<
    (Seq<MarkModel>, Seq<Error>),
    Error,
> {
    match frames_of(b, input, ctx.max, ctx.dialect) {
        Err(error) => Err(error),
        Ok(frames) => frames_marks(b, frames, demands, ctx),
    }
}

/// Whether record `i` of `n` is one that an index names.
pub open spec fn held_at(demands: Seq<DemandModel>, n: int, i: int) -> bool {
    exists|k: int|
        0 <= k < demands.len() && (#[trigger] slot_of(demands[k], n) matches SlotModel::At(at, _) && at == i)
}

/// Events of one record's walk.
pub open spec fn record_events(
    t: Seq<u8>,
    start: int,
    demands: Seq<DemandModel>,
    n: int,
    i: int,
    ctx: WalkCtx,
) -> Seq<TraceEvent> {
    let all = entries(demands, demands.len(), n, i);
    let active = live(demands, demands.len(), n, i);
    if all.len() == 0 {
        match record_end(t, start, ctx) {
            Ok(e) => region(start, e, ctx.unread()),
            Err(_) => Seq::empty(),
        }
    } else {
        node_events(
            t,
            start,
            rows_asked(active),
            ctx,
            0,
            Env { element: true, may_stop: false, lane: active.len() == all.len() },
        )
    }
}

/// Events of the records from record `i` on that an index names, or of those that
/// none does, up to a refused record.
pub open spec fn records_events(
    b: Seq<u8>,
    frames: Seq<ByteRange>,
    i: int,
    demands: Seq<DemandModel>,
    ctx: WalkCtx,
    held: bool,
) -> Seq<TraceEvent>
    decreases frames.len() - i,
{
    if !(0 <= i < frames.len()) || framed_walk(b, frames[i], demands, frames.len() as int, i, ctx) is Err {
        Seq::empty()
    } else {
        (if held_at(demands, frames.len() as int, i) == held {
            record_events(
                frame_text(b, frames[i]),
                frames[i].start as int,
                demands,
                frames.len() as int,
                i,
                ctx,
            )
        } else {
            Seq::empty()
        }) + records_events(b, frames, i + 1, demands, ctx, held)
    }
}

/// Events of the whole records from record `i` on, up to a refused record.
pub open spec fn wholes_events(b: Seq<u8>, frames: Seq<ByteRange>, i: int, ctx: WalkCtx) -> Seq<TraceEvent>
    decreases frames.len() - i,
{
    if !(0 <= i < frames.len()) {
        Seq::empty()
    } else {
        match framed_end(b, frames[i], ctx) {
            Err(_) => Seq::empty(),
            Ok(e) => region(frames[i].start as int, e, ctx.unread()) + wholes_events(b, frames, i + 1, ctx),
        }
    }
}

/// Events of a walk over record frames: those of the records that no index names, and those
/// of the records that one does.
pub open spec fn frames_events(b: Seq<u8>, frames: Seq<ByteRange>, demands: Seq<DemandModel>, ctx: WalkCtx) -> (
    Seq<TraceEvent>,
    Seq<TraceEvent>,
) {
    if all_whole(demands) {
        (wholes_events(b, frames, 0, ctx), Seq::empty())
    } else {
        (
            records_events(b, frames, 0, demands, ctx, false),
            records_events(b, frames, 0, demands, ctx, true),
        )
    }
}

/// Events of a stream's records that no index names, and of those that one does.
pub open spec fn stream_events(b: Seq<u8>, input: JsonInput, demands: Seq<DemandModel>, ctx: WalkCtx) -> (
    Seq<TraceEvent>,
    Seq<TraceEvent>,
) {
    match frames_of(b, input, ctx.max, ctx.dialect) {
        Err(_) => (Seq::empty(), Seq::empty()),
        Ok(frames) => frames_events(b, frames, demands, ctx),
    }
}

/// Whether `events` are the main walk's and then the held ones. Between them stands
/// what a refused last record left behind, when there is one.
pub open spec fn joins(events: Seq<TraceEvent>, walked: (Seq<TraceEvent>, Seq<TraceEvent>), complete: bool) -> bool {
    &&& events.len() >= walked.0.len() + walked.1.len()
    &&& events.take(walked.0.len() as int) == walked.0
    &&& events.skip(events.len() - walked.1.len()) == walked.1
    &&& complete ==> events == walked.0 + walked.1
}

/// Main events, what a refused record left, and held events.
proof fn joins_of(main: Seq<TraceEvent>, left: Seq<TraceEvent>, held: Seq<TraceEvent>)
    ensures
        joins(main + left + held, (main, held), false),
        left.len() == 0 ==> joins(main + left + held, (main, held), true),
{
    let all = main + left + held;
    assert(all.take(main.len() as int) =~= main);
    assert(all.skip(all.len() - held.len()) =~= held);
    if left.len() == 0 {
        assert(all =~= main + held);
    }
}

/// Whether a host that had recorded nothing recorded a stream.
pub open spec fn recorded(
    after: Host<'_>,
    before: Host<'_>,
    walked: (Seq<TraceEvent>, Seq<TraceEvent>),
    complete: bool,
) -> bool {
    before.trace is Some && before.events().len() == 0 ==> joins(after.events(), walked, complete)
}

/// The marks one record's entries are visited with.
#[verifier::opaque]
pub open spec fn visited_at(
    b: Seq<u8>,
    start: int,
    demands: Seq<DemandModel>,
    n: int,
    i: int,
    w: Walked,
    dialect: Dialect,
) -> Seq<MarkModel> {
    let slots = slots_after(b, start, all_missing(demands.len()), demands, n, i, w, dialect);
    entries(demands, demands.len(), n, i).map_values(|e: RowEntry| slots[e.owner])
}

/// The marks visited from record `i` on, and what the visit came to: the recovered
/// refusals, or the refusal that ended it.
pub open spec fn each_from(
    b: Seq<u8>,
    frames: Seq<ByteRange>,
    i: int,
    seen: Seq<MarkModel>,
    demands: Seq<DemandModel>,
    ctx: WalkCtx,
) -> (Seq<MarkModel>, Result<Seq<Error>, Error>)
    decreases frames.len() - i,
{
    if !(0 <= i < frames.len()) {
        (seen, Ok(Seq::empty()))
    } else {
        match framed_walk(b, frames[i], demands, frames.len() as int, i, ctx) {
            Err(error) => if i + 1 == frames.len() {
                (seen, Ok(seq![error]))
            } else {
                (seen, Err(error))
            },
            Ok(w) => each_from(
                b,
                frames,
                i + 1,
                seen + visited_at(
                    frame_text(b, frames[i]),
                    frames[i].start as int,
                    demands,
                    frames.len() as int,
                    i,
                    w,
                    ctx.dialect,
                ),
                demands,
                ctx,
            ),
        }
    }
}

/// The marks visited over a stream, and what the visit came to.
pub open spec fn each_marks(b: Seq<u8>, input: JsonInput, demands: Seq<DemandModel>, ctx: WalkCtx) -> (
    Seq<MarkModel>,
    Result<Seq<Error>, Error>,
) {
    match frames_of(b, input, ctx.max, ctx.dialect) {
        Err(error) => (Seq::empty(), Err(error)),
        Ok(frames) => each_from(b, frames, 0, Seq::empty(), demands, ctx),
    }
}

/// The first step of a lens's path is dropped.
fn lens_without_step<'a>(lens: Lens<'a>) -> (r: Lens<'a>)
    requires
        leading_path(lens.model()).len() > 0,
    ensures
        r.model() == without_step(lens.model()),
{
    match lens {
        Lens::Path { steps, nested } => {
            assert(steps_model(steps@).len() == steps@.len());
            let tail: &'a [Step] = vstd::slice::slice_subrange(steps, 1, steps.len());
            assert(steps_model(tail@) =~= steps_model(steps@).skip(1));
            Lens::Path { steps: tail, nested }
        },
        other => row_step_into(other),
    }
}

/// A lens on the virtual array mapped onto one record.
pub(crate) fn row_lens<'a>(lens: Lens<'a>, consumed: bool) -> (r: Lens<'a>)
    ensures
        r.model() == row_of(lens.model(), consumed),
    decreases lens.model(),
{
    match lens {
        Lens::Whole => Lens::Whole,
        Lens::Collection { keys, nested } => match nested {
            Some(d) => row_lens(Lens::from_demand(d), false),
            None => match keys {
                Some(names) => {
                    let empty: &'a [Step] = &[];
                    assert(steps_model(empty@) =~= Seq::<StepModel>::empty());
                    Lens::Project { path: empty, fields: names }
                },
                None => Lens::Whole,
            },
        },
        Lens::Project { path: _, fields } => {
            if consumed {
                let empty: &'a [Step] = &[];
                assert(steps_model(empty@) =~= Seq::<StepModel>::empty());
                Lens::Project { path: empty, fields }
            } else {
                lens
            }
        },
        Lens::Filter { path: _, predicate, project } => {
            if consumed {
                let empty: &'a [Step] = &[];
                assert(steps_model(empty@) =~= Seq::<StepModel>::empty());
                Lens::Filter { path: empty, predicate, project }
            } else {
                lens
            }
        },
        Lens::Path { steps, nested } => {
            assert(steps_model(steps@).len() == steps@.len());
            match nested {
                None => {
                    if consumed || steps.len() == 0 {
                        Lens::Whole
                    } else {
                        lens
                    }
                },
                Some(d) => {
                    if consumed {
                        row_lens(Lens::from_demand(d), false)
                    } else {
                        lens
                    }
                },
            }
        },
        other => other,
    }
}

fn first_step<'a>(lens: Lens<'a>) -> (r: Option<&'a Step>)
    ensures
        match r {
            Some(step) => leading_path(lens.model()).len() > 0 && leading_path(lens.model())[0]
                == crate::demand::step_model(*step),
            None => leading_path(lens.model()).len() == 0,
        },
{
    let steps: &'a [Step] = match lens {
        Lens::Path { steps, nested: _ } => steps,
        Lens::Project { path, fields: _ } => path,
        Lens::Filter { path, predicate: _, project: _ } => path,
        _ => &[],
    };
    assert(steps_model(steps@).len() == steps@.len());
    if steps.len() == 0 {
        None
    } else {
        Some(&steps[0])
    }
}

/// Which records a demand reads.
#[derive(Clone, Copy)]
pub enum Slot<'a> {
    /// None.
    Never,
    /// Every record.
    Every {
        /// What it asks of a record.
        row: Lens<'a>,
        /// How records fold.
        law: Option<RowShape<'a>>,
    },
    /// One record.
    At {
        /// Which record.
        at: usize,
        /// What it asks of the record.
        row: Lens<'a>,
        /// How the record folds.
        law: Option<RowShape<'a>>,
    },
}

/// What a borrowed law is.
pub open spec fn law_model(law: Option<RowShape<'_>>) -> Option<Shape> {
    match law {
        Some(shape) => Some(shape.model()),
        None => None,
    }
}

/// Whether a slot is what a demand's is among `n` records.
pub open spec fn slot_is(slot: Slot<'_>, d: DemandModel, n: int) -> bool {
    match slot_of(d, n) {
        SlotModel::Never => slot is Never,
        SlotModel::Every(row) => slot matches Slot::Every { row: r, law } && r.model() == row && law_model(law)
            == every_law(d, row),
        SlotModel::At(k, row) => slot matches Slot::At { at, row: r, law } && at == k && r.model() == row && law_model(
            law,
        ) == element_law(row),
    }
}

fn law_of_element<'a>(row: Lens<'a>) -> (r: Option<RowShape<'a>>)
    ensures
        law_model(r) == element_law(row.model()),
{
    match row.flatten() {
        Lens::Project { path: _, fields } => Some(RowShape::Projected(fields)),
        Lens::Filter { path: _, predicate: _, project } => Some(RowShape::Filtered(project)),
        _ => None,
    }
}

fn law_of_every<'a>(lens: Lens<'a>, row: Lens<'a>) -> (r: Option<RowShape<'a>>)
    ensures
        law_model(r) == every_law(lens.model(), row.model()),
{
    match lens.flatten() {
        Lens::Whole => Some(RowShape::Whole),
        other => match shape_of(other) {
            Some(shape) => Some(shape),
            None => law_of_element(row),
        },
    }
}

fn classify_stream_row<'a>(demand: &'a Demand, len: usize) -> (r: Slot<'a>)
    ensures
        slot_is(r, demand_model(*demand), len as int),
{
    let lens: Lens<'a> = Lens::from_demand(demand);
    if let Lens::Oracle(_) = lens {
        return Slot::Never;
    }
    match first_step(lens) {
        Some(Step::Key(_)) => Slot::Never,
        Some(Step::Index(i)) => match resolve_index(len, *i) {
            Some(k) => {
                let row: Lens<'a> = row_lens(lens_without_step(lens), false);
                Slot::At { at: k, row, law: law_of_element(row) }
            },
            None => Slot::Never,
        },
        None => {
            let row: Lens<'a> = match lens {
                Lens::Path { steps: _, nested } => row_lens(Lens::from_nested(nested), false),
                Lens::Slice { range: _, nested } => row_lens(Lens::from_nested(nested), false),
                other => row_lens(other, false),
            };
            Slot::Every { row, law: law_of_every(lens, row) }
        },
    }
}

/// Per-record work of a stream scan, compiled once.
pub struct StreamPlan<'a> {
    demands: &'a [Demand],
    slots: Vec<Slot<'a>>,
    len: usize,
}

/// One demand's work on one record.
struct Entry<'a> {
    owner: usize,
    row: Lens<'a>,
    law: Option<RowShape<'a>>,
}

impl<'a> Entry<'a> {
    spec fn model(self) -> RowEntry {
        RowEntry { owner: self.owner as int, row: self.row.model(), law: law_model(self.law) }
    }
}

spec fn entries_model(es: Seq<Entry>) -> Seq<RowEntry> {
    es.map_values(|e: Entry| e.model())
}

impl<'a> StreamPlan<'a> {
    /// Whether the slots are the demands'.
    pub closed spec fn wf(self) -> bool {
        &&& self.slots@.len() == self.demands@.len()
        &&& forall|k: int|
            0 <= k < self.slots@.len() ==> slot_is(
                #[trigger] self.slots@[k],
                demand_model(self.demands@[k]),
                self.len as int,
            )
    }

    /// The demands of this plan.
    pub closed spec fn asked(self) -> Seq<DemandModel> {
        demands_model(self.demands@)
    }

    /// Number of records.
    pub closed spec fn records(self) -> int {
        self.len as int
    }

    /// Compile the row work of `demands` over `len` records.
    pub fn compile(demands: &'a [Demand], len: usize) -> (r: StreamPlan<'a>)
        ensures
            r.wf(),
            r.asked() == demands_model(demands@),
            r.records() == len,
    {
        let mut slots: Vec<Slot<'a>> = Vec::new();
        let mut i: usize = 0;
        while i < demands.len()
            invariant
                i <= demands@.len(),
                slots@.len() == i,
                forall|k: int|
                    0 <= k < i ==> slot_is(#[trigger] slots@[k], demand_model(demands@[k]), len as int),
            decreases demands@.len() - i,
        {
            slots.push(classify_stream_row(&demands[i], len));
            i = i + 1;
        }
        StreamPlan { demands, slots, len }
    }

    /// Whether record `i` is one that an index names.
    fn holds(&self, i: usize) -> (r: bool)
        requires
            self.wf(),
        ensures
            r == held_at(self.asked(), self.records(), i as int),
    {
        let ghost demands = self.asked();
        let ghost n = self.records();
        let mut k: usize = 0;
        while k < self.slots.len()
            invariant
                k <= self.slots@.len(),
                self.wf(),
                demands == self.asked(),
                n == self.records(),
                demands.len() == self.slots@.len(),
                forall|j: int|
                    0 <= j < k ==> !(#[trigger] slot_of(demands[j], n) matches SlotModel::At(at, _) && at == i),
            decreases self.slots@.len() - k,
        {
            assert(slot_is(self.slots@[k as int], demands[k as int], n));
            match self.slots[k] {
                Slot::At { at, row: _, law: _ } => {
                    if at == i {
                        assert(slot_of(demands[k as int], n) is At);
                        return true;
                    }
                },
                _ => {},
            }
            k = k + 1;
        }
        false
    }

    /// The work of record `i`: every entry, and how many of them are live.
    fn entries_at(&self, i: usize) -> (r: (Vec<Entry<'a>>, Vec<Entry<'a>>))
        requires
            self.wf(),
        ensures
            entries_model(r.0@) == entries(self.asked(), self.asked().len(), self.records(), i as int),
            entries_model(r.1@) == live(self.asked(), self.asked().len(), self.records(), i as int),
            owners_inside(r.0@, self.asked().len() as int),
            owners_inside(r.1@, self.asked().len() as int),
    {
        let ghost demands = self.asked();
        let ghost n = self.records();
        let mut all: Vec<Entry<'a>> = Vec::new();
        let mut active: Vec<Entry<'a>> = Vec::new();
        let mut k: usize = 0;
        assert(entries_model(all@) =~= Seq::empty());
        assert(entries_model(active@) =~= Seq::empty());
        while k < self.demands.len()
            invariant
                k <= self.demands@.len(),
                self.wf(),
                demands == self.asked(),
                n == self.records(),
                demands.len() == self.demands@.len(),
                entries_model(all@) == entries(demands, k as nat, n, i as int),
                entries_model(active@) == live(demands, k as nat, n, i as int),
                owners_inside(all@, k as int),
                owners_inside(active@, k as int),
            decreases self.demands@.len() - k,
        {
            let ghost before_all = all@;
            let ghost before_active = active@;
            assert(demands[k as int] == demand_model(self.demands@[k as int]));
            assert(slot_is(self.slots@[k as int], demands[k as int], n));
            let found: Option<(Lens<'a>, Option<RowShape<'a>>)> = match self.slots[k] {
                Slot::Never => None,
                Slot::Every { row, law } => Some((row, law)),
                Slot::At { at, row, law } => {
                    if at == i {
                        Some((row, law))
                    } else {
                        None
                    }
                },
            };
            let inside: bool = match &self.demands[k] {
                Demand::Slice { range, nested: _ } => {
                    let (from, to) = range.window(self.len);
                    from <= i && i < to
                },
                _ => true,
            };
            if let Some((row, law)) = found {
                let e: Entry<'a> = Entry { owner: k, row, law };
                all.push(e);
                assert(entries_model(all@) =~= entries_model(before_all).push(e.model()));
                if inside {
                    let e2: Entry<'a> = Entry { owner: k, row, law };
                    active.push(e2);
                    assert(entries_model(active@) =~= entries_model(before_active).push(e2.model()));
                }
            }
            k = k + 1;
        }
        (all, active)
    }
}

spec fn owners_inside(es: Seq<Entry>, n: int) -> bool {
    forall|i: int| 0 <= i < es.len() ==> (#[trigger] es[i]).owner < n
}

/// Join one record's answer to its slot.
fn join(acc: Mark, next: Mark) -> (r: Mark)
    ensures
        r@ == joined(acc@, next@),
{
    match (acc, next) {
        (Mark::Missing, next) => next,
        (Mark::Rows(a), Mark::Rows(n)) => {
            let mut a: Batch = a;
            a.absorb(&n);
            Mark::Rows(a)
        },
        (Mark::Rows(a), Mark::Span(s)) => {
            let mut a: Batch = a;
            a.push(ColumnCell::Span(s));
            Mark::Rows(a)
        },
        (Mark::Rows(a), _) => Mark::Rows(a),
        (Mark::Span(s), Mark::Rows(n)) => {
            let mut a: Batch = Batch { fields: dollar_fields(), cells: Vec::new() };
            a.push(ColumnCell::Span(s));
            a.absorb(&n);
            assert(Seq::<ColumnCell>::empty() + seq![ColumnCell::Span(s)] =~= seq![ColumnCell::Span(s)]);
            Mark::Rows(a)
        },
        (Mark::Span(s), Mark::Span(t)) => {
            let mut a: Batch = Batch { fields: dollar_fields(), cells: Vec::new() };
            a.push(ColumnCell::Span(s));
            a.push(ColumnCell::Span(t));
            assert(a@.cells =~= seq![ColumnCell::Span(s), ColumnCell::Span(t)]);
            Mark::Rows(a)
        },
        (acc, Mark::Rows(n)) => Mark::Rows(n),
        (acc, _) => acc,
    }
}

/// Fold one record's answer into its slot.
fn fold_mark(acc: Mark, law: Option<RowShape<'_>>, next: Mark, record: ByteRange) -> (r: Mark)
    ensures
        r@ == folded_mark(acc@, law_model(law), next@, record),
{
    match law {
        Some(shape) => {
            let mut batch: Batch = match acc {
                Mark::Rows(batch) => batch,
                _ => Batch::of(shape),
            };
            batch.fold(shape, next, record);
            Mark::Rows(batch)
        },
        None => join(acc, next),
    }
}

/// Fold the live entries' answers into the slots.
fn fold_record(acc: &mut Vec<Mark>, active: &Vec<Entry<'_>>, marks: Vec<Mark>, record: ByteRange)
    requires
        marks@.len() == active@.len(),
        owners_inside(active@, old(acc)@.len() as int),
    ensures
        final(acc)@.len() == old(acc)@.len(),
        marks_model(final(acc)@) == folded_slots(
            marks_model(old(acc)@),
            entries_model(active@),
            marks_model(marks@),
            active@.len(),
            record,
        ),
{
    let ghost first = marks_model(acc@);
    let ghost given = marks@;
    let ghost model = entries_model(active@);
    let mut marks: Vec<Mark> = marks;
    let mut k: usize = 0;
    while k < active.len()
        invariant
            k <= active@.len(),
            marks@.len() == active@.len(),
            given.len() == active@.len(),
            model == entries_model(active@),
            owners_inside(active@, acc@.len() as int),
            acc@.len() == old(acc)@.len(),
            forall|j: int| k <= j < given.len() ==> #[trigger] marks@[j] == given[j],
            marks_model(acc@) == folded_slots(first, model, marks_model(given), k as nat, record),
        decreases active@.len() - k,
    {
        let mut next: Mark = Mark::Missing;
        core::mem::swap(&mut next, &mut marks[k]);
        let owner: usize = active[k].owner;
        let ghost before = acc@;
        let mut slot: Mark = Mark::Missing;
        core::mem::swap(&mut slot, &mut acc[owner]);
        let mark: Mark = fold_mark(slot, active[k].law, next, record);
        acc.set(owner, mark);
        proof {
            assert(model[k as int] == active@[k as int].model());
            assert(marks_model(given)[k as int] == next@);
            assert(marks_model(before)[owner as int] == slot@);
            assert(marks_model(acc@) =~= marks_model(before).update(owner as int, mark@));
        }
        k = k + 1;
    }
}

/// What the live entries ask.
fn rows_to_ask<'a>(active: &Vec<Entry<'a>>) -> (r: Vec<Lens<'a>>)
    ensures
        lenses_model(r@) == rows_asked(entries_model(active@)),
        r@.len() == active@.len(),
{
    let mut out: Vec<Lens<'a>> = Vec::new();
    let mut i: usize = 0;
    while i < active.len()
        invariant
            i <= active@.len(),
            out@.len() == i,
            forall|k: int| 0 <= k < i ==> (#[trigger] out@[k]).model() == active@[k].row.model(),
        decreases active@.len() - i,
    {
        out.push(active[i].row);
        i = i + 1;
    }
    assert(lenses_model(out@) =~= rows_asked(entries_model(active@)));
    out
}

/// Locate the record frames of a stream.
pub fn frames(src: &[u8], input: JsonInput, max: u32, dialect: Dialect) -> (r: Result<Vec<ByteRange>, Error>)
    ensures
        crate::framing::lists_as(r, frames_of(src@, input, max, dialect)),
        r matches Ok(ranges) ==> forall|i: int|
            0 <= i < ranges@.len() ==> (#[trigger] ranges@[i]).start < ranges@[i].end <= src@.len(),
{
    let len: usize = src.len();
    match input {
        JsonInput::Ndjson => ndjson_payloads(src, dialect),
        JsonInput::JsonSeq => json_seq_ranges(src, max, dialect, false),
        _ => {
            let (ranges, tail) = adjacent_split(src, max, dialect);
            let mut ranges: Vec<ByteRange> = ranges;
            if tail < len {
                ranges.push(ByteRange { start: tail, end: len });
            }
            Ok(ranges)
        },
    }
}

/// Skip a record no demand reads.
fn skip_record(src: &[u8], start: usize, ctx: WalkCtx, host: &mut Host<'_>) -> (r: Result<usize, Error>)
    requires
        start <= src@.len(),
        old(host).wf(),
    ensures
        crate::lex::ws::ends_as(r, record_end(src@, start as int, ctx)),
        r matches Ok(e) ==> start < e <= src@.len(),
        final(host).wf(),
        final(host).same(*old(host)),
        r matches Ok(e) ==> noted(*final(host), *old(host), region(start as int, e as int, ctx.unread())),
{
    proof {
        reveal(record_end);
    }
    let check: Check = ctx.unread_check();
    let end: usize = skip_value(src, start, check, ctx.max, ctx.dialect)?;
    host.note_skip(start, end, check);
    Ok(end)
}

/// Skip a framed record no demand reads.
fn skip_frame(text: &[u8], start: usize, ctx: WalkCtx, host: &mut Host<'_>) -> (r: Result<usize, Error>)
    requires
        start <= text@.len(),
        old(host).wf(),
    ensures
        match record_end(text@, start as int, ctx) {
            Err(error) => r == Err::<usize, Error>(error),
            Ok(e) => match tail_refusal(text@, e, ctx.dialect) {
                Some(error) => r == Err::<usize, Error>(error),
                None => r matches Ok(end) && end == e,
            },
        },
        r matches Ok(e) ==> start < e <= text@.len(),
        final(host).wf(),
        final(host).same(*old(host)),
        r matches Ok(e) ==> noted(*final(host), *old(host), region(start as int, e as int, ctx.unread())),
{
    let end: usize = skip_record(text, start, ctx, host)?;
    check_tail(text, end, ctx.dialect)?;
    Ok(end)
}

/// The record walk that is asked for.
pub open spec fn asked_walk(
    t: Seq<u8>,
    start: int,
    demands: Seq<DemandModel>,
    n: int,
    i: int,
    ctx: WalkCtx,
    framed: bool,
) -> Result<Walked, Error> {
    if framed {
        closed_walk(t, start, demands, n, i, ctx)
    } else {
        record_walk(t, start, demands, n, i, ctx)
    }
}

/// Refuse what stands behind a record's value, when that is not trivia.
fn check_tail(src: &[u8], end: usize, dialect: Dialect) -> (r: Result<(), Error>)
    requires
        end <= src@.len(),
    ensures
        match tail_refusal(src@, end as int, dialect) {
            Some(error) => r == Err::<(), Error>(error),
            None => r is Ok,
        },
{
    let tail: usize = skip_trivia(src, end, dialect)?;
    if tail < src.len() {
        return Err(Error::new(ErrorKind::TrailingContent, tail));
    }
    Ok(())
}

/// Walk record `i` and fold its answers into the slots. A framed record ends with
/// its text.
pub(crate) fn walk_record(
    src: &[u8],
    start: usize,
    i: usize,
    plan: &StreamPlan<'_>,
    ctx: WalkCtx,
    framed: bool,
    acc: &mut Vec<Mark>,
    host: &mut Host<'_>,
) -> (r: Result<usize, Error>)
    requires
        start < src@.len(),
        plan.wf(),
        old(acc)@.len() == plan.asked().len(),
        old(host).wf(),
    ensures
        host_stopped(r, *old(host), src@.len() as int) || match asked_walk(
            src@,
            start as int,
            plan.asked(),
            plan.records(),
            i as int,
            ctx,
            framed,
        ) {
            Err(error) => r == Err::<usize, Error>(error),
            Ok(w) => r is Ok && r->Ok_0 == w.end && marks_model(final(acc)@) == slots_after(
                src@,
                start as int,
                marks_model(old(acc)@),
                plan.asked(),
                plan.records(),
                i as int,
                w,
                ctx.dialect,
            ),
        },
        final(acc)@.len() == old(acc)@.len(),
        r matches Ok(e) ==> start < e <= src@.len(),
        r is Err ==> final(acc)@ == old(acc)@,
        final(host).wf(),
        final(host).same(*old(host)),
        r is Ok ==> noted(
            *final(host),
            *old(host),
            record_events(src@, start as int, plan.asked(), plan.records(), i as int, ctx),
        ),
{
    proof {
        reveal(record_walk);
        reveal(slots_after);
    }
    let (all, active) = plan.entries_at(i);
    assert(entries_model(all@).len() == all@.len());
    assert(entries_model(active@).len() == active@.len());
    host.poll(start)?;
    if all.len() == 0 {
        let end: usize = skip_record(src, start, ctx, host)?;
        if framed {
            check_tail(src, end, ctx.dialect)?;
        }
        return Ok(end);
    }
    let hits: Vec<Lens<'_>> = rows_to_ask(&active);
    let walked: Walk = walk_node(
        src,
        start,
        hits.as_slice(),
        ctx,
        0,
        Env { element: true, may_stop: false, lane: active.len() == all.len() },
        host,
    )?;
    proof {
        trivia_end_bounds(src@, start as int, ctx.dialect);
    }
    let at: usize = match skip_trivia(src, start, ctx.dialect) {
        Ok(p) => p,
        Err(_) => start,
    };
    let end: usize = walked.end;
    if framed {
        check_tail(src, end, ctx.dialect)?;
    }
    fold_record(acc, &active, walked.marks, ByteRange { start: at, end });
    Ok(end)
}

/// A slot per demand, none answered yet.
pub(crate) fn missing_marks(n: usize) -> (r: Vec<Mark>)
    ensures
        r@.len() == n,
        marks_model(r@) == all_missing(n as nat),
{
    let mut out: Vec<Mark> = Vec::new();
    let mut i: usize = 0;
    while i < n
        invariant
            i <= n,
            out@.len() == i,
            forall|k: int| 0 <= k < i ==> (#[trigger] out@[k])@ == MarkModel::Missing,
        decreases n - i,
    {
        out.push(Mark::Missing);
        i = i + 1;
    }
    assert(marks_model(out@) =~= all_missing(n as nat));
    out
}

/// Whether every demand is for the whole value.
fn wants_only_whole(demands: &[Demand]) -> (r: bool)
    ensures
        r == all_whole(demands_model(demands@)),
{
    let mut i: usize = 0;
    while i < demands.len()
        invariant
            i <= demands@.len(),
            forall|k: int| 0 <= k < i ==> #[trigger] demands_model(demands@)[k] is Whole,
        decreases demands@.len() - i,
    {
        if !matches!(demands[i], Demand::Whole) {
            assert(!(demands_model(demands@)[i as int] is Whole));
            return false;
        }
        i = i + 1;
    }
    true
}

/// Whether a stream scan left what the model names, or the host stopped it where it
/// was polled.
pub open spec fn streams_as(
    r: Result<(Vec<Mark>, Vec<Error>), Error>,
    named: Result<(Seq<MarkModel>, Seq<Error>), Error>,
    host: Host<'_>,
    polled: bool,
    n: int,
) -> bool {
    (polled && host_stopped(r, host, n)) || match named {
        Ok((marks, issues)) => r matches Ok((m, e)) && marks_model(m@) == marks && e@ == issues,
        Err(error) => r == Err::<(Vec<Mark>, Vec<Error>), Error>(error),
    }
}

/// Whether a refusal is one that the host's control can decide inside a source of `n`
/// bytes.
fn stops(host: &Host<'_>, error: Error, n: usize) -> (r: bool)
    ensures
        r == (host.control matches Some(control) && is_stop_of(*control, error, n as int)),
{
    match host.control {
        Some(control) => can_stop_with(control, error, n),
        None => false,
    }
}

/// The rows of a stream of whole records.
fn scan_stream_whole(src: &[u8], ranges: &Vec<ByteRange>, demands: usize, ctx: WalkCtx, host: &mut Host<'_>) -> (r: Result<
    (Vec<Mark>, Vec<Error>),
    Error,
>)
    requires
        forall|i: int| 0 <= i < ranges@.len() ==> (#[trigger] ranges@[i]).start < ranges@[i].end <= src@.len(),
        old(host).wf(),
    ensures
        streams_as(
            r,
            match whole_from(src@, ranges@, 0, Seq::empty(), ctx) {
                Err(error) => Err(error),
                Ok((cells, issues)) => Ok(
                    (
                        Seq::new(
                            demands as nat,
                            |i: int| MarkModel::Rows(BatchModel { fields: dollar(), cells }),
                        ),
                        issues,
                    ),
                ),
            },
            *old(host),
            ranges@.len() > 0,
            src@.len() as int,
        ),
        final(host).wf(),
        final(host).same(*old(host)),
        r matches Ok((_, issues)) ==> recorded(
            *final(host),
            *old(host),
            (wholes_events(src@, ranges@, 0, ctx), Seq::empty()),
            issues@.len() == 0,
        ),
{
    let mut batch: Batch = Batch { fields: dollar_fields(), cells: Vec::new() };
    let mut issues: Vec<Error> = Vec::new();
    let ghost whole = whole_from(src@, ranges@, 0, Seq::empty(), ctx);
    let ghost all_events = wholes_events(src@, ranges@, 0, ctx);
    let ghost mut left = Seq::<TraceEvent>::empty();
    let mut i: usize = 0;
    assert(issues@ =~= Seq::<Error>::empty());
    proof {
        if ranges@.len() == 0 {
            noted_nothing(*host, *host);
            assert(all_events + left =~= Seq::empty());
        }
    }
    while i < ranges.len()
        invariant_except_break
            issues@ == Seq::<Error>::empty(),
            whole == whole_from(src@, ranges@, i as int, batch.cells@, ctx),
            owed(*host, *old(host), wholes_events(src@, ranges@, i as int, ctx), all_events),
            left.len() == 0,
        invariant
            i <= ranges@.len(),
            forall|k: int| 0 <= k < ranges@.len() ==> (#[trigger] ranges@[k]).start < ranges@[k].end <= src@.len(),
            host.wf(),
            host.same(*old(host)),
            whole == whole_from(src@, ranges@, 0, Seq::empty(), ctx),
            batch@.fields == dollar(),
        ensures
            noted(*host, *old(host), all_events + left),
            issues@.len() == 0 ==> left.len() == 0,
            whole == Ok::<(Seq<ColumnCell>, Seq<Error>), Error>((batch.cells@, issues@)),
        decreases ranges@.len() - i,
    {
        let range: ByteRange = ranges[i];
        let ghost prior = *host;
        host.poll(range.start)?;
        let mut apart: Host<'_> = host.apart();
        let text: &[u8] = vstd::slice::slice_subrange(src, 0, range.end);
        assert(text@ =~= frame_text(src@, range));
        match skip_frame(text, range.start, ctx, &mut apart) {
            Ok(end) => {
                proof {
                    let head = region(range.start as int, end as int, ctx.unread());
                    assert(Seq::<TraceEvent>::empty() + head =~= head);
                }
                host.absorb(apart);
                proof {
                    let head = region(range.start as int, end as int, ctx.unread());
                    let tail = wholes_events(src@, ranges@, i + 1, ctx);
                    owed_step(*host, prior, *old(host), head, tail, all_events);
                }
                let ghost before = batch.cells@;
                batch.push(ColumnCell::Span(ByteRange { start: range.start, end }));
                assert(batch.cells@ =~= before.push(ColumnCell::Span(span(range.start as int, end as int))));
            },
            Err(error) => {
                if i + 1 == ranges.len() {
                    proof {
                        owed_none(*host, *old(host), all_events);
                        left = apart.events();
                    }
                    let ghost middle = *host;
                    host.absorb(apart);
                    proof {
                        noted_then(*host, middle, *old(host), all_events, left);
                    }
                    issues.push(error);
                    assert(issues@ =~= seq![error]);
                    break;
                }
                return Err(error);
            },
        }
        i = i + 1;
        proof {
            if i == ranges@.len() {
                owed_none(*host, *old(host), all_events);
                assert(all_events + left =~= all_events);
            }
        }
    }
    proof {
        joins_of(all_events, left, Seq::empty());
        if old(host).trace is Some && old(host).events().len() == 0 {
            assert(host.events() =~= all_events + left + Seq::empty());
        }
    }
    let mut marks: Vec<Mark> = Vec::new();
    let mut k: usize = 0;
    while k < demands
        invariant
            k <= demands,
            marks@.len() == k,
            forall|j: int| 0 <= j < k ==> (#[trigger] marks@[j])@ == MarkModel::Rows(batch@),
        decreases demands - k,
    {
        marks.push(Mark::Rows(batch.copied()));
        k = k + 1;
    }
    proof {
        let cells = batch.cells@;
        assert(marks_model(marks@) =~= Seq::new(
            demands as nat,
            |i: int| MarkModel::Rows(BatchModel { fields: dollar(), cells }),
        ));
    }
    Ok((marks, issues))
}

/// A demand's final mark on a stream.
fn final_stream_mark(demand: &Demand, n: usize, mark: Mark, records: u64) -> (r: Mark)
    ensures
        r@ == final_mark(demand_model(*demand), n as int, mark@, records as int),
{
    let lens: Lens<'_> = Lens::from_demand(demand);
    if let Lens::Oracle(o) = lens {
        return match o {
            Oracle::Count => Mark::Count(records),
            Oracle::DescendCount => Mark::Count(records),
            Oracle::MemberCount => Mark::Count(records),
            Oracle::Kind => Mark::Kind(ValueKind::Array),
            Oracle::MemberNames => Mark::Mismatch(ValueKind::Array),
            Oracle::HasKey { key: _ } => Mark::Mismatch(ValueKind::Array),
            Oracle::StringByteLength => mark,
        };
    }
    if let Some(Step::Key(_)) = first_step(lens) {
        return Mark::Mismatch(ValueKind::Array);
    }
    match mark {
        Mark::Missing => match classify_stream_row(demand, n) {
            Slot::Every { row: _, law } => {
                let fields: Vec<String> = match law {
                    Some(shape) => shape.fields(),
                    None => dollar_fields(),
                };
                let batch: Batch = Batch { fields, cells: Vec::new() };
                assert(batch@.cells =~= Seq::empty());
                Mark::Rows(batch)
            },
            _ => Mark::Missing,
        },
        other => other,
    }
}

/// Every demand's final mark on a stream.
pub(crate) fn finish_stream(demands: &[Demand], n: usize, acc: &mut Vec<Mark>, records: u64)
    requires
        old(acc)@.len() == demands@.len(),
    ensures
        final(acc)@.len() == demands@.len(),
        marks_model(final(acc)@) == final_marks(
            demands_model(demands@),
            n as int,
            marks_model(old(acc)@),
            records as int,
        ),
{
    let ghost before = marks_model(acc@);
    let ghost done = final_marks(demands_model(demands@), n as int, before, records as int);
    let mut i: usize = 0;
    while i < demands.len()
        invariant
            i <= demands@.len(),
            acc@.len() == demands@.len(),
            before.len() == demands@.len(),
            done == final_marks(demands_model(demands@), n as int, before, records as int),
            forall|k: int| 0 <= k < i ==> (#[trigger] acc@[k])@ == done[k],
            forall|k: int| i <= k < demands@.len() ==> (#[trigger] acc@[k])@ == before[k],
        decreases demands@.len() - i,
    {
        let mut mark: Mark = Mark::Missing;
        core::mem::swap(&mut mark, &mut acc[i]);
        let last: Mark = final_stream_mark(&demands[i], n, mark, records);
        acc.set(i, last);
        i = i + 1;
    }
    assert(marks_model(acc@) =~= done);
}

/// Scan a stream: one mark per demand, and the recovered refusals.
pub fn scan_stream(src: &[u8], input: JsonInput, demands: &[Demand], ctx: WalkCtx, host: &mut Host<'_>) -> (r: Result<
    (Vec<Mark>, Vec<Error>),
    Error,
>)
    requires
        old(host).wf(),
    ensures
        streams_as(
            r,
            stream_marks(src@, input, demands_model(demands@), ctx),
            *old(host),
            has_records(src@, input, ctx),
            src@.len() as int,
        ),
        r matches Ok((marks, issues)) ==> marks@.len() == demands@.len(),
        final(host).wf(),
        final(host).same(*old(host)),
        r matches Ok((_, issues)) ==> recorded(
            *final(host),
            *old(host),
            stream_events(src@, input, demands_model(demands@), ctx),
            issues@.len() == 0,
        ),
{
    let ranges: Vec<ByteRange> = frames(src, input, ctx.max, ctx.dialect)?;
    scan_frames(src, &ranges, demands, ctx, host)
}

/// Scan record frames: one mark per demand, and the recovered refusals.
pub(crate) fn scan_frames(src: &[u8], ranges: &Vec<ByteRange>, demands: &[Demand], ctx: WalkCtx, host: &mut Host<'_>) -> (r: Result<
    (Vec<Mark>, Vec<Error>),
    Error,
>)
    requires
        forall|i: int| 0 <= i < ranges@.len() ==> (#[trigger] ranges@[i]).start < ranges@[i].end <= src@.len(),
        old(host).wf(),
    ensures
        streams_as(
            r,
            frames_marks(src@, ranges@, demands_model(demands@), ctx),
            *old(host),
            ranges@.len() > 0,
            src@.len() as int,
        ),
        r matches Ok((marks, issues)) ==> marks@.len() == demands@.len(),
        final(host).wf(),
        final(host).same(*old(host)),
        r matches Ok((_, issues)) ==> recorded(
            *final(host),
            *old(host),
            frames_events(src@, ranges@, demands_model(demands@), ctx),
            issues@.len() == 0,
        ),
{
    let ghost model = demands_model(demands@);
    if wants_only_whole(demands) {
        let r = scan_stream_whole(src, ranges, demands.len(), ctx, host);
        assert(r matches Ok((marks, issues)) ==> marks_model(marks@).len() == marks@.len());
        return r;
    }
    let n: usize = ranges.len();
    let plan: StreamPlan<'_> = StreamPlan::compile(demands, n);
    let mut acc: Vec<Mark> = missing_marks(demands.len());
    let mut records: u64 = 0;
    let mut issues: Vec<Error> = Vec::new();
    let ghost first = StreamOutcome { marks: all_missing(model.len()), records: 0, issues: Seq::empty() };
    let ghost whole = stream_from(src@, ranges@, 0, first, model, ctx);
    assert(issues@ =~= Seq::<Error>::empty());
    let ghost mains = records_events(src@, ranges@, 0, model, ctx, false);
    let ghost helds = records_events(src@, ranges@, 0, model, ctx, true);
    let ghost mut left = Seq::<TraceEvent>::empty();
    let mut later: Host<'_> = host.apart();
    let ghost fresh = later;
    let mut i: usize = 0;
    proof {
        if n == 0 {
            noted_nothing(*host, *host);
            noted_nothing(later, later);
            assert(mains + left =~= Seq::empty());
        }
    }
    while i < n
        invariant_except_break
            records == i,
            whole == stream_from(
                src@,
                ranges@,
                i as int,
                (StreamOutcome { marks: marks_model(acc@), records: records as int, issues: issues@ }),
                model,
                ctx,
            ),
            owed(*host, *old(host), records_events(src@, ranges@, i as int, model, ctx, false), mains),
            owed(later, fresh, records_events(src@, ranges@, i as int, model, ctx, true), helds),
            left.len() == 0,
            issues@.len() == 0,
        invariant
            i <= n,
            n == ranges@.len(),
            model == demands_model(demands@),
            model.len() == demands@.len(),
            plan.wf(),
            plan.asked() == model,
            plan.records() == n,
            acc@.len() == demands@.len(),
            forall|k: int| 0 <= k < ranges@.len() ==> (#[trigger] ranges@[k]).start < ranges@[k].end <= src@.len(),
            host.wf(),
            host.same(*old(host)),
            later.wf(),
            later.same(*host),
            fresh.same(*host),
            whole == stream_from(src@, ranges@, 0, first, model, ctx),
            frames_marks(src@, ranges@, model, ctx) == (match whole {
                Err(error) => Err(error),
                Ok(st) => Ok((final_marks(model, n as int, st.marks, st.records), st.issues)),
            }),
        ensures
            noted(*host, *old(host), mains + left),
            noted(later, fresh, helds),
            issues@.len() == 0 ==> left.len() == 0,
            whole == Ok::<StreamOutcome, Error>(
                (StreamOutcome { marks: marks_model(acc@), records: records as int, issues: issues@ }),
            ),
        decreases n - i,
    {
        let text: &[u8] = vstd::slice::slice_subrange(src, 0, ranges[i].end);
        assert(text@ =~= frame_text(src@, ranges@[i as int]));
        let held: bool = plan.holds(i);
        let mut apart: Host<'_> = host.apart();
        let ghost prior = *host;
        let ghost waiting = later;
        let ghost start = ranges@[i as int].start as int;
        match walk_record(text, ranges[i].start, i, &plan, ctx, true, &mut acc, &mut apart) {
            Ok(_) => {
                records = records + 1;
                let ghost head = record_events(text@, start, model, n as int, i as int, ctx);
                assert(Seq::<TraceEvent>::empty() + head =~= head);
                if held {
                    later.absorb(apart);
                } else {
                    host.absorb(apart);
                }
                proof {
                    let main = records_events(src@, ranges@, i + 1, model, ctx, false);
                    let rest = records_events(src@, ranges@, i + 1, model, ctx, true);
                    if held {
                        noted_nothing(*host, prior);
                        owed_step(*host, prior, *old(host), Seq::empty(), main, mains);
                        owed_step(later, waiting, fresh, head, rest, helds);
                    } else {
                        noted_nothing(later, waiting);
                        owed_step(*host, prior, *old(host), head, main, mains);
                        owed_step(later, waiting, fresh, Seq::empty(), rest, helds);
                    }
                }
            },
            Err(error) => {
                if i + 1 == n && !stops(host, error, src.len()) {
                    proof {
                        owed_none(*host, *old(host), mains);
                        owed_none(later, fresh, helds);
                        left = if held {
                            Seq::empty()
                        } else {
                            apart.events()
                        };
                    }
                    if !held {
                        host.absorb(apart);
                    }
                    proof {
                        if held {
                            noted_nothing(*host, prior);
                        }
                        noted_then(*host, prior, *old(host), mains, left);
                    }
                    issues.push(error);
                    break;
                }
                return Err(error);
            },
        }
        i = i + 1;
        proof {
            if i == n {
                owed_none(*host, *old(host), mains);
                owed_none(later, fresh, helds);
                assert(mains + left =~= mains);
            }
        }
    }
    let ghost prior = *host;
    let ghost kept = later.events();
    host.absorb(later);
    proof {
        noted_then(*host, prior, *old(host), mains + left, kept);
        joins_of(mains, left, helds);
        if old(host).trace is Some && old(host).events().len() == 0 {
            assert(kept =~= helds);
            assert(host.events() =~= mains + left + helds);
        }
    }
    finish_stream(demands, n, &mut acc, records);
    Ok((acc, issues))
}

/// The marks one record's entries are visited with.
fn visit_record(
    src: &[u8],
    start: usize,
    i: usize,
    plan: &StreamPlan<'_>,
    ctx: WalkCtx,
    seen: &mut Vec<Mark>,
    demands: usize,
) -> (r: Result<(), Error>)
    requires
        start < src@.len(),
        plan.wf(),
        demands == plan.asked().len(),
    ensures
        match closed_walk(src@, start as int, plan.asked(), plan.records(), i as int, ctx) {
            Err(error) => r == Err::<(), Error>(error) && final(seen)@ == old(seen)@,
            Ok(w) => r is Ok && marks_model(final(seen)@) == marks_model(old(seen)@) + visited_at(
                src@,
                start as int,
                plan.asked(),
                plan.records(),
                i as int,
                w,
                ctx.dialect,
            ),
        },
{
    proof {
        reveal(visited_at);
    }
    let mut host: Host<'_> = Host::none();
    let mut slots: Vec<Mark> = missing_marks(demands);
    let _end: usize = walk_record(src, start, i, plan, ctx, true, &mut slots, &mut host)?;
    let (all, _active) = plan.entries_at(i);
    let ghost asked = entries_model(all@);
    let ghost taken = marks_model(slots@);
    let ghost visited = asked.map_values(|e: RowEntry| taken[e.owner]);
    let ghost before = marks_model(seen@);
    let mut k: usize = 0;
    assert(before + visited.take(0) =~= before);
    while k < all.len()
        invariant
            k <= all@.len(),
            asked == entries_model(all@),
            slots@.len() == demands,
            owners_inside(all@, demands as int),
            taken == marks_model(slots@),
            visited == asked.map_values(|e: RowEntry| taken[e.owner]),
            marks_model(seen@) == before + visited.take(k as int),
        decreases all@.len() - k,
    {
        let ghost prior = seen@;
        let mark: Mark = slots[all[k].owner].copied();
        seen.push(mark);
        proof {
            assert(asked[k as int] == all@[k as int].model());
            assert(visited.take(k + 1) =~= visited.take(k as int).push(mark@));
            assert(marks_model(seen@) =~= marks_model(prior).push(mark@));
            assert(marks_model(seen@) =~= before + visited.take(k + 1));
        }
        k = k + 1;
    }
    assert(visited.take(k as int) =~= visited);
    Ok(())
}

/// Visit each record of a stream: the marks in visiting order, and the recovered
/// refusals. What was visited before a refusal stays visited.
pub fn each_record(src: &[u8], input: JsonInput, demands: &[Demand], ctx: WalkCtx, seen: &mut Vec<Mark>) -> (r: Result<
    Vec<Error>,
    Error,
>)
    requires
        old(seen)@.len() == 0,
    ensures
        marks_model(final(seen)@) == each_marks(src@, input, demands_model(demands@), ctx).0,
        match each_marks(src@, input, demands_model(demands@), ctx).1 {
            Ok(issues) => r matches Ok(e) && e@ == issues,
            Err(error) => r == Err::<Vec<Error>, Error>(error),
        },
{
    let ghost model = demands_model(demands@);
    assert(marks_model(seen@) =~= Seq::empty());
    let ranges: Vec<ByteRange> = frames(src, input, ctx.max, ctx.dialect)?;
    let n: usize = ranges.len();
    let plan: StreamPlan<'_> = StreamPlan::compile(demands, n);
    let mut issues: Vec<Error> = Vec::new();
    let ghost whole = each_from(src@, ranges@, 0, Seq::empty(), model, ctx);
    let mut i: usize = 0;
    assert(issues@ =~= Seq::<Error>::empty());
    while i < n
        invariant_except_break
            issues@ == Seq::<Error>::empty(),
            whole == each_from(src@, ranges@, i as int, marks_model(seen@), model, ctx),
        invariant
            i <= n,
            n == ranges@.len(),
            model == demands_model(demands@),
            model.len() == demands@.len(),
            plan.wf(),
            plan.asked() == model,
            plan.records() == n,
            forall|k: int| 0 <= k < ranges@.len() ==> (#[trigger] ranges@[k]).start < ranges@[k].end <= src@.len(),
            whole == each_marks(src@, input, model, ctx),
        ensures
            whole == (marks_model(seen@), Ok::<Seq<Error>, Error>(issues@)),
        decreases n - i,
    {
        let text: &[u8] = vstd::slice::slice_subrange(src, 0, ranges[i].end);
        assert(text@ =~= frame_text(src@, ranges@[i as int]));
        match visit_record(text, ranges[i].start, i, &plan, ctx, seen, demands.len()) {
            Ok(()) => {},
            Err(error) => {
                if i + 1 == n {
                    issues.push(error);
                    assert(issues@ =~= seq![error]);
                    break;
                }
                return Err(error);
            },
        }
        i = i + 1;
    }
    Ok(issues)
}

} // verus!
