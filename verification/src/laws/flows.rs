//! What the parts of a stream answer, one behind the other, is what the stream answers.

use vstd::prelude::*;

use crate::answer::AnswerModel;
use crate::demand::DemandModel;
use crate::error::Error;
use crate::laws::folds::{adds_rows, element_adds, folds, joined_answers, part_answers, parts_read, piece_at, stitched};
use crate::laws::records::{entries_hold_live, frame_fits, reads, record_ends_well, slot_after};
use crate::laws::walks::a_node;
use crate::lex::ws::trivia_end;
use crate::scan::{Ask, JsonInput};
use crate::shard::frames::part_frames;
use crate::shard::plan::{part_scanned, spined};
use crate::shard::window::{on_array, records_answers, shard_of, Shard};
use crate::stream::{
    all_missing, all_whole, entries, entry_of, every_law, final_mark, frame_text, framed_walk, frames_marks, live,
    record_walk, row_of, rows_asked, rows_so_far, slot_of, slots_after, stream_from, RowEntry, StreamOutcome,
};
use crate::value::{span, ByteRange};
use crate::walk::marks::{folded, row_fields, row_shape, with_cells, BatchModel, ColumnCell, MarkModel};
use crate::walk::model::{Env, WalkCtx, Walked};

verus! {

/// The cells that records add to the rows of a demand on their stream.
pub open spec fn frame_pieces(b: Seq<u8>, frames: Seq<ByteRange>, d: DemandModel, ctx: WalkCtx) -> Seq<ColumnCell>
    decreases frames.len(),
{
    if frames.len() == 0 {
        Seq::empty()
    } else {
        piece_at(frame_text(b, frames[0]), frames[0].start as int, d, ctx) + frame_pieces(b, frames.skip(1), d, ctx)
    }
}

/// What records answer a demand on their stream: how many they are, or the rows that they
/// add.
pub open spec fn frames_answer(b: Seq<u8>, frames: Seq<ByteRange>, d: DemandModel, ctx: WalkCtx) -> AnswerModel {
    if shard_of(d) == Shard::Sum {
        AnswerModel::Count(frames.len() as int)
    } else {
        AnswerModel::Columns(b, BatchModel { fields: row_fields(row_shape(d)->0), cells: frame_pieces(b, frames, d, ctx) })
    }
}

proof fn frame_pieces_split(b: Seq<u8>, x: Seq<ByteRange>, y: Seq<ByteRange>, d: DemandModel, ctx: WalkCtx)
    ensures
        frame_pieces(b, x + y, d, ctx) == frame_pieces(b, x, d, ctx) + frame_pieces(b, y, d, ctx),
    decreases x.len(),
{
    if x.len() == 0 {
        assert(x + y =~= y);
        assert(Seq::<ColumnCell>::empty() + frame_pieces(b, y, d, ctx) =~= frame_pieces(b, y, d, ctx));
    } else {
        assert((x + y).skip(1) =~= x.skip(1) + y);
        frame_pieces_split(b, x.skip(1), y, d, ctx);
        let head = piece_at(frame_text(b, x[0]), x[0].start as int, d, ctx);
        let mid = frame_pieces(b, x.skip(1), d, ctx);
        let tail = frame_pieces(b, y, d, ctx);
        assert(head + (mid + tail) =~= (head + mid) + tail);
    }
}

/// Whether a demand on a stream is planned over its parts.
pub open spec fn flows(d: DemandModel) -> bool {
    shard_of(d) != Shard::Serial && !spined(d)
}

spec fn all_flow(demands: Seq<DemandModel>) -> bool {
    forall|i: int| 0 <= i < demands.len() ==> flows(#[trigger] demands[i])
}

/// A demand that is planned over a stream asks the same of every record.
proof fn entry_is_steady(d: DemandModel, owner: int, n: int, k: int)
    requires
        flows(d),
    ensures
        entry_of(d, owner, n, k) == entry_of(d, owner, 0, 0),
        crate::stream::in_window(d, n, k),
{
}

proof fn entries_are_steady(demands: Seq<DemandModel>, m: nat, n: int, k: int)
    requires
        all_flow(demands),
        m <= demands.len(),
    ensures
        entries(demands, m, n, k) == entries(demands, m, 0, 0),
        live(demands, m, n, k) == live(demands, m, 0, 0),
    decreases m,
{
    if m > 0 {
        entries_are_steady(demands, (m - 1) as nat, n, k);
        assert(flows(demands[m - 1]));
        entry_is_steady(demands[m - 1], m - 1, n, k);
        entry_is_steady(demands[m - 1], m - 1, 0, 0);
    }
}

/// Whether a record is read does not rest on its place among the others.
proof fn walks_are_steady(b: Seq<u8>, frame: ByteRange, demands: Seq<DemandModel>, n: int, k: int, m: int, l: int, ctx: WalkCtx)
    requires
        all_flow(demands),
    ensures
        framed_walk(b, frame, demands, n, k, ctx) == framed_walk(b, frame, demands, m, l, ctx),
{
    reveal(record_walk);
    entries_are_steady(demands, demands.len(), n, k);
    entries_are_steady(demands, demands.len(), m, l);
}

/// Whether every record of a list is read.
pub(crate) open spec fn all_walked(b: Seq<u8>, frames: Seq<ByteRange>, demands: Seq<DemandModel>, ctx: WalkCtx) -> bool {
    forall|k: int| 0 <= k < frames.len() ==> framed_walk(b, #[trigger] frames[k], demands, 0, 0, ctx) is Ok
}

/// A pass without a refusal has read every record.
proof fn unrefused_is_walked(b: Seq<u8>, frames: Seq<ByteRange>, k: int, st: StreamOutcome, demands: Seq<DemandModel>, ctx: WalkCtx)
    requires
        all_flow(demands),
        0 <= k <= frames.len(),
        st.issues.len() == 0,
        stream_from(b, frames, k, st, demands, ctx) is Ok,
        stream_from(b, frames, k, st, demands, ctx)->Ok_0.issues.len() == 0,
    ensures
        forall|x: int| k <= x < frames.len() ==> framed_walk(b, #[trigger] frames[x], demands, 0, 0, ctx) is Ok,
    decreases frames.len() - k,
{
    if k < frames.len() {
        let n = frames.len() as int;
        walks_are_steady(b, frames[k], demands, n, k, 0, 0, ctx);
        let w = framed_walk(b, frames[k], demands, n, k, ctx)->Ok_0;
        let t = frame_text(b, frames[k]);
        let next = StreamOutcome {
            marks: slots_after(t, frames[k].start as int, st.marks, demands, n, k, w, ctx.dialect),
            records: st.records + 1,
            issues: st.issues,
        };
        unrefused_is_walked(b, frames, k + 1, next, demands, ctx);
    }
}

/// A pass over records that are all read adds what each of them adds.
proof fn records_add(
    b: Seq<u8>,
    frames: Seq<ByteRange>,
    k: int,
    st: StreamOutcome,
    demands: Seq<DemandModel>,
    i: int,
    ctx: WalkCtx,
)
    requires
        all_flow(demands),
        0 <= i < demands.len(),
        folds(demands[i]),
        0 <= k <= frames.len(),
        st.issues.len() == 0,
        st.marks.len() == demands.len(),
        st.marks[i] is Rows || st.marks[i] is Missing,
        all_walked(b, frames, demands, ctx),
        forall|x: int| 0 <= x < frames.len() ==> frame_fits(b, #[trigger] frames[x], ctx.dialect),
    ensures
        stream_from(b, frames, k, st, demands, ctx) is Ok,
        ({
            let last = stream_from(b, frames, k, st, demands, ctx)->Ok_0;
            let d = demands[i];
            let shape = row_shape(d)->0;
            &&& last.issues.len() == 0
            &&& last.records == st.records + frames.len() - k
            &&& last.marks.len() == demands.len()
            &&& shard_of(d) != Shard::Sum ==> (last.marks[i] is Rows || last.marks[i] is Missing) && rows_so_far(last.marks[i], shape)
                == with_cells(rows_so_far(st.marks[i], shape), frame_pieces(b, frames.skip(k), d, ctx))
        }),
    decreases frames.len() - k,
{
    let d = demands[i];
    let shape = row_shape(d)->0;
    let so_far = rows_so_far(st.marks[i], shape);
    if k < frames.len() {
        let n = frames.len() as int;
        let frame = frames[k];
        let t = frame_text(b, frame);
        let start = frame.start as int;
        assert(framed_walk(b, frame, demands, 0, 0, ctx) is Ok);
        walks_are_steady(b, frame, demands, n, k, 0, 0, ctx);
        let w = framed_walk(b, frame, demands, n, k, ctx)->Ok_0;
        let marks = slots_after(t, start, st.marks, demands, n, k, w, ctx.dialect);
        let next = StreamOutcome { marks, records: st.records + 1, issues: st.issues };
        assert(flows(d));
        entry_is_steady(d, i, n, k);
        entry_is_steady(d, 0, n, k);
        slot_after(t, start, st.marks, demands, i, n, k, w, ctx.dialect);
        let rest = frames.skip(k);
        assert(rest.skip(1) =~= frames.skip(k + 1));
        assert(rest[0] == frame);
        if shard_of(d) != Shard::Sum {
            record_adds(t, start, demands, i, n, k, w, ctx, so_far);
            let piece = piece_at(t, start, d, ctx);
            assert(frame_fits(b, frame, ctx.dialect));
            record_ends_well(t, start, demands, n, k, ctx);
            assert(marks[i] == MarkModel::Rows(with_cells(so_far, piece)));
            records_add(b, frames, k + 1, next, demands, i, ctx);
            let more = frame_pieces(b, frames.skip(k + 1), d, ctx);
            assert((so_far.cells + piece) + more =~= so_far.cells + (piece + more));
        } else {
            assert(!reads(d, n, k));
            records_add(b, frames, k + 1, next, demands, i, ctx);
        }
    } else {
        assert(frames.skip(k) =~= Seq::empty());
        assert(with_cells(so_far, Seq::empty()).cells =~= so_far.cells);
    }
}

/// What a record adds to the rows of a demand.
proof fn record_adds(
    t: Seq<u8>,
    start: int,
    demands: Seq<DemandModel>,
    i: int,
    n: int,
    k: int,
    w: Walked,
    ctx: WalkCtx,
    so_far: BatchModel,
)
    requires
        all_flow(demands),
        0 <= i < demands.len(),
        folds(demands[i]),
        shard_of(demands[i]) != Shard::Sum,
        0 <= start <= t.len(),
        trivia_end(t, start, ctx.dialect) matches Ok(p) ==> p == start,
        record_walk(t, start, demands, n, k, ctx) == Ok::<Walked, Error>(w),
    ensures
        ({
            let d = demands[i];
            let r = live(demands, i as nat, n, k).len() as int;
            let row = row_of(d, false);
            &&& trivia_end(t, start, ctx.dialect) == Ok::<int, Error>(start)
            &&& reads(d, n, k)
            &&& entry_of(d, i, n, k) == Some(RowEntry { owner: i, row, law: row_shape(d) })
            &&& row_shape(d) is Some
            &&& folded(so_far, row_shape(d)->0, w.marks[r], span(start, w.end)) == with_cells(so_far, piece_at(t, start, d, ctx))
        }),
{
    let d = demands[i];
    assert(flows(d));
    entry_is_steady(d, i, n, k);
    entry_is_steady(d, 0, n, k);
    assert(on_array(d) == d) by {
        match d {
            DemandModel::Project { path, fields } => {
                assert(path =~= Seq::empty());
            },
            DemandModel::Filter { path, predicate, project } => {
                assert(path =~= Seq::empty());
            },
            _ => {},
        }
    }
    assert(adds_rows(d));
    let acc = all_missing(demands.len());
    slot_after(t, start, acc, demands, i, n, k, w, ctx.dialect);
    record_ends_well(t, start, demands, n, k, ctx);
    entries_hold_live(demands, demands.len(), n, k);
    let all = entries(demands, demands.len(), n, k);
    let active = live(demands, demands.len(), n, k);
    let r = live(demands, i as nat, n, k).len() as int;
    let env = Env { element: true, may_stop: false, lane: active.len() == all.len() };
    assert(a_node(t, start, rows_asked(active), ctx, 0, env) == Ok::<Walked, Error>(w)) by {
        reveal(record_walk);
        reveal(a_node);
    }
    assert(rows_asked(active)[r] == row_of(d, false));
    element_adds(t, start, rows_asked(active), r, ctx, 0, env, d);
}

/// What records answer a demand.
pub(crate) proof fn frames_add_up(b: Seq<u8>, frames: Seq<ByteRange>, ask: Ask, i: int)
    requires
        forall|k: int| 0 <= k < ask.demands.len() ==> flows(#[trigger] ask.demands[k]),
        0 <= i < ask.demands.len(),
        folds(ask.demands[i]),
        all_walked(b, frames, ask.demands, ask.ctx),
        forall|x: int| 0 <= x < frames.len() ==> frame_fits(b, #[trigger] frames[x], ask.ctx.dialect),
    ensures
        ({
            let d = ask.demands[i];
            frames_marks(b, frames, ask.demands, ask.ctx) matches Ok((marks, issues)) && issues.len() == 0 && marks.len()
                == ask.demands.len() && marks[i] == (if shard_of(d) == Shard::Sum {
                MarkModel::Count(frames.len() as int)
            } else {
                MarkModel::Rows(
                    BatchModel { fields: row_fields(row_shape(d)->0), cells: frame_pieces(b, frames, d, ask.ctx) },
                )
            })
        }),
{
    let d = ask.demands[i];
    let demands = ask.demands;
    assert(!all_whole(demands)) by {
        assert(flows(demands[i]));
        assert(!(demands[i] is Whole));
    }
    let first = StreamOutcome { marks: all_missing(demands.len()), records: 0, issues: Seq::empty() };
    records_add(b, frames, 0, first, demands, i, ask.ctx);
    assert(frames.skip(0) =~= frames);
    let cells = frame_pieces(b, frames, d, ask.ctx);
    assert(Seq::<ColumnCell>::empty() + cells =~= cells);
    assert(flows(d));
    let last = stream_from(b, frames, 0, first, demands, ask.ctx)->Ok_0;
    if shard_of(d) != Shard::Sum {
        assert(slot_of(d, frames.len() as int) is Every);
        assert(every_law(d, row_of(d, false)) == row_shape(d)) by {
            match d {
                DemandModel::Project { path, fields } => {
                    assert(path.len() == 0);
                },
                DemandModel::Filter { path, predicate, project } => {
                    assert(path.len() == 0);
                },
                _ => {},
            }
        }
        assert(final_mark(d, frames.len() as int, last.marks[i], last.records) == MarkModel::Rows(
            rows_so_far(last.marks[i], row_shape(d)->0),
        ));
    }
}

/// The records of a stream that begin in a part.
#[verifier::opaque]
pub(crate) open spec fn held_by(b: Seq<u8>, part: ByteRange, ask: Ask) -> Result<Seq<ByteRange>, Error> {
    part_frames(b, part.start as int, part.end as int, ask.input, ask.ctx.max, ask.ctx.dialect)
}

/// Whether a range is a part of a source, and not all of it.
pub(crate) open spec fn proper_part(b: Seq<u8>, part: ByteRange) -> bool {
    part.start <= part.end <= b.len() && !(part.start == 0 && part.end == b.len())
}

/// Whether parts of a stream hold the records of a list, one behind the other.
pub(crate) open spec fn parts_hold(b: Seq<u8>, parts: Seq<ByteRange>, ask: Ask, frames: Seq<ByteRange>) -> bool
    decreases parts.len(),
{
    if parts.len() == 0 {
        frames.len() == 0
    } else {
        &&& proper_part(b, parts[0])
        &&& held_by(b, parts[0], ask) matches Ok(held) && held.len() <= frames.len() && frames.take(held.len() as int) == held && parts_hold(
            b,
            parts.skip(1),
            ask,
            frames.skip(held.len() as int),
        )
    }
}

/// A part that is read has read its records.
pub(crate) proof fn read_part_is_walked(b: Seq<u8>, part: ByteRange, ask: Ask)
    requires
        ask.input != JsonInput::Text,
        ask.demands.len() > 0,
        forall|k: int| 0 <= k < ask.demands.len() ==> flows(#[trigger] ask.demands[k]),
        proper_part(b, part),
        part_scanned(b, part, ask) is Ok,
    ensures
        held_by(b, part, ask) matches Ok(frames) && all_walked(
            b,
            frames,
            ask.demands,
            ask.ctx,
        ),
{
    reveal(part_scanned);
    reveal(records_answers);
    reveal(held_by);
    let frames = part_frames(b, part.start as int, part.end as int, ask.input, ask.ctx.max, ask.ctx.dialect)->Ok_0;
    let demands = ask.demands;
    assert(!all_whole(demands)) by {
        assert(flows(demands[0]));
        assert(!(demands[0] is Whole));
    }
    let first = StreamOutcome { marks: all_missing(demands.len()), records: 0, issues: Seq::empty() };
    unrefused_is_walked(b, frames, 0, first, demands, ask.ctx);
}

/// A part that is read answers with its records.
proof fn read_part_answers(b: Seq<u8>, part: ByteRange, ask: Ask, held: Seq<ByteRange>, j: int)
    requires
        ask.input != JsonInput::Text,
        forall|k: int| 0 <= k < ask.demands.len() ==> flows(#[trigger] ask.demands[k]),
        0 <= j < ask.demands.len(),
        folds(ask.demands[j]),
        proper_part(b, part),
        part_scanned(b, part, ask) is Ok,
        held_by(b, part, ask) == Ok::<Seq<ByteRange>, Error>(held),
        forall|x: int| 0 <= x < held.len() ==> frame_fits(b, #[trigger] held[x], ask.ctx.dialect),
    ensures
        all_walked(b, held, ask.demands, ask.ctx),
        part_scanned(b, part, ask)->Ok_0.0[j] == frames_answer(b, held, ask.demands[j], ask.ctx),
{
    read_part_is_walked(b, part, ask);
    frames_add_up(b, held, ask, j);
    reveal(part_scanned);
    reveal(records_answers);
    reveal(held_by);
}

proof fn walked_both(b: Seq<u8>, frames: Seq<ByteRange>, n: int, demands: Seq<DemandModel>, ctx: WalkCtx)
    requires
        0 <= n <= frames.len(),
        all_walked(b, frames.take(n), demands, ctx),
        all_walked(b, frames.skip(n), demands, ctx),
    ensures
        all_walked(b, frames, demands, ctx),
{
    assert forall|k: int| 0 <= k < frames.len() implies framed_walk(b, #[trigger] frames[k], demands, 0, 0, ctx) is Ok by {
        if k < n {
            assert(frames.take(n)[k] == frames[k]);
        } else {
            assert(frames.skip(n)[k - n] == frames[k]);
        }
    }
}

proof fn fits_both(b: Seq<u8>, frames: Seq<ByteRange>, n: int, ctx: WalkCtx)
    requires
        0 <= n <= frames.len(),
        forall|x: int| 0 <= x < frames.len() ==> frame_fits(b, #[trigger] frames[x], ctx.dialect),
    ensures
        forall|x: int| 0 <= x < n ==> frame_fits(b, #[trigger] frames.take(n)[x], ctx.dialect),
        forall|x: int| 0 <= x < frames.len() - n ==> frame_fits(b, #[trigger] frames.skip(n)[x], ctx.dialect),
{
    assert forall|x: int| 0 <= x < n implies frame_fits(b, #[trigger] frames.take(n)[x], ctx.dialect) by {
        assert(frames.take(n)[x] == frames[x]);
    }
    assert forall|x: int| 0 <= x < frames.len() - n implies frame_fits(b, #[trigger] frames.skip(n)[x], ctx.dialect) by {
        assert(frames.skip(n)[x] == frames[x + n]);
    }
}

/// What two runs of records answer joins to what both answer.
proof fn frames_join(b: Seq<u8>, frames: Seq<ByteRange>, n: int, d: DemandModel, ctx: WalkCtx)
    requires
        0 <= n <= frames.len(),
    ensures
        joined_answers(frames_answer(b, frames.take(n), d, ctx), frames_answer(b, frames.skip(n), d, ctx)) == Some(
            frames_answer(b, frames, d, ctx),
        ),
{
    frame_pieces_split(b, frames.take(n), frames.skip(n), d, ctx);
    assert(frames.take(n) + frames.skip(n) =~= frames);
}

/// Parts that hold the records of a list fold to what the list answers.
pub(crate) proof fn held_parts_fold(b: Seq<u8>, parts: Seq<ByteRange>, ask: Ask, frames: Seq<ByteRange>, j: int)
    requires
        ask.input != JsonInput::Text,
        forall|k: int| 0 <= k < ask.demands.len() ==> flows(#[trigger] ask.demands[k]),
        0 <= j < ask.demands.len(),
        folds(ask.demands[j]),
        parts.len() > 0,
        parts_hold(b, parts, ask, frames),
        parts_read(b, parts, ask),
        forall|x: int| 0 <= x < frames.len() ==> frame_fits(b, #[trigger] frames[x], ask.ctx.dialect),
    ensures
        all_walked(b, frames, ask.demands, ask.ctx),
        stitched(part_answers(b, parts, ask, j)) == Some(frames_answer(b, frames, ask.demands[j], ask.ctx)),
    decreases parts.len(),
{
    let part = parts[0];
    let d = ask.demands[j];
    let held = held_by(b, part, ask)->Ok_0;
    let n = held.len() as int;
    let rest = frames.skip(n);
    fits_both(b, frames, n, ask.ctx);
    read_part_answers(b, part, ask, held, j);
    let answers = part_answers(b, parts, ask, j);
    let later = parts.skip(1);
    assert(answers.skip(1) =~= part_answers(b, later, ask, j));
    assert(answers[0] == frames_answer(b, held, d, ask.ctx));
    if later.len() == 0 {
        assert(parts_hold(b, later, ask, rest));
        assert(rest.len() == 0);
        assert(frames =~= held);
    } else {
        assert forall|k: int| 0 <= k < later.len() implies part_scanned(b, #[trigger] later[k], ask) is Ok by {
            assert(parts[k + 1] == later[k]);
        }
        held_parts_fold(b, later, ask, rest, j);
        frames_join(b, frames, n, d, ask.ctx);
        walked_both(b, frames, n, ask.demands, ask.ctx);
    }
}

} // verus!
