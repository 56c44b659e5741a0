//! One pass over a stream answers each demand as if it were asked alone.

use vstd::prelude::*;

use crate::demand::DemandModel;
use crate::dialect::Dialect;
use crate::error::Error;
use crate::framing::{
    body_end, body_end_bounds, frame_end, frame_end_bounds, payloads_from, record_start, seq_from, seq_payload, split,
    split_from, text_start, with_range,
};
use crate::laws::alone::nodes_agree;
use crate::laws::ends::{ends_at_reach, node_ends_well, reach};
use crate::laws::local::{copied, trivia_is_local};
use crate::laws::shallow::kind_tells;
use crate::laws::walks::{a_node, node_step};
use crate::lex::skip::{end_at, value_bounds, value_past_trivia};
use crate::lex::stop_sets::{run_end, run_end_facts, JsonSeqFrame};
use crate::lex::ws::{trivia_end, trivia_end_bounds, trivia_end_settles};
use crate::scan::JsonInput;
use crate::stream::{
    all_missing, all_whole, entries, entry_of, folded_mark, folded_slots, frame_text, framed_end, framed_walk,
    frames_of, in_window, live, record_at, record_end, record_walk, rows_asked, slots_after, stream_from,
    stream_marks, whole_from, RowEntry, StreamOutcome,
};
use crate::value::{span, ByteRange};
use crate::walk::marks::{dollar, BatchModel, ColumnCell, MarkModel, Shape};
use crate::walk::model::{flat, kind_at, Env, WalkCtx, Walked};

verus! {

/// Whether a frame lies in its source, and starts with its value when that follows
/// trivia that reads.
pub(crate) open spec fn frame_fits(b: Seq<u8>, frame: ByteRange, dialect: Dialect) -> bool {
    &&& frame.start < frame.end <= b.len()
    &&& trivia_end(frame_text(b, frame), frame.start as int, dialect) matches Ok(p) ==> p == frame.start
}

spec fn frames_fit(b: Seq<u8>, frames: Seq<ByteRange>, dialect: Dialect) -> bool {
    forall|k: int| 0 <= k < frames.len() ==> frame_fits(b, #[trigger] frames[k], dialect)
}

/// A value behind the trivia of a body stands behind that of its text too.
proof fn body_fits(b: Seq<u8>, from: int, to: int, inner: int, dialect: Dialect)
    requires
        0 <= from <= to <= b.len() <= usize::MAX,
        trivia_end(b.subrange(from, to), 0, dialect) == Ok::<int, Error>(inner),
        from + inner < to,
    ensures
        frame_fits(b, span(from + inner, to), dialect),
{
    let body = b.subrange(from, to);
    let text = b.take(to);
    trivia_end_bounds(body, 0, dialect);
    trivia_end_settles(body, 0, dialect);
    assert(copied(body, 0, body.len() as int, text, from));
    trivia_is_local(body, 0, body.len() as int, text, from, inner, dialect);
}

proof fn lines_fit(b: Seq<u8>, pos: int, dialect: Dialect)
    requires
        0 <= pos <= b.len() <= usize::MAX,
    ensures
        payloads_from(b, pos, dialect) matches Ok(frames) ==> frames_fit(b, frames, dialect),
    decreases b.len() - pos,
{
    if pos < b.len() {
        frame_end_bounds(b, pos);
        let frame = frame_end(b, pos);
        let end = body_end(b, pos, frame);
        body_end_bounds(b, pos, frame);
        lines_fit(b, frame, dialect);
        if let Ok(inner) = trivia_end(b.subrange(pos, end), 0, dialect) {
            trivia_end_bounds(b.subrange(pos, end), 0, dialect);
            if pos + inner < end {
                body_fits(b, pos, end, inner, dialect);
            }
        }
    }
}

proof fn texts_fit(b: Seq<u8>, pos: int, max: u32, dialect: Dialect)
    requires
        0 <= pos <= b.len() <= usize::MAX,
    ensures
        seq_from(b, pos, max, dialect, false) matches Ok(frames) ==> frames_fit(b, frames, dialect),
    decreases b.len() - pos,
{
    if pos < b.len() {
        let start = record_start(b, pos);
        run_end_facts::<JsonSeqFrame>(b, start);
        let end = run_end::<JsonSeqFrame>(b, start);
        reveal(seq_payload);
        if pos < end {
            texts_fit(b, end, max, dialect);
        }
        if let Ok(inner) = trivia_end(b.subrange(start, end), 0, dialect) {
            trivia_end_bounds(b.subrange(start, end), 0, dialect);
            if start + inner < end {
                body_fits(b, start, end, inner, dialect);
            }
        }
    }
}

/// A value that follows no trivia in a source follows none in its text.
proof fn value_fits(b: Seq<u8>, pos: int, e: int, dialect: Dialect)
    requires
        0 <= pos < e <= b.len() <= usize::MAX,
        trivia_end(b, pos, dialect) == Ok::<int, Error>(pos),
    ensures
        frame_fits(b, span(pos, e), dialect),
{
    let text = b.take(e);
    assert(copied(b, 0, e, text, 0));
    trivia_is_local(b, 0, e, text, 0, pos, dialect);
}

proof fn values_fit(b: Seq<u8>, pos: int, max: u32, dialect: Dialect)
    requires
        0 <= pos <= b.len() <= usize::MAX,
        trivia_end(b, pos, dialect) == Ok::<int, Error>(pos),
    ensures
        frames_fit(b, split_from(b, pos, max, dialect).0, dialect),
        pos <= split_from(b, pos, max, dialect).1 <= b.len(),
        trivia_end(b, split_from(b, pos, max, dialect).1, dialect) matches Ok(p) ==> p == split_from(b, pos, max, dialect).1,
    decreases b.len() - pos,
{
    if pos < b.len() {
        let ctx = crate::framing::locating(max, dialect);
        value_bounds(b, pos, ctx, 0);
        if let Ok(e) = end_at(value_past_trivia(b, pos, ctx, 0)) {
            value_fits(b, pos, e, dialect);
            trivia_end_bounds(b, e, dialect);
            trivia_end_settles(b, e, dialect);
            if let Ok(next) = trivia_end(b, e, dialect) {
                values_fit(b, next, max, dialect);
                let rest = split_from(b, next, max, dialect).0;
                let all = seq![span(pos, e)] + rest;
                assert forall|k: int| 0 <= k < all.len() implies frame_fits(b, #[trigger] all[k], dialect) by {
                    if k > 0 {
                        assert(all[k] == rest[k - 1]);
                    }
                }
            }
        }
    }
}

/// The frames of a stream fit.
pub(crate) proof fn stream_fits(b: Seq<u8>, input: JsonInput, max: u32, dialect: Dialect)
    requires
        b.len() <= usize::MAX,
    ensures
        frames_of(b, input, max, dialect) matches Ok(frames) ==> forall|k: int|
            0 <= k < frames.len() ==> frame_fits(b, #[trigger] frames[k], dialect),
{
    match input {
        JsonInput::Ndjson => lines_fit(b, 0, dialect),
        JsonInput::JsonSeq => texts_fit(b, 0, max, dialect),
        _ => {
            let (ranges, tail) = split(b, max, dialect);
            let len = b.len() as int;
            assert(b.take(len) =~= b);
            match trivia_end(b, text_start(b), dialect) {
                Err(_) => {
                    if text_start(b) == 0 {
                        assert(trivia_end(b, 0, dialect) is Err);
                    }
                },
                Ok(pos) => {
                    trivia_end_bounds(b, text_start(b), dialect);
                    trivia_end_settles(b, text_start(b), dialect);
                    values_fit(b, pos, max, dialect);
                },
            }
            let frames = with_range(ranges, tail, len);
            assert forall|k: int| 0 <= k < frames.len() implies frame_fits(b, #[trigger] frames[k], dialect) by {
                if k < ranges.len() {
                    assert(frames[k] == ranges[k]);
                } else {
                    tail_fits(b, tail, max, dialect);
                }
            }
        },
    }
}

/// What is left of a run of values starts where reading it stopped.
proof fn tail_fits(b: Seq<u8>, tail: int, max: u32, dialect: Dialect)
    requires
        b.len() <= usize::MAX,
        split(b, max, dialect).1 == tail,
        tail < b.len(),
    ensures
        frame_fits(b, span(tail, b.len() as int), dialect),
{
    assert(b.take(b.len() as int) =~= b);
    trivia_end_bounds(b, text_start(b), dialect);
    trivia_end_settles(b, text_start(b), dialect);
    match trivia_end(b, text_start(b), dialect) {
        Ok(pos) => values_fit(b, pos, max, dialect),
        Err(_) => {
            if text_start(b) == 3 {
                crate::lex::ws::trivia_end_here(b, 0, dialect);
            }
        },
    }
}

/// Where a demand's entry stands among the live ones of a record.
proof fn live_at(demands: Seq<DemandModel>, m: nat, n: int, k: int, i: int)
    requires
        0 <= i < m <= demands.len(),
    ensures
        forall|r: int| 0 <= r < live(demands, m, n, k).len() ==> 0 <= (#[trigger] live(demands, m, n, k)[r]).owner < m,
        entry_of(demands[i], i, n, k) matches Some(e) ==> (in_window(demands[i], n, k) ==> live(demands, i as nat, n, k).len()
            < live(demands, m, n, k).len() && live(demands, m, n, k)[live(demands, i as nat, n, k).len() as int] == e),
        forall|r: int|
            0 <= r < live(demands, m, n, k).len() && (#[trigger] live(demands, m, n, k)[r]).owner == i ==> entry_of(
                demands[i],
                i,
                n,
                k,
            ) is Some && in_window(demands[i], n, k) && r == live(demands, i as nat, n, k).len(),
    decreases m,
{
    live_owners(demands, m, n, k);
    if i < m - 1 {
        live_at(demands, (m - 1) as nat, n, k, i);
    } else {
        live_owners(demands, (m - 1) as nat, n, k);
    }
}

proof fn live_owners(demands: Seq<DemandModel>, m: nat, n: int, k: int)
    requires
        m <= demands.len(),
    ensures
        forall|r: int| 0 <= r < live(demands, m, n, k).len() ==> 0 <= (#[trigger] live(demands, m, n, k)[r]).owner < m,
    decreases m,
{
    if m > 0 {
        live_owners(demands, (m - 1) as nat, n, k);
    }
}

/// A slot takes the answer of its own entry alone.
proof fn slot_takes(
    acc: Seq<MarkModel>,
    active: Seq<RowEntry>,
    marks: Seq<MarkModel>,
    m: nat,
    record: ByteRange,
    i: int,
    r: int,
)
    requires
        0 <= i < acc.len(),
        m <= active.len(),
        forall|q: int| 0 <= q < active.len() ==> 0 <= (#[trigger] active[q]).owner < acc.len(),
        forall|q: int| 0 <= q < active.len() && (#[trigger] active[q]).owner == i ==> q == r,
        0 <= r < active.len() ==> active[r].owner == i,
    ensures
        folded_slots(acc, active, marks, m, record).len() == acc.len(),
        folded_slots(acc, active, marks, m, record)[i] == (if 0 <= r < m {
            folded_mark(acc[i], active[r].law, marks[r], record)
        } else {
            acc[i]
        }),
    decreases m,
{
    if m > 0 {
        slot_takes(acc, active, marks, (m - 1) as nat, record, i, r);
        assert(0 <= active[m - 1].owner < acc.len());
    }
}

/// A record's walk ends where its value does.
pub(crate) proof fn record_ends_well(t: Seq<u8>, start: int, demands: Seq<DemandModel>, n: int, k: int, ctx: WalkCtx)
    requires
        0 <= start <= t.len(),
    ensures
        record_walk(t, start, demands, n, k, ctx) matches Ok(w) ==> (trivia_end(t, start, ctx.dialect) matches Ok(p) && reach(
            t,
            p,
            ctx,
        ) == Ok::<int, Error>(w.end)),
        record_end(t, start, ctx) matches Ok(e) ==> (trivia_end(t, start, ctx.dialect) matches Ok(p) && reach(t, p, ctx)
            == Ok::<int, Error>(e)),
{
    reveal(record_walk);
    reveal(record_end);
    reveal(a_node);
    trivia_end_bounds(t, start, ctx.dialect);
    if let Ok(p) = trivia_end(t, start, ctx.dialect) {
        ends_at_reach(t, p, ctx.unread(), ctx, 0);
    }
    let all = entries(demands, demands.len(), n, k);
    let active = live(demands, demands.len(), n, k);
    let env = Env { element: true, may_stop: false, lane: active.len() == all.len() };
    node_ends_well(t, start, rows_asked(active), ctx, 0, env);
}

/// Whether the answer of a demand rests on record `k` of `n`: it reads the record, or counts
/// the records.
pub open spec fn uses_record(d: DemandModel, n: int, k: int) -> bool {
    reads(d, n, k) || counts_records(d)
}

/// Whether a demand on a stream counts its records.
pub open spec fn counts_records(d: DemandModel) -> bool {
    d matches DemandModel::Oracle(o) && (o is Count || o is DescendCount || o is MemberCount)
}

/// Whether a demand reads record `k` of `n`.
pub open spec fn reads(d: DemandModel, n: int, k: int) -> bool {
    entry_of(d, 0, n, k) is Some && in_window(d, n, k)
}

/// The slot of one demand after a record.
pub(crate) proof fn slot_after(
    t: Seq<u8>,
    start: int,
    acc: Seq<MarkModel>,
    demands: Seq<DemandModel>,
    i: int,
    n: int,
    k: int,
    w: Walked,
    dialect: Dialect,
)
    requires
        0 <= i < demands.len(),
        acc.len() == demands.len(),
    ensures
        slots_after(t, start, acc, demands, n, k, w, dialect).len() == acc.len(),
        !reads(demands[i], n, k) ==> slots_after(t, start, acc, demands, n, k, w, dialect)[i] == acc[i],
        reads(demands[i], n, k) ==> ({
            let r = live(demands, i as nat, n, k).len() as int;
            let e = entry_of(demands[i], i, n, k)->0;
            &&& 0 <= r < live(demands, demands.len(), n, k).len()
            &&& live(demands, demands.len(), n, k)[r] == e
            &&& slots_after(t, start, acc, demands, n, k, w, dialect)[i] == folded_mark(
                acc[i],
                e.law,
                w.marks[r],
                span(record_at(t, start, dialect), w.end),
            )
        }),
{
    reveal(slots_after);
    let active = live(demands, demands.len(), n, k);
    let r = live(demands, i as nat, n, k).len() as int;
    live_at(demands, demands.len(), n, k, i);
    let at = span(record_at(t, start, dialect), w.end);
    if reads(demands[i], n, k) {
        entries_hold_live(demands, demands.len(), n, k);
        slot_takes(acc, active, w.marks, active.len(), at, i, r);
    } else {
        slot_takes(acc, active, w.marks, active.len(), at, i, -1);
    }
}

pub(crate) proof fn entries_hold_live(demands: Seq<DemandModel>, m: nat, n: int, k: int)
    requires
        m <= demands.len(),
    ensures
        live(demands, m, n, k).len() <= entries(demands, m, n, k).len(),
    decreases m,
{
    if m > 0 {
        entries_hold_live(demands, (m - 1) as nat, n, k);
    }
}

/// What one demand alone asks of a record.
pub(crate) proof fn lone_record(d: DemandModel, n: int, k: int)
    requires
        reads(d, n, k),
    ensures
        live(seq![d], 1, n, k) == seq![entry_of(d, 0, n, k)->0],
        entries(seq![d], 1, n, k) == seq![entry_of(d, 0, n, k)->0],
        live(seq![d], 0, n, k).len() == 0,
{
    let one = seq![d];
    reveal_with_fuel(live, 2);
    reveal_with_fuel(entries, 2);
    assert(live(one, 1, n, k) =~= seq![entry_of(d, 0, n, k)->0]);
    assert(entries(one, 1, n, k) =~= seq![entry_of(d, 0, n, k)->0]);
}

/// Two walks of a record leave the slot of a shared demand alike.
pub(crate) proof fn records_agree(
    t: Seq<u8>,
    start: int,
    acc: Seq<MarkModel>,
    own: Seq<MarkModel>,
    demands: Seq<DemandModel>,
    i: int,
    n: int,
    k: int,
    ctx: WalkCtx,
)
    requires
        0 <= i < demands.len(),
        acc.len() == demands.len(),
        own.len() == 1,
        acc[i] == own[0],
        0 <= start <= t.len(),
        record_walk(t, start, demands, n, k, ctx) is Ok,
        record_walk(t, start, seq![demands[i]], n, k, ctx) is Ok,
    ensures
        ({
            let lone = seq![demands[i]];
            let w = record_walk(t, start, demands, n, k, ctx)->Ok_0;
            let x = record_walk(t, start, lone, n, k, ctx)->Ok_0;
            let next = slots_after(t, start, acc, demands, n, k, w, ctx.dialect);
            let then = slots_after(t, start, own, lone, n, k, x, ctx.dialect);
            next.len() == demands.len() && then.len() == 1 && next[i] == then[0]
        }),
{
    let d = demands[i];
    let lone = seq![d];
    let w = record_walk(t, start, demands, n, k, ctx)->Ok_0;
    let x = record_walk(t, start, lone, n, k, ctx)->Ok_0;
    record_ends_well(t, start, demands, n, k, ctx);
    record_ends_well(t, start, lone, n, k, ctx);
    slot_after(t, start, acc, demands, i, n, k, w, ctx.dialect);
    slot_after(t, start, own, lone, 0, n, k, x, ctx.dialect);
    if reads(d, n, k) {
        lone_record(d, n, k);
        reveal(record_walk);
        reveal(a_node);
        let all = entries(demands, demands.len(), n, k);
        let active = live(demands, demands.len(), n, k);
        let r = live(demands, i as nat, n, k).len() as int;
        entries_hold_live(demands, demands.len(), n, k);
        let env = Env { element: true, may_stop: false, lane: active.len() == all.len() };
        let other = Env { element: true, may_stop: false, lane: true };
        let row = entry_of(d, 0, n, k)->0.row;
        assert(rows_asked(seq![entry_of(d, 0, n, k)->0]) =~= seq![row]);
        assert(rows_asked(active)[r] == row);
        node_ends_well(t, start, seq![row], ctx, 0, other);
        nodes_agree(t, start, rows_asked(active), r, seq![row], 0, ctx, 0, 0, env, other);
    }
}

/// Two passes over a stream agree on a demand that they share.
proof fn streams_agree(
    b: Seq<u8>,
    frames: Seq<ByteRange>,
    k: int,
    st: StreamOutcome,
    own: StreamOutcome,
    demands: Seq<DemandModel>,
    i: int,
    ctx: WalkCtx,
)
    requires
        0 <= i < demands.len(),
        0 <= k,
        forall|q: int| 0 <= q < frames.len() ==> frame_fits(b, #[trigger] frames[q], ctx.dialect),
        st.marks.len() == demands.len(),
        own.marks.len() == 1,
        st.marks[i] == own.marks[0],
        st.records == own.records,
        st.issues.len() == 0,
        own.issues.len() == 0,
        stream_from(b, frames, k, st, demands, ctx) is Ok,
        stream_from(b, frames, k, own, seq![demands[i]], ctx) is Ok,
        uses_record(demands[i], frames.len() as int, frames.len() - 1) ==> (stream_from(b, frames, k, st, demands, ctx)->Ok_0.issues.len()
            == 0) == (stream_from(b, frames, k, own, seq![demands[i]], ctx)->Ok_0.issues.len() == 0),
    ensures
        ({
            let last = stream_from(b, frames, k, st, demands, ctx)->Ok_0;
            let done = stream_from(b, frames, k, own, seq![demands[i]], ctx)->Ok_0;
            last.marks[i] == done.marks[0] && (counts_records(demands[i]) ==> last.records == done.records)
        }),
    decreases frames.len() - k,
{
    if k < frames.len() {
        let n = frames.len() as int;
        let lone = seq![demands[i]];
        let t = frame_text(b, frames[k]);
        let start = frames[k].start as int;
        assert(frame_fits(b, frames[k], ctx.dialect));
        let w = framed_walk(b, frames[k], demands, n, k, ctx);
        let x = framed_walk(b, frames[k], lone, n, k, ctx);
        if w is Ok && x is Ok {
            records_agree(t, start, st.marks, own.marks, demands, i, n, k, ctx);
            let next = StreamOutcome {
                marks: slots_after(t, start, st.marks, demands, n, k, w->Ok_0, ctx.dialect),
                records: st.records + 1,
                issues: st.issues,
            };
            let then = StreamOutcome {
                marks: slots_after(t, start, own.marks, lone, n, k, x->Ok_0, ctx.dialect),
                records: own.records + 1,
                issues: own.issues,
            };
            streams_agree(b, frames, k + 1, next, then, demands, i, ctx);
        } else if w is Ok || x is Ok {
            assert(k + 1 == frames.len());
            if w is Ok {
                let next = StreamOutcome {
                    marks: slots_after(t, start, st.marks, demands, n, k, w->Ok_0, ctx.dialect),
                    records: st.records + 1,
                    issues: st.issues,
                };
                assert(stream_from(b, frames, k + 1, next, demands, ctx) == Ok::<StreamOutcome, Error>(next));
                slot_after(t, start, st.marks, demands, i, n, k, w->Ok_0, ctx.dialect);
            } else {
                slot_after(t, start, own.marks, lone, 0, n, k, x->Ok_0, ctx.dialect);
                let then = StreamOutcome {
                    marks: slots_after(t, start, own.marks, lone, n, k, x->Ok_0, ctx.dialect),
                    records: own.records + 1,
                    issues: own.issues,
                };
                assert(stream_from(b, frames, k + 1, then, lone, ctx) == Ok::<StreamOutcome, Error>(then));
            }
        }
    }
}

/// The slot of a demand for whole values: the cells so far.
spec fn whole_slot(mark: MarkModel, cells: Seq<ColumnCell>) -> bool {
    (mark is Missing && cells.len() == 0) || mark == MarkModel::Rows(BatchModel { fields: dollar(), cells })
}

/// One more record of a demand for whole values.
proof fn whole_record(
    b: Seq<u8>,
    frame: ByteRange,
    acc: Seq<MarkModel>,
    demands: Seq<DemandModel>,
    i: int,
    n: int,
    k: int,
    ctx: WalkCtx,
    cells: Seq<ColumnCell>,
)
    requires
        0 <= i < demands.len(),
        demands[i] is Whole,
        acc.len() == demands.len(),
        frame_fits(b, frame, ctx.dialect),
        whole_slot(acc[i], cells),
        framed_walk(b, frame, demands, n, k, ctx) is Ok,
        framed_end(b, frame, ctx) is Ok,
    ensures
        ({
            let t = frame_text(b, frame);
            let w = framed_walk(b, frame, demands, n, k, ctx)->Ok_0;
            let next = slots_after(t, frame.start as int, acc, demands, n, k, w, ctx.dialect);
            next.len() == demands.len() && whole_slot(
                next[i],
                cells.push(ColumnCell::Span(span(frame.start as int, framed_end(b, frame, ctx)->Ok_0))),
            )
        }),
{
    let t = frame_text(b, frame);
    let start = frame.start as int;
    let w = framed_walk(b, frame, demands, n, k, ctx)->Ok_0;
    let e = framed_end(b, frame, ctx)->Ok_0;
    record_ends_well(t, start, demands, n, k, ctx);
    slot_after(t, start, acc, demands, i, n, k, w, ctx.dialect);
    assert(w.end == e);
    let d = demands[i];
    let entry = entry_of(d, i, n, k)->0;
    assert(entry.row == DemandModel::Whole && entry.law == Some(Shape::Whole));
    assert(reads(d, n, k));
    reveal(record_walk);
    reveal(a_node);
    let all = entries(demands, demands.len(), n, k);
    let active = live(demands, demands.len(), n, k);
    let r = live(demands, i as nat, n, k).len() as int;
    entries_hold_live(demands, demands.len(), n, k);
    let env = Env { element: true, may_stop: false, lane: active.len() == all.len() };
    let asked = rows_asked(active);
    assert(asked[r] == DemandModel::Whole);
    node_ends_well(t, start, asked, ctx, 0, env);
    node_step(t, start, asked, ctx, 0, env);
    let kind = kind_at(t[start], ctx.dialect)->0;
    assert(flat(asked)[r] == DemandModel::Whole);
    kind_tells(t, start, kind, flat(asked), r, ctx, 0, env);
    assert(w.marks[r] == MarkModel::Span(span(start, e)));
    assert(cells + seq![ColumnCell::Span(span(start, e))] =~= cells.push(ColumnCell::Span(span(start, e))));
    assert(Seq::<ColumnCell>::empty() + seq![ColumnCell::Span(span(start, e))] =~= Seq::<ColumnCell>::empty().push(
        ColumnCell::Span(span(start, e)),
    ));
    if cells.len() == 0 {
        assert(cells =~= Seq::empty());
    }
}

/// A pass over a stream and a pass for whole values alone agree on the whole values.
proof fn wholes_agree(
    b: Seq<u8>,
    frames: Seq<ByteRange>,
    k: int,
    st: StreamOutcome,
    cells: Seq<ColumnCell>,
    demands: Seq<DemandModel>,
    i: int,
    ctx: WalkCtx,
)
    requires
        0 <= i < demands.len(),
        demands[i] is Whole,
        0 <= k,
        forall|q: int| 0 <= q < frames.len() ==> frame_fits(b, #[trigger] frames[q], ctx.dialect),
        st.marks.len() == demands.len(),
        st.issues.len() == 0,
        whole_slot(st.marks[i], cells),
        stream_from(b, frames, k, st, demands, ctx) is Ok,
        whole_from(b, frames, k, cells, ctx) is Ok,
        (stream_from(b, frames, k, st, demands, ctx)->Ok_0.issues.len() == 0) == (whole_from(b, frames, k, cells, ctx)->Ok_0.1.len()
            == 0),
    ensures
        whole_slot(stream_from(b, frames, k, st, demands, ctx)->Ok_0.marks[i], whole_from(b, frames, k, cells, ctx)->Ok_0.0),
    decreases frames.len() - k,
{
    if k < frames.len() {
        let n = frames.len() as int;
        let t = frame_text(b, frames[k]);
        let start = frames[k].start as int;
        assert(frame_fits(b, frames[k], ctx.dialect));
        let w = framed_walk(b, frames[k], demands, n, k, ctx);
        let x = framed_end(b, frames[k], ctx);
        if w is Ok && x is Ok {
            whole_record(b, frames[k], st.marks, demands, i, n, k, ctx, cells);
            let next = StreamOutcome {
                marks: slots_after(t, start, st.marks, demands, n, k, w->Ok_0, ctx.dialect),
                records: st.records + 1,
                issues: st.issues,
            };
            let more = cells.push(ColumnCell::Span(span(start, x->Ok_0)));
            wholes_agree(b, frames, k + 1, next, more, demands, i, ctx);
        } else if w is Ok || x is Ok {
            assert(k + 1 == frames.len());
            if w is Ok {
                let next = StreamOutcome {
                    marks: slots_after(t, start, st.marks, demands, n, k, w->Ok_0, ctx.dialect),
                    records: st.records + 1,
                    issues: st.issues,
                };
                assert(stream_from(b, frames, k + 1, next, demands, ctx) == Ok::<StreamOutcome, Error>(next));
            } else {
                let more = cells.push(ColumnCell::Span(span(start, x->Ok_0)));
                assert(whole_from(b, frames, k + 1, more, ctx)->Ok_0.1.len() == 0);
            }
        }
    }
}

/// One pass over a stream gives each demand the mark that it gets alone, where both passes
/// read the last record or both refuse it, if the demand rests on it.
pub(crate) proof fn stream_marks_agree(b: Seq<u8>, input: JsonInput, demands: Seq<DemandModel>, i: int, ctx: WalkCtx)
    requires
        b.len() <= usize::MAX,
        0 <= i < demands.len(),
        stream_marks(b, input, demands, ctx) is Ok,
        stream_marks(b, input, seq![demands[i]], ctx) is Ok,
        frames_of(b, input, ctx.max, ctx.dialect) matches Ok(frames) ==> (uses_record(
            demands[i],
            frames.len() as int,
            frames.len() - 1,
        ) ==> (stream_marks(b, input, demands, ctx)->Ok_0.1.len() == 0) == (stream_marks(b, input, seq![demands[i]], ctx)->Ok_0.1.len()
            == 0)),
    ensures
        stream_marks(b, input, demands, ctx)->Ok_0.0.len() == demands.len(),
        stream_marks(b, input, seq![demands[i]], ctx)->Ok_0.0.len() == 1,
        stream_marks(b, input, demands, ctx)->Ok_0.0[i] == stream_marks(b, input, seq![demands[i]], ctx)->Ok_0.0[0],
{
    let lone = seq![demands[i]];
    let frames = frames_of(b, input, ctx.max, ctx.dialect)->Ok_0;
    stream_fits(b, input, ctx.max, ctx.dialect);
    if all_whole(demands) {
        assert(demands[i] is Whole);
        assert(all_whole(lone));
    } else {
        let first = StreamOutcome { marks: all_missing(demands.len()), records: 0, issues: Seq::empty() };
        if demands[i] is Whole {
            assert(all_whole(lone));
            wholes_agree(b, frames, 0, first, Seq::empty(), demands, i, ctx);
            let cells = whole_from(b, frames, 0, Seq::empty(), ctx)->Ok_0.0;
            if cells.len() == 0 {
                assert(cells =~= Seq::empty());
            }
        } else {
            assert(!all_whole(lone)) by {
                assert(!(lone[0] is Whole));
            }
            let own = StreamOutcome { marks: all_missing(1), records: 0, issues: Seq::empty() };
            streams_agree(b, frames, 0, first, own, demands, i, ctx);
        }
    }
}

} // verus!
