//! The parts of a stream hold its records, one behind the other.

use vstd::prelude::*;

use crate::ascii::{LBRACE, LBRACKET, RBRACE, RBRACKET};
use crate::dialect::Dialect;
use crate::error::Error;
use crate::framing::{
    adjacent, at_least_one, body_end, frame_end, frame_end_bounds, locating, ndjson_runs, packed, packed_values, payload_range,
    payloads_from, record_start, seq_from, seq_payload, split, split_from, text_start, values_from, with_range,
};
use crate::laws::ends::reach;
use crate::laws::flows::{flows, held_by, parts_hold, proper_part, read_part_is_walked};
use crate::laws::folds::parts_read;
use crate::laws::paths::skip_at_lower_depth;
use crate::laws::records::record_ends_well;
use crate::lex::skip::{
    end_at, items, member_value_at, member_value_at_bounds, members, next_at, next_at_bounds, value, value_bounds,
    value_past_trivia, Ctx, NextAt, MAX_NESTING,
};
use crate::lex::stop_sets::{run_end, run_end_facts, run_end_is, JsonSeqFrame, StopSet, Ws};
use crate::lex::ws::{trivia_end, trivia_end_bounds, trivia_end_settles};
use crate::scan::{Ask, JsonInput};
use crate::shard::frames::{lines_before, texts_before, values_before};
use crate::shard::plan::part_scanned;
use crate::stream::framed_walk;
use crate::value::{span, ByteRange};
use crate::walk::model::WalkCtx;

verus! {

/// Whether a frame of lines ends at `e`, from `s` on.
pub(crate) open spec fn lines_reach(b: Seq<u8>, s: int, e: int) -> bool
    decreases b.len() - s,
{
    s == e || (0 <= s < b.len() && s < frame_end(b, s) <= e && lines_reach(b, frame_end(b, s), e))
}

proof fn lines_reach_on(b: Seq<u8>, s: int, pos: int)
    requires
        0 <= s <= pos < b.len(),
        lines_reach(b, s, pos),
    ensures
        lines_reach(b, s, frame_end(b, pos)),
    decreases b.len() - s,
{
    frame_end_bounds(b, pos);
    if s < pos {
        lines_reach_on(b, frame_end(b, s), pos);
    } else {
        assert(lines_reach(b, frame_end(b, pos), frame_end(b, pos)));
    }
}

/// The lines up to a line's end, and from there on, are all of them.
proof fn lines_split(b: Seq<u8>, s: int, e: int, dialect: Dialect)
    requires
        0 <= s <= e <= b.len(),
        lines_reach(b, s, e),
        payloads_from(b, s, dialect) is Ok,
    ensures
        lines_before(b, s, e, dialect) is Ok,
        payloads_from(b, e, dialect) is Ok,
        payloads_from(b, s, dialect)->Ok_0 == lines_before(b, s, e, dialect)->Ok_0 + payloads_from(b, e, dialect)->Ok_0,
    decreases b.len() - s,
{
    let all = payloads_from(b, s, dialect)->Ok_0;
    if s < e {
        let frame = frame_end(b, s);
        lines_split(b, frame, e, dialect);
        let close = body_end(b, s, frame);
        let inner = trivia_end(b.subrange(s, close), 0, dialect)->Ok_0;
        let head = with_range(Seq::empty(), s + inner, close);
        let mid = lines_before(b, frame, e, dialect)->Ok_0;
        let rest = payloads_from(b, e, dialect)->Ok_0;
        assert(head + (mid + rest) =~= (head + mid) + rest);
    } else {
        assert(Seq::<ByteRange>::empty() + all =~= all);
    }
}

/// One more part in front of parts that hold the rest.
proof fn one_part_more(b: Seq<u8>, part: ByteRange, rest: Seq<ByteRange>, ask: Ask, held: Seq<ByteRange>, later: Seq<ByteRange>)
    requires
        proper_part(b, part),
        held_by(b, part, ask) == Ok::<Seq<ByteRange>, Error>(held),
        parts_hold(b, rest, ask, later),
    ensures
        parts_hold(b, seq![part] + rest, ask, held + later),
{
    let parts = seq![part] + rest;
    let frames = held + later;
    assert(parts.skip(1) =~= rest);
    assert(frames.take(held.len() as int) =~= held);
    assert(frames.skip(held.len() as int) =~= later);
}

proof fn lines_are_held(b: Seq<u8>, s: int, e: int, ask: Ask)
    requires
        ask.input == JsonInput::Ndjson,
        0 <= s <= e <= b.len() <= usize::MAX,
        lines_reach(b, s, e),
        payloads_from(b, s, ask.ctx.dialect) is Ok,
    ensures
        held_by(b, span(s, e), ask) is Ok,
        payloads_from(b, e, ask.ctx.dialect) is Ok,
        payloads_from(b, s, ask.ctx.dialect)->Ok_0 == held_by(b, span(s, e), ask)->Ok_0 + payloads_from(b, e, ask.ctx.dialect)->Ok_0,
{
    reveal(held_by);
    lines_split(b, s, e, ask.ctx.dialect);
}

/// The parts of a source of lines hold its lines.
pub(crate) proof fn line_parts_hold(b: Seq<u8>, start: int, pos: int, target: int, ask: Ask)
    requires
        ask.input == JsonInput::Ndjson,
        0 <= start <= pos <= b.len() <= usize::MAX,
        lines_reach(b, start, pos),
        payloads_from(b, start, ask.ctx.dialect) is Ok,
        start == 0 ==> ndjson_runs(b, start, pos, target).len() > 1,
    ensures
        parts_hold(b, ndjson_runs(b, start, pos, target), ask, payloads_from(b, start, ask.ctx.dialect)->Ok_0),
    decreases b.len() - pos,
{
    frame_end_bounds(b, pos);
    if pos < b.len() {
        let e = frame_end(b, pos);
        lines_reach_on(b, start, pos);
        if e - start >= target && e < b.len() {
            lines_are_held(b, start, e, ask);
            line_parts_hold(b, e, e, target, ask);
            one_part_more(
                b,
                span(start, e),
                ndjson_runs(b, e, e, target),
                ask,
                held_by(b, span(start, e), ask)->Ok_0,
                payloads_from(b, e, ask.ctx.dialect)->Ok_0,
            );
        } else {
            line_parts_hold(b, start, e, target, ask);
        }
    } else if start < b.len() {
        let len = b.len() as int;
        lines_are_held(b, start, len, ask);
        let none = Seq::<ByteRange>::empty();
        assert(payloads_from(b, len, ask.ctx.dialect)->Ok_0 =~= none);
        assert(parts_hold(b, none, ask, none));
        one_part_more(b, span(start, len), none, ask, held_by(b, span(start, len), ask)->Ok_0, none);
        assert(seq![span(start, len)] + none =~= seq![span(start, len)]);
    } else {
        assert(payloads_from(b, start, ask.ctx.dialect)->Ok_0 =~= Seq::empty());
    }
}

/// A record without a value that is located has none.
proof fn payload_pair(b: Seq<u8>, start: int, close: int, max: u32, other: u32, dialect: Dialect)
    requires
        0 <= start <= close <= b.len() <= usize::MAX,
    ensures
        seq_payload(b, start, close, max, dialect, true) matches Ok(Some((s, e))) ==> start <= s < e <= close && seq_payload(
            b,
            start,
            close,
            other,
            dialect,
            false,
        ) == Ok::<Option<(int, int)>, Error>(Some((s, close))),
        seq_payload(b, start, close, max, dialect, true) matches Ok(None) ==> seq_payload(b, start, close, other, dialect, false)
            == Ok::<Option<(int, int)>, Error>(None),
{
    reveal(seq_payload);
    let text = b.take(close);
    trivia_end_bounds(b.subrange(start, close), 0, dialect);
    if let Ok(inner) = trivia_end(b.subrange(start, close), 0, dialect) {
        trivia_end_bounds(text, start + inner, dialect);
        if let Ok(p) = trivia_end(text, start + inner, dialect) {
            value_bounds(text, p, locating(max, dialect), 0);
        }
    }
}

/// Located records and whole ones go together.
pub(crate) proof fn records_pair(b: Seq<u8>, pos: int, max: u32, other: u32, dialect: Dialect)
    requires
        0 <= pos <= b.len() <= usize::MAX,
        seq_from(b, pos, max, dialect, true) is Ok,
    ensures
        seq_from(b, pos, other, dialect, false) is Ok,
        ({
            let values = seq_from(b, pos, max, dialect, true)->Ok_0;
            let frames = seq_from(b, pos, other, dialect, false)->Ok_0;
            &&& values.len() == frames.len()
            &&& forall|k: int|
                0 <= k < values.len() ==> pos <= (#[trigger] values[k]).start == frames[k].start && values[k].start < values[k].end
                    <= frames[k].end <= b.len()
            &&& forall|k: int, l: int| 0 <= k < l < values.len() ==> (#[trigger] values[k]).end <= (#[trigger] values[l]).start
        }),
    decreases b.len() - pos,
{
    if pos < b.len() {
        let start = record_start(b, pos);
        run_end_facts::<JsonSeqFrame>(b, start);
        let close = run_end::<JsonSeqFrame>(b, start);
        payload_pair(b, start, close, max, other, dialect);
        if start == pos {
            assert(!JsonSeqFrame::stops(b[pos]));
        }
        records_pair(b, close, max, other, dialect);
        let head = payload_range(seq_payload(b, start, close, max, dialect, true)->Ok_0);
        let rest = seq_from(b, close, max, dialect, true)->Ok_0;
        let first = payload_range(seq_payload(b, start, close, other, dialect, false)->Ok_0);
        let more = seq_from(b, close, other, dialect, false)->Ok_0;
        let values = head + rest;
        let frames = first + more;
        assert(head.len() == first.len());
        assert forall|k: int| 0 <= k < values.len() implies pos <= (#[trigger] values[k]).start == frames[k].start && values[k].start
            < values[k].end <= frames[k].end <= b.len() by {
            if k >= head.len() {
                assert(values[k] == rest[k - head.len()]);
                assert(frames[k] == more[k - head.len()]);
            }
        }
        assert forall|k: int, l: int| 0 <= k < l < values.len() implies (#[trigger] values[k]).end <= (#[trigger] values[l]).start by {
            assert(values[l] == rest[l - head.len()]);
            if k >= head.len() {
                assert(values[k] == rest[k - head.len()]);
            }
        }
    }
}

/// Records from where a value of one begins are those from the record on.
proof fn record_from_value(b: Seq<u8>, pos: int, s: int, close: int, end: int, max: u32)
    requires
        0 <= pos < b.len() <= usize::MAX,
        close == run_end::<JsonSeqFrame>(b, record_start(b, pos)),
        seq_payload(b, record_start(b, pos), close, max, Dialect::Rfc8259, false) == Ok::<Option<(int, int)>, Error>(Some((s, close))),
        s < end,
        pos < end,
    ensures
        texts_before(b, s, end, max, Dialect::Rfc8259) == texts_before(b, pos, end, max, Dialect::Rfc8259),
{
    let start = record_start(b, pos);
    run_end_facts::<JsonSeqFrame>(b, start);
    reveal(seq_payload);
    let record = b.subrange(start, close);
    trivia_end_bounds(record, 0, Dialect::Rfc8259);
    let inner = trivia_end(record, 0, Dialect::Rfc8259)->Ok_0;
    assert(s == start + inner && inner < close - start);
    assert(!JsonSeqFrame::stops(b[s]));
    assert(record_start(b, s) == s);
    run_end_is::<JsonSeqFrame>(b, s, close);
    let rest = b.subrange(s, close);
    assert(rest[0] == record[inner]);
    run_end_is::<Ws>(rest, 0, 0);
    assert(trivia_end(rest, 0, Dialect::Rfc8259) == Ok::<int, Error>(0));
}

/// The records up to the end of a value are those up to the value's.
proof fn texts_up_to(b: Seq<u8>, pos: int, k: int, max: u32, located: u32)
    requires
        0 <= pos <= b.len() <= usize::MAX,
        seq_from(b, pos, located, Dialect::Rfc8259, true) is Ok,
        0 <= k < seq_from(b, pos, located, Dialect::Rfc8259, true)->Ok_0.len(),
    ensures
        texts_before(b, pos, seq_from(b, pos, located, Dialect::Rfc8259, true)->Ok_0[k].end as int, max, Dialect::Rfc8259) == Ok::<
            Seq<ByteRange>,
            Error,
        >(seq_from(b, pos, max, Dialect::Rfc8259, false)->Ok_0.take(k + 1)),
    decreases b.len() - pos,
{
    let dialect = Dialect::Rfc8259;
    records_pair(b, pos, located, max, dialect);
    let start = record_start(b, pos);
    run_end_facts::<JsonSeqFrame>(b, start);
    let close = run_end::<JsonSeqFrame>(b, start);
    payload_pair(b, start, close, located, max, dialect);
    if start == pos {
        assert(!JsonSeqFrame::stops(b[pos]));
    }
    records_pair(b, close, located, max, dialect);
    let values = seq_from(b, pos, located, dialect, true)->Ok_0;
    let frames = seq_from(b, pos, max, dialect, false)->Ok_0;
    let head = payload_range(seq_payload(b, start, close, located, dialect, true)->Ok_0);
    let first = payload_range(seq_payload(b, start, close, max, dialect, false)->Ok_0);
    let rest = seq_from(b, close, located, dialect, true)->Ok_0;
    let more = seq_from(b, close, max, dialect, false)->Ok_0;
    let end = values[k].end as int;
    assert(values == head + rest);
    assert(frames == first + more);
    if k < head.len() {
        assert(texts_before(b, close, end, max, dialect) == Ok::<Seq<ByteRange>, Error>(Seq::empty()));
        assert(first + Seq::<ByteRange>::empty() =~= frames.take(k + 1));
    } else {
        assert(values[k] == rest[k - head.len()]);
        texts_up_to(b, close, k - head.len(), max, located);
        assert(first + more.take(k - head.len() + 1) =~= frames.take(k + 1));
    }
}

/// The records from one value to another.
proof fn texts_between(b: Seq<u8>, pos: int, i: int, k: int, max: u32, located: u32)
    requires
        0 <= pos <= b.len() <= usize::MAX,
        seq_from(b, pos, located, Dialect::Rfc8259, true) is Ok,
        0 <= i <= k < seq_from(b, pos, located, Dialect::Rfc8259, true)->Ok_0.len(),
    ensures
        ({
            let values = seq_from(b, pos, located, Dialect::Rfc8259, true)->Ok_0;
            let frames = seq_from(b, pos, max, Dialect::Rfc8259, false)->Ok_0;
            texts_before(b, values[i].start as int, values[k].end as int, max, Dialect::Rfc8259) == Ok::<Seq<ByteRange>, Error>(
                frames.subrange(i, k + 1),
            )
        }),
    decreases b.len() - pos,
{
    let dialect = Dialect::Rfc8259;
    records_pair(b, pos, located, max, dialect);
    let start = record_start(b, pos);
    run_end_facts::<JsonSeqFrame>(b, start);
    let close = run_end::<JsonSeqFrame>(b, start);
    payload_pair(b, start, close, located, max, dialect);
    if start == pos {
        assert(!JsonSeqFrame::stops(b[pos]));
    }
    records_pair(b, close, located, max, dialect);
    let values = seq_from(b, pos, located, dialect, true)->Ok_0;
    let frames = seq_from(b, pos, max, dialect, false)->Ok_0;
    let head = payload_range(seq_payload(b, start, close, located, dialect, true)->Ok_0);
    let first = payload_range(seq_payload(b, start, close, max, dialect, false)->Ok_0);
    let rest = seq_from(b, close, located, dialect, true)->Ok_0;
    let more = seq_from(b, close, max, dialect, false)->Ok_0;
    assert(values == head + rest);
    assert(frames == first + more);
    if i < head.len() {
        assert(values[i].end <= values[k].end) by {
            if i < k {
                assert(values[i].end <= values[k].start);
            }
        }
        record_from_value(b, pos, values[i].start as int, close, values[k].end as int, max);
        texts_up_to(b, pos, k, max, located);
        assert(frames.take(k + 1) =~= frames.subrange(i, k + 1));
    } else {
        let n = head.len() as int;
        assert(values[i] == rest[i - n] && values[k] == rest[k - n]);
        texts_between(b, close, i - n, k - n, max, located);
        assert(more.subrange(i - n, k - n + 1) =~= frames.subrange(i, k + 1));
    }
}

/// Whether a range from one value to another holds the records between them.
spec fn held_between(b: Seq<u8>, values: Seq<ByteRange>, frames: Seq<ByteRange>, ask: Ask) -> bool {
    &&& values.len() == frames.len()
    &&& forall|k: int| 0 <= k < values.len() ==> (#[trigger] values[k]).start < values[k].end <= b.len()
    &&& forall|k: int, l: int| 0 <= k < l < values.len() ==> (#[trigger] values[k]).end <= (#[trigger] values[l]).start
    &&& forall|i: int, k: int|
        0 <= i <= k < values.len() ==> held_by(b, #[trigger] span(values[i].start as int, values[k].end as int), ask) == Ok::<
            Seq<ByteRange>,
            Error,
        >(frames.subrange(i, k + 1))
}

/// Packed runs of values hold the records of the values.
proof fn runs_hold(b: Seq<u8>, values: Seq<ByteRange>, frames: Seq<ByteRange>, from: int, i: int, target: int, ask: Ask)
    requires
        b.len() <= usize::MAX,
        held_between(b, values, frames, ask),
        0 <= from < values.len(),
        from <= i <= values.len(),
        ({
            let runs = packed(values, i, values[from].start as int, target, false, values.last().end as int);
            from == 0 ==> runs.len() > 1 || !(values[0].start == 0 && values.last().end == b.len())
        }),
    ensures
        packed(values, i, values[from].start as int, target, false, values.last().end as int).len() > 0,
        parts_hold(
            b,
            packed(values, i, values[from].start as int, target, false, values.last().end as int),
            ask,
            frames.skip(from),
        ),
    decreases values.len() - i,
{
    let s = values[from].start as int;
    let last = values.last().end as int;
    let n = values.len() as int;
    assert(values[n - 1] == values.last());
    if from > 0 {
        assert(values[0].end <= values[from].start);
    }
    if i < n {
        if values[i].end - s >= target && i + 1 < n {
            let e = values[i].end as int;
            let rest = packed(values, i + 1, values[i + 1].start as int, target, false, last);
            assert(values[i].end <= values[i + 1].start);
            assert(values[0].end <= values[i + 1].start);
            if from < i {
                assert(values[from].end <= values[i].start);
            }
            runs_hold(b, values, frames, i + 1, i + 1, target, ask);
            let part = span(s, e);
            assert(with_range(Seq::empty(), s, e) =~= seq![part]);
            one_part_more(b, part, rest, ask, frames.subrange(from, i + 1), frames.skip(i + 1));
            assert(frames.subrange(from, i + 1) + frames.skip(i + 1) =~= frames.skip(from));
        } else {
            runs_hold(b, values, frames, from, i + 1, target, ask);
        }
    } else {
        if from < n - 1 {
            assert(values[from].end <= values[n - 1].start);
        }
        let part = span(s, last);
        assert(with_range(Seq::empty(), s, last) =~= seq![part]);
        let none = Seq::<ByteRange>::empty();
        assert(parts_hold(b, none, ask, none));
        one_part_more(b, part, none, ask, frames.subrange(from, n), none);
        assert(seq![part] + none =~= seq![part]);
        assert(frames.subrange(from, n) + none =~= frames.skip(from));
    }
}

/// The parts of a source of JSON-seq records hold its records.
pub(crate) proof fn text_parts_hold(b: Seq<u8>, target: int, ask: Ask)
    requires
        b.len() <= usize::MAX,
        ask.input == JsonInput::JsonSeq,
        ask.ctx.dialect == Dialect::Rfc8259,
        seq_from(b, 0, MAX_NESTING, Dialect::Rfc8259, true) is Ok,
        ({
            let values = seq_from(b, 0, MAX_NESTING, Dialect::Rfc8259, true)->Ok_0;
            let runs = packed_values(values, target);
            values.len() > 0 && (runs.len() > 1 || !(values[0].start == 0 && values.last().end == b.len()))
        }),
    ensures
        ({
            let runs = packed_values(seq_from(b, 0, MAX_NESTING, Dialect::Rfc8259, true)->Ok_0, target);
            let frames = seq_from(b, 0, ask.ctx.max, ask.ctx.dialect, false);
            frames is Ok && runs.len() > 0 && parts_hold(b, runs, ask, frames->Ok_0)
        }),
{
    let values = seq_from(b, 0, MAX_NESTING, Dialect::Rfc8259, true)->Ok_0;
    records_pair(b, 0, MAX_NESTING, ask.ctx.max, Dialect::Rfc8259);
    let frames = seq_from(b, 0, ask.ctx.max, Dialect::Rfc8259, false)->Ok_0;
    assert forall|i: int, k: int| 0 <= i <= k < values.len() implies held_by(
        b,
        #[trigger] span(values[i].start as int, values[k].end as int),
        ask,
    ) == Ok::<Seq<ByteRange>, Error>(frames.subrange(i, k + 1)) by {
        reveal(held_by);
        texts_between(b, 0, i, k, ask.ctx.max, MAX_NESTING);
        assert(values[i].start < values[i].end && values[k].end <= b.len());
    }
    runs_hold(b, values, frames, 0, 0, at_least_one(target), ask);
    assert(frames.skip(0) =~= frames);
}

/// Where no bound is met, it makes no difference which it is.
proof fn free_max(b: Seq<u8>, pos: int, ctx: Ctx, other: Ctx, depth: int)
    requires
        0 <= pos <= b.len(),
        depth <= pos - b.len(),
        ctx.check == other.check,
        ctx.dialect == other.dialect,
    ensures
        value(b, pos, ctx, depth) is Ok ==> value(b, pos, other, depth) == value(b, pos, ctx, depth),
    decreases b.len() - pos, 0nat,
{
    if pos < b.len() && (b[pos] == LBRACKET || b[pos] == LBRACE) {
        free_max_items(b, pos + 1, ctx, other, depth + 1, true);
        free_max_members(b, pos + 1, ctx, other, depth + 1, true);
    }
}

proof fn free_max_items(b: Seq<u8>, pos: int, ctx: Ctx, other: Ctx, depth: int, first: bool)
    requires
        0 <= pos <= b.len(),
        depth <= pos - b.len(),
        ctx.check == other.check,
        ctx.dialect == other.dialect,
    ensures
        items(b, pos, ctx, depth, first) is Ok ==> items(b, pos, other, depth, first) == items(b, pos, ctx, depth, first),
    decreases b.len() - pos, 1nat,
{
    next_at_bounds(b, pos, ctx.dialect, RBRACKET, first);
    if let Ok(NextAt::Item(p)) = next_at(b, pos, ctx.dialect, RBRACKET, first) {
        free_max(b, p, ctx, other, depth);
        value_bounds(b, p, ctx, depth);
        if let Ok((e, _)) = value(b, p, ctx, depth) {
            free_max_items(b, e, ctx, other, depth, false);
        }
    }
}

proof fn free_max_members(b: Seq<u8>, pos: int, ctx: Ctx, other: Ctx, depth: int, first: bool)
    requires
        0 <= pos <= b.len(),
        depth <= pos - b.len(),
        ctx.check == other.check,
        ctx.dialect == other.dialect,
    ensures
        members(b, pos, ctx, depth, first) is Ok ==> members(b, pos, other, depth, first) == members(b, pos, ctx, depth, first),
    decreases b.len() - pos, 1nat,
{
    next_at_bounds(b, pos, ctx.dialect, RBRACE, first);
    if let Ok(NextAt::Item(p)) = next_at(b, pos, ctx.dialect, RBRACE, first) {
        member_value_at_bounds(b, p, ctx.check, ctx.dialect);
        if let Ok(v) = member_value_at(b, p, ctx.check, ctx.dialect) {
            free_max(b, v, ctx, other, depth);
            value_bounds(b, v, ctx, depth);
            if let Ok((e, _)) = value(b, v, ctx, depth) {
                free_max_members(b, e, ctx, other, depth, false);
            }
        }
    }
}

/// A value that is located under any bound ends at its reach.
proof fn located_is_reached(b: Seq<u8>, p: int, max: u32, ctx: WalkCtx)
    requires
        0 <= p <= b.len(),
        trivia_end(b, p, ctx.dialect) == Ok::<int, Error>(p),
        end_at(value_past_trivia(b, p, locating(max, ctx.dialect), 0)) is Ok,
    ensures
        reach(b, p, ctx) == end_at(value_past_trivia(b, p, locating(max, ctx.dialect), 0)),
{
    reveal(reach);
    let c = locating(max, ctx.dialect);
    skip_at_lower_depth(b, p, c, 0, p - b.len());
    free_max(b, p, c, crate::laws::ends::locating(ctx), p - b.len());
}

/// The frames of a run of adjacent values.
#[verifier::opaque]
spec fn run_frames(b: Seq<u8>, pos: int, ctx: WalkCtx) -> Seq<ByteRange> {
    let (ranges, tail) = split_from(b, pos, ctx.max, ctx.dialect);
    with_range(ranges, tail, b.len() as int)
}

/// The values of a run of adjacent values.
#[verifier::opaque]
spec fn run_values(b: Seq<u8>, pos: int, max: u32, ctx: WalkCtx) -> Result<Seq<ByteRange>, Error> {
    values_from(b, pos, max, ctx.dialect)
}

/// The frames of a run of adjacent values that begin before `end`.
#[verifier::opaque]
spec fn run_before(b: Seq<u8>, pos: int, end: int, ctx: WalkCtx) -> Seq<ByteRange> {
    values_before(b, pos, end, ctx.max, ctx.dialect)
}

/// Whether the value at `pos` is located under the bound of a scan.
#[verifier::opaque]
spec fn fits_here(b: Seq<u8>, pos: int, ctx: WalkCtx) -> bool {
    end_at(value_past_trivia(b, pos, locating(ctx.max, ctx.dialect), 0)) is Ok
}

/// One adjacent value, and the run behind it.
proof fn run_step(b: Seq<u8>, pos: int, max: u32, ctx: WalkCtx) -> (r: (int, int))
    requires
        0 <= pos < b.len() <= usize::MAX,
        trivia_end(b, pos, ctx.dialect) == Ok::<int, Error>(pos),
        run_values(b, pos, max, ctx) is Ok,
    ensures
        pos < r.0 <= r.1 <= b.len(),
        reach(b, pos, ctx) == Ok::<int, Error>(r.0),
        trivia_end(b, r.0, ctx.dialect) == Ok::<int, Error>(r.1),
        trivia_end(b, r.1, ctx.dialect) == Ok::<int, Error>(r.1),
        run_values(b, r.1, max, ctx) is Ok,
        run_values(b, pos, max, ctx)->Ok_0 == seq![span(pos, r.0)] + run_values(b, r.1, max, ctx)->Ok_0,
        fits_here(b, pos, ctx) ==> run_frames(b, pos, ctx) == seq![span(pos, r.0)] + run_frames(b, r.1, ctx),
        !fits_here(b, pos, ctx) ==> run_frames(b, pos, ctx) == seq![span(pos, b.len() as int)],
        forall|end: int|
            pos < end ==> #[trigger] run_before(b, pos, end, ctx) == (if fits_here(b, pos, ctx) {
                seq![span(pos, r.0)] + run_before(b, r.1, end, ctx)
            } else {
                seq![span(pos, b.len() as int)]
            }),
{
    reveal(run_frames);
    reveal(run_values);
    reveal(run_before);
    reveal(fits_here);
    located_is_reached(b, pos, max, ctx);
    value_bounds(b, pos, locating(max, ctx.dialect), 0);
    let e = end_at(value_past_trivia(b, pos, locating(max, ctx.dialect), 0))->Ok_0;
    trivia_end_bounds(b, e, ctx.dialect);
    trivia_end_settles(b, e, ctx.dialect);
    let next = trivia_end(b, e, ctx.dialect)->Ok_0;
    if fits_here(b, pos, ctx) {
        located_is_reached(b, pos, ctx.max, ctx);
        assert(run_frames(b, pos, ctx) =~= seq![span(pos, e)] + run_frames(b, next, ctx));
    } else {
        assert(run_frames(b, pos, ctx) =~= seq![span(pos, b.len() as int)]);
    }
    assert forall|end: int| pos < end implies #[trigger] run_before(b, pos, end, ctx) == (if fits_here(b, pos, ctx) {
        seq![span(pos, e)] + run_before(b, next, end, ctx)
    } else {
        seq![span(pos, b.len() as int)]
    }) by {
        value_bounds(b, next, locating(ctx.max, ctx.dialect), 0);
        assert(values_before(b, e, end, ctx.max, ctx.dialect) == values_before(b, next, end, ctx.max, ctx.dialect));
    }
    (e, next)
}

proof fn nothing_before(b: Seq<u8>, pos: int, end: int, ctx: WalkCtx)
    requires
        end <= pos,
        trivia_end(b, pos, ctx.dialect) == Ok::<int, Error>(pos),
    ensures
        run_before(b, pos, end, ctx) == Seq::<ByteRange>::empty(),
{
    reveal(run_before);
}

/// What is known of a run of adjacent values.
spec fn run_known(b: Seq<u8>, pos: int, values: Seq<ByteRange>, ctx: WalkCtx) -> bool {
    let frames = run_frames(b, pos, ctx);
    let n = frames.len() as int;
    &&& n <= values.len()
    &&& values.len() > 0 ==> n > 0 && values[0].start == pos
    &&& forall|k: int| 0 <= k < values.len() ==> pos <= (#[trigger] values[k]).start < values[k].end <= b.len()
    &&& forall|k: int, l: int| 0 <= k < l < values.len() ==> (#[trigger] values[k]).end <= (#[trigger] values[l]).start
    &&& n < values.len() ==> ({
        let p = values[n - 1].start as int;
        &&& frames[n - 1] == span(p, b.len() as int)
        &&& reach(b, p, ctx) == Ok::<int, Error>(values[n - 1].end as int)
        &&& trivia_end(b, values[n - 1].end as int, ctx.dialect) == Ok::<int, Error>(values[n].start as int)
    })
}

/// Adjacent values and their frames go together, up to one that nests too deep.
proof fn values_known(b: Seq<u8>, pos: int, max: u32, ctx: WalkCtx)
    requires
        0 <= pos <= b.len() <= usize::MAX,
        trivia_end(b, pos, ctx.dialect) == Ok::<int, Error>(pos),
        run_values(b, pos, max, ctx) is Ok,
    ensures
        run_known(b, pos, run_values(b, pos, max, ctx)->Ok_0, ctx),
    decreases b.len() - pos,
{
    let values = run_values(b, pos, max, ctx)->Ok_0;
    let frames = run_frames(b, pos, ctx);
    if pos < b.len() {
        let (e, next) = run_step(b, pos, max, ctx);
        values_known(b, next, max, ctx);
        let rest = run_values(b, next, max, ctx)->Ok_0;
        let more = run_frames(b, next, ctx);
        assert forall|k: int| 0 <= k < values.len() implies pos <= (#[trigger] values[k]).start < values[k].end <= b.len() by {
            if k > 0 {
                assert(values[k] == rest[k - 1]);
            }
        }
        assert forall|k: int, l: int| 0 <= k < l < values.len() implies (#[trigger] values[k]).end <= (#[trigger] values[l]).start by {
            assert(values[l] == rest[l - 1]);
            if k > 0 {
                assert(values[k] == rest[k - 1]);
            }
        }
        if fits_here(b, pos, ctx) {
            if frames.len() < values.len() {
                assert(values[frames.len() - 1] == rest[more.len() - 1]);
                assert(values[frames.len() as int] == rest[more.len() as int]);
                assert(frames[frames.len() - 1] == more[more.len() - 1]);
            }
        } else if values.len() > 1 {
            assert(values[1] == rest[0]);
        }
    } else {
        reveal(run_frames);
        reveal(run_values);
        assert(frames =~= Seq::empty());
    }
}

spec fn fewer(a: int, c: int) -> int {
    if a < c {
        a
    } else {
        c
    }
}

/// The values up to the end of one of them.
proof fn values_up_to(b: Seq<u8>, pos: int, k: int, max: u32, ctx: WalkCtx)
    requires
        0 <= pos <= b.len() <= usize::MAX,
        trivia_end(b, pos, ctx.dialect) == Ok::<int, Error>(pos),
        run_values(b, pos, max, ctx) is Ok,
        0 <= k < run_values(b, pos, max, ctx)->Ok_0.len(),
    ensures
        ({
            let frames = run_frames(b, pos, ctx);
            run_before(b, pos, run_values(b, pos, max, ctx)->Ok_0[k].end as int, ctx) == frames.take(
                fewer(k + 1, frames.len() as int),
            )
        }),
    decreases b.len() - pos,
{
    let values = run_values(b, pos, max, ctx)->Ok_0;
    let frames = run_frames(b, pos, ctx);
    values_known(b, pos, max, ctx);
    let end = values[k].end as int;
    assert(values[k].start < values[k].end);
    let (e, next) = run_step(b, pos, max, ctx);
    let rest = run_values(b, next, max, ctx)->Ok_0;
    if fits_here(b, pos, ctx) {
        let more = run_frames(b, next, ctx);
        let later = run_before(b, next, end, ctx);
        if k == 0 {
            nothing_before(b, next, end, ctx);
            assert(seq![span(pos, e)] + later =~= frames.take(1));
        } else {
            assert(values[k] == rest[k - 1]);
            values_up_to(b, next, k - 1, max, ctx);
            assert(seq![span(pos, e)] + more.take(fewer(k, more.len() as int)) =~= frames.take(fewer(k + 1, frames.len() as int)));
        }
    } else {
        assert(frames.take(1) =~= frames);
    }
}

/// A run of adjacent values from one of them on.
proof fn values_on(b: Seq<u8>, pos: int, i: int, max: u32, ctx: WalkCtx)
    requires
        0 <= pos <= b.len() <= usize::MAX,
        trivia_end(b, pos, ctx.dialect) == Ok::<int, Error>(pos),
        run_values(b, pos, max, ctx) is Ok,
        0 <= i < run_values(b, pos, max, ctx)->Ok_0.len(),
        i < run_frames(b, pos, ctx).len(),
    ensures
        ({
            let values = run_values(b, pos, max, ctx)->Ok_0;
            let s = values[i].start as int;
            &&& 0 <= s <= b.len()
            &&& trivia_end(b, s, ctx.dialect) == Ok::<int, Error>(s)
            &&& run_values(b, s, max, ctx) == Ok::<Seq<ByteRange>, Error>(values.skip(i))
            &&& run_frames(b, s, ctx) == run_frames(b, pos, ctx).skip(i)
        }),
    decreases b.len() - pos,
{
    let values = run_values(b, pos, max, ctx)->Ok_0;
    let frames = run_frames(b, pos, ctx);
    values_known(b, pos, max, ctx);
    if i == 0 {
        assert(values.skip(0) =~= values);
        assert(frames.skip(0) =~= frames);
    } else {
        let (e, next) = run_step(b, pos, max, ctx);
        let rest = run_values(b, next, max, ctx)->Ok_0;
        let more = run_frames(b, next, ctx);
        assert(values[i] == rest[i - 1]);
        values_on(b, next, i - 1, max, ctx);
        assert(rest.skip(i - 1) =~= values.skip(i));
        assert(more.skip(i - 1) =~= frames.skip(i));
    }
}

/// A range from one adjacent value to another holds the frames between them.
proof fn values_are_held(b: Seq<u8>, pos: int, i: int, k: int, max: u32, ask: Ask)
    requires
        ask.input == JsonInput::Adjacent,
        0 <= pos <= b.len() <= usize::MAX,
        trivia_end(b, pos, ask.ctx.dialect) == Ok::<int, Error>(pos),
        run_values(b, pos, max, ask.ctx) is Ok,
        0 <= i <= k < run_values(b, pos, max, ask.ctx)->Ok_0.len(),
        i < run_frames(b, pos, ask.ctx).len(),
    ensures
        ({
            let values = run_values(b, pos, max, ask.ctx)->Ok_0;
            let frames = run_frames(b, pos, ask.ctx);
            held_by(b, span(values[i].start as int, values[k].end as int), ask) == Ok::<Seq<ByteRange>, Error>(
                frames.subrange(i, fewer(k + 1, frames.len() as int)),
            )
        }),
{
    let values = run_values(b, pos, max, ask.ctx)->Ok_0;
    let frames = run_frames(b, pos, ask.ctx);
    values_known(b, pos, max, ask.ctx);
    values_on(b, pos, i, max, ask.ctx);
    let s = values[i].start as int;
    assert(values.skip(i)[k - i] == values[k]);
    values_up_to(b, s, k - i, max, ask.ctx);
    reveal(held_by);
    reveal(run_before);
    assert(values[k].end <= b.len());
    assert(frames.skip(i).take(fewer(k - i + 1, frames.len() - i)) =~= frames.subrange(i, fewer(k + 1, frames.len() as int)));
}

/// Parts of which one holds a value that nests too deep, with another behind it, are not
/// all read.
proof fn deep_value_is_refused(b: Seq<u8>, pos: int, max: u32, from: int, i: int, target: int, ask: Ask)
    requires
        ask.input == JsonInput::Adjacent,
        ask.demands.len() > 0,
        forall|k: int| 0 <= k < ask.demands.len() ==> flows(#[trigger] ask.demands[k]),
        0 <= pos <= b.len() <= usize::MAX,
        trivia_end(b, pos, ask.ctx.dialect) == Ok::<int, Error>(pos),
        run_values(b, pos, max, ask.ctx) is Ok,
        run_frames(b, pos, ask.ctx).len() < run_values(b, pos, max, ask.ctx)->Ok_0.len(),
        0 <= from < run_frames(b, pos, ask.ctx).len(),
        from <= i <= run_values(b, pos, max, ask.ctx)->Ok_0.len(),
        ({
            let values = run_values(b, pos, max, ask.ctx)->Ok_0;
            let runs = packed(values, i, values[from].start as int, target, false, values.last().end as int);
            from == 0 ==> runs.len() > 1 || !(values[0].start == 0 && values.last().end == b.len())
        }),
    ensures
        ({
            let values = run_values(b, pos, max, ask.ctx)->Ok_0;
            !parts_read(b, packed(values, i, values[from].start as int, target, false, values.last().end as int), ask)
        }),
    decreases run_values(b, pos, max, ask.ctx)->Ok_0.len() - i,
{
    let values = run_values(b, pos, max, ask.ctx)->Ok_0;
    let frames = run_frames(b, pos, ask.ctx);
    let n = values.len() as int;
    let s = values[from].start as int;
    let last = values.last().end as int;
    values_known(b, pos, max, ask.ctx);
    assert(values[n - 1] == values.last());
    let runs = packed(values, i, s, target, false, last);
    if from > 0 {
        assert(values[0].end <= values[from].start);
    }
    if i < n {
        if values[i].end - s >= target && i + 1 < n {
            let e = values[i].end as int;
            let part = span(s, e);
            let rest = packed(values, i + 1, values[i + 1].start as int, target, false, last);
            assert(values[i].end <= values[i + 1].start);
            if from < i {
                assert(values[from].end <= values[i].start);
            }
            assert(with_range(Seq::empty(), s, e) =~= seq![part]);
            assert(runs == seq![part] + rest);
            if i + 1 < frames.len() {
                assert(values[0].end <= values[i + 1].start);
                deep_value_is_refused(b, pos, max, i + 1, i + 1, target, ask);
                if parts_read(b, runs, ask) {
                    assert forall|k: int| 0 <= k < rest.len() implies part_scanned(b, #[trigger] rest[k], ask) is Ok by {
                        assert(runs[k + 1] == rest[k]);
                    }
                }
            } else {
                assert(runs[0] == part);
                deep_part_is_refused(b, pos, max, from, i, ask);
            }
        } else {
            deep_value_is_refused(b, pos, max, from, i + 1, target, ask);
        }
    } else {
        let part = span(s, last);
        if from < n - 1 {
            assert(values[from].end <= values[n - 1].start);
        }
        assert(with_range(Seq::empty(), s, last) =~= seq![part]);
        assert(runs[0] == part);
        deep_part_is_refused(b, pos, max, from, n - 1, ask);
    }
}

proof fn deep_part_is_refused(b: Seq<u8>, pos: int, max: u32, from: int, i: int, ask: Ask)
    requires
        ask.input == JsonInput::Adjacent,
        ask.demands.len() > 0,
        forall|k: int| 0 <= k < ask.demands.len() ==> flows(#[trigger] ask.demands[k]),
        0 <= pos <= b.len() <= usize::MAX,
        trivia_end(b, pos, ask.ctx.dialect) == Ok::<int, Error>(pos),
        run_values(b, pos, max, ask.ctx) is Ok,
        run_frames(b, pos, ask.ctx).len() < run_values(b, pos, max, ask.ctx)->Ok_0.len(),
        0 <= from < run_frames(b, pos, ask.ctx).len(),
        run_frames(b, pos, ask.ctx).len() <= i + 1 <= run_values(b, pos, max, ask.ctx)->Ok_0.len(),
        from <= i,
        ({
            let values = run_values(b, pos, max, ask.ctx)->Ok_0;
            let part = span(values[from].start as int, values[i].end as int);
            proper_part(b, part)
        }),
    ensures
        ({
            let values = run_values(b, pos, max, ask.ctx)->Ok_0;
            part_scanned(b, span(values[from].start as int, values[i].end as int), ask) is Err
        }),
{
    let values = run_values(b, pos, max, ask.ctx)->Ok_0;
    let frames = run_frames(b, pos, ask.ctx);
    let n = frames.len() as int;
    let part = span(values[from].start as int, values[i].end as int);
    values_known(b, pos, max, ask.ctx);
    values_are_held(b, pos, from, i, max, ask);
    let held = frames.subrange(from, n);
    let deep = frames[n - 1];
    let p = values[n - 1].start as int;
    assert(held[n - 1 - from] == deep);
    assert(b.take(b.len() as int) =~= b);
    assert(values[n].start < values[n].end);
    values_on(b, pos, n - 1, max, ask.ctx);
    record_ends_well(b, p, ask.demands, 0, 0, ask.ctx);
    if part_scanned(b, part, ask) is Ok {
        read_part_is_walked(b, part, ask);
        assert(framed_walk(b, deep, ask.demands, 0, 0, ask.ctx) is Ok);
    }
}

/// The parts of a source of adjacent values hold its frames.
pub(crate) proof fn value_parts_hold(b: Seq<u8>, target: int, ask: Ask)
    requires
        b.len() <= usize::MAX,
        ask.input == JsonInput::Adjacent,
        ask.ctx.dialect == Dialect::Rfc8259,
        ask.demands.len() > 0,
        forall|k: int| 0 <= k < ask.demands.len() ==> flows(#[trigger] ask.demands[k]),
        adjacent(b, MAX_NESTING, Dialect::Rfc8259) is Ok,
        ({
            let values = adjacent(b, MAX_NESTING, Dialect::Rfc8259)->Ok_0;
            let runs = packed_values(values, target);
            &&& values.len() > 0 && (runs.len() > 1 || !(values[0].start == 0 && values.last().end == b.len()))
            &&& parts_read(b, runs, ask)
        }),
    ensures
        ({
            let runs = packed_values(adjacent(b, MAX_NESTING, Dialect::Rfc8259)->Ok_0, target);
            let (ranges, tail) = split(b, ask.ctx.max, ask.ctx.dialect);
            runs.len() > 0 && parts_hold(b, runs, ask, with_range(ranges, tail, b.len() as int))
        }),
{
    let values = adjacent(b, MAX_NESTING, Dialect::Rfc8259)->Ok_0;
    trivia_end_bounds(b, text_start(b), Dialect::Rfc8259);
    trivia_end_settles(b, text_start(b), Dialect::Rfc8259);
    let pos = trivia_end(b, text_start(b), Dialect::Rfc8259)->Ok_0;
    let frames = run_frames(b, pos, ask.ctx);
    assert(run_values(b, pos, MAX_NESTING, ask.ctx) == Ok::<Seq<ByteRange>, Error>(values)) by {
        reveal(run_values);
    }
    values_known(b, pos, MAX_NESTING, ask.ctx);
    if frames.len() < values.len() {
        deep_value_is_refused(b, pos, MAX_NESTING, 0, 0, at_least_one(target), ask);
    }
    assert forall|i: int, k: int| 0 <= i <= k < values.len() implies held_by(
        b,
        #[trigger] span(values[i].start as int, values[k].end as int),
        ask,
    ) == Ok::<Seq<ByteRange>, Error>(frames.subrange(i, k + 1)) by {
        values_are_held(b, pos, i, k, MAX_NESTING, ask);
    }
    runs_hold(b, values, frames, 0, 0, at_least_one(target), ask);
    assert(frames.skip(0) =~= frames);
    reveal(run_frames);
}

/// Adjacent values follow one another.
pub(crate) proof fn adjacent_values_follow(b: Seq<u8>, ctx: WalkCtx)
    requires
        b.len() <= usize::MAX,
        ctx.dialect == Dialect::Rfc8259,
        adjacent(b, MAX_NESTING, Dialect::Rfc8259) is Ok,
    ensures
        ({
            let values = adjacent(b, MAX_NESTING, Dialect::Rfc8259)->Ok_0;
            &&& forall|k: int| 0 <= k < values.len() ==> (#[trigger] values[k]).start < values[k].end
            &&& forall|k: int, l: int| 0 <= k < l < values.len() ==> (#[trigger] values[k]).end <= (#[trigger] values[l]).start
        }),
{
    trivia_end_bounds(b, text_start(b), Dialect::Rfc8259);
    trivia_end_settles(b, text_start(b), Dialect::Rfc8259);
    let pos = trivia_end(b, text_start(b), Dialect::Rfc8259)->Ok_0;
    assert(run_values(b, pos, MAX_NESTING, ctx) == adjacent(b, MAX_NESTING, Dialect::Rfc8259)) by {
        reveal(run_values);
    }
    values_known(b, pos, MAX_NESTING, ctx);
}

} // verus!
