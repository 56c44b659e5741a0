//! What a host folds from the parts of a plan is what one scan answers.

use vstd::prelude::*;

use crate::demand::StepModel;
use crate::dialect::Dialect;
use crate::error::Error;
use crate::framing::{
    adjacent, at_least_one, frame_end, frame_end_bounds, ndjson_runs, packed, packed_runs, packed_values, seq_from, text_start,
};
use crate::laws::ends::node_ends_well;
use crate::laws::folds::{array_answer, folds, items_from, part_answers, parts_read, runs_fold, stitched};
use crate::laws::flows::{flows, frames_add_up, held_parts_fold, parts_hold};
use crate::laws::levels::{array_is_cut_to_go_on, closes_at, spans_begin};
use crate::laws::places::{first_way_is_clear, leads_to, outward_is_clear, place, way};
use crate::laws::records::stream_fits;
use crate::laws::tiles::{adjacent_values_follow, line_parts_hold, records_pair, text_parts_hold, value_parts_hold};
use crate::laws::walks::a_node;
use crate::laws::ways::{all_planned, planned, told, way_is_read};
use crate::lex::ws::{trivia_end, trivia_end_bounds, trivia_end_settles};
use crate::lex::skip::MAX_NESTING;
use crate::scan::{any_filters_container, root_env, scanned, text_walk, Ask, JsonInput};
use crate::shard::cut::serial_elements;
use crate::shard::path::{array_at, shared_path};
use crate::shard::plan::{
    located_elements, one_range, part_scanned, planned_parts, range_end, ranges_of, text_parts, PartsModel, eligible, spined, FIRST_SHARD_BYTES,
};
use crate::shard::tail::{shadow_after, Shadow};
use crate::shard::window::{shard_of, Shard};
use crate::stream::frames_of;
use crate::value::{span, ByteRange};
use crate::walk::model::WalkCtx;

verus! {

/// The whole source as its one part answers as a scan does.
proof fn one_part_folds(b: Seq<u8>, ask: Ask, j: int)
    requires
        b.len() <= usize::MAX,
        scanned(b, ask) is Ok,
    ensures
        stitched(part_answers(b, one_range(b.len() as int), ask, j)) == Some(scanned(b, ask)->Ok_0.0[j]),
{
    reveal(part_scanned);
    let one = one_range(b.len() as int);
    assert(range_end(b, one[0]) == b.len());
}

/// The way to an array that a text is cut at.
proof fn way_is_found(b: Seq<u8>, pos: int, steps: Seq<StepModel>, spans: Seq<ByteRange>, close: int, ctx: WalkCtx) -> (r: (
    int,
    bool,
))
    requires
        0 <= pos < b.len() <= usize::MAX,
        trivia_end(b, text_start(b), ctx.dialect) == Ok::<int, Error>(pos),
        trivia_end(b, pos, ctx.dialect) == Ok::<int, Error>(pos),
        crate::laws::ends::reach(b, pos, ctx) is Ok,
        located_elements(b, steps, ctx.max, ctx.dialect) == Ok::<Option<(Seq<ByteRange>, int)>, Error>(Some((spans, close))),
    ensures
        way(b, pos, steps, 0, r.1, r.0, ctx),
        serial_elements(b, r.0 + 1) == Ok::<(Seq<ByteRange>, int), Error>((spans, close)),
{
    reveal(located_elements);
    let start = array_at(b, steps, false, ctx.max, ctx.dialect)->Ok_0->0;
    let (_, end) = serial_elements(b, start + 1)->Ok_0;
    if shadow_after(b, steps, end, ctx.max, ctx.dialect) == Shadow::Clear {
        assert(leads_to(b, pos, steps, 0, false, start, ctx)) by {
            reveal(leads_to);
        }
        assert(outward_is_clear(b, end, steps, steps.len(), ctx)) by {
            reveal(outward_is_clear);
        }
        first_way_is_clear(b, pos, steps, 0, start, end, ctx);
        (start, false)
    } else {
        let last = array_at(b, steps, true, ctx.max, ctx.dialect)->Ok_0->0;
        assert(leads_to(b, pos, steps, 0, true, last, ctx)) by {
            reveal(leads_to);
        }
        (last, true)
    }
}

/// Where a text is cut into elements, the scan reads the array that they are elements of:
/// the array is where the last members and the elements of its path lead, it closes where
/// the cut ends, and each part begins where its elements can go on.
pub proof fn the_array_that_is_cut_is_the_one_that_is_read(b: Seq<u8>, ask: Ask) -> (start: int)
    requires
        b.len() <= usize::MAX,
        ask.input == JsonInput::Text,
        scanned(b, ask) is Ok,
        planned_parts(b, ask) matches Ok(PartsModel::Elements(_, _)),
    ensures
        ({
            let (spans, close) = (planned_parts(b, ask)->Ok_0->Elements_0, planned_parts(b, ask)->Ok_0->Elements_1);
            &&& shared_path(ask.demands) is Some
            &&& place(b, text_start(b), shared_path(ask.demands)->0, ask.ctx) == Some(start)
            &&& 0 <= start < b.len()
            &&& b[start] == crate::ascii::LBRACKET
            &&& serial_elements(b, start + 1) == Ok::<(Seq<ByteRange>, int), Error>((spans, close))
            &&& spans_begin(b, start, spans, close, ask.ctx)
            &&& forall|k: int|
                0 <= k < ask.demands.len() && folds(#[trigger] ask.demands[k]) ==> scanned(b, ask)->Ok_0.0[k] == array_answer(
                    b,
                    items_from(b, start + 1, ask.ctx, true),
                    ask.demands[k],
                    ask.ctx,
                )
        }),
{
    reveal(planned_parts);
    reveal(text_parts);
    let ctx = ask.ctx;
    let (spans, close) = (planned_parts(b, ask)->Ok_0->Elements_0, planned_parts(b, ask)->Ok_0->Elements_1);
    let steps = shared_path(ask.demands)->0;
    trivia_end_bounds(b, text_start(b), ctx.dialect);
    trivia_end_settles(b, text_start(b), ctx.dialect);
    let pos = trivia_end(b, text_start(b), ctx.dialect)->Ok_0;
    let w = text_walk(b, ask)->Ok_0;
    assert(a_node(b, pos, ask.demands, ctx, 0, root_env(ask)) == Ok::<crate::walk::model::Walked, Error>(w)) by {
        reveal(a_node);
    }
    assert(all_planned(ask.demands, steps)) by {
        assert forall|k: int| 0 <= k < ask.demands.len() implies planned(#[trigger] ask.demands[k], steps) by {
            assert(shard_of(ask.demands[k]) != Shard::Serial);
        }
    }
    assert(steps.skip(0) =~= steps);
    node_ends_well(b, pos, ask.demands, ctx, 0, root_env(ask));
    crate::laws::ways::planned_goes_on(b, pos, ask.demands, steps, ctx, 0, root_env(ask));
    let (start, last) = way_is_found(b, pos, steps, spans, close, ctx);
    way_is_read(b, pos, ask.demands, steps, 0, last, start, ctx, 0, root_env(ask));
    array_is_cut_to_go_on(b, start, ctx, closes_at(b, start + 1, ctx, true)->0);
    assert(place(b, text_start(b), steps, ctx) == place(b, pos, steps, ctx));
    assert forall|k: int| 0 <= k < ask.demands.len() && folds(#[trigger] ask.demands[k]) implies scanned(b, ask)->Ok_0.0[k]
        == array_answer(b, items_from(b, start + 1, ctx, true), ask.demands[k], ctx) by {
        assert(w.marks[k] == told(b, start, ask.demands[k], ctx));
    }
    start
}

/// The parts of a text fold to what its scan answers.
proof fn text_parts_fold(b: Seq<u8>, ask: Ask, target: int, j: int)
    requires
        b.len() <= usize::MAX,
        ask.input == JsonInput::Text,
        0 <= j < ask.demands.len(),
        folds(ask.demands[j]),
        scanned(b, ask) is Ok,
        planned_parts(b, ask) is Ok,
        parts_read(b, ranges_of(planned_parts(b, ask)->Ok_0, b.len() as int, target), ask),
    ensures
        stitched(part_answers(b, ranges_of(planned_parts(b, ask)->Ok_0, b.len() as int, target), ask, j)) == Some(
            scanned(b, ask)->Ok_0.0[j],
        ),
{
    let parts = planned_parts(b, ask)->Ok_0;
    let len = b.len() as int;
    one_part_folds(b, ask, j);
    match parts {
        PartsModel::Elements(spans, close) => {
            let start = the_array_that_is_cut_is_the_one_that_is_read(b, ask);
            assert(spans.len() > 0) by {
                reveal(planned_parts);
                reveal(text_parts);
            }
            if packed_runs(spans, target, true, close).len() > 1 {
                runs_fold(b, start, spans, close, target, ask, j);
            }
        },
        PartsModel::Packed(ranges) => {
            assert(ranges =~= one_range(len)) by {
                reveal(planned_parts);
                reveal(text_parts);
            }
        },
    }
}

/// Whether the frames that hold the records of a stream fold as the parts do.
proof fn stream_parts_fold(b: Seq<u8>, ask: Ask, parts: Seq<ByteRange>, j: int)
    requires
        b.len() <= usize::MAX,
        ask.input != JsonInput::Text,
        !any_filters_container(ask.demands),
        eligible(ask.input, ask.demands, ask.ctx.dialect),
        0 <= j < ask.demands.len(),
        folds(ask.demands[j]),
        frames_of(b, ask.input, ask.ctx.max, ask.ctx.dialect) is Ok,
        parts.len() > 0,
        parts_hold(b, parts, ask, frames_of(b, ask.input, ask.ctx.max, ask.ctx.dialect)->Ok_0),
        parts_read(b, parts, ask),
    ensures
        scanned(b, ask) is Ok,
        stitched(part_answers(b, parts, ask, j)) == Some(scanned(b, ask)->Ok_0.0[j]),
{
    let frames = frames_of(b, ask.input, ask.ctx.max, ask.ctx.dialect)->Ok_0;
    assert forall|k: int| 0 <= k < ask.demands.len() implies flows(#[trigger] ask.demands[k]) by {
        assert(shard_of(ask.demands[k]) != Shard::Serial);
        assert(!spined(ask.demands[k]));
    }
    stream_fits(b, ask.input, ask.ctx.max, ask.ctx.dialect);
    held_parts_fold(b, parts, ask, frames, j);
    frames_add_up(b, frames, ask, j);
}

/// The parts that a stream is cut into hold its records.
proof fn stream_is_held(b: Seq<u8>, ask: Ask, parts: Seq<ByteRange>)
    requires
        b.len() <= usize::MAX,
        ask.input != JsonInput::Text,
        eligible(ask.input, ask.demands, ask.ctx.dialect),
        frames_of(b, ask.input, ask.ctx.max, ask.ctx.dialect) is Ok,
        planned_parts(b, ask) == Ok::<PartsModel, Error>(PartsModel::Packed(parts)),
        parts_read(b, parts, ask),
        parts != one_range(b.len() as int),
    ensures
        parts.len() > 0,
        parts_hold(b, parts, ask, frames_of(b, ask.input, ask.ctx.max, ask.ctx.dialect)->Ok_0),
{
    reveal(planned_parts);
    let target = FIRST_SHARD_BYTES as int;
    let len = b.len() as int;
    assert forall|k: int| 0 <= k < ask.demands.len() implies flows(#[trigger] ask.demands[k]) by {
        assert(shard_of(ask.demands[k]) != Shard::Serial);
        assert(!spined(ask.demands[k]));
    }
    match ask.input {
        JsonInput::Ndjson => {
            let runs = ndjson_runs(b, 0, 0, at_least_one(target));
            assert(runs.len() > 0 && parts == runs);
            if runs.len() == 1 {
                one_run_is_whole(b, 0, 0, at_least_one(target));
                assert(runs =~= one_range(len));
            }
            line_parts_hold(b, 0, 0, at_least_one(target), ask);
        },
        JsonInput::JsonSeq => {
            let values = seq_from(b, 0, MAX_NESTING, Dialect::Rfc8259, true)->Ok_0;
            assert(parts == packed_values(values, target));
            records_pair(b, 0, MAX_NESTING, ask.ctx.max, Dialect::Rfc8259);
            one_pack_is_whole(values, target, len);
            text_parts_hold(b, target, ask);
        },
        _ => {
            let values = adjacent(b, MAX_NESTING, Dialect::Rfc8259)->Ok_0;
            assert(parts == packed_values(values, target));
            adjacent_values_follow(b, ask.ctx);
            one_pack_is_whole(values, target, len);
            value_parts_hold(b, target, ask);
        },
    }
}

/// One run of lines is the whole source.
proof fn one_run_is_whole(b: Seq<u8>, start: int, pos: int, target: int)
    requires
        0 <= start <= pos <= b.len() <= usize::MAX,
        ndjson_runs(b, start, pos, target).len() == 1,
    ensures
        ndjson_runs(b, start, pos, target)[0] == span(start, b.len() as int),
    decreases b.len() - pos,
{
    frame_end_bounds(b, pos);
    if pos < b.len() {
        let e = frame_end(b, pos);
        if e - start >= target && e < b.len() {
            some_run_is_left(b, e, e, target);
        } else {
            one_run_is_whole(b, start, e, target);
        }
    }
}

proof fn some_run_is_left(b: Seq<u8>, start: int, pos: int, target: int)
    requires
        0 <= start <= pos <= b.len() <= usize::MAX,
        start < b.len(),
    ensures
        ndjson_runs(b, start, pos, target).len() > 0,
    decreases b.len() - pos,
{
    frame_end_bounds(b, pos);
    if pos < b.len() {
        let e = frame_end(b, pos);
        if !(e - start >= target && e < b.len()) {
            some_run_is_left(b, start, e, target);
        }
    }
}

/// Whether values follow one another.
spec fn values_follow(values: Seq<ByteRange>) -> bool {
    &&& forall|k: int| 0 <= k < values.len() ==> (#[trigger] values[k]).start < values[k].end
    &&& forall|k: int, l: int| 0 <= k < l < values.len() ==> (#[trigger] values[k]).end <= (#[trigger] values[l]).start
}

/// One run of values goes from the first to the last.
proof fn one_pack_is_whole(values: Seq<ByteRange>, target: int, len: int)
    requires
        values_follow(values),
        packed_values(values, target).len() > 0,
        packed_values(values, target) != one_range(len),
        0 <= len <= usize::MAX,
    ensures
        values.len() > 0,
        packed_values(values, target).len() > 1 || !(values[0].start == 0 && values.last().end == len),
{
    one_pack(values, 0, 0, at_least_one(target));
    if packed_values(values, target).len() == 1 && values[0].start == 0 && values.last().end == len {
        assert(packed_values(values, target) =~= one_range(len));
    }
}

/// Values pack into some run; into one, it goes to the last of them.
proof fn one_pack(values: Seq<ByteRange>, from: int, i: int, target: int)
    requires
        values_follow(values),
        0 <= from <= i <= values.len(),
        from < values.len(),
    ensures
        ({
            let runs = packed(values, i, values[from].start as int, target, false, values.last().end as int);
            runs.len() > 0 && (runs.len() == 1 ==> runs[0] == span(values[from].start as int, values.last().end as int))
        }),
    decreases values.len() - i,
{
    let n = values.len() as int;
    assert(values[n - 1] == values.last());
    if i < n {
        if values[i].end - values[from].start >= target && i + 1 < n {
            one_pack(values, i + 1, i + 1, target);
            if from < i {
                assert(values[from].end <= values[i].start);
            }
        } else {
            one_pack(values, from, i + 1, target);
        }
    } else if from < n - 1 {
        assert(values[from].end <= values[n - 1].start);
    }
}

/// What a host folds from the parts of a plan is what one scan answers: the one answer,
/// counts added up, or rows one behind the other.
///
/// Left out are collections whose elements answer with rows of their own: collections of
/// collections or of windows, and of paths that lead to rows. Of `[[{"a":1}],[{"a":2}]]`, a
/// collection of collections of `a` has the rows of both inner arrays, and a part takes
/// each inner array for one row without an `a`.
pub proof fn planned_parts_fold_to_the_serial_answers(b: Seq<u8>, ask: Ask, target: int, j: int)
    requires
        b.len() <= usize::MAX,
        !ask.facts,
        0 <= j < ask.demands.len(),
        folds(ask.demands[j]),
        scanned(b, ask) is Ok,
        planned_parts(b, ask) is Ok,
        parts_read(b, ranges_of(planned_parts(b, ask)->Ok_0, b.len() as int, target), ask),
    ensures
        stitched(part_answers(b, ranges_of(planned_parts(b, ask)->Ok_0, b.len() as int, target), ask, j)) == Some(
            scanned(b, ask)->Ok_0.0[j],
        ),
{
    if ask.input == JsonInput::Text {
        text_parts_fold(b, ask, target, j);
    } else {
        one_part_folds(b, ask, j);
        let parts = ranges_of(planned_parts(b, ask)->Ok_0, b.len() as int, target);
        assert(planned_parts(b, ask)->Ok_0 == PartsModel::Packed(parts)) by {
            reveal(planned_parts);
        }
        if parts != one_range(b.len() as int) {
            assert(eligible(ask.input, ask.demands, ask.ctx.dialect) && !any_filters_container(ask.demands)) by {
                reveal(planned_parts);
            }
            stream_is_held(b, ask, parts);
            stream_parts_fold(b, ask, parts, j);
        }
    }
}

} // verus!
