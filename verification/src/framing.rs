//! Frame boundaries for adjacent values, NDJSON, and JSON-seq.

use vstd::prelude::*;

use crate::ascii::{CR, LF, RECORD};
use crate::dialect::Dialect;
use crate::error::Error;
use crate::lex::skip::{
    end_at, skip_value, value_bounds, value_end, value_past_trivia, Check, Ctx, MAX_NESTING,
};
use crate::lex::stop_sets::{find_stop, run_end, run_end_facts, JsonSeqFrame, NdjsonFrame, StopSet};
use crate::lex::ws::{skip_trivia, trivia_end, trivia_end_bounds};
use crate::scan::JsonInput;
use crate::value::{span, ByteRange};

verus! {

/// Where the text starts: past a byte-order mark.
pub open spec fn text_start(b: Seq<u8>) -> int {
    if b.len() >= 3 && b[0] == 0xef && b[1] == 0xbb && b[2] == 0xbf {
        3
    } else {
        0
    }
}

/// Length of a leading byte-order mark.
#[must_use]
pub fn strip_bom(src: &[u8]) -> (r: usize)
    ensures
        r == text_start(src@),
        r <= src@.len(),
{
    if src.len() >= 3 && src[0] == 0xef && src[1] == 0xbb && src[2] == 0xbf {
        3
    } else {
        0
    }
}

/// `ranges` with `[start, end)` added when it holds a byte.
pub open spec fn with_range(ranges: Seq<ByteRange>, start: int, end: int) -> Seq<ByteRange> {
    if start < end {
        ranges.push(span(start, end))
    } else {
        ranges
    }
}

pub(crate) fn push_range(out: &mut Vec<ByteRange>, start: usize, end: usize)
    ensures
        final(out)@ == with_range(old(out)@, start as int, end as int),
{
    if start < end {
        out.push(ByteRange { start, end });
    }
}

/// Ranges hold at least one byte, lie inside `len` bytes, and come in order
/// without overlap.
pub open spec fn in_order(ranges: Seq<ByteRange>, len: int) -> bool {
    &&& forall|i: int| 0 <= i < ranges.len() ==> (#[trigger] ranges[i]).start < ranges[i].end <= len
    &&& forall|i: int| 0 <= i < ranges.len() - 1 ==> (#[trigger] ranges[i]).end <= ranges[i + 1].start
}

/// End of the NDJSON frame at `start`, its newline included.
pub open spec fn frame_end(b: Seq<u8>, start: int) -> int {
    let e = run_end::<NdjsonFrame>(b, start);
    if e + 1 < b.len() && b[e] == CR && b[e + 1] == LF {
        e + 2
    } else if e < b.len() {
        e + 1
    } else {
        b.len() as int
    }
}

/// A frame ends past its start, inside the input.
pub proof fn frame_end_bounds(b: Seq<u8>, start: int)
    requires
        0 <= start <= b.len(),
    ensures
        start <= frame_end(b, start) <= b.len(),
        start < b.len() ==> start < frame_end(b, start),
{
    run_end_facts::<NdjsonFrame>(b, start);
}

/// End of the NDJSON frame at `start`, its newline included.
pub fn ndjson_frame_end(bytes: &[u8], start: usize) -> (r: usize)
    requires
        start <= bytes@.len(),
    ensures
        r == frame_end(bytes@, start as int),
        start <= r <= bytes@.len(),
        start < bytes@.len() ==> start < r,
{
    proof {
        frame_end_bounds(bytes@, start as int);
        run_end_facts::<NdjsonFrame>(bytes@, start as int);
    }
    let len: usize = bytes.len();
    let end: usize = find_stop::<NdjsonFrame>(bytes, start);
    if end < len && bytes[end] == CR && end + 1 < len && bytes[end + 1] == LF {
        end + 2
    } else if end < len {
        end + 1
    } else {
        len
    }
}

/// NDJSON morsels from `pos`, the open one started at `start`: a morsel closes
/// at the first frame end that makes it at least `target` bytes, except at the
/// input's end.
pub open spec fn ndjson_runs(b: Seq<u8>, start: int, pos: int, target: int) -> Seq<ByteRange>
    decreases b.len() - pos,
{
    if 0 <= pos < b.len() && pos < frame_end(b, pos) {
        let e = frame_end(b, pos);
        if e - start >= target && e < b.len() {
            seq![span(start, e)] + ndjson_runs(b, e, e, target)
        } else {
            ndjson_runs(b, start, e, target)
        }
    } else if start < b.len() {
        seq![span(start, b.len() as int)]
    } else {
        Seq::empty()
    }
}

/// A morsel size: at least one byte.
pub open spec fn at_least_one(target: int) -> int {
    if target < 1 {
        1
    } else {
        target
    }
}

/// Record-aligned NDJSON morsels of about `target` bytes. Frame ends are
/// newlines, so any dialect reads the same cuts.
#[must_use]
pub fn partition_ndjson(bytes: &[u8], target: usize) -> (r: Vec<ByteRange>)
    ensures
        r@ == ndjson_runs(bytes@, 0, 0, at_least_one(target as int)),
        tiles(r@, 0, bytes@.len() as int),
        in_order(r@, bytes@.len() as int),
{
    let target: usize = if target < 1 {
        1
    } else {
        target
    };
    let len: usize = bytes.len();
    let mut out: Vec<ByteRange> = Vec::new();
    let mut start: usize = 0;
    let mut pos: usize = 0;
    let ghost whole = ndjson_runs(bytes@, 0, 0, target as int);
    proof {
        ndjson_runs_tile(bytes@, 0, 0, target as int);
        tiles_in_order(whole, 0, bytes@.len() as int);
        assert(out@ + whole =~= whole);
    }
    while pos < len
        invariant
            start <= pos <= len,
            len == bytes@.len(),
            target >= 1,
            whole == out@ + ndjson_runs(bytes@, start as int, pos as int, target as int),
        decreases len - pos,
    {
        let ghost before = out@;
        let end: usize = ndjson_frame_end(bytes, pos);
        if end - start >= target && end < len {
            push_range(&mut out, start, end);
            assert(whole =~= out@ + ndjson_runs(bytes@, end as int, end as int, target as int));
            start = end;
        }
        pos = end;
    }
    if start < len {
        push_range(&mut out, start, len);
    }
    assert(out@ =~= whole);
    out
}

/// Ranges that tile `[from, to)` without gap or overlap.
pub open spec fn tiles(ranges: Seq<ByteRange>, from: int, to: int) -> bool
    decreases ranges.len(),
{
    if ranges.len() == 0 {
        from >= to
    } else {
        ranges[0].start == from && from < ranges[0].end <= to && tiles(ranges.skip(1), ranges[0].end as int, to)
    }
}

/// Tiling ranges are in order.
proof fn tiles_in_order(ranges: Seq<ByteRange>, from: int, to: int)
    requires
        tiles(ranges, from, to),
    ensures
        in_order(ranges, to),
        ranges.len() > 0 ==> ranges[0].start == from,
    decreases ranges.len(),
{
    if ranges.len() > 0 {
        let rest = ranges.skip(1);
        tiles_in_order(rest, ranges[0].end as int, to);
        assert forall|i: int| 0 <= i < ranges.len() implies (#[trigger] ranges[i]).start < ranges[i].end <= to by {
            if i > 0 {
                assert(rest[i - 1] == ranges[i]);
            }
        }
        assert forall|i: int| 0 <= i < ranges.len() - 1 implies (#[trigger] ranges[i]).end <= ranges[i + 1].start by {
            assert(rest[i] == ranges[i + 1]);
            if i > 0 {
                assert(rest[i - 1] == ranges[i]);
            }
        }
    }
}

/// NDJSON morsels tile what they cut.
proof fn ndjson_runs_tile(b: Seq<u8>, start: int, pos: int, target: int)
    requires
        0 <= start <= pos <= b.len() <= usize::MAX,
    ensures
        tiles(ndjson_runs(b, start, pos, target), start, b.len() as int),
    decreases b.len() - pos,
{
    frame_end_bounds(b, pos);
    if pos < b.len() {
        let e = frame_end(b, pos);
        if e - start >= target && e < b.len() {
            ndjson_runs_tile(b, e, e, target);
            let rest = ndjson_runs(b, e, e, target);
            assert((seq![span(start, e)] + rest).skip(1) =~= rest);
        } else {
            ndjson_runs_tile(b, start, e, target);
        }
    } else if start < b.len() {
        reveal_with_fuel(tiles, 2);
        assert(seq![span(start, b.len() as int)].skip(1).len() == 0);
    }
}

/// Whether `pos` is a record boundary: the input's start or end, or just past a frame.
pub open spec fn record_boundary(b: Seq<u8>, from: int, pos: int) -> bool
    decreases b.len() - from,
{
    pos == from || (0 <= from < b.len() && from < frame_end(b, from) && record_boundary(b, frame_end(b, from), pos))
}

/// Every NDJSON morsel ends at a record boundary.
pub proof fn ndjson_morsels_end_at_records(b: Seq<u8>, start: int, pos: int, target: int)
    requires
        0 <= start <= pos <= b.len() <= usize::MAX,
    ensures
        forall|i: int|
            0 <= i < ndjson_runs(b, start, pos, target).len() ==> record_boundary(
                b,
                pos,
                (#[trigger] ndjson_runs(b, start, pos, target)[i]).end as int,
            ),
    decreases b.len() - pos,
{
    frame_end_bounds(b, pos);
    let runs = ndjson_runs(b, start, pos, target);
    if pos < b.len() {
        let e = frame_end(b, pos);
        if e - start >= target && e < b.len() {
            ndjson_morsels_end_at_records(b, e, e, target);
            let rest = ndjson_runs(b, e, e, target);
            assert forall|i: int| 0 <= i < runs.len() implies record_boundary(b, pos, (#[trigger] runs[i]).end as int) by {
                if i > 0 {
                    assert(rest[i - 1] == runs[i]);
                } else {
                    assert(record_boundary(b, e, e));
                }
            }
        } else {
            ndjson_morsels_end_at_records(b, start, e, target);
            let rest = ndjson_runs(b, start, e, target);
            assert(runs == rest);
            assert forall|i: int| 0 <= i < runs.len() implies record_boundary(b, pos, (#[trigger] runs[i]).end as int) by {
                assert(record_boundary(b, e, rest[i].end as int));
            }
        }
    }
}

/// The skip context of a located value.
pub open spec fn locating(max: u32, dialect: Dialect) -> Ctx {
    Ctx { check: Check::Locate, max, dialect }
}

/// The adjacent values from `pos`, which is past trivia.
pub open spec fn values_from(b: Seq<u8>, pos: int, max: u32, dialect: Dialect) -> Result<Seq<ByteRange>, Error>
    decreases b.len() - pos,
{
    if 0 <= pos < b.len() {
        match end_at(value_past_trivia(b, pos, locating(max, dialect), 0)) {
            Err(error) => Err(error),
            Ok(e) => match trivia_end(b, e, dialect) {
                Err(error) => Err(error),
                Ok(next) => if pos < next <= b.len() {
                    match values_from(b, next, max, dialect) {
                        Err(error) => Err(error),
                        Ok(rest) => Ok(seq![span(pos, e)] + rest),
                    }
                } else {
                    Ok(seq![span(pos, e)])
                },
            },
        }
    } else {
        Ok(Seq::empty())
    }
}

/// The adjacent values of a source.
pub open spec fn adjacent(b: Seq<u8>, max: u32, dialect: Dialect) -> Result<Seq<ByteRange>, Error> {
    match trivia_end(b, text_start(b), dialect) {
        Err(error) => Err(error),
        Ok(pos) => values_from(b, pos, max, dialect),
    }
}

/// Ranges put in front of others.
pub open spec fn after(acc: Seq<ByteRange>, rest: Result<Seq<ByteRange>, Error>) -> Result<Seq<ByteRange>, Error> {
    match rest {
        Err(error) => Err(error),
        Ok(more) => Ok(acc + more),
    }
}

/// Whether an executable list of ranges is the one named.
pub open spec fn lists_as(r: Result<Vec<ByteRange>, Error>, named: Result<Seq<ByteRange>, Error>) -> bool {
    match named {
        Ok(ranges) => r matches Ok(x) && x@ == ranges,
        Err(error) => r == Err::<Vec<ByteRange>, Error>(error),
    }
}

proof fn value_past_trivia_bounds(b: Seq<u8>, pos: int, ctx: Ctx)
    requires
        0 <= pos <= b.len(),
    ensures
        end_at(value_past_trivia(b, pos, ctx, 0)) matches Ok(e) ==> pos < e <= b.len(),
{
    trivia_end_bounds(b, pos, ctx.dialect);
    if let Ok(p) = trivia_end(b, pos, ctx.dialect) {
        value_bounds(b, p, ctx, 0);
    }
}

/// Adjacent values are in order, from `pos` on.
proof fn values_from_in_order(b: Seq<u8>, pos: int, max: u32, dialect: Dialect)
    requires
        0 <= pos <= b.len() <= usize::MAX,
    ensures
        values_from(b, pos, max, dialect) matches Ok(ranges) ==> in_order(ranges, b.len() as int) && (ranges.len() > 0
            ==> ranges[0].start >= pos),
    decreases b.len() - pos,
{
    if pos < b.len() {
        value_past_trivia_bounds(b, pos, locating(max, dialect));
        if let Ok(e) = end_at(value_past_trivia(b, pos, locating(max, dialect), 0)) {
            trivia_end_bounds(b, e, dialect);
            if let Ok(next) = trivia_end(b, e, dialect) {
                values_from_in_order(b, next, max, dialect);
                if let Ok(rest) = values_from(b, next, max, dialect) {
                    let all = seq![span(pos, e)] + rest;
                    assert forall|i: int| 0 <= i < all.len() implies (#[trigger] all[i]).start < all[i].end
                        <= b.len() by {
                        if i > 0 {
                            assert(all[i] == rest[i - 1]);
                        }
                    }
                    assert forall|i: int| 0 <= i < all.len() - 1 implies (#[trigger] all[i]).end <= all[i
                        + 1].start by {
                        assert(all[i + 1] == rest[i]);
                        if i > 0 {
                            assert(all[i] == rest[i - 1]);
                        }
                    }
                }
            }
        }
    }
}

/// Locate every adjacent value.
pub fn adjacent_values(bytes: &[u8], max: u32, dialect: Dialect) -> (r: Result<Vec<ByteRange>, Error>)
    ensures
        lists_as(r, adjacent(bytes@, max, dialect)),
        r matches Ok(ranges) ==> in_order(ranges@, bytes@.len() as int),
{
    let len: usize = bytes.len();
    let mut out: Vec<ByteRange> = Vec::new();
    let bom: usize = strip_bom(bytes);
    let mut pos: usize = skip_trivia(bytes, bom, dialect)?;
    let ghost whole = values_from(bytes@, pos as int, max, dialect);
    proof {
        values_from_in_order(bytes@, pos as int, max, dialect);
        if let Ok(more) = whole {
            assert(out@ + more =~= more);
        }
    }
    while pos < len
        invariant
            pos <= len,
            len == bytes@.len(),
            whole == after(out@, values_from(bytes@, pos as int, max, dialect)),
            whole == adjacent(bytes@, max, dialect),
            whole matches Ok(ranges) ==> in_order(ranges, len as int),
        decreases len - pos,
    {
        let start: usize = pos;
        let end: usize = skip_value(bytes, pos, Check::Locate, max, dialect)?;
        let ghost before = out@;
        push_range(&mut out, start, end);
        pos = skip_trivia(bytes, end, dialect)?;
        proof {
            if let Ok(more) = values_from(bytes@, pos as int, max, dialect) {
                assert(before + (seq![span(start as int, end as int)] + more) =~= out@ + more);
            }
        }
    }
    assert(out@ + Seq::<ByteRange>::empty() =~= out@);
    Ok(out)
}

/// The complete adjacent values from `pos`, and where location stopped.
pub open spec fn split_from(b: Seq<u8>, pos: int, max: u32, dialect: Dialect) -> (Seq<ByteRange>, int)
    decreases b.len() - pos,
{
    if 0 <= pos < b.len() {
        match end_at(value_past_trivia(b, pos, locating(max, dialect), 0)) {
            Err(_) => (Seq::empty(), pos),
            Ok(e) => match trivia_end(b, e, dialect) {
                Err(_) => (seq![span(pos, e)], e),
                Ok(next) => if pos < next <= b.len() {
                    (seq![span(pos, e)] + split_from(b, next, max, dialect).0, split_from(b, next, max, dialect).1)
                } else {
                    (seq![span(pos, e)], next)
                },
            },
        }
    } else {
        (Seq::empty(), pos)
    }
}

/// The complete adjacent values of a source, and the tail where location stopped.
pub open spec fn split(b: Seq<u8>, max: u32, dialect: Dialect) -> (Seq<ByteRange>, int) {
    match trivia_end(b, text_start(b), dialect) {
        Err(_) => (Seq::empty(), 0),
        Ok(pos) => split_from(b, pos, max, dialect),
    }
}

/// Where every value is complete, splitting finds the same values and no tail.
pub proof fn split_agrees_with_adjacent(b: Seq<u8>, pos: int, max: u32, dialect: Dialect)
    requires
        0 <= pos <= b.len(),
        values_from(b, pos, max, dialect) is Ok,
    ensures
        split_from(b, pos, max, dialect) == (values_from(b, pos, max, dialect)->Ok_0, b.len() as int),
    decreases b.len() - pos,
{
    if pos < b.len() {
        value_past_trivia_bounds(b, pos, locating(max, dialect));
        if let Ok(e) = end_at(value_past_trivia(b, pos, locating(max, dialect), 0)) {
            trivia_end_bounds(b, e, dialect);
            if let Ok(next) = trivia_end(b, e, dialect) {
                split_agrees_with_adjacent(b, next, max, dialect);
            }
        }
    }
}

/// One more range after the others keeps them in order.
proof fn in_order_push(ranges: Seq<ByteRange>, start: int, end: int, len: int)
    requires
        in_order(ranges, len),
        ranges.len() > 0 ==> ranges.last().end <= start,
        0 <= start < end <= len <= usize::MAX,
    ensures
        in_order(with_range(ranges, start, end), len),
{
    let all = with_range(ranges, start, end);
    assert forall|i: int| 0 <= i < all.len() implies (#[trigger] all[i]).start < all[i].end <= len by {
        if i < ranges.len() {
            assert(all[i] == ranges[i]);
        }
    }
    assert forall|i: int| 0 <= i < all.len() - 1 implies (#[trigger] all[i]).end <= all[i + 1].start by {
        assert(all[i] == ranges[i]);
        if i + 1 < ranges.len() {
            assert(all[i + 1] == ranges[i + 1]);
        }
    }
}

/// One located value moves from the rest into what was found.
proof fn split_step(b: Seq<u8>, acc: Seq<ByteRange>, pos: int, e: int, next: int, max: u32, dialect: Dialect)
    requires
        0 <= pos < b.len(),
        end_at(value_past_trivia(b, pos, locating(max, dialect), 0)) == Ok::<int, Error>(e),
        trivia_end(b, e, dialect) == Ok::<int, Error>(next),
    ensures
        pos < e <= next <= b.len(),
        acc + split_from(b, pos, max, dialect).0 == with_range(acc, pos, e) + split_from(b, next, max, dialect).0,
        split_from(b, pos, max, dialect).1 == split_from(b, next, max, dialect).1,
{
    value_past_trivia_bounds(b, pos, locating(max, dialect));
    trivia_end_bounds(b, e, dialect);
    let rest = split_from(b, next, max, dialect).0;
    assert(acc + (seq![span(pos, e)] + rest) =~= with_range(acc, pos, e) + rest);
}

/// Complete value ranges plus the tail offset where location stopped. The tail
/// is a partial value, trailing garbage, or the end. Unlike
/// [`adjacent_values`], a bad tail does not fail the leading ranges.
pub fn adjacent_split(bytes: &[u8], max: u32, dialect: Dialect) -> (r: (Vec<ByteRange>, usize))
    ensures
        r.0@ == split(bytes@, max, dialect).0,
        r.1 == split(bytes@, max, dialect).1,
        r.1 <= bytes@.len(),
        in_order(r.0@, bytes@.len() as int),
        r.0@.len() > 0 ==> r.0@.last().end <= r.1,
{
    let len: usize = bytes.len();
    let mut out: Vec<ByteRange> = Vec::new();
    let bom: usize = strip_bom(bytes);
    let mut pos: usize = match skip_trivia(bytes, bom, dialect) {
        Ok(pos) => pos,
        Err(_) => return (out, 0),
    };
    let ghost whole = split_from(bytes@, pos as int, max, dialect);
    assert(out@ + whole.0 =~= whole.0);
    while pos < len
        invariant
            pos <= len,
            len == bytes@.len(),
            whole == split(bytes@, max, dialect),
            whole.0 == out@ + split_from(bytes@, pos as int, max, dialect).0,
            whole.1 == split_from(bytes@, pos as int, max, dialect).1,
            in_order(out@, len as int),
            out@.len() > 0 ==> out@.last().end <= pos,
        decreases len - pos,
    {
        let start: usize = pos;
        let end: usize = match skip_value(bytes, pos, Check::Locate, max, dialect) {
            Ok(end) => end,
            Err(_) => {
                assert(out@ + Seq::<ByteRange>::empty() =~= out@);
                return (out, pos);
            },
        };
        let ghost before = out@;
        push_range(&mut out, start, end);
        proof {
            in_order_push(before, start as int, end as int, len as int);
        }
        match skip_trivia(bytes, end, dialect) {
            Ok(next) => {
                pos = next;
                proof {
                    split_step(bytes@, before, start as int, end as int, next as int, max, dialect);
                }
            },
            Err(_) => {
                assert(before + seq![span(start as int, end as int)] =~= out@);
                return (out, end);
            },
        }
    }
    assert(out@ + Seq::<ByteRange>::empty() =~= out@);
    (out, pos)
}

/// End of the longest prefix, from `pos`, of complete values: `end` is where
/// the last one that cannot extend ended.
pub open spec fn prefix_from(b: Seq<u8>, pos: int, end: int, max: u32, dialect: Dialect) -> int
    decreases b.len() - pos,
{
    if 0 <= pos < b.len() {
        match end_at(value_past_trivia(b, pos, locating(max, dialect), 0)) {
            Err(_) => end,
            Ok(e) => match trivia_end(b, e, dialect) {
                Err(_) => end,
                Ok(next) => if next == b.len() && next == e {
                    end
                } else if pos < next <= b.len() {
                    prefix_from(b, next, next, max, dialect)
                } else {
                    end
                },
            },
        }
    } else {
        end
    }
}

/// End of the longest prefix of complete adjacent values, trailing trivia included.
pub open spec fn adjacent_prefix(b: Seq<u8>, max: u32, dialect: Dialect) -> int {
    match trivia_end(b, text_start(b), dialect) {
        Err(_) => 0,
        Ok(pos) => prefix_from(b, pos, pos, max, dialect),
    }
}

/// End of the longest prefix holding only complete values, trailing trivia
/// included. A value touching the end without trailing trivia stays out: it may
/// extend. Feeders drain the prefix and hold the rest.
#[must_use]
pub fn adjacent_prefix_len(bytes: &[u8], max_nesting: u32, dialect: Dialect) -> (r: usize)
    ensures
        r == adjacent_prefix(bytes@, max_nesting, dialect),
        r <= bytes@.len(),
{
    let len: usize = bytes.len();
    let bom: usize = strip_bom(bytes);
    let mut pos: usize = match skip_trivia(bytes, bom, dialect) {
        Ok(pos) => pos,
        Err(_) => return 0,
    };
    let mut end: usize = pos;
    while pos < len
        invariant
            pos <= len,
            end <= len,
            len == bytes@.len(),
            adjacent_prefix(bytes@, max_nesting, dialect) == prefix_from(
                bytes@,
                pos as int,
                end as int,
                max_nesting,
                dialect,
            ),
        decreases len - pos,
    {
        let value_end: usize = match skip_value(bytes, pos, Check::Locate, max_nesting, dialect) {
            Ok(end) => end,
            Err(_) => return end,
        };
        let next: usize = match skip_trivia(bytes, value_end, dialect) {
            Ok(next) => next,
            Err(_) => return end,
        };
        if next == len && next == value_end {
            return end;
        }
        end = next;
        pos = next;
    }
    end
}

/// Where a run of packed values ends: at the next value, or at its own last one.
pub open spec fn run_close(values: Seq<ByteRange>, i: int, contiguous: bool) -> int {
    if contiguous {
        values[i + 1].start as int
    } else {
        values[i].end as int
    }
}

/// Whole values packed into runs of at least `target` bytes, from value `i` on,
/// the open run started at `start`.
pub open spec fn packed(
    values: Seq<ByteRange>,
    i: int,
    start: int,
    target: int,
    contiguous: bool,
    final_end: int,
) -> Seq<ByteRange>
    decreases values.len() - i,
{
    if 0 <= i < values.len() {
        if values[i].end - start >= target && i + 1 < values.len() {
            with_range(Seq::empty(), start, run_close(values, i, contiguous)) + packed(
                values,
                i + 1,
                values[i + 1].start as int,
                target,
                contiguous,
                final_end,
            )
        } else {
            packed(values, i + 1, start, target, contiguous, final_end)
        }
    } else {
        with_range(Seq::empty(), start, final_end)
    }
}

/// All values packed into runs.
pub open spec fn packed_runs(values: Seq<ByteRange>, target: int, contiguous: bool, final_end: int) -> Seq<ByteRange> {
    if values.len() == 0 {
        Seq::empty()
    } else {
        packed(values, 0, values[0].start as int, at_least_one(target), contiguous, final_end)
    }
}

/// Packed runs of values in order are in order, from `start` on.
proof fn packed_in_order(
    values: Seq<ByteRange>,
    i: int,
    start: int,
    target: int,
    contiguous: bool,
    final_end: int,
    len: int,
)
    requires
        in_order(values, len),
        values.len() > 0,
        0 <= i <= values.len(),
        0 <= start,
        i < values.len() ==> start <= values[i].start,
        i == values.len() ==> start <= values.last().end,
        values.last().end <= final_end <= len <= usize::MAX,
    ensures
        in_order(packed(values, i, start, target, contiguous, final_end), len),
        packed(values, i, start, target, contiguous, final_end).len() > 0 ==> packed(
            values,
            i,
            start,
            target,
            contiguous,
            final_end,
        )[0].start >= start,
    decreases values.len() - i,
{
    if i < values.len() {
        assert(values[i].start < values[i].end);
        if values[i].end - start >= target && i + 1 < values.len() {
            assert(values[i].end <= values[i + 1].start);
            assert(values[i + 1].start < values[i + 1].end <= len);
            packed_in_order(values, i + 1, values[i + 1].start as int, target, contiguous, final_end, len);
            let rest = packed(values, i + 1, values[i + 1].start as int, target, contiguous, final_end);
            let head = with_range(Seq::empty(), start, run_close(values, i, contiguous));
            let all = head + rest;
            assert(head =~= seq![span(start, run_close(values, i, contiguous))]);
            assert forall|k: int| 0 <= k < all.len() implies (#[trigger] all[k]).start < all[k].end <= len by {
                if k > 0 {
                    assert(all[k] == rest[k - 1]);
                }
            }
            assert forall|k: int| 0 <= k < all.len() - 1 implies (#[trigger] all[k]).end <= all[k + 1].start by {
                assert(all[k + 1] == rest[k]);
                if k > 0 {
                    assert(all[k] == rest[k - 1]);
                }
            }
        } else {
            if i + 1 < values.len() {
                assert(values[i].end <= values[i + 1].start);
            }
            packed_in_order(values, i + 1, start, target, contiguous, final_end, len);
        }
    }
}

/// Ranges that hold at least one byte and lie inside `len` bytes.
pub open spec fn each_inside(ranges: Seq<ByteRange>, len: int) -> bool {
    forall|i: int| 0 <= i < ranges.len() ==> (#[trigger] ranges[i]).start < ranges[i].end <= len
}

/// Packed runs of values inside the input are inside the input.
proof fn packed_inside(
    values: Seq<ByteRange>,
    i: int,
    start: int,
    target: int,
    contiguous: bool,
    final_end: int,
    len: int,
)
    requires
        each_inside(values, len),
        0 <= i <= values.len(),
        0 <= start <= usize::MAX,
        final_end <= len <= usize::MAX,
    ensures
        each_inside(packed(values, i, start, target, contiguous, final_end), len),
    decreases values.len() - i,
{
    if i < values.len() {
        if values[i].end - start >= target && i + 1 < values.len() {
            packed_inside(values, i + 1, values[i + 1].start as int, target, contiguous, final_end, len);
            let rest = packed(values, i + 1, values[i + 1].start as int, target, contiguous, final_end);
            let head = with_range(Seq::empty(), start, run_close(values, i, contiguous));
            let all = head + rest;
            assert(values[i + 1].start < values[i + 1].end <= len);
            assert forall|k: int| 0 <= k < all.len() implies (#[trigger] all[k]).start < all[k].end <= len by {
                if k >= head.len() {
                    assert(all[k] == rest[k - head.len()]);
                } else {
                    assert(all[k] == head[k]);
                }
            }
        } else {
            packed_inside(values, i + 1, start, target, contiguous, final_end, len);
        }
    }
}

/// Pack whole values into runs of at least `target` bytes. When `contiguous`,
/// each sealed run ends at the next value's start. Otherwise it ends at the
/// value itself. `final_end` closes the last run.
pub fn pack_runs(values: &[ByteRange], target: usize, contiguous: bool, final_end: usize) -> (r: Vec<ByteRange>)
    ensures
        r@ == packed_runs(values@, target as int, contiguous, final_end as int),
{
    let target: usize = if target < 1 {
        1
    } else {
        target
    };
    let mut out: Vec<ByteRange> = Vec::new();
    if values.len() == 0 {
        return out;
    }
    let mut start: usize = values[0].start;
    let mut i: usize = 0;
    let ghost whole = packed(values@, 0, start as int, target as int, contiguous, final_end as int);
    assert(out@ + whole =~= whole);
    while i < values.len()
        invariant
            i <= values@.len(),
            whole == out@ + packed(values@, i as int, start as int, target as int, contiguous, final_end as int),
        decreases values@.len() - i,
    {
        let value: ByteRange = values[i];
        if value.end >= start && value.end - start >= target && i + 1 < values.len() {
            let end: usize = if contiguous {
                values[i + 1].start
            } else {
                value.end
            };
            let ghost before = out@;
            push_range(&mut out, start, end);
            start = values[i + 1].start;
            proof {
                let rest = packed(values@, i + 1, start as int, target as int, contiguous, final_end as int);
                assert(whole =~= out@ + rest);
            }
        }
        i = i + 1;
    }
    let ghost before = out@;
    push_range(&mut out, start, final_end);
    assert(out@ =~= whole);
    out
}

/// The runs of a list of values.
pub open spec fn packed_values(values: Seq<ByteRange>, target: int) -> Seq<ByteRange> {
    packed_runs(
        values,
        target,
        false,
        if values.len() > 0 {
            values.last().end as int
        } else {
            0
        },
    )
}

fn pack_ranges(values: &[ByteRange], target: usize) -> (r: Vec<ByteRange>)
    ensures
        r@ == packed_values(values@, target as int),
{
    let last_end: usize = if values.len() > 0 {
        values[values.len() - 1].end
    } else {
        0
    };
    pack_runs(values, target, false, last_end)
}

/// Top-level adjacent-value morsels of about `target` bytes; none when some
/// value does not locate. RFC 8259 only; callers gate commenting dialects out
/// of this cut.
#[must_use]
pub fn partition_adjacent(bytes: &[u8], target: usize) -> (r: Vec<ByteRange>)
    ensures
        r@ == (match adjacent(bytes@, MAX_NESTING, Dialect::Rfc8259) {
            Ok(values) => packed_values(values, target as int),
            Err(_) => Seq::empty(),
        }),
        in_order(r@, bytes@.len() as int),
{
    let len: usize = bytes.len();
    match adjacent_values(bytes, MAX_NESTING, Dialect::Rfc8259) {
        Ok(values) => {
            proof {
                if values@.len() > 0 {
                    assert(values@[0].start < values@[0].end);
                    assert(values@.last().start < values@.last().end <= len);
                    packed_in_order(
                        values@,
                        0,
                        values@[0].start as int,
                        at_least_one(target as int),
                        false,
                        values@.last().end as int,
                        len as int,
                    );
                }
            }
            pack_ranges(values.as_slice(), target)
        },
        Err(_) => Vec::new(),
    }
}

/// The payload of one JSON-seq record: where its value starts and ends, when it
/// holds one. A value is located inside its record.
#[verifier::opaque]
pub open spec fn seq_payload(
    b: Seq<u8>,
    rec_start: int,
    rec_end: int,
    max: u32,
    dialect: Dialect,
    locate: bool,
) -> Result<Option<(int, int)>, Error> {
    match trivia_end(b.subrange(rec_start, rec_end), 0, dialect) {
        Err(error) => Err(error),
        Ok(inner) => if inner < rec_end - rec_start {
            if locate {
                match end_at(value_past_trivia(b.take(rec_end), rec_start + inner, locating(max, dialect), 0)) {
                    Err(error) => Err(error),
                    Ok(e) => Ok(Some((rec_start + inner, e))),
                }
            } else {
                Ok(Some((rec_start + inner, rec_end)))
            }
        } else {
            Ok(None)
        },
    }
}

/// Where the JSON-seq record at `pos` starts: past its separator.
pub open spec fn record_start(b: Seq<u8>, pos: int) -> int {
    if b[pos] == RECORD {
        pos + 1
    } else {
        pos
    }
}

/// Payload ranges of the JSON-seq records from `pos` on.
pub open spec fn seq_from(b: Seq<u8>, pos: int, max: u32, dialect: Dialect, locate: bool) -> Result<Seq<ByteRange>, Error>
    decreases b.len() - pos,
{
    if 0 <= pos < b.len() {
        let start = record_start(b, pos);
        let end = run_end::<JsonSeqFrame>(b, start);
        match seq_payload(b, start, end, max, dialect, locate) {
            Err(error) => Err(error),
            Ok(payload) => {
                let head = payload_range(payload);
                if pos < end <= b.len() {
                    after(head, seq_from(b, end, max, dialect, locate))
                } else {
                    Ok(head)
                }
            },
        }
    } else {
        Ok(Seq::empty())
    }
}

/// The range a record's payload is.
pub open spec fn payload_range(payload: Option<(int, int)>) -> Seq<ByteRange> {
    match payload {
        Some((s, e)) => with_range(Seq::empty(), s, e),
        None => Seq::empty(),
    }
}

/// One record moves from the rest into what was found.
proof fn seq_step(b: Seq<u8>, acc: Seq<ByteRange>, pos: int, max: u32, dialect: Dialect, locate: bool)
    requires
        0 <= pos < b.len(),
    ensures
        ({
            let start = record_start(b, pos);
            let end = run_end::<JsonSeqFrame>(b, start);
            &&& pos <= start <= end <= b.len()
            &&& pos < end
            &&& after(acc, seq_from(b, pos, max, dialect, locate)) == (match seq_payload(
                b,
                start,
                end,
                max,
                dialect,
                locate,
            ) {
                Err(error) => Err(error),
                Ok(payload) => after(acc + payload_range(payload), seq_from(b, end, max, dialect, locate)),
            })
        }),
{
    let start = record_start(b, pos);
    run_end_facts::<JsonSeqFrame>(b, start);
    if start == pos {
        assert(!JsonSeqFrame::stops(b[pos]));
    }
    let end = run_end::<JsonSeqFrame>(b, start);
    if let Ok(payload) = seq_payload(b, start, end, max, dialect, locate) {
        if let Ok(more) = seq_from(b, end, max, dialect, locate) {
            assert(acc + (payload_range(payload) + more) =~= (acc + payload_range(payload)) + more);
        }
    }
}

/// The payload of the record `[start, end)`.
pub(crate) fn record_payload(bytes: &[u8], start: usize, end: usize, max: u32, dialect: Dialect, locate: bool) -> (r: Result<
    Option<(usize, usize)>,
    Error,
>)
    requires
        start <= end <= bytes@.len(),
    ensures
        match seq_payload(bytes@, start as int, end as int, max, dialect, locate) {
            Err(error) => r == Err::<Option<(usize, usize)>, Error>(error),
            Ok(Some((s, e))) => r matches Ok(Some((x, y))) && x == s && y == e && e <= bytes@.len(),
            Ok(None) => r matches Ok(None),
        },
{
    proof {
        reveal(seq_payload);
    }
    let record: &[u8] = vstd::slice::slice_subrange(bytes, start, end);
    let inner: usize = skip_trivia(record, 0, dialect)?;
    if inner < end - start {
        let value_start: usize = start + inner;
        let value_end: usize = if locate {
            let text: &[u8] = vstd::slice::slice_subrange(bytes, 0, end);
            assert(text@ =~= bytes@.take(end as int));
            skip_value(text, value_start, Check::Locate, max, dialect)?
        } else {
            end
        };
        Ok(Some((value_start, value_end)))
    } else {
        Ok(None)
    }
}

/// Payload ranges of every JSON-seq record: skip the record separator and
/// leading trivia, then close the range at the located value (`locate`).
/// Without `locate`, the range ends at the record end.
pub fn json_seq_ranges(bytes: &[u8], max: u32, dialect: Dialect, locate: bool) -> (r: Result<Vec<ByteRange>, Error>)
    ensures
        lists_as(r, seq_from(bytes@, 0, max, dialect, locate)),
        r matches Ok(ranges) ==> forall|i: int|
            0 <= i < ranges@.len() ==> (#[trigger] ranges@[i]).start < ranges@[i].end <= bytes@.len(),
{
    let len: usize = bytes.len();
    let mut out: Vec<ByteRange> = Vec::new();
    let mut pos: usize = 0;
    let ghost whole = seq_from(bytes@, 0, max, dialect, locate);
    proof {
        if let Ok(more) = whole {
            assert(out@ + more =~= more);
        }
    }
    while pos < len
        invariant
            pos <= len,
            len == bytes@.len(),
            whole == seq_from(bytes@, 0, max, dialect, locate),
            whole == after(out@, seq_from(bytes@, pos as int, max, dialect, locate)),
            forall|i: int| 0 <= i < out@.len() ==> (#[trigger] out@[i]).start < out@[i].end <= len,
        decreases len - pos,
    {
        let start: usize = if bytes[pos] == RECORD {
            pos + 1
        } else {
            pos
        };
        proof {
            seq_step(bytes@, out@, pos as int, max, dialect, locate);
        }
        let end: usize = find_stop::<JsonSeqFrame>(bytes, start);
        let ghost before = out@;
        match record_payload(bytes, start, end, max, dialect, locate)? {
            Some((s, e)) => {
                push_range(&mut out, s, e);
                assert(out@ =~= before + with_range(Seq::empty(), s as int, e as int));
            },
            None => {
                assert(out@ =~= before + Seq::<ByteRange>::empty());
            },
        }
        pos = end;
    }
    assert(out@ + Seq::<ByteRange>::empty() =~= out@);
    Ok(out)
}

/// JSON-seq morsels of about `target` bytes; none when some record does not
/// locate. RFC 8259 only; callers gate commenting dialects out of this cut.
#[must_use]
pub fn partition_json_seq(bytes: &[u8], target: usize) -> (r: Vec<ByteRange>)
    ensures
        r@ == (match seq_from(bytes@, 0, MAX_NESTING, Dialect::Rfc8259, true) {
            Ok(values) => packed_values(values, target as int),
            Err(_) => Seq::empty(),
        }),
        each_inside(r@, bytes@.len() as int),
{
    let len: usize = bytes.len();
    match json_seq_ranges(bytes, MAX_NESTING, Dialect::Rfc8259, true) {
        Ok(values) => {
            proof {
                if values@.len() > 0 {
                    assert(values@.last().end <= len);
                    packed_inside(
                        values@,
                        0,
                        values@[0].start as int,
                        at_least_one(target as int),
                        false,
                        values@.last().end as int,
                        len as int,
                    );
                }
            }
            pack_ranges(values.as_slice(), target)
        },
        Err(_) => Vec::new(),
    }
}

/// Whether the input ends with a newline byte.
pub open spec fn ends_line(b: Seq<u8>) -> bool {
    b.len() > 0 && (b.last() == LF || b.last() == CR)
}

/// End of the complete frames from `pos`: a frame that reaches the end without
/// a terminator may still grow.
pub open spec fn complete_frames(b: Seq<u8>, pos: int) -> int
    decreases b.len() - pos,
{
    if 0 <= pos < b.len() && pos < frame_end(b, pos) {
        let e = frame_end(b, pos);
        if e >= b.len() && !ends_line(b) {
            pos
        } else {
            complete_frames(b, e)
        }
    } else {
        pos
    }
}

/// Leading bytes holding complete frames.
pub open spec fn complete_prefix(b: Seq<u8>, input: JsonInput) -> int {
    match input {
        JsonInput::Ndjson => complete_frames(b, 0),
        JsonInput::JsonSeq => complete_frames(b, 0),
        _ => b.len() as int,
    }
}

/// Leading bytes holding complete frames. A growing tail feeds only this prefix
/// and holds the rest back until it completes. NDJSON and JSON-seq end a frame
/// at a newline. Text holds nothing back. Adjacent holds nothing back here; its
/// feeders use [`adjacent_prefix_len`].
#[must_use]
pub fn complete_prefix_len(bytes: &[u8], input: JsonInput) -> (r: usize)
    ensures
        r == complete_prefix(bytes@, input),
        r <= bytes@.len(),
{
    let len: usize = bytes.len();
    match input {
        JsonInput::Text => len,
        JsonInput::Adjacent => len,
        _ => {
            let mut pos: usize = 0;
            while pos < len
                invariant
                    pos <= len,
                    len == bytes@.len(),
                    complete_frames(bytes@, 0) == complete_frames(bytes@, pos as int),
                    complete_prefix(bytes@, input) == complete_frames(bytes@, 0),
                decreases len - pos,
            {
                let next: usize = ndjson_frame_end(bytes, pos);
                if next >= len && bytes[len - 1] != LF && bytes[len - 1] != CR {
                    return pos;
                }
                pos = next;
            }
            pos
        },
    }
}

/// A frame that ends inside a prefix ends there in the prefix too.
proof fn frame_end_in_prefix(b: Seq<u8>, pos: int, n: int)
    requires
        0 <= pos < frame_end(b, pos) <= n <= b.len(),
    ensures
        frame_end(b.take(n), pos) == frame_end(b, pos),
{
    let t = b.take(n);
    run_end_facts::<NdjsonFrame>(b, pos);
    run_end_facts::<NdjsonFrame>(t, pos);
    let e = run_end::<NdjsonFrame>(b, pos);
    let f = run_end::<NdjsonFrame>(t, pos);
    if f < e && f < n {
        assert(t[f] == b[f]);
    }
    if e < f {
        assert(t[e] == b[e]);
    }
}

/// The complete frames of a text are all complete in the prefix that they make up.
proof fn complete_frames_alone(b: Seq<u8>, pos: int)
    requires
        0 <= pos <= b.len(),
    ensures
        pos <= complete_frames(b, pos) <= b.len(),
        complete_frames(b.take(complete_frames(b, pos)), pos) == complete_frames(b, pos),
        complete_frames(b, pos) > pos ==> ends_line(b.take(complete_frames(b, pos))),
    decreases b.len() - pos,
{
    frame_end_bounds(b, pos);
    let e = frame_end(b, pos);
    let n = complete_frames(b, pos);
    if pos < b.len() && !(e >= b.len() && !ends_line(b)) {
        complete_frames_alone(b, e);
        frame_end_in_prefix(b, pos, n);
        run_end_facts::<NdjsonFrame>(b, pos);
        if n == e {
            assert(b.take(n).last() == b[e - 1]);
        }
    }
}

/// A complete prefix ends at a record boundary, and feeding it alone holds
/// nothing back.
pub proof fn complete_prefix_is_complete(b: Seq<u8>, pos: int)
    requires
        0 <= pos <= b.len(),
    ensures
        pos <= complete_frames(b, pos) <= b.len(),
        record_boundary(b, pos, complete_frames(b, pos)),
        complete_frames(b.take(complete_frames(b, pos)), pos) == complete_frames(b, pos),
    decreases b.len() - pos,
{
    frame_end_bounds(b, pos);
    complete_frames_alone(b, pos);
    if pos < b.len() && !(frame_end(b, pos) >= b.len() && !ends_line(b)) {
        complete_prefix_is_complete(b, frame_end(b, pos));
    }
}

/// One past the last byte of `[from, to)` that is no newline; `from` when all are.
pub open spec fn body_end(b: Seq<u8>, from: int, to: int) -> int
    decreases to - from,
{
    if from < to && (b[to - 1] == LF || b[to - 1] == CR) {
        body_end(b, from, to - 1)
    } else {
        to
    }
}

/// Payload ranges of the NDJSON records from `pos` on, blank lines skipped.
pub open spec fn payloads_from(b: Seq<u8>, pos: int, dialect: Dialect) -> Result<Seq<ByteRange>, Error>
    decreases b.len() - pos,
{
    if 0 <= pos < b.len() && pos < frame_end(b, pos) {
        let frame = frame_end(b, pos);
        let end = body_end(b, pos, frame);
        match trivia_end(b.subrange(pos, end), 0, dialect) {
            Err(error) => Err(error),
            Ok(inner) => after(with_range(Seq::empty(), pos + inner, end), payloads_from(b, frame, dialect)),
        }
    } else {
        Ok(Seq::empty())
    }
}

pub(crate) proof fn body_end_bounds(b: Seq<u8>, from: int, to: int)
    requires
        from <= to,
    ensures
        from <= body_end(b, from, to) <= to,
    decreases to - from,
{
    if from < to && (b[to - 1] == LF || b[to - 1] == CR) {
        body_end_bounds(b, from, to - 1);
    }
}

/// Payload ranges of NDJSON records with blank lines skipped. Each range covers
/// one non-blank record body without its terminator.
pub fn ndjson_payloads(src: &[u8], dialect: Dialect) -> (r: Result<Vec<ByteRange>, Error>)
    ensures
        lists_as(r, payloads_from(src@, 0, dialect)),
        r matches Ok(ranges) ==> forall|i: int|
            0 <= i < ranges@.len() ==> (#[trigger] ranges@[i]).start < ranges@[i].end <= src@.len(),
{
    let len: usize = src.len();
    let mut out: Vec<ByteRange> = Vec::new();
    let mut pos: usize = 0;
    let ghost whole = payloads_from(src@, 0, dialect);
    proof {
        if let Ok(more) = whole {
            assert(out@ + more =~= more);
        }
    }
    while pos < len
        invariant
            pos <= len,
            len == src@.len(),
            whole == payloads_from(src@, 0, dialect),
            whole == after(out@, payloads_from(src@, pos as int, dialect)),
            forall|i: int| 0 <= i < out@.len() ==> (#[trigger] out@[i]).start < out@[i].end <= len,
        decreases len - pos,
    {
        let frame: usize = ndjson_frame_end(src, pos);
        let mut end: usize = frame;
        while end > pos && (src[end - 1] == LF || src[end - 1] == CR)
            invariant
                pos <= end <= frame <= len,
                len == src@.len(),
                body_end(src@, pos as int, frame as int) == body_end(src@, pos as int, end as int),
            decreases end,
        {
            end = end - 1;
        }
        let body: &[u8] = vstd::slice::slice_subrange(src, pos, end);
        let inner: usize = skip_trivia(body, 0, dialect)?;
        let ghost before = out@;
        push_range(&mut out, pos + inner, end);
        proof {
            let head = with_range(Seq::empty(), pos + inner, end as int);
            assert(out@ =~= before + head);
            if let Ok(more) = payloads_from(src@, frame as int, dialect) {
                assert(before + (head + more) =~= out@ + more);
            }
        }
        pos = frame;
    }
    assert(out@ + Seq::<ByteRange>::empty() =~= out@);
    Ok(out)
}

} // verus!
