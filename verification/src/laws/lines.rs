//! The records of newline-delimited input are its lines.

use vstd::prelude::*;

use crate::dialect::Dialect;
use crate::error::Error;
use crate::framing::{body_end, frame_end, frame_end_bounds, payloads_from, with_range};
use crate::lex::stop_sets::{is_space, run_end, run_end_facts, NdjsonFrame, StopSet, Ws};
use crate::lex::ws::{trivia_end, trivia_end_bounds};
use crate::value::{span, ByteRange};

verus! {

/// Whether a byte ends a line.
pub open spec fn breaks_line(byte: u8) -> bool {
    byte == 0x0a || byte == 0x0d
}

/// Whether a range holds a record: part of one line, from a byte that is no blank.
pub open spec fn is_record(b: Seq<u8>, r: ByteRange) -> bool {
    &&& r.start < r.end <= b.len()
    &&& forall|i: int| r.start <= i < r.end ==> !breaks_line(#[trigger] b[i])
    &&& b[r.start as int] != 0x20 && b[r.start as int] != 0x09
    &&& r.end < b.len() ==> breaks_line(b[r.end as int])
}

/// Whether some range holds a byte.
pub open spec fn is_held(ranges: Seq<ByteRange>, at: int) -> bool {
    exists|k: int| 0 <= k < ranges.len() && (#[trigger] ranges[k]).start <= at < ranges[k].end
}

spec fn records_from(b: Seq<u8>, pos: int, ranges: Seq<ByteRange>, dialect: Dialect) -> bool {
    &&& forall|k: int| 0 <= k < ranges.len() ==> is_record(b, #[trigger] ranges[k]) && pos <= ranges[k].start
    &&& forall|i: int, k: int| #![trigger ranges[i], ranges[k]] 0 <= i < k < ranges.len() ==> ranges[i].end < ranges[k].start
    &&& !dialect.comments() ==> forall|p: int| pos <= p < b.len() && !is_space(#[trigger] b[p]) ==> is_held(ranges, p)
}

/// The body of a line is what stands before its break.
proof fn body_is_the_line(b: Seq<u8>, pos: int)
    requires
        0 <= pos < b.len(),
    ensures
        body_end(b, pos, frame_end(b, pos)) == run_end::<NdjsonFrame>(b, pos),
{
    run_end_facts::<NdjsonFrame>(b, pos);
    let e = run_end::<NdjsonFrame>(b, pos);
    reveal_with_fuel(body_end, 4);
    if e > pos {
        assert(!NdjsonFrame::stops(b[e - 1]));
    }
}

proof fn lines_are_records(b: Seq<u8>, pos: int, dialect: Dialect)
    requires
        b.len() <= usize::MAX,
        0 <= pos <= b.len(),
        payloads_from(b, pos, dialect) is Ok,
    ensures
        records_from(b, pos, payloads_from(b, pos, dialect)->Ok_0, dialect),
    decreases b.len() - pos,
{
    let all = payloads_from(b, pos, dialect)->Ok_0;
    if pos < b.len() {
        frame_end_bounds(b, pos);
        let frame = frame_end(b, pos);
        let end = run_end::<NdjsonFrame>(b, pos);
        body_is_the_line(b, pos);
        run_end_facts::<NdjsonFrame>(b, pos);
        let t = b.subrange(pos, end);
        trivia_end_bounds(t, 0, dialect);
        run_end_facts::<Ws>(t, 0);
        let inner = trivia_end(t, 0, dialect)->Ok_0;
        let head = with_range(Seq::empty(), pos + inner, end);
        let rest = payloads_from(b, frame, dialect)->Ok_0;
        assert(all == head + rest);
        lines_are_records(b, frame, dialect);
        if pos + inner < end {
            let r = span(pos + inner, end);
            assert(head =~= seq![r]);
            assert(t[inner] == b[pos + inner]);
            assert forall|i: int| r.start <= i < r.end implies !breaks_line(#[trigger] b[i]) by {
                assert(!NdjsonFrame::stops(b[i]));
            }
            assert(is_record(b, r));
        }
        assert forall|k: int| 0 <= k < all.len() implies is_record(b, #[trigger] all[k]) && pos <= all[k].start by {
            if k >= head.len() {
                assert(all[k] == rest[k - head.len()]);
            }
        }
        assert forall|i: int, k: int| #![trigger all[i], all[k]] 0 <= i < k < all.len() implies all[i].end < all[k].start by {
            assert(all[k] == rest[k - head.len()]);
            if i >= head.len() {
                assert(all[i] == rest[i - head.len()]);
            } else {
                assert(is_record(b, rest[k - head.len()]));
            }
        }
        if !dialect.comments() {
            assert forall|p: int| pos <= p < b.len() && !is_space(#[trigger] b[p]) implies is_held(all, p) by {
                if p < end {
                    assert(t[p - pos] == b[p]);
                    if p - pos < inner {
                        assert(!Ws::stops(t[p - pos]));
                    }
                    assert(all[0] == head[0]);
                } else if p >= frame {
                    assert(is_held(rest, p));
                    let k = choose|k: int| 0 <= k < rest.len() && (#[trigger] rest[k]).start <= p < rest[k].end;
                    assert(all[head.len() + k] == rest[k]);
                }
            }
        }
    }
}

/// The records of newline-delimited input are its lines that are not blank: each lies in
/// one line and goes from its first byte that is no blank up to where the line ends; they
/// come in order, one for a line; and where there are no comments every byte that is no
/// whitespace is in one of them.
pub proof fn records_are_the_lines_that_are_not_blank(b: Seq<u8>, dialect: Dialect, ranges: Seq<ByteRange>)
    requires
        b.len() <= usize::MAX,
        payloads_from(b, 0, dialect) == Ok::<Seq<ByteRange>, Error>(ranges),
    ensures
        forall|k: int| 0 <= k < ranges.len() ==> is_record(b, #[trigger] ranges[k]),
        forall|i: int, k: int| #![trigger ranges[i], ranges[k]] 0 <= i < k < ranges.len() ==> ranges[i].end < ranges[k].start,
        !dialect.comments() ==> forall|p: int|
            0 <= p < b.len() && !breaks_line(#[trigger] b[p]) && b[p] != 0x20 && b[p] != 0x09 ==> is_held(ranges, p),
{
    lines_are_records(b, 0, dialect);
    assert forall|p: int|
        0 <= p < b.len() && !breaks_line(#[trigger] b[p]) && b[p] != 0x20 && b[p] != 0x09 && !dialect.comments() implies is_held(
        ranges,
        p,
    ) by {
        assert(!is_space(b[p]));
    }
}

} // verus!
