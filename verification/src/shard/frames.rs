//! The records of one part of a stream.

use vstd::prelude::*;

use crate::ascii::{CR, LF, RECORD};
use crate::dialect::Dialect;
use crate::error::Error;
use crate::framing::{
    after, body_end, frame_end, lists_as, locating, ndjson_frame_end, payload_range, push_range, record_payload,
    record_start, seq_payload, with_range,
};
use crate::lex::skip::{end_at, skip_value, value_past_trivia, Check};
use crate::lex::stop_sets::{find_stop, run_end, run_end_facts, JsonSeqFrame, StopSet};
use crate::lex::ws::{skip_trivia, trivia_end};
use crate::scan::JsonInput;
use crate::value::{span, ByteRange};

verus! {

/// Payload ranges of the NDJSON records that begin in `[pos, end)`, blank lines skipped.
pub open spec fn lines_before(b: Seq<u8>, pos: int, end: int, dialect: Dialect) -> Result<Seq<ByteRange>, Error>
    decreases b.len() - pos,
{
    if 0 <= pos < b.len() && pos < end && pos < frame_end(b, pos) {
        let frame = frame_end(b, pos);
        let close = body_end(b, pos, frame);
        match trivia_end(b.subrange(pos, close), 0, dialect) {
            Err(error) => Err(error),
            Ok(inner) => after(with_range(Seq::empty(), pos + inner, close), lines_before(b, frame, end, dialect)),
        }
    } else {
        Ok(Seq::empty())
    }
}

/// Payload ranges of the JSON-seq records that begin in `[pos, end)`.
pub open spec fn texts_before(b: Seq<u8>, pos: int, end: int, max: u32, dialect: Dialect) -> Result<Seq<ByteRange>, Error>
    decreases b.len() - pos,
{
    if 0 <= pos < b.len() && pos < end {
        let start = record_start(b, pos);
        let close = run_end::<JsonSeqFrame>(b, start);
        match seq_payload(b, start, close, max, dialect, false) {
            Err(error) => Err(error),
            Ok(payload) => {
                let head = payload_range(payload);
                if pos < close <= b.len() {
                    after(head, texts_before(b, close, end, max, dialect))
                } else {
                    Ok(head)
                }
            },
        }
    } else {
        Ok(Seq::empty())
    }
}

/// The adjacent values that begin in `[pos, end)`. What does not read is one last range.
pub open spec fn values_before(b: Seq<u8>, pos: int, end: int, max: u32, dialect: Dialect) -> Seq<ByteRange>
    decreases b.len() - pos,
{
    match trivia_end(b, pos, dialect) {
        Err(_) => with_range(Seq::empty(), pos, b.len() as int),
        Ok(p) => if !(p < end && p < b.len()) {
            Seq::empty()
        } else {
            match end_at(value_past_trivia(b, p, locating(max, dialect), 0)) {
                Err(_) => seq![span(p, b.len() as int)],
                Ok(e) => if pos < e <= b.len() {
                    seq![span(p, e)] + values_before(b, e, end, max, dialect)
                } else {
                    seq![span(p, e)]
                },
            }
        },
    }
}

/// The records of a stream that begin in `[pos, end)`.
pub open spec fn part_frames(b: Seq<u8>, pos: int, end: int, input: JsonInput, max: u32, dialect: Dialect) -> Result<
    Seq<ByteRange>,
    Error,
> {
    match input {
        JsonInput::Ndjson => lines_before(b, pos, end, dialect),
        JsonInput::JsonSeq => texts_before(b, pos, end, max, dialect),
        _ => Ok(values_before(b, pos, end, max, dialect)),
    }
}

fn find_lines(src: &[u8], from: usize, to: usize, dialect: Dialect) -> (r: Result<Vec<ByteRange>, Error>)
    requires
        from <= src@.len(),
    ensures
        lists_as(r, lines_before(src@, from as int, to as int, dialect)),
        r matches Ok(ranges) ==> forall|i: int|
            0 <= i < ranges@.len() ==> (#[trigger] ranges@[i]).start < ranges@[i].end <= src@.len(),
{
    let len: usize = src.len();
    let mut out: Vec<ByteRange> = Vec::new();
    let mut pos: usize = from;
    let ghost whole = lines_before(src@, from as int, to as int, dialect);
    proof {
        if let Ok(more) = whole {
            assert(out@ + more =~= more);
        }
    }
    while pos < len && pos < to
        invariant
            pos <= len,
            len == src@.len(),
            whole == lines_before(src@, from as int, to as int, dialect),
            whole == after(out@, lines_before(src@, pos as int, to as int, dialect)),
            forall|i: int| 0 <= i < out@.len() ==> (#[trigger] out@[i]).start < out@[i].end <= len,
        decreases len - pos,
    {
        let frame: usize = ndjson_frame_end(src, pos);
        let mut end: usize = frame;
        while end > pos && (src[end - 1] == LF || src[end - 1] == CR)
            invariant
                pos <= end <= frame <= len,
                len == src@.len(),
                body_end(src@, pos as int, frame as int) == body_end(src@, pos as int, end as int),
            decreases end,
        {
            end = end - 1;
        }
        let body: &[u8] = vstd::slice::slice_subrange(src, pos, end);
        let inner: usize = skip_trivia(body, 0, dialect)?;
        let ghost before = out@;
        push_range(&mut out, pos + inner, end);
        proof {
            let head = with_range(Seq::empty(), pos + inner, end as int);
            assert(out@ =~= before + head);
            if let Ok(more) = lines_before(src@, frame as int, to as int, dialect) {
                assert(before + (head + more) =~= out@ + more);
            }
        }
        pos = frame;
    }
    assert(out@ + Seq::<ByteRange>::empty() =~= out@);
    Ok(out)
}

fn find_texts(src: &[u8], from: usize, to: usize, max: u32, dialect: Dialect) -> (r: Result<Vec<ByteRange>, Error>)
    requires
        from <= src@.len(),
    ensures
        lists_as(r, texts_before(src@, from as int, to as int, max, dialect)),
        r matches Ok(ranges) ==> forall|i: int|
            0 <= i < ranges@.len() ==> (#[trigger] ranges@[i]).start < ranges@[i].end <= src@.len(),
{
    let len: usize = src.len();
    let mut out: Vec<ByteRange> = Vec::new();
    let mut pos: usize = from;
    let ghost whole = texts_before(src@, from as int, to as int, max, dialect);
    proof {
        if let Ok(more) = whole {
            assert(out@ + more =~= more);
        }
    }
    while pos < len && pos < to
        invariant
            pos <= len,
            len == src@.len(),
            whole == texts_before(src@, from as int, to as int, max, dialect),
            whole == after(out@, texts_before(src@, pos as int, to as int, max, dialect)),
            forall|i: int| 0 <= i < out@.len() ==> (#[trigger] out@[i]).start < out@[i].end <= len,
        decreases len - pos,
    {
        let start: usize = if src[pos] == RECORD {
            pos + 1
        } else {
            pos
        };
        proof {
            run_end_facts::<JsonSeqFrame>(src@, start as int);
            if start == pos {
                assert(JsonSeqFrame::stops(src@[pos as int]) == false);
            }
        }
        let end: usize = find_stop::<JsonSeqFrame>(src, start);
        let ghost before = out@;
        let ghost rest = texts_before(src@, end as int, to as int, max, dialect);
        match record_payload(src, start, end, max, dialect, false)? {
            Some((s, e)) => {
                push_range(&mut out, s, e);
                assert(out@ =~= before + with_range(Seq::empty(), s as int, e as int));
            },
            None => {
                assert(out@ =~= before + Seq::<ByteRange>::empty());
            },
        }
        proof {
            let head = payload_range(seq_payload(src@, start as int, end as int, max, dialect, false)->Ok_0);
            assert(out@ =~= before + head);
            if let Ok(more) = rest {
                assert(before + (head + more) =~= out@ + more);
            }
        }
        pos = end;
    }
    assert(out@ + Seq::<ByteRange>::empty() =~= out@);
    Ok(out)
}

fn find_values(src: &[u8], from: usize, to: usize, max: u32, dialect: Dialect) -> (r: Vec<ByteRange>)
    requires
        from <= src@.len(),
    ensures
        r@ == values_before(src@, from as int, to as int, max, dialect),
        forall|i: int| 0 <= i < r@.len() ==> (#[trigger] r@[i]).start < r@[i].end <= src@.len(),
{
    let len: usize = src.len();
    let mut out: Vec<ByteRange> = Vec::new();
    let mut pos: usize = from;
    let ghost whole = values_before(src@, from as int, to as int, max, dialect);
    assert(out@ + whole =~= whole);
    loop
        invariant
            pos <= len,
            len == src@.len(),
            whole == values_before(src@, from as int, to as int, max, dialect),
            whole == out@ + values_before(src@, pos as int, to as int, max, dialect),
            forall|i: int| 0 <= i < out@.len() ==> (#[trigger] out@[i]).start < out@[i].end <= len,
        decreases len - pos,
    {
        let p: usize = match skip_trivia(src, pos, dialect) {
            Ok(p) => p,
            Err(_) => {
                let ghost before = out@;
                push_range(&mut out, pos, len);
                assert(out@ =~= before + with_range(Seq::empty(), pos as int, len as int));
                return out;
            },
        };
        if p >= to || p >= len {
            assert(out@ + Seq::<ByteRange>::empty() =~= out@);
            return out;
        }
        let ghost before = out@;
        match skip_value(src, p, Check::Locate, max, dialect) {
            Err(_) => {
                push_range(&mut out, p, len);
                assert(out@ =~= before + seq![span(p as int, len as int)]);
                return out;
            },
            Ok(e) => {
                push_range(&mut out, p, e);
                proof {
                    let rest = values_before(src@, e as int, to as int, max, dialect);
                    assert(before + (seq![span(p as int, e as int)] + rest) =~= out@ + rest);
                }
                pos = e;
            },
        }
    }
}

/// Locate the records of a stream that begin in a range.
pub(crate) fn part_ranges(src: &[u8], from: usize, to: usize, input: JsonInput, max: u32, dialect: Dialect) -> (r: Result<
    Vec<ByteRange>,
    Error,
>)
    requires
        from <= src@.len(),
    ensures
        lists_as(r, part_frames(src@, from as int, to as int, input, max, dialect)),
        r matches Ok(ranges) ==> forall|i: int|
            0 <= i < ranges@.len() ==> (#[trigger] ranges@[i]).start < ranges@[i].end <= src@.len(),
{
    match input {
        JsonInput::Ndjson => find_lines(src, from, to, dialect),
        JsonInput::JsonSeq => find_texts(src, from, to, max, dialect),
        _ => Ok(find_values(src, from, to, max, dialect)),
    }
}

} // verus!
