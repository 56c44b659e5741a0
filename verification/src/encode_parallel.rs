//! Parallel value encode: the library cuts, the host threads encode.
//!
//! Planning cuts the top-level array into contiguous index ranges, per-part
//! encode reuses the serial writers at element depth 1, and the stitch re-adds
//! separators plus brackets. This module starts no thread.
//!
//! Only top-level arrays split. Every other value plans as
//! [`ValuePlan::Serial`], as do small arrays whose parts would hold fewer
//! than [`MIN_ITEMS_PER_PART`] items, so small writes never pay fan-out.

use vstd::prelude::*;

use crate::ascii::{COMMA, LBRACKET, RBRACKET};
use crate::encode::{
    append, extends_add, extends_trans, newline_indent, pretty_break, separator, then_written, write_value, writes_as,
    written, written_items, written_items_err, EncodeOptions, ItemFraming,
};
use crate::error::{at, Error, ErrorKind};
use crate::value::{json, json_array, jsons, well_formed, Json, Value};

verus! {

/// Items per part below which planning falls back to [`ValuePlan::Serial`].
pub const MIN_ITEMS_PER_PART: usize = 512;

/// One chunk of top-level array items, half-open `[lo, hi)`.
#[derive(Clone, Copy, Debug, Eq, PartialEq, Structural)]
pub struct ItemRange {
    /// First item index in the chunk.
    pub lo: usize,
    /// One past the last item index in the chunk.
    pub hi: usize,
}

/// Value-case plan: chunks of the top-level array, or one serial part.
#[derive(Clone, Debug, Eq, PartialEq)]
pub enum ValuePlan {
    /// Independent item chunks; each encodes without brackets.
    Chunks(Vec<ItemRange>),
    /// Serial fallback: not an array, fewer than two items, a framed write,
    /// or fewer than [`MIN_ITEMS_PER_PART`] items per part.
    Serial,
}

/// How many parts an array of `len` items is cut into; none when it is not
/// worth cutting.
pub open spec fn part_count(len: int, parts: int) -> Option<int> {
    let want = if parts < 1 {
        1
    } else if parts < len {
        parts
    } else {
        len
    };
    if len < 2 {
        None
    } else if want < 2 {
        Some(1)
    } else if len / (MIN_ITEMS_PER_PART as int) < 2 {
        None
    } else if want < len / (MIN_ITEMS_PER_PART as int) {
        Some(want)
    } else {
        Some(len / (MIN_ITEMS_PER_PART as int))
    }
}

/// Consecutive chunks of `width` items from `lo`; the last may be shorter.
pub open spec fn chunks_from(lo: int, width: int, len: int) -> Seq<ItemRange>
    decreases len - lo,
{
    if lo >= len || width <= 0 {
        Seq::empty()
    } else {
        let hi = if len - lo <= width {
            len
        } else {
            lo + width
        };
        seq![ItemRange { lo: lo as usize, hi: hi as usize }] + chunks_from(hi, width, len)
    }
}

/// The chunks an encode is planned as; none when it is serial.
pub open spec fn planned(j: Json, opts: EncodeOptions, parts: int) -> Option<Seq<ItemRange>> {
    match j {
        Json::Array(items) => match part_count(items.len() as int, parts) {
            Some(want) => if opts.framing is Unframed {
                Some(chunks_from(0, (items.len() - 1) / want + 1, items.len() as int))
            } else {
                None
            },
            None => None,
        },
        _ => None,
    }
}

/// Whether nonempty chunks cover the items from `from` to `len` in order.
pub open spec fn covers(chunks: Seq<ItemRange>, from: int, len: int) -> bool
    decreases chunks.len(),
{
    if chunks.len() == 0 {
        from == len
    } else {
        &&& chunks[0].lo == from
        &&& chunks[0].lo < chunks[0].hi <= len
        &&& covers(chunks.skip(1), chunks[0].hi as int, len)
    }
}

proof fn chunks_from_cover(lo: int, width: int, len: int)
    requires
        0 <= lo <= len <= usize::MAX,
        width > 0,
    ensures
        covers(chunks_from(lo, width, len), lo, len),
    decreases len - lo,
{
    if lo < len {
        let hi = if len - lo <= width {
            len
        } else {
            lo + width
        };
        chunks_from_cover(hi, width, len);
        assert(chunks_from(lo, width, len).skip(1) =~= chunks_from(hi, width, len));
    }
}

/// The chunks of a plan cover the array's items, each once and in order.
pub proof fn planned_chunks_cover_the_array(items: Seq<Json>, opts: EncodeOptions, parts: int)
    requires
        items.len() <= usize::MAX,
    ensures
        planned(Json::Array(items), opts, parts) matches Some(chunks) ==> covers(chunks, 0, items.len() as int),
{
    match part_count(items.len() as int, parts) {
        Some(want) => {
            assert((items.len() - 1) / want >= 0) by (nonlinear_arith)
                requires
                    want >= 1,
                    items.len() >= 2,
            ;
            chunks_from_cover(0, (items.len() - 1) / want + 1, items.len() as int);
        },
        None => {},
    }
}

/// Plan a value encode: chunk the top-level array into at most `parts`
/// contiguous index ranges. `parts <= 1` means one chunk covering the array.
#[must_use]
pub fn plan_encode_value(value: &Value, opts: &EncodeOptions, parts: usize) -> (r: ValuePlan)
    ensures
        match planned(json(*value), *opts, parts as int) {
            Some(chunks) => r matches ValuePlan::Chunks(v) && v@ == chunks,
            None => r is Serial,
        },
{
    let framed: bool = !matches!(opts.framing, ItemFraming::Unframed);
    let items = match value {
        Value::Array(items) => items,
        _ => {
            return ValuePlan::Serial;
        },
    };
    proof {
        json_array(*items);
    }
    let len: usize = items.len();
    if framed || len < 2 {
        return ValuePlan::Serial;
    }
    let mut want: usize = if parts < 1 {
        1
    } else if parts < len {
        parts
    } else {
        len
    };
    if want >= 2 {
        let most: usize = len / MIN_ITEMS_PER_PART;
        if most < 2 {
            return ValuePlan::Serial;
        }
        if most < want {
            want = most;
        }
    }
    proof {
        assert(0 <= (len - 1) / want as int <= len - 1) by (nonlinear_arith)
            requires
                want >= 1,
                len >= 2,
        ;
    }
    let width: usize = (len - 1) / want + 1;
    let mut chunks: Vec<ItemRange> = Vec::new();
    let mut lo: usize = 0;
    let ghost whole = chunks_from(0, width as int, len as int);
    proof {
        assert(chunks@ + whole =~= whole);
    }
    while lo < len
        invariant
            lo <= len,
            width > 0,
            whole == chunks@ + chunks_from(lo as int, width as int, len as int),
        decreases len - lo,
    {
        let hi: usize = if len - lo <= width {
            len
        } else {
            lo + width
        };
        let ghost before = chunks@;
        chunks.push(ItemRange { lo, hi });
        proof {
            let rest = chunks_from(hi as int, width as int, len as int);
            assert(before + (seq![ItemRange { lo, hi }] + rest) =~= chunks@ + rest);
        }
        lo = hi;
    }
    proof {
        assert(chunks@ + chunks_from(lo as int, width as int, len as int) =~= chunks@);
    }
    ValuePlan::Chunks(chunks)
}

/// The separator inside a chunk before its item `n`.
pub open spec fn chunk_separator(n: int, opts: EncodeOptions) -> Seq<u8> {
    if n > 0 {
        seq![COMMA] + pretty_break(opts, 1)
    } else {
        Seq::empty()
    }
}

/// The bytes of items `[lo, hi)`, separator-joined, without brackets.
pub open spec fn chunk_text(items: Seq<Json>, lo: int, hi: int, opts: EncodeOptions) -> Result<Seq<u8>, Error>
    decreases hi - lo,
{
    if hi <= lo {
        Ok(Seq::empty())
    } else {
        match chunk_text(items, lo, hi - 1, opts) {
            Err(error) => Err(error),
            Ok(before) => then_written(before + chunk_separator(hi - 1 - lo, opts), written(items[hi - 1], opts, 1)),
        }
    }
}

/// The bytes of one chunk of a value.
pub open spec fn written_chunk(j: Json, range: ItemRange, opts: EncodeOptions) -> Result<Seq<u8>, Error> {
    match j {
        Json::Array(items) => if range.lo > range.hi || range.hi > items.len() {
            Err(at(ErrorKind::ChunkOutOfBounds, 0))
        } else {
            chunk_text(items, range.lo as int, range.hi as int, opts)
        },
        _ => Err(at(ErrorKind::ChunkNeedsArray, 0)),
    }
}

proof fn chunk_text_err(items: Seq<Json>, lo: int, hi: int, to: int, opts: EncodeOptions)
    requires
        lo <= hi <= to,
        chunk_text(items, lo, hi, opts) is Err,
    ensures
        chunk_text(items, lo, to, opts) == chunk_text(items, lo, hi, opts),
    decreases to - hi,
{
    if hi < to {
        chunk_text_err(items, lo, hi, to - 1, opts);
    }
}

/// Encode `range` of the top-level array: the items joined with the array
/// separator at element depth 1, without brackets. Byte-identical to the
/// serial array body because every top-level element sits at depth 1.
///
/// # Errors
///
/// `value` is not an array, `range` is out of bounds, or a nested write fails.
pub fn encode_value_chunk(value: &Value, range: &ItemRange, opts: &EncodeOptions, out: &mut Vec<u8>) -> (r: Result<
    (),
    Error,
>)
    ensures
        writes_as(r, old(out)@, final(out)@, written_chunk(json(*value), *range, *opts)),
{
    let ghost before = out@;
    proof {
        assert(before.take(before.len() as int) =~= before);
        assert(before + Seq::<u8>::empty() =~= before);
    }
    let items = match value {
        Value::Array(items) => items,
        _ => {
            return Err(Error::new(ErrorKind::ChunkNeedsArray, 0));
        },
    };
    proof {
        json_array(*items);
    }
    if range.lo > range.hi || range.hi > items.len() {
        return Err(Error::new(ErrorKind::ChunkOutOfBounds, 0));
    }
    let lo: usize = range.lo;
    let hi: usize = range.hi;
    let ghost model = jsons(items@);
    let mut i: usize = lo;
    while i < hi
        invariant
            lo <= i <= hi <= items@.len(),
            model == jsons(items@),
            before == old(out)@,
            written_chunk(json(*value), *range, *opts) == chunk_text(model, lo as int, hi as int, *opts),
            chunk_text(model, lo as int, i as int, *opts) is Ok,
            out@ == before + chunk_text(model, lo as int, i as int, *opts)->Ok_0,
        decreases hi - i,
    {
        let ghost acc = chunk_text(model, lo as int, i as int, *opts)->Ok_0;
        if i > lo {
            out.push(COMMA);
            if opts.pretty {
                newline_indent(out, *opts, 1);
            }
        }
        let ghost lead = acc + chunk_separator(i - lo, *opts);
        let ghost ready = out@;
        proof {
            assert(ready =~= before + lead);
            assert(model[i as int] == json(items@[i as int]));
        }
        match write_value(&items[i], *opts, out, 1) {
            Ok(()) => {
                proof {
                    let text = written(model[i as int], *opts, 1)->Ok_0;
                    assert(out@ =~= before + (lead + text));
                }
            },
            Err(error) => {
                proof {
                    extends_add(before, lead);
                    extends_trans(before, ready, out@);
                    chunk_text_err(model, lo as int, i + 1, hi as int, *opts);
                }
                return Err(error);
            },
        }
        i += 1;
    }
    Ok(())
}

/// The first `n` chunks joined; empty chunks are skipped.
pub open spec fn stitched_body(chunks: Seq<Seq<u8>>, n: nat, opts: EncodeOptions) -> Seq<u8>
    decreases n,
{
    if n == 0 || n > chunks.len() {
        Seq::empty()
    } else {
        let before = stitched_body(chunks, (n - 1) as nat, opts);
        if chunks[n - 1].len() == 0 {
            before
        } else {
            before + separator(before.len() as int) + pretty_break(opts, 1) + chunks[n - 1]
        }
    }
}

/// The array that chunk buffers stitch to.
pub open spec fn stitched(chunks: Seq<Seq<u8>>, opts: EncodeOptions) -> Seq<u8> {
    let body = stitched_body(chunks, chunks.len(), opts);
    seq![LBRACKET] + body + (if body.len() > 0 {
        pretty_break(opts, 0)
    } else {
        Seq::empty()
    }) + seq![RBRACKET]
}

/// The contents of chunk buffers.
pub open spec fn buffers(chunks: Seq<Vec<u8>>) -> Seq<Seq<u8>> {
    Seq::new(chunks.len(), |i: int| chunks[i]@)
}

/// Stitch value-chunk buffers: `[` plus separator-joined chunks plus the
/// pretty closer plus `]`. Empty buffers are skipped, so an empty chunk set
/// stitches to `[]` (pretty included, as the serial writer emits).
#[must_use]
pub fn stitch_value_chunks(chunks: &[Vec<u8>], opts: &EncodeOptions) -> (r: Vec<u8>)
    ensures
        r@ == stitched(buffers(chunks@), *opts),
{
    let ghost model = buffers(chunks@);
    let mut out: Vec<u8> = Vec::new();
    out.push(LBRACKET);
    let mut first: bool = true;
    let mut i: usize = 0;
    proof {
        assert(out@ =~= seq![LBRACKET] + stitched_body(model, 0, *opts));
    }
    while i < chunks.len()
        invariant
            i <= chunks@.len(),
            model == buffers(chunks@),
            out@ == seq![LBRACKET] + stitched_body(model, i as nat, *opts),
            first == (stitched_body(model, i as nat, *opts).len() == 0),
        decreases chunks@.len() - i,
    {
        let chunk: &Vec<u8> = &chunks[i];
        let ghost body = stitched_body(model, i as nat, *opts);
        proof {
            assert(model[i as int] == chunk@);
        }
        if chunk.len() > 0 {
            if !first {
                out.push(COMMA);
            }
            first = false;
            // Chunks hold bare elements: the array-level indent before each
            // chunk replays the serial array writer.
            if opts.pretty {
                newline_indent(&mut out, *opts, 1);
            }
            append(&mut out, chunk.as_slice());
            proof {
                assert(out@ =~= seq![LBRACKET] + (body + separator(body.len() as int) + pretty_break(*opts, 1) + chunk@));
            }
        }
        i += 1;
    }
    let ghost body = stitched_body(model, i as nat, *opts);
    if opts.pretty && !first {
        newline_indent(&mut out, *opts, 0);
    }
    out.push(RBRACKET);
    proof {
        let close = if body.len() > 0 {
            pretty_break(*opts, 0)
        } else {
            Seq::empty()
        };
        assert(out@ =~= seq![LBRACKET] + body + close + seq![RBRACKET]);
    }
    out
}

/// The serial body up to `hi` is the body up to `lo` and the chunk between.
proof fn items_then_chunk(items: Seq<Json>, lo: int, hi: int, opts: EncodeOptions)
    requires
        0 <= lo < hi <= items.len(),
        written_items(Json::Array(items), lo as nat, opts, 0) is Ok,
    ensures
        written_items(Json::Array(items), hi as nat, opts, 0) == then_written(
            written_items(Json::Array(items), lo as nat, opts, 0)->Ok_0 + separator(lo) + pretty_break(opts, 1),
            chunk_text(items, lo, hi, opts),
        ),
    decreases hi - lo,
{
    let j = Json::Array(items);
    let before = written_items(j, lo as nat, opts, 0)->Ok_0;
    let lead = before + separator(lo) + pretty_break(opts, 1);
    let item = written(items[hi - 1], opts, 1);
    if hi == lo + 1 {
        assert(chunk_text(items, lo, lo, opts) == Ok::<Seq<u8>, Error>(Seq::empty()));
        assert(Seq::<u8>::empty() + chunk_separator(0, opts) =~= Seq::<u8>::empty());
        match item {
            Ok(text) => {
                assert(Seq::<u8>::empty() + text =~= text);
            },
            Err(_) => {},
        }
    } else {
        items_then_chunk(items, lo, hi - 1, opts);
        match (chunk_text(items, lo, hi - 1, opts), item) {
            (Ok(chunk), Ok(text)) => {
                assert((lead + chunk) + separator(hi - 1) + pretty_break(opts, 1) + text =~= lead + (chunk
                    + chunk_separator(hi - 1 - lo, opts) + text));
            },
            _ => {},
        }
    }
}

proof fn chunk_text_nonempty(items: Seq<Json>, lo: int, hi: int, opts: EncodeOptions)
    requires
        0 <= lo < hi <= items.len(),
        well_formed(items[hi - 1]),
    ensures
        chunk_text(items, lo, hi, opts) matches Ok(text) ==> text.len() > 0,
{
    crate::encode::written_nonempty(items[hi - 1], opts, 1);
}

/// The texts of a value's chunks, when every one can be written.
pub open spec fn chunk_texts(items: Seq<Json>, chunks: Seq<ItemRange>, opts: EncodeOptions) -> Seq<Seq<u8>> {
    Seq::new(chunks.len(), |k: int| written_chunk(Json::Array(items), chunks[k], opts)->Ok_0)
}

proof fn chunk_at(chunks: Seq<ItemRange>, from: int, len: int, k: int)
    requires
        covers(chunks, from, len),
        0 <= k < chunks.len(),
        0 <= from,
    ensures
        from <= chunks[k].lo < chunks[k].hi <= len,
        k == 0 ==> chunks[k].lo == from,
        k > 0 ==> chunks[k].lo == chunks[k - 1].hi,
        k == chunks.len() - 1 ==> chunks[k].hi == len,
    decreases chunks.len(),
{
    let rest = chunks.skip(1);
    if k > 0 {
        chunk_at(rest, chunks[0].hi as int, len, k - 1);
        assert(rest[k - 1] == chunks[k]);
        if k > 1 {
            assert(rest[k - 2] == chunks[k - 1]);
        }
    } else if chunks.len() == 1 {
        assert(rest.len() == 0);
        assert(covers(rest, chunks[0].hi as int, len));
    }
}

/// The serial body up to the end of chunk `n` is the first `n` chunks stitched,
/// as long as those can be written.
proof fn stitched_prefix(items: Seq<Json>, chunks: Seq<ItemRange>, n: nat, opts: EncodeOptions)
    requires
        covers(chunks, 0, items.len() as int),
        n <= chunks.len(),
        forall|i: int| 0 <= i < items.len() ==> well_formed(#[trigger] items[i]),
        forall|k: int| 0 <= k < n ==> (#[trigger] written_chunk(Json::Array(items), chunks[k], opts)) is Ok,
    ensures
        written_items(
            Json::Array(items),
            (if n == 0 {
                0
            } else {
                chunks[n - 1].hi as nat
            }),
            opts,
            0,
        ) == Ok::<Seq<u8>, Error>(stitched_body(chunk_texts(items, chunks, opts), n, opts)),
        n > 0 ==> stitched_body(chunk_texts(items, chunks, opts), n, opts).len() > 0,
    decreases n,
{
    if n > 0 {
        let k = n - 1;
        let texts = chunk_texts(items, chunks, opts);
        stitched_prefix(items, chunks, k as nat, opts);
        chunk_at(chunks, 0, items.len() as int, k);
        let lo = chunks[k].lo as int;
        let hi = chunks[k].hi as int;
        assert(written_chunk(Json::Array(items), chunks[k], opts) is Ok);
        items_then_chunk(items, lo, hi, opts);
        assert(well_formed(items[hi - 1]));
        chunk_text_nonempty(items, lo, hi, opts);
        assert(texts[k] == chunk_text(items, lo, hi, opts)->Ok_0);
        let before = stitched_body(texts, k as nat, opts);
        if k > 0 {
            chunk_at(chunks, 0, items.len() as int, k - 1);
        }
        assert(separator(before.len() as int) == separator(lo));
    }
}

/// Encoding an array chunk by chunk and stitching the buffers gives exactly the
/// bytes of the serial write, and one is refused exactly when the other is.
pub proof fn stitched_chunks_equal_the_serial_write(items: Seq<Json>, chunks: Seq<ItemRange>, opts: EncodeOptions)
    requires
        covers(chunks, 0, items.len() as int),
        forall|i: int| 0 <= i < items.len() ==> well_formed(#[trigger] items[i]),
    ensures
        (written(Json::Array(items), opts, 0) is Ok) <==> (forall|k: int|
            0 <= k < chunks.len() ==> (#[trigger] written_chunk(Json::Array(items), chunks[k], opts)) is Ok),
        written(Json::Array(items), opts, 0) matches Ok(text) ==> text == stitched(
            chunk_texts(items, chunks, opts),
            opts,
        ),
{
    let j = Json::Array(items);
    let n = chunks.len();
    if n > 0 {
        chunk_at(chunks, 0, items.len() as int, n - 1);
    }
    if forall|k: int| 0 <= k < n ==> (#[trigger] written_chunk(j, chunks[k], opts)) is Ok {
        stitched_prefix(items, chunks, n, opts);
    } else {
        let bad = first_refused(j, chunks, opts, 0);
        first_refused_facts(j, chunks, opts, 0);
        chunk_at(chunks, 0, items.len() as int, bad);
        stitched_prefix(items, chunks, bad as nat, opts);
        if bad > 0 {
            chunk_at(chunks, 0, items.len() as int, bad - 1);
        }
        items_then_chunk(items, chunks[bad].lo as int, chunks[bad].hi as int, opts);
        written_items_err(j, chunks[bad].hi as nat, items.len(), opts, 0);
    }
}

spec fn first_refused(j: Json, chunks: Seq<ItemRange>, opts: EncodeOptions, k: int) -> int
    decreases chunks.len() - k,
{
    if k >= chunks.len() || written_chunk(j, chunks[k], opts) is Err {
        k
    } else {
        first_refused(j, chunks, opts, k + 1)
    }
}

proof fn first_refused_facts(j: Json, chunks: Seq<ItemRange>, opts: EncodeOptions, k: int)
    requires
        0 <= k <= chunks.len(),
        forall|i: int| 0 <= i < k ==> (#[trigger] written_chunk(j, chunks[i], opts)) is Ok,
        !(forall|i: int| 0 <= i < chunks.len() ==> (#[trigger] written_chunk(j, chunks[i], opts)) is Ok),
    ensures
        0 <= first_refused(j, chunks, opts, k) < chunks.len(),
        written_chunk(j, chunks[first_refused(j, chunks, opts, k)], opts) is Err,
        forall|i: int| 0 <= i < first_refused(j, chunks, opts, k) ==> (#[trigger] written_chunk(j, chunks[i], opts)) is Ok,
    decreases chunks.len() - k,
{
    if k < chunks.len() && written_chunk(j, chunks[k], opts) is Ok {
        first_refused_facts(j, chunks, opts, k + 1);
    }
}

} // verus!
