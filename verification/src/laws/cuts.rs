//! The cut of an array body names the array's elements, however it is blocked.

use vstd::prelude::*;

use crate::ascii::{COMMA, RBRACKET, SLASH, STAR};
use crate::error::Error;
use crate::shard::cut::{
    candidates_before, combined, cut_from, cut_step, first_close, fresh_cut, serial_elements, split_at_commas,
    summary_of, summed_elements, with_element, Candidate, CutModel, ScanFault, ScanState, SummaryModel,
};
use crate::value::ByteRange;

verus! {

/// How far the elements of an array body are cut: the bracket depth, one inside the
/// array itself, where the running element starts, the elements so far, and the
/// array's closer once it is met.
pub struct Level {
    /// State.
    pub state: ScanState,
    /// Bracket depth.
    pub depth: int,
    /// Start of the running element.
    pub start: int,
    /// Elements so far.
    pub out: Seq<ByteRange>,
    /// The array's `]`.
    pub closed: Option<int>,
    /// Whether no other closer closed the array before it.
    pub sound: bool,
    /// Whether no comma stood in the array's own depth after such a closer.
    pub even: bool,
    /// Whether every `/` so far starts a comment.
    pub clean: bool,
}

/// The start of an array body.
pub open spec fn opened_body(start: int) -> Level {
    Level { state: ScanState::Normal, depth: 1, start, out: Seq::empty(), closed: None, sound: true, even: true, clean: true }
}

/// Whether a byte stands outside strings and comments.
pub open spec fn is_token(state: ScanState, byte: u8) -> bool {
    state == ScanState::Normal || (state == ScanState::Slash && byte != SLASH && byte != STAR)
}

/// One byte further.
pub open spec fn level_step(b: Seq<u8>, pos: int, m: Level) -> Level {
    if m.closed is Some {
        m
    } else {
        let step = cut_step(b, pos, pos, fresh_cut(m.state));
        let token = is_token(m.state, b[pos]);
        let depth = m.depth + step.depth;
        let clean = m.clean && !(m.state == ScanState::Slash && token);
        if token && b[pos] == RBRACKET && m.depth == 1 {
            Level { state: step.state, depth, closed: Some(pos), clean, ..m }
        } else if token && b[pos] == COMMA && m.depth == 1 && !m.sound {
            Level { state: step.state, depth, even: false, clean, ..m }
        } else if token && b[pos] == COMMA && m.depth == 1 {
            Level { state: step.state, depth, start: pos + 1, out: with_element(m.out, b, m.start, pos), clean, ..m }
        } else {
            Level { state: step.state, depth, sound: m.sound && depth >= 1, clean, ..m }
        }
    }
}

/// The bytes `[pos, end)` further.
pub open spec fn level(b: Seq<u8>, pos: int, end: int, m: Level) -> Level
    decreases end - pos,
{
    if pos >= end {
        m
    } else {
        level(b, pos + 1, end, level_step(b, pos, m))
    }
}

pub(crate) proof fn level_splits(b: Seq<u8>, pos: int, mid: int, end: int, m: Level)
    requires
        pos <= mid <= end,
    ensures
        level(b, pos, end, m) == level(b, mid, end, level(b, pos, mid, m)),
    decreases mid - pos,
{
    if pos < mid {
        level_splits(b, pos + 1, mid, end, level_step(b, pos, m));
    }
}

pub(crate) proof fn closed_stays(b: Seq<u8>, pos: int, end: int, m: Level)
    requires
        m.closed is Some,
    ensures
        level(b, pos, end, m) == m,
    decreases end - pos,
{
    if pos < end {
        closed_stays(b, pos + 1, end, m);
    }
}

proof fn evenness_was(b: Seq<u8>, pos: int, end: int, m: Level)
    requires
        level(b, pos, end, m).even,
    ensures
        m.even,
    decreases end - pos,
{
    if pos < end {
        evenness_was(b, pos + 1, end, level_step(b, pos, m));
    }
}

proof fn first_close_push(closes: Seq<Candidate>, x: Candidate, depth: int, i: int)
    requires
        0 <= i <= closes.len(),
    ensures
        first_close(closes.push(x), depth, i) == (match first_close(closes, depth, i) {
            Some(offset) => Some(offset),
            None => if depth + x.local_depth == 1 {
                Some(x.offset)
            } else {
                None
            },
        }),
    decreases closes.len() - i,
{
    let all = closes.push(x);
    if i < closes.len() {
        assert(all[i] == closes[i]);
        if depth + closes[i].local_depth != 1 {
            first_close_push(closes, x, depth, i + 1);
        }
    } else {
        assert(all[i] == x);
        assert(first_close(all, depth, i + 1) is None);
    }
}

proof fn split_prefix(
    b: Seq<u8>,
    commas: Seq<Candidate>,
    x: Candidate,
    k: nat,
    depth: int,
    close: Option<usize>,
    start: int,
    out: Seq<ByteRange>,
)
    requires
        k <= commas.len(),
    ensures
        split_at_commas(b, commas.push(x), k, depth, close, start, out) == split_at_commas(b, commas, k, depth, close, start, out),
    decreases k,
{
    if k > 0 {
        split_prefix(b, commas, x, (k - 1) as nat, depth, close, start, out);
        assert(commas.push(x)[k - 1] == commas[k - 1]);
    }
}

proof fn split_before_close(
    b: Seq<u8>,
    commas: Seq<Candidate>,
    k: nat,
    depth: int,
    close: usize,
    start: int,
    out: Seq<ByteRange>,
)
    requires
        k <= commas.len(),
        candidates_before(commas, close as int),
    ensures
        split_at_commas(b, commas, k, depth, Some(close), start, out) == split_at_commas(b, commas, k, depth, None, start, out),
    decreases k,
{
    if k > 0 {
        split_before_close(b, commas, (k - 1) as nat, depth, close, start, out);
        assert(commas[k - 1].offset < close);
    }
}

/// Whether a block scan that started at depth `base` has seen what the level says.
spec fn agrees(b: Seq<u8>, s: int, pos: int, base: int, start: int, out: Seq<ByteRange>, c: CutModel, m: Level) -> bool {
    let split = split_at_commas(
        b,
        c.commas,
        c.commas.len(),
        base,
        match m.closed {
            Some(offset) => Some(offset as usize),
            None => None,
        },
        start,
        out,
    );
    &&& -(pos - s) <= c.depth <= pos - s
    &&& split == (m.start, m.out)
    &&& match m.closed {
        Some(offset) => {
            &&& 0 <= offset < pos
            &&& first_close(c.closes, base, 0) == Some(offset as usize)
            &&& offset >= s
            &&& m.clean ==> match c.fault {
                Some(fault) => fault matches ScanFault::Slash(at) && at >= offset,
                None => true,
            }
            &&& c.state is BlockComment ==> (c.opened matches Some(at) && at >= offset)
        },
        None => {
            &&& m.clean ==> c.fault is None
            &&& candidates_before(c.commas, pos)
            &&& c.state == m.state
            &&& base + c.depth == m.depth
            &&& c.low <= c.depth
            &&& m.sound ==> base + c.low >= 1
            &&& first_close(c.closes, base, 0) is None
        },
    }
}

proof fn step_agrees(b: Seq<u8>, s: int, pos: int, base: int, start: int, out: Seq<ByteRange>, c: CutModel, m: Level)
    requires
        0 <= s <= pos < b.len() <= usize::MAX,
        level_step(b, pos, m).even,
        agrees(b, s, pos, base, start, out, c, m),
    ensures
        agrees(b, s, pos + 1, base, start, out, cut_step(b, s, pos, c), level_step(b, pos, m)),
{
    let byte = b[pos];
    let token = is_token(m.state, byte);
    let next = cut_step(b, s, pos, c);
    let x = Candidate { offset: pos as usize, local_depth: c.depth as i128 };
    first_close_push(c.closes, x, base, 0);
    match m.closed {
        Some(offset) => {
            if next.commas != c.commas {
                let y = next.commas.last();
                assert(next.commas == c.commas.push(y));
                assert(y.offset == pos);
                split_prefix(b, c.commas, y, c.commas.len(), base, Some(offset as usize), start, out);
                assert(next.commas.drop_last() =~= c.commas);
            }
            if next.closes != c.closes {
                assert(next.closes == c.closes.push(next.closes.last()));
                first_close_push(c.closes, next.closes.last(), base, 0);
            }
        },
        None => {
            if token && byte == RBRACKET {
                assert(next.closes == c.closes.push(x));
                assert(next.commas == c.commas);
                if m.depth == 1 {
                    split_before_close(b, c.commas, c.commas.len(), base, pos as usize, start, out);
                }
            } else if token && byte == COMMA {
                assert(next.closes == c.closes);
                if c.depth == c.low {
                    assert(next.commas == c.commas.push(x));
                    split_prefix(b, c.commas, x, c.commas.len(), base, None, start, out);
                    assert(next.commas.drop_last() =~= c.commas);
                    assert forall|i: int| 0 <= i < next.commas.len() implies (#[trigger] next.commas[i]).offset < pos + 1 by {
                        if i < c.commas.len() {
                            assert(next.commas[i] == c.commas[i]);
                        }
                    }
                }
            }
        },
    }
}

proof fn scan_agrees(b: Seq<u8>, s: int, pos: int, end: int, base: int, start: int, out: Seq<ByteRange>, c: CutModel, m: Level)
    requires
        0 <= s <= pos <= end <= b.len() <= usize::MAX,
        level(b, pos, end, m).even,
        agrees(b, s, pos, base, start, out, c, m),
    ensures
        agrees(b, s, end, base, start, out, cut_from(b, s, pos, end, c), level(b, pos, end, m)),
    decreases end - pos,
{
    if pos < end {
        evenness_was(b, pos + 1, end, level_step(b, pos, m));
        step_agrees(b, s, pos, base, start, out, c, m);
        scan_agrees(b, s, pos + 1, end, base, start, out, cut_step(b, s, pos, c), level_step(b, pos, m));
    }
}

/// A block scan sees what the level says.
proof fn block_agrees(b: Seq<u8>, block: ByteRange, m: Level)
    requires
        block.start <= block.end <= b.len() <= usize::MAX,
        m.closed is None,
        m.sound ==> m.depth >= 1,
        level(b, block.start as int, block.end as int, m).even,
    ensures
        agrees(
            b,
            block.start as int,
            block.end as int,
            m.depth,
            m.start,
            m.out,
            cut_from(b, block.start as int, block.start as int, block.end as int, fresh_cut(m.state)),
            level(b, block.start as int, block.end as int, m),
        ),
{
    let s = block.start as int;
    let e = block.end as int;
    let c = fresh_cut(m.state);
    scan_agrees(b, s, s, e, m.depth, m.start, m.out, c, m);
}

/// Whether blocks follow one another from `from` to the end of the source.
pub open spec fn contiguous(b: Seq<u8>, summaries: Seq<SummaryModel>, k: int, from: int) -> bool
    decreases summaries.len() - k,
{
    if k >= summaries.len() {
        from == b.len()
    } else {
        &&& summaries[k] == summary_of(b, summaries[k].block)
        &&& summaries[k].block.start == from
        &&& from <= summaries[k].block.end <= b.len()
        &&& contiguous(b, summaries, k + 1, summaries[k].block.end as int)
    }
}

proof fn level_depth(b: Seq<u8>, pos: int, end: int, m: Level)
    requires
        pos <= end,
    ensures
        m.depth - (end - pos) <= level(b, pos, end, m).depth <= m.depth + (end - pos),
        level(b, pos, end, m).sound && m.depth >= 1 && level(b, pos, end, m).closed is None ==> level(b, pos, end, m).depth >= 1,
    decreases end - pos,
{
    if pos < end {
        let next = level_step(b, pos, m);
        level_depth(b, pos + 1, end, next);
        if next.closed is Some {
            closed_stays(b, pos + 1, end, next);
        }
        soundness_holds(b, pos + 1, end, next);
    }
}

proof fn soundness_holds(b: Seq<u8>, pos: int, end: int, m: Level)
    ensures
        level(b, pos, end, m).sound ==> m.sound,
    decreases end - pos,
{
    if pos < end {
        soundness_holds(b, pos + 1, end, level_step(b, pos, m));
    }
}

/// Blocks together see what one scan sees.
proof fn blocks_agree(b: Seq<u8>, summaries: Seq<SummaryModel>, k: int, from: int, m: Level)
    requires
        0 <= k <= summaries.len(),
        0 <= from <= b.len() <= usize::MAX,
        contiguous(b, summaries, k, from),
        m.closed is None,
        -from <= m.depth <= from,
        m.sound ==> m.depth >= 1,
        level(b, from, b.len() as int, m).even,
        level(b, from, b.len() as int, m).closed is Some,
    ensures
        ({
            let last = level(b, from, b.len() as int, m);
            combined(b, summaries, k, m.depth, m.state, m.start, m.out) == (
                with_element(last.out, b, last.start, last.closed->0),
                last.closed->0 + 1,
            )
        }),
    decreases summaries.len() - k,
{
    if k < summaries.len() {
        let block = summaries[k].block;
        let s = block.start as int;
        let e = block.end as int;
        let mid = level(b, s, e, m);
        level_splits(b, s, e, b.len() as int, m);
        evenness_was(b, e, b.len() as int, mid);
        soundness_holds(b, s, e, m);
        block_agrees(b, block, m);
        level_depth(b, s, e, m);
        match mid.closed {
            Some(_) => {
                closed_stays(b, e, b.len() as int, mid);
            },
            None => {
                blocks_agree(b, summaries, k + 1, e, mid);
            },
        }
    }
}

/// Whether the brackets of an array body balance up to its closer.
pub open spec fn balanced_body(b: Seq<u8>, start: int) -> bool {
    let last = level(b, start, b.len() as int, opened_body(start));
    last.sound && last.closed is Some
}

/// Whether no comma stands in an array body's own depth after a closer that left it, up to
/// the array's closer.
pub open spec fn even_body(b: Seq<u8>, start: int) -> bool {
    level(b, start, b.len() as int, opened_body(start)).even
}

/// Balanced brackets never leave the array.
proof fn sound_is_even(b: Seq<u8>, pos: int, end: int, m: Level)
    requires
        m.even,
        level(b, pos, end, m).sound,
    ensures
        level(b, pos, end, m).even,
    decreases end - pos,
{
    if pos < end {
        soundness_holds(b, pos, end, m);
        sound_is_even(b, pos + 1, end, level_step(b, pos, m));
    }
}

/// Wherever one serial cut names elements, the summaries of contiguous blocks name the
/// same, wherever the blocks begin: inside a string, a comment or a nested value.
///
/// Left out is a body whose brackets leave the array and come back to it before a comma:
/// in `}[1,2]` the comma separates nothing to a serial cut, and two elements to a block that
/// begins after the `[`.
pub proof fn blocks_name_the_serial_elements(b: Seq<u8>, array_start: int, summaries: Seq<SummaryModel>)
    requires
        0 <= array_start < b.len() <= usize::MAX,
        contiguous(b, summaries, 0, array_start + 1),
        even_body(b, array_start + 1),
        serial_elements(b, array_start + 1) is Ok,
    ensures
        Ok::<(Seq<ByteRange>, int), Error>(summed_elements(b, array_start, summaries)) == serial_elements(b, array_start + 1),
{
    let start = array_start + 1;
    let m = opened_body(start);
    let block = ByteRange { start: start as usize, end: b.len() as usize };
    block_agrees(b, block, m);
    blocks_agree(b, summaries, 0, start, m);
}

/// A balanced array body is one on which blocks and a serial cut agree.
pub proof fn a_balanced_body_is_even(b: Seq<u8>, start: int)
    requires
        balanced_body(b, start),
    ensures
        even_body(b, start),
{
    sound_is_even(b, start, b.len() as int, opened_body(start));
}

/// A clean, balanced body is cut without a refusal.
pub(crate) proof fn clean_body_is_cut(b: Seq<u8>, start: int)
    requires
        0 <= start <= b.len() <= usize::MAX,
        balanced_body(b, start),
        level(b, start, b.len() as int, opened_body(start)).clean,
    ensures
        ({
            let last = level(b, start, b.len() as int, opened_body(start));
            serial_elements(b, start) == Ok::<(Seq<ByteRange>, int), Error>(
                (with_element(last.out, b, last.start, last.closed->0), last.closed->0 + 1),
            )
        }),
{
    let block = ByteRange { start: start as usize, end: b.len() as usize };
    a_balanced_body_is_even(b, start);
    block_agrees(b, block, opened_body(start));
}

} // verus!
