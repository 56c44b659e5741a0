//! Byte classes that end a run, and the longest run that meets none of them.

use vstd::prelude::*;

use crate::ascii::{APOSTROPHE, BACKSLASH, CR, DEL, LF, NINE, QUOTE, SPACE, TAB, ZERO};

verus! {

/// A set of bytes a run stops at.
pub trait StopSet {
    /// Whether `byte` ends the run.
    spec fn stops(byte: u8) -> bool;

    /// Whether `byte` ends the run.
    fn stops_at(byte: u8) -> (r: bool)
        ensures
            r == Self::stops(byte),
    ;
}

/// First position at or after `pos` whose byte is in `S`; the length when none is.
pub open spec fn run_end<S: StopSet>(b: Seq<u8>, pos: int) -> int
    decreases b.len() - pos,
{
    if 0 <= pos < b.len() && !S::stops(b[pos]) {
        run_end::<S>(b, pos + 1)
    } else {
        pos
    }
}

/// A run covers only bytes outside `S` and ends at the input's end or at a byte of `S`.
pub proof fn run_end_facts<S: StopSet>(b: Seq<u8>, pos: int)
    requires
        0 <= pos <= b.len(),
    ensures
        pos <= run_end::<S>(b, pos) <= b.len(),
        forall|i: int| pos <= i < run_end::<S>(b, pos) ==> !S::stops(#[trigger] b[i]),
        run_end::<S>(b, pos) < b.len() ==> S::stops(b[run_end::<S>(b, pos)]),
    decreases b.len() - pos,
{
    if pos < b.len() && !S::stops(b[pos]) {
        run_end_facts::<S>(b, pos + 1);
    }
}

/// A position that ends a run of bytes outside `S` is the run's end.
pub proof fn run_end_is<S: StopSet>(b: Seq<u8>, pos: int, end: int)
    requires
        0 <= pos <= end <= b.len(),
        forall|i: int| pos <= i < end ==> !S::stops(#[trigger] b[i]),
        end < b.len() ==> S::stops(b[end]),
    ensures
        run_end::<S>(b, pos) == end,
    decreases end - pos,
{
    if pos < end {
        run_end_is::<S>(b, pos + 1, end);
    }
}

/// A run that passes `mid` ends where the run from `mid` ends.
pub proof fn run_end_through<S: StopSet>(b: Seq<u8>, pos: int, mid: int)
    requires
        0 <= pos <= mid <= b.len(),
        forall|i: int| pos <= i < mid ==> !S::stops(#[trigger] b[i]),
    ensures
        run_end::<S>(b, pos) == run_end::<S>(b, mid),
    decreases mid - pos,
{
    if pos < mid {
        run_end_through::<S>(b, pos + 1, mid);
    }
}

/// End of the run from `pos` that meets no byte of `S`.
pub fn find_stop<S: StopSet>(bytes: &[u8], pos: usize) -> (r: usize)
    requires
        pos <= bytes@.len(),
    ensures
        r == run_end::<S>(bytes@, pos as int),
        pos <= r <= bytes@.len(),
{
    let mut cursor: usize = pos;
    while cursor < bytes.len() && !S::stops_at(bytes[cursor])
        invariant
            pos <= cursor <= bytes@.len(),
            run_end::<S>(bytes@, pos as int) == run_end::<S>(bytes@, cursor as int),
        decreases bytes@.len() - cursor,
    {
        cursor = cursor + 1;
    }
    cursor
}

/// Decode-side string content run: `"`, `\`, C0 control, or DEL.
#[derive(Clone, Copy)]
pub struct StringContent;

impl StopSet for StringContent {
    open spec fn stops(byte: u8) -> bool {
        byte == QUOTE || byte == BACKSLASH || byte == DEL || byte < 0x20
    }

    fn stops_at(byte: u8) -> (r: bool) {
        byte == QUOTE || byte == BACKSLASH || byte == DEL || byte < 0x20
    }
}

/// Decode-side content run of a single-quoted string: `'`, `\`, C0 control, or DEL.
#[derive(Clone, Copy)]
pub struct SingleContent;

impl StopSet for SingleContent {
    open spec fn stops(byte: u8) -> bool {
        byte == APOSTROPHE || byte == BACKSLASH || byte == DEL || byte < 0x20
    }

    fn stops_at(byte: u8) -> (r: bool) {
        byte == APOSTROPHE || byte == BACKSLASH || byte == DEL || byte < 0x20
    }
}

/// Bound-source string run: `"`, `\`, C0, DEL, or non-ASCII.
#[derive(Clone, Copy)]
pub struct PlainString;

impl StopSet for PlainString {
    open spec fn stops(byte: u8) -> bool {
        byte == QUOTE || byte == BACKSLASH || byte < 0x20 || byte >= 0x7f
    }

    fn stops_at(byte: u8) -> (r: bool) {
        byte == QUOTE || byte == BACKSLASH || byte < 0x20 || byte >= 0x7f
    }
}

/// Whether `byte` is RFC 8259 whitespace.
pub open spec fn is_space(byte: u8) -> bool {
    byte == SPACE || byte == TAB || byte == LF || byte == CR
}

/// RFC 8259 whitespace: the run is whitespace and stops at anything else.
#[derive(Clone, Copy)]
pub struct Ws;

impl StopSet for Ws {
    open spec fn stops(byte: u8) -> bool {
        !is_space(byte)
    }

    fn stops_at(byte: u8) -> (r: bool) {
        !(byte == SPACE || byte == TAB || byte == LF || byte == CR)
    }
}

/// NDJSON record terminators.
#[derive(Clone, Copy)]
pub struct NdjsonFrame;

impl StopSet for NdjsonFrame {
    open spec fn stops(byte: u8) -> bool {
        byte == LF || byte == CR
    }

    fn stops_at(byte: u8) -> (r: bool) {
        byte == LF || byte == CR
    }
}

/// A stop set that halts at one exact byte.
#[derive(Clone, Copy)]
pub struct ByteStop<const BYTE: u8>;

impl<const BYTE: u8> StopSet for ByteStop<BYTE> {
    open spec fn stops(byte: u8) -> bool {
        byte == BYTE
    }

    fn stops_at(byte: u8) -> (r: bool) {
        byte == BYTE
    }
}

/// RFC 7464 record separator, so a JSON-seq record scan runs between `0x1E`.
pub type JsonSeqFrame = ByteStop<0x1e>;

/// Fact walk: every comment starts with `/`, so a range with no `/` has no facts.
pub type CommentStart = ByteStop<0x2f>;

/// Block-comment scan: the next `*`, so `*/` is a two-byte check after the run.
pub type Star = ByteStop<0x2a>;

/// Locate-mode closing `"` only: an escaped quote is resolved by backslash parity.
pub type DoubleQuote = ByteStop<0x22>;

/// Locate-mode closing `'` for a JSON5 single-quoted string.
pub type SingleQuote = ByteStop<0x27>;

/// Locate-mode string: stop only at `"` or `\`.
#[derive(Clone, Copy)]
pub struct StringEnd;

impl StopSet for StringEnd {
    open spec fn stops(byte: u8) -> bool {
        byte == QUOTE || byte == BACKSLASH
    }

    fn stops_at(byte: u8) -> (r: bool) {
        byte == QUOTE || byte == BACKSLASH
    }
}

/// JSON5 locate-mode string: stop at `'` or `\` for the no-escape run.
#[derive(Clone, Copy)]
pub struct SingleStringEnd;

impl StopSet for SingleStringEnd {
    open spec fn stops(byte: u8) -> bool {
        byte == APOSTROPHE || byte == BACKSLASH
    }

    fn stops_at(byte: u8) -> (r: bool) {
        byte == APOSTROPHE || byte == BACKSLASH
    }
}

/// Whether `byte` is an ASCII decimal digit.
pub open spec fn is_digit(byte: u8) -> bool {
    ZERO <= byte <= NINE
}

/// Whether `byte` is an ASCII hexadecimal digit.
pub open spec fn is_hex(byte: u8) -> bool {
    is_digit(byte) || 0x41 <= byte <= 0x46 || 0x61 <= byte <= 0x66
}

/// Whether `byte` is an ASCII letter.
pub open spec fn is_alpha(byte: u8) -> bool {
    0x41 <= byte <= 0x5a || 0x61 <= byte <= 0x7a
}

/// Decimal digit run.
#[derive(Clone, Copy)]
pub struct Digits;

impl StopSet for Digits {
    open spec fn stops(byte: u8) -> bool {
        !is_digit(byte)
    }

    fn stops_at(byte: u8) -> (r: bool) {
        byte < ZERO || byte > NINE
    }
}

/// Hexadecimal digit run.
#[derive(Clone, Copy)]
pub struct HexDigits;

impl StopSet for HexDigits {
    open spec fn stops(byte: u8) -> bool {
        !is_hex(byte)
    }

    fn stops_at(byte: u8) -> (r: bool) {
        !((ZERO <= byte && byte <= NINE) || (0x41 <= byte && byte <= 0x46) || (0x61 <= byte && byte <= 0x66))
    }
}

/// Letter run.
#[derive(Clone, Copy)]
pub struct Letters;

impl StopSet for Letters {
    open spec fn stops(byte: u8) -> bool {
        !is_alpha(byte)
    }

    fn stops_at(byte: u8) -> (r: bool) {
        !((0x41 <= byte && byte <= 0x5a) || (0x61 <= byte && byte <= 0x7a))
    }
}

/// Whether `byte` can start a JSON5 identifier key.
pub open spec fn ident_start(byte: u8) -> bool {
    is_alpha(byte) || byte == 0x5f || byte == 0x24
}

/// JSON5 identifier run.
#[derive(Clone, Copy)]
pub struct Ident;

impl StopSet for Ident {
    open spec fn stops(byte: u8) -> bool {
        !(ident_start(byte) || is_digit(byte))
    }

    fn stops_at(byte: u8) -> (r: bool) {
        !((0x41 <= byte && byte <= 0x5a) || (0x61 <= byte && byte <= 0x7a) || byte == 0x5f || byte == 0x24 || (ZERO
            <= byte && byte <= NINE))
    }
}

/// End of a [`PlainString`] run starting at `start`.
#[must_use]
pub fn plain_string_run_end(bytes: &[u8], start: usize) -> (r: usize)
    requires
        start <= bytes@.len(),
    ensures
        r == run_end::<PlainString>(bytes@, start as int),
        start <= r <= bytes@.len(),
{
    find_stop::<PlainString>(bytes, start)
}

} // verus!
