//! RFC 8259 strings, plus JSON5 single-quoted strings and JSON5 escapes.
//!
//! Locate resolves escaped quotes by the preceding backslash run; a value check
//! validates UTF-8, escapes, surrogates, and controls.

use vstd::prelude::*;
use vstd::utf8::{encode_scalar, is_scalar, valid_utf8, valid_utf8_concat};

use super::hex_digit;
use super::hex_value;
use super::stop_sets::{
    find_stop, is_digit, is_hex, plain_string_run_end, run_end, run_end_facts, DoubleQuote, PlainString,
    SingleContent, SingleQuote, SingleStringEnd, StopSet, StringContent, StringEnd,
};
use super::ws::ends_as;
use crate::ascii::{APOSTROPHE, BACKSLASH, CR, DEL, LF, NINE, QUOTE, SLASH, ZERO};
use crate::dialect::Dialect;
use crate::error::{at, Error, ErrorKind};
use crate::text::{push_scalar, utf8_prefix, valid_up_to};

verus! {

/// Position after the closing `quote` of a string whose content starts at
/// `pos`: a backslash takes the byte after it along.
pub open spec fn closing_quote(b: Seq<u8>, pos: int, quote: u8) -> Option<int>
    decreases b.len() - pos + 1,
{
    if 0 <= pos < b.len() {
        if b[pos] == quote {
            Some(pos + 1)
        } else if b[pos] == BACKSLASH {
            closing_quote(b, pos + 2, quote)
        } else {
            closing_quote(b, pos + 1, quote)
        }
    } else {
        None
    }
}

/// End of a string located by its quotes alone.
pub open spec fn located_quoted_end(b: Seq<u8>, start: int, quote: u8) -> Result<int, Error> {
    match closing_quote(b, start + 1, quote) {
        Some(end) => Ok(end),
        None => Err(at(ErrorKind::UnterminatedString, b.len() as int)),
    }
}

/// Whether `byte` opens a string under `dialect`.
pub open spec fn opens_string(byte: u8, dialect: Dialect) -> bool {
    byte == QUOTE || (byte == APOSTROPHE && dialect == Dialect::Json5)
}

/// End of the string at `start`, content unchecked.
pub open spec fn located_string_end(b: Seq<u8>, start: int, dialect: Dialect) -> Result<int, Error> {
    if start < b.len() && opens_string(b[start], dialect) {
        located_quoted_end(b, start, b[start])
    } else {
        Err(at(ErrorKind::ExpectedValue, start))
    }
}

/// Number of consecutive backslashes that end just before `pos`.
pub open spec fn backslashes_before(b: Seq<u8>, pos: int) -> nat
    decreases pos,
{
    if 0 < pos <= b.len() && b[pos - 1] == BACKSLASH {
        backslashes_before(b, pos - 1) + 1
    } else {
        0
    }
}

/// A closing quote ends inside the input.
pub proof fn closing_quote_bounds(b: Seq<u8>, pos: int, quote: u8)
    ensures
        closing_quote(b, pos, quote) matches Some(e) ==> pos + 1 <= e <= b.len() && b[e - 1] == quote,
    decreases b.len() - pos + 1,
{
    if 0 <= pos < b.len() && b[pos] != quote {
        if b[pos] == BACKSLASH {
            closing_quote_bounds(b, pos + 2, quote);
        } else {
            closing_quote_bounds(b, pos + 1, quote);
        }
    }
}

/// Plain content does not close a string.
pub proof fn closing_quote_skips(b: Seq<u8>, pos: int, to: int, quote: u8)
    requires
        0 <= pos <= to <= b.len(),
        forall|i: int| pos <= i < to ==> #[trigger] b[i] != quote && b[i] != BACKSLASH,
    ensures
        closing_quote(b, pos, quote) == closing_quote(b, to, quote),
    decreases to - pos,
{
    if pos < to {
        closing_quote_skips(b, pos + 1, to, quote);
    }
}

/// From a position outside any escape, the first quote ahead closes the string
/// exactly when an even backslash run precedes it.
proof fn quote_parity(b: Seq<u8>, pos: int, q: int, quote: u8)
    requires
        0 <= pos <= q < b.len(),
        quote != BACKSLASH,
        b[q] == quote,
        forall|i: int| pos <= i < q ==> #[trigger] b[i] != quote,
        backslashes_before(b, pos) % 2 == 0,
    ensures
        closing_quote(b, pos, quote) == (if backslashes_before(b, q) % 2 == 0 {
            Some(q + 1)
        } else {
            closing_quote(b, q + 1, quote)
        }),
    decreases q - pos,
{
    if pos < q {
        assert(b[pos] != quote);
        if b[pos] == BACKSLASH {
            assert(backslashes_before(b, pos + 1) == backslashes_before(b, pos) + 1);
            if pos + 2 <= q {
                assert(backslashes_before(b, pos + 2) == (if b[pos + 1] == BACKSLASH {
                    backslashes_before(b, pos + 1) + 1
                } else {
                    0
                }));
                quote_parity(b, pos + 2, q, quote);
            }
        } else {
            assert(backslashes_before(b, pos + 1) == 0);
            quote_parity(b, pos + 1, q, quote);
        }
    }
}

/// Without a quote ahead a string does not close.
proof fn no_quote_no_close(b: Seq<u8>, pos: int, quote: u8)
    requires
        0 <= pos,
        forall|i: int| pos <= i < b.len() ==> #[trigger] b[i] != quote,
    ensures
        closing_quote(b, pos, quote) is None,
    decreases b.len() - pos + 1,
{
    if pos < b.len() {
        if b[pos] == BACKSLASH {
            no_quote_no_close(b, pos + 2, quote);
        } else {
            no_quote_no_close(b, pos + 1, quote);
        }
    }
}

/// Locate the closing quote without value-checking content.
pub fn skip_string_locate(bytes: &[u8], start: usize, dialect: Dialect) -> (r: Result<usize, Error>)
    ensures
        ends_as(r, located_string_end(bytes@, start as int, dialect)),
        r matches Ok(e) ==> start + 1 < e <= bytes@.len(),
{
    if start < bytes.len() {
        if bytes[start] == QUOTE {
            return locate_double_quoted(bytes, start);
        }
        if bytes[start] == APOSTROPHE && dialect.json5() {
            return locate_single_quoted(bytes, start);
        }
    }
    Err(Error::new(ErrorKind::ExpectedValue, start))
}

/// Locate a closing `"`, resolving escapes by backslash parity.
pub fn locate_double_quoted(bytes: &[u8], start: usize) -> (r: Result<usize, Error>)
    requires
        start < bytes@.len(),
        bytes@[start as int] == QUOTE,
    ensures
        ends_as(r, located_quoted_end(bytes@, start as int, QUOTE)),
        r matches Ok(e) ==> start + 1 < e <= bytes@.len(),
{
    let len: usize = bytes.len();
    let cursor: usize = find_stop::<StringEnd>(bytes, start + 1);
    proof {
        run_end_facts::<StringEnd>(bytes@, start + 1);
        assert forall|i: int| start + 1 <= i < cursor implies #[trigger] bytes@[i] != QUOTE && bytes@[i]
            != BACKSLASH by {
            assert(!StringEnd::stops(bytes@[i]));
        }
        closing_quote_skips(bytes@, start + 1, cursor as int, QUOTE);
        closing_quote_bounds(bytes@, start + 1, QUOTE);
        assert(backslashes_before(bytes@, cursor as int) == 0) by {
            assert(bytes@[cursor - 1] != BACKSLASH);
        }
    }
    if cursor >= len {
        Err(Error::new(ErrorKind::UnterminatedString, len))
    } else if bytes[cursor] == QUOTE {
        Ok(cursor + 1)
    } else {
        locate_escaped::<DoubleQuote>(bytes, cursor, QUOTE)
    }
}

/// Locate a closing `'` for a JSON5 single-quoted string.
pub fn locate_single_quoted(bytes: &[u8], start: usize) -> (r: Result<usize, Error>)
    requires
        start < bytes@.len(),
        bytes@[start as int] == APOSTROPHE,
    ensures
        ends_as(r, located_quoted_end(bytes@, start as int, APOSTROPHE)),
        r matches Ok(e) ==> start + 1 < e <= bytes@.len(),
{
    let len: usize = bytes.len();
    let cursor: usize = find_stop::<SingleStringEnd>(bytes, start + 1);
    proof {
        run_end_facts::<SingleStringEnd>(bytes@, start + 1);
        assert forall|i: int| start + 1 <= i < cursor implies #[trigger] bytes@[i] != APOSTROPHE && bytes@[i]
            != BACKSLASH by {
            assert(!SingleStringEnd::stops(bytes@[i]));
        }
        closing_quote_skips(bytes@, start + 1, cursor as int, APOSTROPHE);
        closing_quote_bounds(bytes@, start + 1, APOSTROPHE);
        assert(backslashes_before(bytes@, cursor as int) == 0) by {
            assert(bytes@[cursor - 1] != BACKSLASH);
        }
    }
    if cursor >= len {
        Err(Error::new(ErrorKind::UnterminatedString, len))
    } else if bytes[cursor] == APOSTROPHE {
        Ok(cursor + 1)
    } else {
        locate_escaped::<SingleQuote>(bytes, cursor, APOSTROPHE)
    }
}

/// Whether the quote at `quote` is escaped: an odd run of `\` precedes it.
#[must_use]
pub fn quote_is_escaped(bytes: &[u8], quote: usize) -> (r: bool)
    requires
        quote <= bytes@.len(),
    ensures
        r == (backslashes_before(bytes@, quote as int) % 2 == 1),
{
    let mut odd: bool = false;
    let mut i: usize = quote;
    while i > 0 && bytes[i - 1] == BACKSLASH
        invariant
            i <= quote <= bytes@.len(),
            (backslashes_before(bytes@, quote as int) % 2 == 1) == (odd != (backslashes_before(bytes@, i as int) % 2
                == 1)),
        decreases i,
    {
        odd = !odd;
        i = i - 1;
    }
    odd
}

/// Locate the closing quote from a `\` at `at`, skipping the escape and then
/// scanning with backslash parity.
fn locate_escaped<Q: StopSet>(bytes: &[u8], at: usize, quote: u8) -> (r: Result<usize, Error>)
    requires
        at < bytes@.len(),
        bytes@[at as int] == BACKSLASH,
        quote != BACKSLASH,
        backslashes_before(bytes@, at as int) % 2 == 0,
        forall|byte: u8| #[trigger] Q::stops(byte) == (byte == quote),
    ensures
        ends_as(
            r,
            match closing_quote(bytes@, at as int, quote) {
                Some(end) => Ok(end),
                None => Err(crate::error::at(ErrorKind::UnterminatedString, bytes@.len() as int)),
            },
        ),
        r matches Ok(e) ==> at < e <= bytes@.len(),
{
    let len: usize = bytes.len();
    if len - at < 2 {
        assert(closing_quote(bytes@, at + 2, quote) is None);
        return Err(Error::new(ErrorKind::UnterminatedString, len));
    }
    let mut cursor: usize = at + 2;
    proof {
        closing_quote_bounds(bytes@, at as int, quote);
        assert(backslashes_before(bytes@, at + 1) == backslashes_before(bytes@, at as int) + 1);
        assert(backslashes_before(bytes@, at + 2) == (if bytes@[at + 1] == BACKSLASH {
            backslashes_before(bytes@, at + 1) + 1
        } else {
            0
        }));
    }
    loop
        invariant
            at < cursor <= len,
            len == bytes@.len(),
            quote != BACKSLASH,
            forall|byte: u8| #[trigger] Q::stops(byte) == (byte == quote),
            backslashes_before(bytes@, cursor as int) % 2 == 0,
            closing_quote(bytes@, at as int, quote) == closing_quote(bytes@, cursor as int, quote),
        decreases len - cursor,
    {
        let ghost before = cursor as int;
        cursor = find_stop::<Q>(bytes, cursor);
        proof {
            run_end_facts::<Q>(bytes@, before);
            assert forall|i: int| before <= i < cursor implies #[trigger] bytes@[i] != quote by {
                assert(!Q::stops(bytes@[i]));
            }
        }
        if cursor >= len {
            proof {
                no_quote_no_close(bytes@, before, quote);
            }
            return Err(Error::new(ErrorKind::UnterminatedString, len));
        }
        proof {
            assert(Q::stops(bytes@[cursor as int]));
            quote_parity(bytes@, before, cursor as int, quote);
        }
        if quote_is_escaped(bytes, cursor) {
            cursor = cursor + 1;
            assert(backslashes_before(bytes@, cursor as int) == 0);
        } else {
            return Ok(cursor + 1);
        }
    }
}

/// End of the content run at `pos`: no quote, backslash, control or DEL.
pub open spec fn content_end(b: Seq<u8>, pos: int, quote: u8) -> int {
    if quote == APOSTROPHE {
        run_end::<SingleContent>(b, pos)
    } else {
        run_end::<StringContent>(b, pos)
    }
}

/// The refusal of the first of `n` hex digits at `pos` that is none.
pub open spec fn hex_fault(b: Seq<u8>, pos: int, n: int) -> Option<Error>
    decreases n,
{
    if n <= 0 {
        None
    } else if pos >= b.len() {
        Some(at(ErrorKind::InvalidUnicodeEscape, b.len() as int))
    } else if !is_hex(b[pos]) {
        Some(at(ErrorKind::InvalidUnicodeEscape, pos))
    } else {
        hex_fault(b, pos + 1, n - 1)
    }
}

/// The number the four hex digits at `pos` spell.
pub open spec fn four_hex(b: Seq<u8>, pos: int) -> int {
    hex_value(b[pos]) * 4096 + hex_value(b[pos + 1]) * 256 + hex_value(b[pos + 2]) * 16 + hex_value(b[pos + 3])
}

/// The scalar a surrogate pair stands for.
pub open spec fn paired(high: int, low: int) -> int {
    0x10000 + (high - 0xd800) * 1024 + (low - 0xdc00)
}

/// The low half of a surrogate pair, expected at `pos`.
pub open spec fn low_surrogate(b: Seq<u8>, pos: int, high: int) -> Result<(int, Seq<u8>), Error> {
    if !(pos < b.len() && b[pos] == BACKSLASH) {
        Err(at(ErrorKind::MissingLowSurrogate, pos))
    } else if !(pos + 1 < b.len() && b[pos + 1] == 0x75) {
        Err(at(ErrorKind::MissingLowSurrogate, pos + 1))
    } else {
        match hex_fault(b, pos + 2, 4) {
            Some(error) => Err(error),
            None => {
                let low = four_hex(b, pos + 2);
                if 0xdc00 <= low <= 0xdfff {
                    Ok((pos + 6, encode_scalar(paired(high, low) as u32)))
                } else {
                    Err(at(ErrorKind::InvalidSurrogatePair, pos + 2))
                }
            },
        }
    }
}

/// A `\u` escape whose hex digits start at `pos`: where it ends and the text it stands for.
pub open spec fn unicode_escape(b: Seq<u8>, pos: int) -> Result<(int, Seq<u8>), Error> {
    match hex_fault(b, pos, 4) {
        Some(error) => Err(error),
        None => {
            let unit = four_hex(b, pos);
            if 0xd800 <= unit <= 0xdbff {
                low_surrogate(b, pos + 4, unit)
            } else if 0xdc00 <= unit <= 0xdfff {
                Err(at(ErrorKind::InvalidSurrogatePair, pos))
            } else {
                Ok((pos + 4, encode_scalar(unit as u32)))
            }
        },
    }
}

/// A JSON5-only escape whose letter is at `pos`; a line continuation stands for no text.
pub open spec fn json5_only_escape(b: Seq<u8>, pos: int) -> Option<(int, Seq<u8>)> {
    if b[pos] == 0x78 {
        if pos + 2 < b.len() && is_hex(b[pos + 1]) && is_hex(b[pos + 2]) {
            Some((pos + 3, encode_scalar((hex_value(b[pos + 1]) * 16 + hex_value(b[pos + 2])) as u32)))
        } else {
            None
        }
    } else if b[pos] == 0x76 {
        Some((pos + 1, seq![0x0bu8]))
    } else if b[pos] == ZERO && !(pos + 1 < b.len() && is_digit(b[pos + 1])) {
        Some((pos + 1, seq![0u8]))
    } else if b[pos] == LF {
        Some((pos + 1, Seq::empty()))
    } else if b[pos] == CR {
        Some((
            if pos + 1 < b.len() && b[pos + 1] == LF {
                pos + 2
            } else {
                pos + 1
            },
            Seq::empty(),
        ))
    } else if b[pos] == 0xe2 && pos + 2 < b.len() && b[pos + 1] == 0x80 && (b[pos + 2] == 0xa8 || b[pos + 2] == 0xa9) {
        Some((pos + 3, Seq::empty()))
    } else {
        None
    }
}

/// The text a single-letter escape stands for.
pub open spec fn simple_escape(letter: u8, json5: bool) -> Option<u8> {
    if letter == QUOTE || letter == BACKSLASH || letter == SLASH || (json5 && letter == APOSTROPHE) {
        Some(letter)
    } else if letter == 0x62 {
        Some(0x08)
    } else if letter == 0x66 {
        Some(0x0c)
    } else if letter == 0x6e {
        Some(LF)
    } else if letter == 0x72 {
        Some(CR)
    } else if letter == 0x74 {
        Some(0x09)
    } else {
        None
    }
}

/// An escape whose letter is at `pos`, just past the backslash.
pub open spec fn escape(b: Seq<u8>, pos: int, json5: bool) -> Result<(int, Seq<u8>), Error> {
    if pos >= b.len() {
        Err(at(ErrorKind::UnterminatedString, b.len() as int))
    } else if let Some(byte) = simple_escape(b[pos], json5) {
        Ok((pos + 1, seq![byte]))
    } else if b[pos] == 0x75 {
        unicode_escape(b, pos + 1)
    } else if json5 {
        match json5_only_escape(b, pos) {
            Some(piece) => Ok(piece),
            None => Err(at(ErrorKind::InvalidEscape, pos)),
        }
    } else {
        Err(at(ErrorKind::InvalidEscape, pos))
    }
}

/// One piece of string content at `pos`, which is not the closing quote: where
/// it ends and the text it stands for.
pub open spec fn string_piece(b: Seq<u8>, pos: int, quote: u8, json5: bool) -> Result<(int, Seq<u8>), Error> {
    if b[pos] == BACKSLASH {
        escape(b, pos + 1, json5)
    } else if b[pos] < 0x20 {
        Err(at(ErrorKind::ControlInString, pos))
    } else if b[pos] == DEL {
        Ok((pos + 1, seq![DEL]))
    } else {
        let end = content_end(b, pos, quote);
        let run = b.subrange(pos, end);
        if valid_utf8(run) {
            Ok((end, run))
        } else {
            Err(at(ErrorKind::Utf8, pos + valid_up_to(run)))
        }
    }
}

/// Text `acc` put in front of decoded text.
pub open spec fn prepended(acc: Seq<u8>, rest: Result<(int, Seq<u8>), Error>) -> Result<(int, Seq<u8>), Error> {
    match rest {
        Ok((end, text)) => Ok((end, acc + text)),
        Err(error) => Err(error),
    }
}

/// The rest of a string from `pos` inside it: the position after its closing
/// quote and the text the rest stands for.
pub open spec fn string_rest(b: Seq<u8>, pos: int, quote: u8, json5: bool) -> Result<(int, Seq<u8>), Error>
    decreases b.len() - pos,
{
    if pos >= b.len() {
        Err(at(ErrorKind::UnterminatedString, b.len() as int))
    } else if b[pos] == quote {
        Ok((pos + 1, Seq::empty()))
    } else {
        match string_piece(b, pos, quote, json5) {
            Ok((next, text)) => if pos < next <= b.len() {
                prepended(text, string_rest(b, next, quote, json5))
            } else {
                Ok((next, text))
            },
            Err(error) => Err(error),
        }
    }
}

/// The string at `start`: the position after it and its decoded text.
pub open spec fn string_text(b: Seq<u8>, start: int, dialect: Dialect) -> Result<(int, Seq<u8>), Error> {
    if dialect == Dialect::Json5 {
        if start < b.len() && opens_string(b[start], dialect) {
            string_rest(b, start + 1, b[start], true)
        } else {
            Err(at(ErrorKind::ExpectedValue, start))
        }
    } else {
        string_rest(b, start + 1, QUOTE, false)
    }
}

/// The end of decoded text.
pub open spec fn end_of(r: Result<(int, Seq<u8>), Error>) -> Result<int, Error> {
    match r {
        Ok((end, _)) => Ok(end),
        Err(error) => Err(error),
    }
}

/// End of the string at `start`, content checked.
pub open spec fn checked_string_end(b: Seq<u8>, start: int, dialect: Dialect) -> Result<int, Error> {
    end_of(string_text(b, start, dialect))
}

/// Where a plain double-quoted string at `start` ends: ASCII content without
/// escapes, controls or DEL.
pub open spec fn plain_end(b: Seq<u8>, start: int) -> Option<int> {
    if start < b.len() && b[start] == QUOTE {
        let e = run_end::<PlainString>(b, start + 1);
        if e < b.len() && b[e] == QUOTE {
            Some(e + 1)
        } else {
            None
        }
    } else {
        None
    }
}

pub proof fn hex_fault_none(b: Seq<u8>, pos: int)
    requires
        0 <= pos,
        hex_fault(b, pos, 4) is None,
    ensures
        pos + 4 <= b.len(),
        is_hex(b[pos]) && is_hex(b[pos + 1]) && is_hex(b[pos + 2]) && is_hex(b[pos + 3]),
        0 <= four_hex(b, pos) <= 0xffff,
{
    reveal_with_fuel(hex_fault, 5);
}

/// A scalar's encoding is valid UTF-8.
pub proof fn scalar_is_valid(scalar: u32)
    requires
        is_scalar(scalar),
    ensures
        valid_utf8(encode_scalar(scalar)),
        encode_scalar(scalar).len() >= 1,
{
    let c = scalar as char;
    assert(c as u32 == scalar);
    let chars = seq![c];
    vstd::utf8::encode_utf8_valid_utf8(chars);
    assert(chars.drop_first().len() == 0);
    assert(vstd::utf8::encode_utf8(chars.drop_first()) =~= Seq::empty());
    assert(vstd::utf8::encode_utf8(chars) =~= encode_scalar(scalar));
}

/// An ASCII byte is valid UTF-8.
pub proof fn ascii_is_valid(byte: u8)
    requires
        byte < 0x80,
    ensures
        valid_utf8(seq![byte]),
        encode_scalar(byte as u32) == seq![byte],
{
    let s = seq![byte];
    reveal_with_fuel(valid_utf8, 2);
    assert((byte & 0x7f) as u32 == byte as u32) by (bit_vector)
        requires
            byte < 0x80,
    ;
    assert(vstd::utf8::pop_first_scalar(s).len() == 0);
    let scalar = byte as u32;
    assert((scalar & 0x7f) as u8 == byte) by (bit_vector)
        requires
            byte < 0x80,
            scalar == byte as u32,
    ;
    assert(encode_scalar(scalar) =~= s);
}

/// A piece of content ends past its start, inside the input, and stands for valid text.
pub proof fn string_piece_facts(b: Seq<u8>, pos: int, quote: u8, json5: bool)
    requires
        0 <= pos < b.len(),
        b[pos] != quote,
        quote == QUOTE || quote == APOSTROPHE,
    ensures
        string_piece(b, pos, quote, json5) matches Ok((next, text)) ==> pos < next <= b.len() && valid_utf8(text),
{
    let empty = Seq::<u8>::empty();
    assert(valid_utf8(empty));
    if b[pos] == BACKSLASH {
        let p = pos + 1;
        if p < b.len() {
            if let Some(byte) = simple_escape(b[p], json5) {
                ascii_is_valid(byte);
            } else if b[p] == 0x75 {
                if hex_fault(b, p + 1, 4) is None {
                    hex_fault_none(b, p + 1);
                    let unit = four_hex(b, p + 1);
                    if 0xd800 <= unit <= 0xdbff {
                        let q = p + 5;
                        if q + 1 < b.len() && hex_fault(b, q + 2, 4) is None {
                            hex_fault_none(b, q + 2);
                            let low = four_hex(b, q + 2);
                            if 0xdc00 <= low <= 0xdfff {
                                scalar_is_valid(paired(unit, low) as u32);
                            }
                        }
                    } else if !(0xdc00 <= unit <= 0xdfff) {
                        scalar_is_valid(unit as u32);
                    }
                }
            } else if json5 {
                ascii_is_valid(0x0b);
                ascii_is_valid(0);
                if b[p] == 0x78 && p + 2 < b.len() && is_hex(b[p + 1]) && is_hex(b[p + 2]) {
                    scalar_is_valid((hex_value(b[p + 1]) * 16 + hex_value(b[p + 2])) as u32);
                }
            }
        }
    } else if b[pos] == DEL {
        ascii_is_valid(DEL);
    } else if b[pos] >= 0x20 {
        run_end_facts::<SingleContent>(b, pos);
        run_end_facts::<StringContent>(b, pos);
        if content_end(b, pos, quote) == pos {
            assert(SingleContent::stops(b[pos]) || StringContent::stops(b[pos]));
        }
    }
}

/// A checked string ends inside the input and its text is valid UTF-8.
pub proof fn string_rest_facts(b: Seq<u8>, pos: int, quote: u8, json5: bool)
    requires
        0 <= pos <= b.len(),
        quote == QUOTE || quote == APOSTROPHE,
    ensures
        string_rest(b, pos, quote, json5) matches Ok((end, text)) ==> pos < end <= b.len() && valid_utf8(text),
    decreases b.len() - pos,
{
    assert(valid_utf8(Seq::<u8>::empty()));
    if pos < b.len() && b[pos] != quote {
        string_piece_facts(b, pos, quote, json5);
        if let Ok((next, text)) = string_piece(b, pos, quote, json5) {
            string_rest_facts(b, next, quote, json5);
            if let Ok((end, rest)) = string_rest(b, next, quote, json5) {
                valid_utf8_concat(text, rest);
            }
        }
    }
}

/// A decoded string ends past its quotes, inside the input, and its text is valid UTF-8.
pub proof fn string_text_facts(b: Seq<u8>, start: int, dialect: Dialect)
    requires
        0 <= start < b.len(),
    ensures
        string_text(b, start, dialect) matches Ok((end, text)) ==> start + 1 < end <= b.len() && valid_utf8(text),
{
    string_rest_facts(b, start + 1, QUOTE, false);
    if dialect == Dialect::Json5 && opens_string(b[start], dialect) {
        string_rest_facts(b, start + 1, b[start], true);
    }
}

/// ASCII bytes are valid UTF-8.
pub proof fn ascii_run_is_valid(s: Seq<u8>)
    requires
        forall|i: int| 0 <= i < s.len() ==> #[trigger] s[i] < 0x80,
    ensures
        valid_utf8(s),
    decreases s.len(),
{
    if s.len() > 0 {
        let byte = s[0];
        assert((byte & 0x7f) as u32 == byte as u32) by (bit_vector)
            requires
                byte < 0x80,
        ;
        let rest = vstd::utf8::pop_first_scalar(s);
        assert forall|i: int| 0 <= i < rest.len() implies #[trigger] rest[i] < 0x80 by {
            assert(rest[i] == s[i + 1]);
        }
        ascii_run_is_valid(rest);
    }
}

/// A plain string stands for its own content bytes under every dialect and check.
pub proof fn plain_is_text(b: Seq<u8>, start: int, dialect: Dialect)
    requires
        0 <= start,
        plain_end(b, start) is Some,
    ensures
        plain_end(b, start) matches Some(e) ==> {
            &&& start + 1 < e <= b.len()
            &&& string_text(b, start, dialect) == Ok::<(int, Seq<u8>), Error>((e, b.subrange(start + 1, e - 1)))
            &&& located_string_end(b, start, dialect) == Ok::<int, Error>(e)
            &&& located_quoted_end(b, start, QUOTE) == Ok::<int, Error>(e)
            &&& b[e - 1] == QUOTE
        },
{
    let e = run_end::<PlainString>(b, start + 1);
    run_end_facts::<PlainString>(b, start + 1);
    let inner = b.subrange(start + 1, e);
    assert forall|i: int| start + 1 <= i < e implies #[trigger] b[i] != QUOTE && b[i] != BACKSLASH by {
        assert(!PlainString::stops(b[i]));
    }
    closing_quote_skips(b, start + 1, e, QUOTE);
    assert forall|i: int| 0 <= i < inner.len() implies #[trigger] inner[i] < 0x80 by {
        assert(inner[i] == b[start + 1 + i]);
        assert(!PlainString::stops(b[start + 1 + i]));
    }
    ascii_run_is_valid(inner);
    let json5 = dialect == Dialect::Json5;
    assert(string_rest(b, e, QUOTE, json5) == Ok::<(int, Seq<u8>), Error>((e + 1, Seq::empty())));
    if e > start + 1 {
        assert(!PlainString::stops(b[start + 1]));
        assert forall|i: int| start + 1 <= i < e implies !StringContent::stops(#[trigger] b[i]) by {
            assert(!PlainString::stops(b[i]));
        }
        super::stop_sets::run_end_is::<StringContent>(b, start + 1, e);
        assert(string_piece(b, start + 1, QUOTE, json5) == Ok::<(int, Seq<u8>), Error>((e, inner)));
        assert(inner + Seq::<u8>::empty() =~= inner);
    } else {
        assert(inner =~= Seq::empty());
    }
}

/// Validate a string without decoding it. Returns the cursor past the closer.
pub fn skip_string(bytes: &[u8], start: usize, dialect: Dialect) -> (r: Result<usize, Error>)
    requires
        start < bytes@.len(),
    ensures
        ends_as(r, checked_string_end(bytes@, start as int, dialect)),
        r matches Ok(e) ==> start + 1 < e <= bytes@.len(),
{
    if dialect.json5() {
        skip_string_json5(bytes, start)
    } else {
        skip_string_rfc(bytes, start)
    }
}

/// Validate a double-quoted string under RFC 8259 / JSONC grammar.
pub fn skip_string_rfc(bytes: &[u8], start: usize) -> (r: Result<usize, Error>)
    requires
        start < bytes@.len(),
    ensures
        ends_as(r, end_of(string_rest(bytes@, start + 1, QUOTE, false))),
        r matches Ok(e) ==> start + 1 < e <= bytes@.len(),
{
    let mut unused: Vec<u8> = Vec::new();
    walk_quoted::<false>(bytes, start, QUOTE, false, &mut unused)
}

/// Validate a JSON5 string: `"…"` or `'…'`, with JSON5 escapes.
pub fn skip_string_json5(bytes: &[u8], start: usize) -> (r: Result<usize, Error>)
    requires
        start < bytes@.len(),
    ensures
        ends_as(r, checked_string_end(bytes@, start as int, Dialect::Json5)),
        r matches Ok(e) ==> start + 1 < e <= bytes@.len(),
{
    let mut unused: Vec<u8> = Vec::new();
    let quote: u8 = bytes[start];
    if quote == QUOTE || quote == APOSTROPHE {
        walk_quoted::<false>(bytes, start, quote, true, &mut unused)
    } else {
        Err(Error::new(ErrorKind::ExpectedValue, start))
    }
}

/// Whether a decode wrote what a grammar function names.
pub open spec fn decodes_as(r: Result<usize, Error>, text: Seq<u8>, named: Result<(int, Seq<u8>), Error>) -> bool {
    match named {
        Ok((end, named_text)) => r is Ok && r->Ok_0 == end && text == named_text,
        Err(error) => r == Err::<usize, Error>(error),
    }
}

/// Decode a string into `text`. Clears `text` first.
pub fn parse_string_into(bytes: &[u8], start: usize, text: &mut Vec<u8>, dialect: Dialect) -> (r: Result<usize, Error>)
    requires
        start < bytes@.len(),
    ensures
        decodes_as(r, final(text)@, string_text(bytes@, start as int, dialect)),
        r matches Ok(e) ==> start + 1 < e <= bytes@.len() && valid_utf8(final(text)@),
{
    proof {
        string_text_facts(bytes@, start as int, dialect);
    }
    if dialect.json5() {
        parse_string_into_json5(bytes, start, text)
    } else {
        parse_string_into_rfc(bytes, start, text)
    }
}

/// Decode a double-quoted string under RFC 8259 / JSONC grammar into `text`.
pub fn parse_string_into_rfc(bytes: &[u8], start: usize, text: &mut Vec<u8>) -> (r: Result<usize, Error>)
    requires
        start < bytes@.len(),
    ensures
        decodes_as(r, final(text)@, string_rest(bytes@, start + 1, QUOTE, false)),
{
    text.clear();
    let r = walk_quoted::<true>(bytes, start, QUOTE, false, text);
    assert(forall|t: Seq<u8>| Seq::<u8>::empty() + t =~= t);
    r
}

/// Decode a JSON5 string (`"…"` or `'…'`) into `text`.
pub fn parse_string_into_json5(bytes: &[u8], start: usize, text: &mut Vec<u8>) -> (r: Result<usize, Error>)
    requires
        start < bytes@.len(),
    ensures
        decodes_as(r, final(text)@, string_text(bytes@, start as int, Dialect::Json5)),
{
    text.clear();
    let quote: u8 = bytes[start];
    if quote == QUOTE || quote == APOSTROPHE {
        let r = walk_quoted::<true>(bytes, start, quote, true, text);
        assert(forall|t: Seq<u8>| Seq::<u8>::empty() + t =~= t);
        r
    } else {
        Err(Error::new(ErrorKind::ExpectedValue, start))
    }
}

fn emit_byte<const DECODE: bool>(text: &mut Vec<u8>, byte: u8)
    ensures
        final(text)@ == (if DECODE {
            old(text)@ + seq![byte]
        } else {
            old(text)@
        }),
{
    if DECODE {
        text.push(byte);
        assert(text@ =~= old(text)@ + seq![byte]);
    }
}

fn emit<const DECODE: bool>(text: &mut Vec<u8>, scalar: u32)
    requires
        is_scalar(scalar),
    ensures
        final(text)@ == (if DECODE {
            old(text)@ + encode_scalar(scalar)
        } else {
            old(text)@
        }),
{
    if DECODE {
        push_scalar(text, scalar);
    }
}

fn emit_run<const DECODE: bool>(text: &mut Vec<u8>, run: &[u8])
    ensures
        final(text)@ == (if DECODE {
            old(text)@ + run@
        } else {
            old(text)@
        }),
{
    if DECODE {
        text.extend_from_slice(run);
        assert(text@ =~= old(text)@ + run@);
    }
}

/// Check a whole content run, as one piece of UTF-8.
fn utf8_at(bytes: &[u8], from: usize, to: usize) -> (r: Result<&[u8], Error>)
    requires
        from <= to <= bytes@.len(),
    ensures
        ({
            let run = bytes@.subrange(from as int, to as int);
            match r {
                Ok(text) => valid_utf8(run) && text@ == run,
                Err(error) => !valid_utf8(run) && error == at(ErrorKind::Utf8, from + valid_up_to(run)),
            }
        }),
{
    let len: usize = bytes.len();
    let run: &[u8] = vstd::slice::slice_subrange(bytes, from, to);
    match utf8_prefix(run) {
        None => Ok(run),
        Some(n) => Err(Error::new(ErrorKind::Utf8, from + n)),
    }
}

/// Taking one piece moves its text from the rest into what was taken.
proof fn string_rest_step(b: Seq<u8>, pos: int, quote: u8, json5: bool, acc: Seq<u8>)
    requires
        0 <= pos < b.len(),
        b[pos] != quote,
        quote == QUOTE || quote == APOSTROPHE,
        string_piece(b, pos, quote, json5) is Ok,
    ensures
        string_piece(b, pos, quote, json5) matches Ok((next, said)) ==> prepended(
            acc,
            string_rest(b, pos, quote, json5),
        ) == prepended(acc + said, string_rest(b, next, quote, json5)),
{
    string_piece_facts(b, pos, quote, json5);
    if let Ok((next, said)) = string_piece(b, pos, quote, json5) {
        if let Ok((end, tail)) = string_rest(b, next, quote, json5) {
            assert(acc + (said + tail) =~= (acc + said) + tail);
        }
    }
}

fn walk_quoted<const DECODE: bool>(bytes: &[u8], start: usize, quote: u8, json5: bool, text: &mut Vec<u8>) -> (r: Result<
    usize,
    Error,
>)
    requires
        start < bytes@.len(),
        quote == QUOTE || quote == APOSTROPHE,
    ensures
        match string_rest(bytes@, start + 1, quote, json5) {
            Ok((end, decoded)) => r is Ok && r->Ok_0 == end && (DECODE ==> final(text)@ == old(text)@ + decoded),
            Err(error) => r == Err::<usize, Error>(error),
        },
        r matches Ok(e) ==> start + 1 < e <= bytes@.len(),
{
    let len: usize = bytes.len();
    let mut cursor: usize = start + 1;
    let ghost mut acc = Seq::<u8>::empty();
    proof {
        string_rest_facts(bytes@, start + 1, quote, json5);
        if let Ok((end, decoded)) = string_rest(bytes@, start + 1, quote, json5) {
            assert(acc + decoded =~= decoded);
        }
        assert(old(text)@ + acc =~= old(text)@);
    }
    while cursor < len
        invariant
            start < cursor <= len,
            len == bytes@.len(),
            quote == QUOTE || quote == APOSTROPHE,
            string_rest(bytes@, start + 1, quote, json5) == prepended(
                acc,
                string_rest(bytes@, cursor as int, quote, json5),
            ),
            DECODE ==> text@ == old(text)@ + acc,
        decreases len - cursor,
    {
        let byte: u8 = bytes[cursor];
        if byte == quote {
            proof {
                assert(acc + Seq::<u8>::empty() =~= acc);
            }
            return Ok(cursor + 1);
        }
        let ghost from = cursor as int;
        let ghost piece = string_piece(bytes@, from, quote, json5);
        proof {
            string_piece_facts(bytes@, from, quote, json5);
        }
        cursor = take_piece::<DECODE>(bytes, cursor, quote, json5, text)?;
        proof {
            let said = piece->Ok_0.1;
            string_rest_step(bytes@, from, quote, json5, acc);
            assert(old(text)@ + (acc + said) =~= (old(text)@ + acc) + said);
            acc = acc + said;
        }
    }
    Err(Error::new(ErrorKind::UnterminatedString, len))
}

/// Take the piece of content at `pos`, emitting the text it stands for.
fn take_piece<const DECODE: bool>(bytes: &[u8], pos: usize, quote: u8, json5: bool, text: &mut Vec<u8>) -> (r: Result<
    usize,
    Error,
>)
    requires
        pos < bytes@.len(),
        quote == QUOTE || quote == APOSTROPHE,
        bytes@[pos as int] != quote,
    ensures
        match string_piece(bytes@, pos as int, quote, json5) {
            Ok((next, said)) => r is Ok && r->Ok_0 == next && final(text)@ == (if DECODE {
                old(text)@ + said
            } else {
                old(text)@
            }),
            Err(error) => r == Err::<usize, Error>(error),
        },
{
    let len: usize = bytes.len();
    let byte: u8 = bytes[pos];
    if byte == BACKSLASH {
        take_escape::<DECODE>(bytes, pos + 1, json5, text)
    } else if byte < 0x20 {
        Err(Error::new(ErrorKind::ControlInString, pos))
    } else if byte == DEL {
        emit_byte::<DECODE>(text, DEL);
        Ok(pos + 1)
    } else {
        let end: usize = if quote == APOSTROPHE {
            find_stop::<SingleContent>(bytes, pos)
        } else {
            find_stop::<StringContent>(bytes, pos)
        };
        let run: &[u8] = utf8_at(bytes, pos, end)?;
        emit_run::<DECODE>(text, run);
        Ok(end)
    }
}

/// Take the escape whose letter is at `pos`, emitting the text it stands for.
fn take_escape<const DECODE: bool>(bytes: &[u8], pos: usize, json5: bool, text: &mut Vec<u8>) -> (r: Result<usize, Error>)
    requires
        0 < pos <= bytes@.len(),
    ensures
        match escape(bytes@, pos as int, json5) {
            Ok((next, said)) => r is Ok && r->Ok_0 == next && final(text)@ == (if DECODE {
                old(text)@ + said
            } else {
                old(text)@
            }),
            Err(error) => r == Err::<usize, Error>(error),
        },
{
    let len: usize = bytes.len();
    if pos >= len {
        return Err(Error::new(ErrorKind::UnterminatedString, len));
    }
    let letter: u8 = bytes[pos];
    let simple: Option<u8> = if letter == QUOTE || letter == BACKSLASH || letter == SLASH || (json5 && letter
        == APOSTROPHE) {
        Some(letter)
    } else if letter == 0x62 {
        Some(0x08)
    } else if letter == 0x66 {
        Some(0x0c)
    } else if letter == 0x6e {
        Some(LF)
    } else if letter == 0x72 {
        Some(CR)
    } else if letter == 0x74 {
        Some(0x09)
    } else {
        None
    };
    if let Some(byte) = simple {
        emit_byte::<DECODE>(text, byte);
        return Ok(pos + 1);
    }
    if letter == 0x75 {
        let (unit, next) = take_four_hex(bytes, pos + 1)?;
        if 0xd800 <= unit && unit <= 0xdbff {
            let (scalar, after) = take_low_surrogate(bytes, next, unit)?;
            emit::<DECODE>(text, scalar);
            return Ok(after);
        }
        if 0xdc00 <= unit && unit <= 0xdfff {
            return Err(Error::new(ErrorKind::InvalidSurrogatePair, next - 4));
        }
        emit::<DECODE>(text, unit as u32);
        return Ok(next);
    }
    if json5 {
        if let Some((next, said)) = json5_escape(bytes, pos) {
            if let Some(scalar) = said {
                emit::<DECODE>(text, scalar);
            } else {
                assert(text@ + Seq::<u8>::empty() =~= text@);
            }
            return Ok(next);
        }
    }
    Err(Error::new(ErrorKind::InvalidEscape, pos))
}

fn take_low_surrogate(bytes: &[u8], pos: usize, high: u16) -> (r: Result<(u32, usize), Error>)
    requires
        pos <= bytes@.len(),
        0xd800 <= high <= 0xdbff,
    ensures
        match low_surrogate(bytes@, pos as int, high as int) {
            Ok((next, said)) => r is Ok && r->Ok_0.1 == next && is_scalar(r->Ok_0.0) && encode_scalar(r->Ok_0.0) == said,
            Err(error) => r == Err::<(u32, usize), Error>(error),
        },
{
    let len: usize = bytes.len();
    if pos >= len || bytes[pos] != BACKSLASH {
        return Err(Error::new(ErrorKind::MissingLowSurrogate, pos));
    }
    if pos + 1 >= len || bytes[pos + 1] != 0x75 {
        return Err(Error::new(ErrorKind::MissingLowSurrogate, pos + 1));
    }
    let (low, next) = take_four_hex(bytes, pos + 2)?;
    if low < 0xdc00 || low > 0xdfff {
        return Err(Error::new(ErrorKind::InvalidSurrogatePair, pos + 2));
    }
    let scalar: u32 = 0x1_0000 + (high as u32 - 0xd800) * 1024 + (low as u32 - 0xdc00);
    Ok((scalar, next))
}

fn take_four_hex(bytes: &[u8], start: usize) -> (r: Result<(u16, usize), Error>)
    requires
        start <= bytes@.len(),
    ensures
        match hex_fault(bytes@, start as int, 4) {
            Some(error) => r == Err::<(u16, usize), Error>(error),
            None => r is Ok && r->Ok_0.0 == four_hex(bytes@, start as int) && r->Ok_0.1 == start + 4 && start + 4
                <= bytes@.len(),
        },
{
    let len: usize = bytes.len();
    let mut value: u32 = 0;
    let mut cursor: usize = start;
    proof {
        reveal_with_fuel(hex_fault, 5);
    }
    let mut n: usize = 0;
    while n < 4
        invariant
            n <= 4,
            cursor == start + n,
            cursor <= len,
            len == bytes@.len(),
            hex_fault(bytes@, start as int, 4) == hex_fault(bytes@, cursor as int, 4 - n),
            n == 0 ==> value == 0,
            n == 1 ==> value == hex_value(bytes@[start as int]),
            n == 2 ==> value == hex_value(bytes@[start as int]) * 16 + hex_value(bytes@[start + 1]),
            n == 3 ==> value == hex_value(bytes@[start as int]) * 256 + hex_value(bytes@[start + 1]) * 16 + hex_value(
                bytes@[start + 2],
            ),
            n == 4 ==> value == four_hex(bytes@, start as int),
            n == 0 ==> value < 1,
            n == 1 ==> value < 16,
            n == 2 ==> value < 256,
            n == 3 ==> value < 4096,
            n == 4 ==> value < 65536,
        decreases 4 - n,
    {
        if cursor >= len {
            return Err(Error::new(ErrorKind::InvalidUnicodeEscape, len));
        }
        let digit: u8 = match hex_digit(bytes[cursor]) {
            Some(digit) => digit,
            None => return Err(Error::new(ErrorKind::InvalidUnicodeEscape, cursor)),
        };
        value = value * 16 + digit as u32;
        cursor = cursor + 1;
        n = n + 1;
    }
    Ok((value as u16, cursor))
}

/// A JSON5-only escape. `pos` indexes the escape byte after the backslash.
/// `Some((end, None))` is a line continuation; `None` means this is not a
/// well-formed JSON5-only escape.
fn json5_escape(bytes: &[u8], pos: usize) -> (r: Option<(usize, Option<u32>)>)
    requires
        pos < bytes@.len(),
    ensures
        match json5_only_escape(bytes@, pos as int) {
            Some((next, said)) => r matches Some((end, stood)) && end == next && (match stood {
                Some(scalar) => is_scalar(scalar) && encode_scalar(scalar) == said,
                None => said == Seq::<u8>::empty(),
            }),
            None => r is None,
        },
{
    let len: usize = bytes.len();
    let letter: u8 = bytes[pos];
    if letter == 0x78 {
        return match take_two_hex(bytes, pos + 1) {
            Some((value, end)) => Some((end, Some(value as u32))),
            None => None,
        };
    }
    if letter == 0x76 {
        proof {
            ascii_is_valid(0x0b);
        }
        return Some((pos + 1, Some(0x0b)));
    }
    if letter == ZERO && !(pos + 1 < len && ZERO <= bytes[pos + 1] && bytes[pos + 1] <= NINE) {
        proof {
            ascii_is_valid(0);
        }
        return Some((pos + 1, Some(0)));
    }
    if letter == LF {
        return Some((pos + 1, None));
    }
    if letter == CR {
        if pos + 1 < len && bytes[pos + 1] == LF {
            return Some((pos + 2, None));
        }
        return Some((pos + 1, None));
    }
    if letter == 0xe2 && pos < len - 1 && pos + 1 < len - 1 && bytes[pos + 1] == 0x80 && (bytes[pos + 2] == 0xa8
        || bytes[pos + 2] == 0xa9) {
        return Some((pos + 3, None));
    }
    None
}

fn take_two_hex(bytes: &[u8], start: usize) -> (r: Option<(u8, usize)>)
    requires
        start <= bytes@.len(),
    ensures
        (r is Some) == (start + 1 < bytes@.len() && is_hex(bytes@[start as int]) && is_hex(bytes@[start + 1])),
        r matches Some((value, end)) ==> end == start + 2 && value == hex_value(bytes@[start as int]) * 16 + hex_value(
            bytes@[start + 1],
        ),
{
    let len: usize = bytes.len();
    if start >= len || start + 1 >= len {
        return None;
    }
    match (hex_digit(bytes[start]), hex_digit(bytes[start + 1])) {
        (Some(high), Some(low)) => Some((high * 16 + low, start + 2)),
        _ => None,
    }
}

/// End of the plain double-quoted string at `start`, when there is one.
#[must_use]
pub fn plain_double_quoted(bytes: &[u8], start: usize) -> (r: Option<usize>)
    ensures
        match plain_end(bytes@, start as int) {
            Some(e) => r is Some && r->0 == e && start + 1 < e <= bytes@.len(),
            None => r is None,
        },
{
    let len: usize = bytes.len();
    if start >= len || bytes[start] != QUOTE {
        return None;
    }
    let run_end: usize = plain_string_run_end(bytes, start + 1);
    if run_end < len && bytes[run_end] == QUOTE {
        Some(run_end + 1)
    } else {
        None
    }
}

/// Locate a plain double-quoted span for a member key.
///
/// Keys are short, so the scalar run beats the wide kernel that
/// [`plain_double_quoted`] uses for string values.
#[must_use]
pub fn plain_key(bytes: &[u8], start: usize) -> (r: Option<usize>)
    ensures
        match plain_end(bytes@, start as int) {
            Some(e) => r is Some && r->0 == e && start + 1 < e <= bytes@.len(),
            None => r is None,
        },
{
    let len: usize = bytes.len();
    if start >= len || bytes[start] != QUOTE {
        return None;
    }
    let mut cursor: usize = start + 1;
    while cursor < len
        invariant
            start < cursor <= len,
            len == bytes@.len(),
            bytes@[start as int] == QUOTE,
            run_end::<PlainString>(bytes@, start + 1) == run_end::<PlainString>(bytes@, cursor as int),
        decreases len - cursor,
    {
        let byte: u8 = bytes[cursor];
        if byte == QUOTE {
            return Some(cursor + 1);
        }
        if byte < 0x20 || byte >= 0x7f || byte == BACKSLASH {
            return None;
        }
        cursor = cursor + 1;
    }
    None
}

} // verus!
