//! Lexers: trivia, strings, numbers, keys, and the skip over an unread value.

pub mod number;
pub mod skip;
pub mod stop_sets;
pub mod string;
pub mod ws;

use vstd::prelude::*;

use self::skip::Check;
use self::stop_sets::{find_stop, ident_start, is_hex, run_end, run_end_facts, Ident, StopSet};
use self::string::{
    checked_string_end, closing_quote_bounds, located_string_end, opens_string, plain_double_quoted, plain_end,
    plain_is_text, skip_string, skip_string_locate, string_text, string_text_facts,
};
use self::ws::ends_as;
use crate::ascii::{APOSTROPHE, NINE, QUOTE, ZERO};
use crate::dialect::Dialect;
use crate::error::{at, Error, ErrorKind};

verus! {

/// Value of one ASCII hex digit.
pub open spec fn hex_value(byte: u8) -> int {
    if byte <= NINE {
        byte - ZERO
    } else if byte >= 0x61 {
        byte - 0x61 + 10
    } else {
        byte - 0x41 + 10
    }
}

/// End of the string at `pos`, located or content-checked.
pub open spec fn string_end(b: Seq<u8>, pos: int, check: Check, dialect: Dialect) -> Result<int, Error> {
    match check {
        Check::Locate => located_string_end(b, pos, dialect),
        Check::Values => checked_string_end(b, pos, dialect),
    }
}

/// End of the object key token at `pos`. JSON5 allows `'…'` and bare identifiers.
pub open spec fn key_end(b: Seq<u8>, pos: int, check: Check, dialect: Dialect) -> Result<int, Error> {
    if pos < b.len() && opens_string(b[pos], dialect) {
        string_end(b, pos, check, dialect)
    } else if pos < b.len() && dialect == Dialect::Json5 && ident_start(b[pos]) {
        Ok(run_end::<Ident>(b, pos))
    } else {
        Err(at(ErrorKind::ExpectedKey, pos))
    }
}

/// The decoded text of the key at `pos`: a string's text, or a bare
/// identifier's own bytes.
pub open spec fn key_text(b: Seq<u8>, pos: int, dialect: Dialect) -> Result<(int, Seq<u8>), Error> {
    if pos < b.len() && opens_string(b[pos], dialect) {
        string_text(b, pos, dialect)
    } else if pos < b.len() && dialect == Dialect::Json5 && ident_start(b[pos]) {
        let e = run_end::<Ident>(b, pos);
        Ok((e, b.subrange(pos, e)))
    } else {
        Err(at(ErrorKind::ExpectedKey, pos))
    }
}

/// A string ends past its opening quote, inside the input.
pub proof fn string_end_bounds(b: Seq<u8>, pos: int, check: Check, dialect: Dialect)
    requires
        0 <= pos < b.len(),
    ensures
        string_end(b, pos, check, dialect) matches Ok(e) ==> pos + 1 < e <= b.len(),
{
    string_text_facts(b, pos, dialect);
    closing_quote_bounds(b, pos + 1, b[pos]);
}

/// A key ends past its start, inside the input.
pub proof fn key_end_bounds(b: Seq<u8>, pos: int, check: Check, dialect: Dialect)
    requires
        0 <= pos <= b.len(),
    ensures
        key_end(b, pos, check, dialect) matches Ok(e) ==> pos < e <= b.len(),
{
    if pos < b.len() {
        string_end_bounds(b, pos, check, dialect);
        run_end_facts::<Ident>(b, pos);
        if ident_start(b[pos]) {
            assert(!Ident::stops(b[pos]));
        }
    }
}

/// A decoded key ends where the checked key token ends.
pub proof fn key_text_end(b: Seq<u8>, pos: int, dialect: Dialect)
    requires
        0 <= pos <= b.len(),
    ensures
        key_end(b, pos, Check::Values, dialect) == self::string::end_of(key_text(b, pos, dialect)),
        key_text(b, pos, dialect) matches Ok((e, text)) ==> pos < e <= b.len() && vstd::utf8::valid_utf8(text),
{
    key_end_bounds(b, pos, Check::Values, dialect);
    if pos < b.len() {
        string_text_facts(b, pos, dialect);
        if dialect == Dialect::Json5 && ident_start(b[pos]) {
            run_end_facts::<Ident>(b, pos);
            let text = b.subrange(pos, run_end::<Ident>(b, pos));
            assert forall|i: int| 0 <= i < text.len() implies #[trigger] text[i] < 0x80 by {
                assert(!Ident::stops(b[pos + i]));
            }
            self::string::ascii_run_is_valid(text);
        }
    }
}

/// Whether `byte` can start a JSON5 identifier key.
#[must_use]
pub fn is_ident_start(byte: u8) -> (r: bool)
    ensures
        r == ident_start(byte),
{
    (0x41 <= byte && byte <= 0x5a) || (0x61 <= byte && byte <= 0x7a) || byte == 0x5f || byte == 0x24
}

/// Value of one ASCII hex digit; `None` for any other byte.
#[must_use]
pub fn hex_digit(byte: u8) -> (r: Option<u8>)
    ensures
        (r is Some) == is_hex(byte),
        r matches Some(v) ==> v == hex_value(byte) && v < 16,
{
    if ZERO <= byte && byte <= NINE {
        Some(byte - ZERO)
    } else if 0x61 <= byte && byte <= 0x66 {
        Some(byte - 0x61 + 10)
    } else if 0x41 <= byte && byte <= 0x46 {
        Some(byte - 0x41 + 10)
    } else {
        None
    }
}

/// End of the JSON5 identifier starting at `start`.
#[must_use]
pub fn ident_end(bytes: &[u8], start: usize) -> (r: usize)
    requires
        start <= bytes@.len(),
    ensures
        r == run_end::<Ident>(bytes@, start as int),
        start <= r <= bytes@.len(),
{
    find_stop::<Ident>(bytes, start)
}

/// End of a quoted key token: locate it, or value-check it under [`Check::Values`].
fn skip_quoted_key(bytes: &[u8], pos: usize, check: Check, dialect: Dialect) -> (r: Result<usize, Error>)
    requires
        pos < bytes@.len(),
    ensures
        ends_as(r, string_end(bytes@, pos as int, check, dialect)),
{
    match check {
        Check::Locate => skip_string_locate(bytes, pos, dialect),
        Check::Values => skip_string(bytes, pos, dialect),
    }
}

/// End of an object key token. JSON5 allows `'…'` and bare identifiers.
pub fn skip_key(bytes: &[u8], pos: usize, check: Check, dialect: Dialect) -> (r: Result<usize, Error>)
    requires
        pos <= bytes@.len(),
    ensures
        ends_as(r, key_end(bytes@, pos as int, check, dialect)),
        r matches Ok(e) ==> pos < e <= bytes@.len(),
{
    proof {
        key_end_bounds(bytes@, pos as int, check, dialect);
    }
    if pos < bytes.len() {
        let byte: u8 = bytes[pos];
        if byte == QUOTE || (byte == APOSTROPHE && dialect.json5()) {
            return skip_quoted_key(bytes, pos, check, dialect);
        }
        if dialect.json5() && is_ident_start(byte) {
            return Ok(ident_end(bytes, pos));
        }
    }
    Err(Error::new(ErrorKind::ExpectedKey, pos))
}

/// Decode the key at `pos` into `text`, returning where its token ends.
pub fn read_key_into(bytes: &[u8], pos: usize, text: &mut Vec<u8>, dialect: Dialect) -> (r: Result<usize, Error>)
    requires
        pos <= bytes@.len(),
    ensures
        self::string::decodes_as(r, final(text)@, key_text(bytes@, pos as int, dialect)),
        r matches Ok(e) ==> pos < e <= bytes@.len() && vstd::utf8::valid_utf8(final(text)@),
{
    proof {
        key_text_end(bytes@, pos as int, dialect);
    }
    if pos < bytes.len() {
        let byte: u8 = bytes[pos];
        if byte == QUOTE || (byte == APOSTROPHE && dialect.json5()) {
            if let Some(end) = plain_double_quoted(bytes, pos) {
                proof {
                    plain_is_text(bytes@, pos as int, dialect);
                }
                text.clear();
                text.extend_from_slice(vstd::slice::slice_subrange(bytes, pos + 1, end - 1));
                assert(text@ =~= bytes@.subrange(pos + 1, end - 1));
                return Ok(end);
            }
            return self::string::parse_string_into(bytes, pos, text, dialect);
        }
        if dialect.json5() && is_ident_start(byte) {
            let end: usize = ident_end(bytes, pos);
            text.clear();
            text.extend_from_slice(vstd::slice::slice_subrange(bytes, pos, end));
            assert(text@ =~= bytes@.subrange(pos as int, end as int));
            return Ok(end);
        }
    }
    Err(Error::new(ErrorKind::ExpectedKey, pos))
}

} // verus!
