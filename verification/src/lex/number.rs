//! RFC 8259 number grammar, plus the JSON5 number subset.
//!
//! Locate mode consumes a number-shaped span without value-checking it; JSON5
//! adds signs, hex, and `Infinity` / `NaN`.

use vstd::prelude::*;
use vstd::arithmetic::power::{lemma_pow0, lemma_pow1, lemma_pow_adds, pow};
use vstd::std_specs::bits::{axiom_u64_trailing_zeros, u64_trailing_zeros};

use super::hex_digit;
use super::hex_value;
use super::stop_sets::{
    find_stop, is_digit, is_hex, run_end, run_end_facts, run_end_is, run_end_through, Digits, HexDigits, Letters, StopSet,
};
use super::ws::{ends_as, is_token_end, token_end};
use crate::ascii::{DOT, MINUS, NINE, PLUS, ZERO};
use crate::dialect::{Dialect, NonFinite};
use crate::error::{at, Error, ErrorKind};

verus! {

/// Byte `k` of a little-endian word.
pub open spec fn lane(word: u64, k: u64) -> u8 {
    ((word >> (8 * k) as u64) & 0xff) as u8
}

/// Whether lanes below `k` are all digits.
pub open spec fn digits_below(word: u64, k: u64) -> bool {
    forall|j: u64| j < k ==> is_digit(#[trigger] lane(word, j))
}

/// Whether the first set byte of `mask` names the first lane of `word` that is not a digit.
pub open spec fn names_first_non_digit(word: u64, mask: u64) -> bool {
    &&& mask == 0 <==> digits_below(word, 8)
    &&& mask != 0 ==> ({
        let k = (u64_trailing_zeros(mask) / 8) as u64;
        k < 8 && digits_below(word, k) && !is_digit(lane(word, k))
    })
}

/// The mask word of `word`: `0x80` in every byte from the first one that is not a digit.
spec fn digit_mask(word: u64) -> u64 {
    ((word - 0x3030_3030_3030_3030u64) as u64 & !word & 0x8080_8080_8080_8080u64) | (((word
        + 0x4646_4646_4646_4646u64) as u64 | word) & 0x8080_8080_8080_8080u64)
}

/// Mask bit of lane `k`.
spec fn mask_bit(mask: u64, k: u64) -> bool {
    (mask >> (8 * k + 7) as u64) & 1 == 1
}

/// While the lanes below are digits, a lane's mask bit says whether it is none.
proof fn mask_lanes(word: u64, mask: u64)
    by (bit_vector)
    requires
        mask == digit_mask(word),
    ensures
        mask & 0x8080_8080_8080_8080u64 == mask,
        mask_bit(mask, 0) == !is_digit(lane(word, 0)),
        is_digit(lane(word, 0)) ==> mask_bit(mask, 1) == !is_digit(lane(word, 1)),
        is_digit(lane(word, 0)) && is_digit(lane(word, 1)) ==> mask_bit(mask, 2) == !is_digit(lane(word, 2)),
        is_digit(lane(word, 0)) && is_digit(lane(word, 1)) && is_digit(lane(word, 2)) ==> mask_bit(mask, 3)
            == !is_digit(lane(word, 3)),
        is_digit(lane(word, 0)) && is_digit(lane(word, 1)) && is_digit(lane(word, 2)) && is_digit(lane(word, 3))
            ==> mask_bit(mask, 4) == !is_digit(lane(word, 4)),
        is_digit(lane(word, 0)) && is_digit(lane(word, 1)) && is_digit(lane(word, 2)) && is_digit(lane(word, 3))
            && is_digit(lane(word, 4)) ==> mask_bit(mask, 5) == !is_digit(lane(word, 5)),
        is_digit(lane(word, 0)) && is_digit(lane(word, 1)) && is_digit(lane(word, 2)) && is_digit(lane(word, 3))
            && is_digit(lane(word, 4)) && is_digit(lane(word, 5)) ==> mask_bit(mask, 6) == !is_digit(lane(word, 6)),
        is_digit(lane(word, 0)) && is_digit(lane(word, 1)) && is_digit(lane(word, 2)) && is_digit(lane(word, 3))
            && is_digit(lane(word, 4)) && is_digit(lane(word, 5)) && is_digit(lane(word, 6)) ==> mask_bit(mask, 7)
            == !is_digit(lane(word, 7)),
{
}

/// A mask bit is only ever the high bit of a lane.
proof fn mask_bit_position(mask: u64, at: u64)
    by (bit_vector)
    requires
        mask & 0x8080_8080_8080_8080u64 == mask,
        at < 64,
        (mask >> at) & 1 == 1,
    ensures
        at % 8 == 7,
{
}

/// A mask with no lane bit is zero.
proof fn mask_without_bits(mask: u64)
    by (bit_vector)
    requires
        mask & 0x8080_8080_8080_8080u64 == mask,
        !mask_bit(mask, 0),
        !mask_bit(mask, 1),
        !mask_bit(mask, 2),
        !mask_bit(mask, 3),
        !mask_bit(mask, 4),
        !mask_bit(mask, 5),
        !mask_bit(mask, 6),
        !mask_bit(mask, 7),
    ensures
        mask == 0,
{
}

/// A mask of high bits has no other.
proof fn high_bits(x: u64, y: u64)
    by (bit_vector)
    ensures
        ((x & 0x8080_8080_8080_8080u64) | (y & 0x8080_8080_8080_8080u64)) & !0x8080_8080_8080_8080u64 == 0,
{
}

/// A zero mask has no bit.
proof fn zero_mask()
    by (bit_vector)
    ensures
        forall|k: u64| k < 8 ==> !mask_bit(0, k),
{
}

/// Mask whose lowest set byte names the first byte of `word` that is not an ASCII digit.
#[must_use]
pub fn non_digit_mask(word: u64) -> (mask: u64)
    ensures
        names_first_non_digit(word, mask),
        mask & !0x8080_8080_8080_8080u64 == 0,
{
    let below: u64 = word.wrapping_sub(0x3030_3030_3030_3030) & !word & 0x8080_8080_8080_8080;
    let above: u64 = (word.wrapping_add(0x4646_4646_4646_4646) | word) & 0x8080_8080_8080_8080;
    let mask: u64 = below | above;
    proof {
        high_bits(word.wrapping_sub(0x3030_3030_3030_3030) & !word, word.wrapping_add(0x4646_4646_4646_4646) | word);
        assert(word.wrapping_sub(0x3030_3030_3030_3030) == (word - 0x3030_3030_3030_3030u64) as u64) by (bit_vector);
        assert(word.wrapping_add(0x4646_4646_4646_4646) == (word + 0x4646_4646_4646_4646u64) as u64) by (bit_vector);
        mask_lanes(word, mask);
        axiom_u64_trailing_zeros(mask);
        if mask == 0 {
            zero_mask();
            assert(!mask_bit(mask, 0) && !mask_bit(mask, 1) && !mask_bit(mask, 2) && !mask_bit(mask, 3) && !mask_bit(
                mask,
                4,
            ) && !mask_bit(mask, 5) && !mask_bit(mask, 6) && !mask_bit(mask, 7));
            assert forall|j: u64| j < 8 implies is_digit(#[trigger] lane(word, j)) by {
                assert(j == 0 || j == 1 || j == 2 || j == 3 || j == 4 || j == 5 || j == 6 || j == 7);
            }
        } else {
            if digits_below(word, 8) {
                assert(is_digit(lane(word, 0)) && is_digit(lane(word, 1)) && is_digit(lane(word, 2)) && is_digit(
                    lane(word, 3),
                ) && is_digit(lane(word, 4)) && is_digit(lane(word, 5)) && is_digit(lane(word, 6)) && is_digit(
                    lane(word, 7),
                ));
                mask_without_bits(mask);
            }
            let r = u64_trailing_zeros(mask) as u64;
            mask_bit_position(mask, r);
            let k = (r / 8) as u64;
            assert(r == 8 * k + 7);
            assert(mask_bit(mask, k));
            assert forall|j: u64| j < k implies !#[trigger] mask_bit(mask, j) by {
                assert((mask >> (8 * j + 7) as u64) & 1u64 == 0u64);
            }
            assert(k == 0 || k == 1 || k == 2 || k == 3 || k == 4 || k == 5 || k == 6 || k == 7);
            assert(0 < k ==> !mask_bit(mask, 0));
            assert(1 < k ==> !mask_bit(mask, 1));
            assert(2 < k ==> !mask_bit(mask, 2));
            assert(3 < k ==> !mask_bit(mask, 3));
            assert(4 < k ==> !mask_bit(mask, 4));
            assert(5 < k ==> !mask_bit(mask, 5));
            assert(6 < k ==> !mask_bit(mask, 6));
            assert forall|j: u64| j < k implies is_digit(#[trigger] lane(word, j)) by {
                assert(j == 0 || j == 1 || j == 2 || j == 3 || j == 4 || j == 5 || j == 6);
            }
        }
    }
    mask
}

/// Eight bytes packed little-endian keep each byte in its lane.
proof fn packed_lanes(a: u8, b: u8, c: u8, d: u8, e: u8, f: u8, g: u8, h: u8)
    by (bit_vector)
    ensures
        ({
            let w = a as u64 | (b as u64) << 8u64 | (c as u64) << 16u64 | (d as u64) << 24u64 | (e as u64) << 32u64
                | (f as u64) << 40u64 | (g as u64) << 48u64 | (h as u64) << 56u64;
            lane(w, 0) == a && lane(w, 1) == b && lane(w, 2) == c && lane(w, 3) == d && lane(w, 4) == e && lane(w, 5)
                == f && lane(w, 6) == g && lane(w, 7) == h
        }),
{
}

/// The eight bytes at `at` as one little-endian word, when there are eight.
#[must_use]
pub fn lane8(bytes: &[u8], at: usize) -> (r: Option<u64>)
    ensures
        (r is Some) == (at + 8 <= bytes@.len()),
        r matches Some(word) ==> forall|k: u64| k < 8 ==> #[trigger] lane(word, k) == bytes@[at + k],
{
    let len: usize = bytes.len();
    if len < 8 || at > len - 8 {
        return None;
    }
    let word: u64 = bytes[at] as u64 | (bytes[at + 1] as u64) << 8u64 | (bytes[at + 2] as u64) << 16u64 | (bytes[at
        + 3] as u64) << 24u64 | (bytes[at + 4] as u64) << 32u64 | (bytes[at + 5] as u64) << 40u64 | (bytes[at
        + 6] as u64) << 48u64 | (bytes[at + 7] as u64) << 56u64;
    proof {
        packed_lanes(
            bytes@[at as int],
            bytes@[at + 1],
            bytes@[at + 2],
            bytes@[at + 3],
            bytes@[at + 4],
            bytes@[at + 5],
            bytes@[at + 6],
            bytes@[at + 7],
        );
        assert forall|k: u64| k < 8 implies #[trigger] lane(word, k) == bytes@[at + k] by {
            assert(k == 0 || k == 1 || k == 2 || k == 3 || k == 4 || k == 5 || k == 6 || k == 7);
        }
    }
    Some(word)
}

/// End of the digit run from `pos`. A short scalar head keeps the common
/// few-digit number off the lane path.
#[must_use]
pub fn digit_run_end(bytes: &[u8], pos: usize) -> (r: usize)
    requires
        pos <= bytes@.len(),
    ensures
        r == run_end::<Digits>(bytes@, pos as int),
        pos <= r <= bytes@.len(),
{
    let len: usize = bytes.len();
    let mut n: usize = pos;
    while n < len && n - pos < 4 && ZERO <= bytes[n] && bytes[n] <= NINE
        invariant
            pos <= n <= len,
            len == bytes@.len(),
            run_end::<Digits>(bytes@, pos as int) == run_end::<Digits>(bytes@, n as int),
        decreases len - n,
    {
        n = n + 1;
    }
    if n - pos < 4 {
        return n;
    }
    while len >= 8 && n <= len - 8
        invariant
            pos <= n <= len,
            len == bytes@.len(),
            run_end::<Digits>(bytes@, pos as int) == run_end::<Digits>(bytes@, n as int),
        decreases len - n,
    {
        let word: u64 = match lane8(bytes, n) {
            Some(word) => word,
            None => return find_stop::<Digits>(bytes, n),
        };
        let mask: u64 = non_digit_mask(word);
        if mask != 0 {
            let k: usize = (mask.trailing_zeros() / 8) as usize;
            proof {
                assert forall|i: int| n <= i < n + k implies !Digits::stops(#[trigger] bytes@[i]) by {
                    let j = (i - n) as u64;
                    assert(is_digit(lane(word, j)));
                }
                assert(lane(word, k as u64) == bytes@[n + k]);
                run_end_is::<Digits>(bytes@, n as int, n + k);
            }
            return n + k;
        }
        proof {
            assert forall|i: int| n <= i < n + 8 implies !Digits::stops(#[trigger] bytes@[i]) by {
                let j = (i - n) as u64;
                assert(is_digit(lane(word, j)));
            }
            run_end_through::<Digits>(bytes@, n as int, n + 8);
        }
        n = n + 8;
    }
    find_stop::<Digits>(bytes, n)
}

/// Length of the ASCII-digit prefix.
#[must_use]
pub fn digit_run_len(bytes: &[u8]) -> (r: usize)
    ensures
        r == run_end::<Digits>(bytes@, 0),
{
    digit_run_end(bytes, 0)
}

/// Length of the ASCII hex-digit prefix.
#[must_use]
pub fn hex_run_len(bytes: &[u8]) -> (r: usize)
    ensures
        r == run_end::<HexDigits>(bytes@, 0),
{
    find_stop::<HexDigits>(bytes, 0)
}

/// Bytes of a number-shaped span: digits, signs, point and exponent marks.
#[derive(Clone, Copy)]
pub struct NumberShape;

impl StopSet for NumberShape {
    open spec fn stops(byte: u8) -> bool {
        !(is_digit(byte) || byte == DOT || is_exponent_mark(byte) || is_sign(byte))
    }

    fn stops_at(byte: u8) -> (r: bool) {
        !((ZERO <= byte && byte <= NINE) || byte == DOT || byte == 0x65 || byte == 0x45 || byte == PLUS || byte
            == MINUS)
    }
}

/// `e` or `E`.
pub open spec fn is_exponent_mark(byte: u8) -> bool {
    byte == 0x65 || byte == 0x45
}

/// `+` or `-`.
pub open spec fn is_sign(byte: u8) -> bool {
    byte == PLUS || byte == MINUS
}

/// `I` or `N`, the first letter of a non-finite spelling.
pub open spec fn is_non_finite_mark(byte: u8) -> bool {
    byte == 0x49 || byte == 0x4e
}

/// Whether `b` has a hexadecimal prefix `0x` / `0X` at `pos`.
pub open spec fn hex_prefix(b: Seq<u8>, pos: int) -> bool {
    pos + 1 < b.len() && b[pos] == ZERO && (b[pos + 1] == 0x78 || b[pos + 1] == 0x58)
}

/// Whether some byte of `[from, to)` is a digit.
pub open spec fn has_digit(b: Seq<u8>, from: int, to: int) -> bool {
    exists|i: int| from <= i < to && is_digit(#[trigger] b[i])
}

/// `I`, `n`, `f`, `i`, `n`, `i`, `t`, `y`.
pub open spec fn infinity_text() -> Seq<u8> {
    seq![0x49u8, 0x6e, 0x66, 0x69, 0x6e, 0x69, 0x74, 0x79]
}

/// `N`, `a`, `N`.
pub open spec fn nan_text() -> Seq<u8> {
    seq![0x4eu8, 0x61, 0x4e]
}

/// Position after an optional sign at `pos`.
pub open spec fn after_sign(b: Seq<u8>, pos: int) -> int {
    if pos < b.len() && is_sign(b[pos]) {
        pos + 1
    } else {
        pos
    }
}

/// Position after an optional `-` at `pos`.
pub open spec fn after_minus(b: Seq<u8>, pos: int) -> int {
    if pos < b.len() && b[pos] == MINUS {
        pos + 1
    } else {
        pos
    }
}

/// End of a number-shaped span: what an unread number skips. It refuses only a
/// span with no digit in it.
pub open spec fn located_number_end(b: Seq<u8>, start: int, dialect: Dialect) -> Result<int, Error> {
    let p = after_sign(b, start);
    if p >= b.len() {
        Err(at(ErrorKind::IncompleteNumber, p))
    } else if dialect == Dialect::Json5 && is_non_finite_mark(b[p]) {
        Ok(run_end::<Letters>(b, p))
    } else if dialect == Dialect::Json5 && hex_prefix(b, p) {
        Ok(run_end::<HexDigits>(b, p + 2))
    } else {
        let e = run_end::<NumberShape>(b, p);
        if has_digit(b, p, e) {
            Ok(e)
        } else {
            Err(at(ErrorKind::ExpectedValue, start))
        }
    }
}

/// End of an optional exponent part at `pos`.
pub open spec fn exponent_end(b: Seq<u8>, pos: int) -> Result<int, Error> {
    if pos < b.len() && is_exponent_mark(b[pos]) {
        let digits = after_sign(b, pos + 1);
        let e = run_end::<Digits>(b, digits);
        if e == digits {
            Err(at(ErrorKind::IncompleteNumber, digits))
        } else {
            Ok(e)
        }
    } else {
        Ok(pos)
    }
}

/// A lexed number must be followed by a token boundary.
pub open spec fn bounded_number(b: Seq<u8>, end: Result<int, Error>, dialect: Dialect) -> Result<int, Error> {
    match end {
        Ok(e) => if token_end(b, e, dialect) {
            Ok(e)
        } else {
            Err(at(ErrorKind::InvalidNumber, e))
        },
        Err(error) => Err(error),
    }
}

/// RFC 8259 number: an optional minus, an integer without leading zeros, an
/// optional fraction, an optional exponent.
pub open spec fn rfc_number_end(b: Seq<u8>, start: int, dialect: Dialect) -> Result<int, Error> {
    let p = after_minus(b, start);
    if p >= b.len() {
        Err(at(ErrorKind::IncompleteNumber, p))
    } else if !is_digit(b[p]) {
        Err(at(ErrorKind::InvalidNumber, start))
    } else if b[p] == ZERO && p + 1 < b.len() && is_digit(b[p + 1]) {
        Err(at(ErrorKind::LeadingZeros, p + 1))
    } else {
        let i = run_end::<Digits>(b, p);
        if i < b.len() && b[i] == DOT {
            let f = run_end::<Digits>(b, i + 1);
            if f == i + 1 {
                Err(at(ErrorKind::IncompleteNumber, f))
            } else {
                bounded_number(b, exponent_end(b, f), dialect)
            }
        } else {
            bounded_number(b, exponent_end(b, i), dialect)
        }
    }
}

/// A non-finite spelling at `p` of a number that starts at `start`.
pub open spec fn non_finite_end(b: Seq<u8>, start: int, p: int, text: Seq<u8>, dialect: Dialect) -> Result<int, Error> {
    let e = p + text.len();
    if e <= b.len() && b.subrange(p, e) == text {
        bounded_number(b, Ok(e), dialect)
    } else {
        Err(at(ErrorKind::InvalidNumber, start))
    }
}

/// JSON5 number: an optional sign, then a non-finite word, a hexadecimal
/// integer, or a decimal whose integer or fraction part may be empty.
pub open spec fn json5_number_end(b: Seq<u8>, start: int, dialect: Dialect) -> Result<int, Error> {
    let p = after_sign(b, start);
    if p >= b.len() {
        Err(at(ErrorKind::IncompleteNumber, p))
    } else if b[p] == 0x49 {
        non_finite_end(b, start, p, infinity_text(), dialect)
    } else if b[p] == 0x4e {
        non_finite_end(b, start, p, nan_text(), dialect)
    } else if hex_prefix(b, p) {
        let e = run_end::<HexDigits>(b, p + 2);
        if e == p + 2 {
            Err(at(ErrorKind::IncompleteNumber, e))
        } else {
            bounded_number(b, Ok(e), dialect)
        }
    } else {
        let i = run_end::<Digits>(b, p);
        if b[p] == ZERO && i > p + 1 {
            Err(at(ErrorKind::LeadingZeros, p + 1))
        } else {
            let f = if i < b.len() && b[i] == DOT {
                run_end::<Digits>(b, i + 1)
            } else {
                i
            };
            if i == p && f <= i + 1 {
                Err(at(ErrorKind::InvalidNumber, start))
            } else {
                bounded_number(b, exponent_end(b, f), dialect)
            }
        }
    }
}

/// Full number grammar of `dialect`.
pub open spec fn number_end(b: Seq<u8>, start: int, dialect: Dialect) -> Result<int, Error> {
    if dialect == Dialect::Json5 {
        json5_number_end(b, start, dialect)
    } else {
        rfc_number_end(b, start, dialect)
    }
}

/// An exponent part ends inside the input.
pub proof fn exponent_end_bounds(b: Seq<u8>, pos: int)
    requires
        0 <= pos <= b.len(),
    ensures
        exponent_end(b, pos) matches Ok(e) ==> pos <= e <= b.len(),
{
    if pos < b.len() && is_exponent_mark(b[pos]) {
        run_end_facts::<Digits>(b, after_sign(b, pos + 1));
    }
}

/// A number ends past its start, inside the input.
pub proof fn number_end_bounds(b: Seq<u8>, start: int, dialect: Dialect)
    requires
        0 <= start <= b.len(),
    ensures
        number_end(b, start, dialect) matches Ok(e) ==> start < e <= b.len(),
{
    let p = if dialect == Dialect::Json5 {
        after_sign(b, start)
    } else {
        after_minus(b, start)
    };
    if p < b.len() {
        run_end_facts::<Digits>(b, p);
        let i = run_end::<Digits>(b, p);
        if hex_prefix(b, p) {
            run_end_facts::<HexDigits>(b, p + 2);
        }
        if i < b.len() {
            run_end_facts::<Digits>(b, i + 1);
            exponent_end_bounds(b, run_end::<Digits>(b, i + 1));
        }
        exponent_end_bounds(b, i);
    }
}

/// A number-shaped span ends past its start when its start can begin a number.
pub proof fn located_number_end_bounds(b: Seq<u8>, start: int, dialect: Dialect)
    requires
        0 <= start < b.len(),
    ensures
        located_number_end(b, start, dialect) matches Ok(e) ==> start < e <= b.len(),
{
    let p = after_sign(b, start);
    if p < b.len() {
        run_end_facts::<Letters>(b, p);
        run_end_facts::<NumberShape>(b, p);
        if hex_prefix(b, p) {
            run_end_facts::<HexDigits>(b, p + 2);
        }
    }
}

pub(crate) fn is_ascii_digit_at(bytes: &[u8], pos: usize) -> (r: bool)
    ensures
        r == (pos < bytes@.len() && is_digit(bytes@[pos as int])),
{
    pos < bytes.len() && ZERO <= bytes[pos] && bytes[pos] <= NINE
}

/// Whether an RFC 8259 integer, without fraction or exponent, starts at `start`
/// and is a whole token.
pub open spec fn integer_at(b: Seq<u8>, start: int, dialect: Dialect) -> bool {
    let p = after_minus(b, start);
    let e = run_end::<Digits>(b, p);
    &&& p < b.len() && is_digit(b[p])
    &&& !(b[p] == ZERO && p + 1 < b.len() && is_digit(b[p + 1]))
    &&& !(e < b.len() && (b[e] == DOT || is_exponent_mark(b[e])))
    &&& token_end(b, e, dialect)
}

/// RFC 8259 integer fast path: optional `-`, digits, no `.`/`e`/`E`, no
/// leading zeros. `None` means fall back to the full automaton.
pub fn skip_rfc_integer(bytes: &[u8], start: usize, dialect: Dialect) -> (r: Option<usize>)
    requires
        start <= bytes@.len(),
    ensures
        (r is Some) == integer_at(bytes@, start as int, dialect),
        r matches Some(e) ==> start < e <= bytes@.len() && number_end(bytes@, start as int, dialect) == Ok::<int, Error>(
            e as int,
        ) && rfc_number_end(bytes@, start as int, dialect) == Ok::<int, Error>(e as int) && e == run_end::<Digits>(
            bytes@,
            after_minus(bytes@, start as int),
        ),
{
    let mut cursor: usize = start;
    if cursor < bytes.len() && bytes[cursor] == MINUS {
        cursor = cursor + 1;
    }
    let ghost p = cursor as int;
    if !is_ascii_digit_at(bytes, cursor) {
        return None;
    }
    let first: u8 = bytes[cursor];
    cursor = cursor + 1;
    proof {
        run_end_facts::<Digits>(bytes@, p);
    }
    if first == ZERO {
        if is_ascii_digit_at(bytes, cursor) {
            return None;
        }
        proof {
            run_end_is::<Digits>(bytes@, p, cursor as int);
        }
    } else {
        cursor = digit_run_end(bytes, cursor);
    }
    if cursor < bytes.len() && (bytes[cursor] == DOT || bytes[cursor] == 0x65 || bytes[cursor] == 0x45) {
        return None;
    }
    if !is_token_end(bytes, cursor, dialect) {
        return None;
    }
    proof {
        assert(run_end::<Digits>(bytes@, p) == cursor);
        assert(exponent_end(bytes@, cursor as int) == Ok::<int, Error>(cursor as int));
    }
    Some(cursor)
}

/// Number-shaped span for an unread number: digits, sign, point, exponent
/// marks, hex, or a non-finite word. Does not refuse `01`, `1.`, `1e`, or
/// `Infinity`.
pub fn skip_number_locate(bytes: &[u8], start: usize, dialect: Dialect) -> (r: Result<usize, Error>)
    requires
        start < bytes@.len(),
    ensures
        ends_as(r, located_number_end(bytes@, start as int, dialect)),
        r matches Ok(e) ==> start < e <= bytes@.len(),
{
    let len: usize = bytes.len();
    let mut cursor: usize = start;
    if bytes[cursor] == PLUS || bytes[cursor] == MINUS {
        cursor = cursor + 1;
    }
    proof {
        located_number_end_bounds(bytes@, start as int, dialect);
    }
    if cursor >= len {
        return Err(Error::new(ErrorKind::IncompleteNumber, cursor));
    }
    let first: u8 = bytes[cursor];
    if dialect.json5() {
        if first == 0x49 || first == 0x4e {
            return Ok(find_stop::<Letters>(bytes, cursor));
        }
        if first == ZERO && cursor + 1 < len && (bytes[cursor + 1] == 0x78 || bytes[cursor + 1] == 0x58) {
            return Ok(find_stop::<HexDigits>(bytes, cursor + 2));
        }
    }
    let ghost p = cursor as int;
    let mut saw_digit: bool = false;
    while cursor < len && !NumberShape::stops_at(bytes[cursor])
        invariant
            p <= cursor <= len,
            0 <= p,
            len == bytes@.len(),
            run_end::<NumberShape>(bytes@, p) == run_end::<NumberShape>(bytes@, cursor as int),
            saw_digit == has_digit(bytes@, p, cursor as int),
        decreases len - cursor,
    {
        if ZERO <= bytes[cursor] && bytes[cursor] <= NINE {
            let ghost before = cursor as int;
            saw_digit = true;
            cursor = digit_run_end(bytes, cursor);
            proof {
                run_end_facts::<Digits>(bytes@, before);
                assert(is_digit(bytes@[before]));
                if cursor == before {
                    run_end_is::<Digits>(bytes@, before, before);
                }
                assert forall|i: int| before <= i < cursor implies !NumberShape::stops(#[trigger] bytes@[i]) by {
                    assert(!Digits::stops(bytes@[i]));
                }
                run_end_through::<NumberShape>(bytes@, before, cursor as int);
                assert(before < cursor);
                assert(has_digit(bytes@, p, cursor as int));
            }
        } else {
            cursor = cursor + 1;
            assert(has_digit(bytes@, p, cursor as int) == has_digit(bytes@, p, cursor - 1));
        }
    }
    if !saw_digit {
        return Err(Error::new(ErrorKind::ExpectedValue, start));
    }
    Ok(cursor)
}

/// Full number grammar for `dialect`. Returns the cursor past the literal.
pub fn lex_number(bytes: &[u8], start: usize, dialect: Dialect) -> (r: Result<usize, Error>)
    requires
        start <= bytes@.len(),
    ensures
        ends_as(r, number_end(bytes@, start as int, dialect)),
        r matches Ok(e) ==> start < e <= bytes@.len(),
{
    proof {
        number_end_bounds(bytes@, start as int, dialect);
    }
    if let Some(end) = skip_rfc_integer(bytes, start, dialect) {
        return Ok(end);
    }
    if dialect.json5() {
        return lex_number_json5(bytes, start, dialect);
    }
    lex_number_rfc(bytes, start, dialect)
}

fn bounded(bytes: &[u8], end: usize, dialect: Dialect) -> (r: Result<usize, Error>)
    ensures
        ends_as(r, bounded_number(bytes@, Ok(end as int), dialect)),
{
    if is_token_end(bytes, end, dialect) {
        Ok(end)
    } else {
        Err(Error::new(ErrorKind::InvalidNumber, end))
    }
}

fn lex_number_rfc(bytes: &[u8], start: usize, dialect: Dialect) -> (r: Result<usize, Error>)
    requires
        start <= bytes@.len(),
    ensures
        ends_as(r, rfc_number_end(bytes@, start as int, dialect)),
{
    let len: usize = bytes.len();
    let mut cursor: usize = start;
    if cursor < len && bytes[cursor] == MINUS {
        cursor = cursor + 1;
    }
    if cursor >= len {
        return Err(Error::new(ErrorKind::IncompleteNumber, cursor));
    }
    let first: u8 = bytes[cursor];
    if !is_ascii_digit_at(bytes, cursor) {
        return Err(Error::new(ErrorKind::InvalidNumber, start));
    }
    let ghost p = cursor as int;
    if first == ZERO {
        cursor = cursor + 1;
        if is_ascii_digit_at(bytes, cursor) {
            return Err(Error::new(ErrorKind::LeadingZeros, cursor));
        }
        proof {
            run_end_is::<Digits>(bytes@, p, cursor as int);
        }
    } else {
        cursor = digit_run_end(bytes, cursor + 1);
    }
    if cursor < len && bytes[cursor] == DOT {
        cursor = cursor + 1;
        let end: usize = digit_run_end(bytes, cursor);
        if end == cursor {
            return Err(Error::new(ErrorKind::IncompleteNumber, cursor));
        }
        cursor = end;
    }
    let end: usize = exponent(bytes, cursor)?;
    bounded(bytes, end, dialect)
}

fn lex_number_json5(bytes: &[u8], start: usize, dialect: Dialect) -> (r: Result<usize, Error>)
    requires
        start <= bytes@.len(),
    ensures
        ends_as(r, json5_number_end(bytes@, start as int, dialect)),
{
    let len: usize = bytes.len();
    let mut cursor: usize = start;
    if cursor < len && (bytes[cursor] == PLUS || bytes[cursor] == MINUS) {
        cursor = cursor + 1;
    }
    if cursor >= len {
        return Err(Error::new(ErrorKind::IncompleteNumber, cursor));
    }
    let first: u8 = bytes[cursor];
    if first == 0x49 {
        let word: [u8; 8] = [0x49, 0x6e, 0x66, 0x69, 0x6e, 0x69, 0x74, 0x79];
        assert(word@ =~= infinity_text());
        return non_finite(bytes, start, cursor, &word, dialect);
    }
    if first == 0x4e {
        let word: [u8; 3] = [0x4e, 0x61, 0x4e];
        assert(word@ =~= nan_text());
        return non_finite(bytes, start, cursor, &word, dialect);
    }
    if first == ZERO && cursor + 1 < len && (bytes[cursor + 1] == 0x78 || bytes[cursor + 1] == 0x58) {
        cursor = cursor + 2;
        let end: usize = find_stop::<HexDigits>(bytes, cursor);
        if end == cursor {
            return Err(Error::new(ErrorKind::IncompleteNumber, cursor));
        }
        return bounded(bytes, end, dialect);
    }
    let ghost p = cursor as int;
    let int_end: usize = digit_run_end(bytes, cursor);
    if int_end > cursor {
        if first == ZERO && int_end - cursor > 1 {
            return Err(Error::new(ErrorKind::LeadingZeros, cursor + 1));
        }
    }
    let mut saw_digit: bool = int_end > cursor;
    cursor = int_end;
    if cursor < len && bytes[cursor] == DOT {
        cursor = cursor + 1;
        let end: usize = digit_run_end(bytes, cursor);
        if end > cursor {
            saw_digit = true;
        }
        cursor = end;
    }
    if !saw_digit {
        return Err(Error::new(ErrorKind::InvalidNumber, start));
    }
    let end: usize = exponent(bytes, cursor)?;
    bounded(bytes, end, dialect)
}

fn exponent(bytes: &[u8], pos: usize) -> (r: Result<usize, Error>)
    requires
        pos <= bytes@.len(),
    ensures
        ends_as(r, exponent_end(bytes@, pos as int)),
{
    let len: usize = bytes.len();
    let mut cursor: usize = pos;
    if cursor < len && (bytes[cursor] == 0x65 || bytes[cursor] == 0x45) {
        cursor = cursor + 1;
        if cursor < len && (bytes[cursor] == PLUS || bytes[cursor] == MINUS) {
            cursor = cursor + 1;
        }
        let end: usize = digit_run_end(bytes, cursor);
        if end == cursor {
            return Err(Error::new(ErrorKind::IncompleteNumber, cursor));
        }
        cursor = end;
    }
    Ok(cursor)
}

/// Whether the bytes of `bytes` at `at` spell `text`.
pub fn spells(bytes: &[u8], at: usize, text: &[u8]) -> (r: bool)
    requires
        at <= bytes@.len(),
    ensures
        r == (at + text@.len() <= bytes@.len() && bytes@.subrange(at as int, at + text@.len()) == text@),
{
    let len: usize = bytes.len();
    if text.len() > len - at {
        return false;
    }
    let mut i: usize = 0;
    while i < text.len()
        invariant
            i <= text@.len(),
            at + text@.len() <= bytes@.len(),
            bytes@.len() == len,
            forall|k: int| 0 <= k < i ==> bytes@[at + k] == #[trigger] text@[k],
        decreases text@.len() - i,
    {
        if bytes[at + i] != text[i] {
            assert(bytes@.subrange(at as int, at + text@.len())[i as int] != text@[i as int]);
            return false;
        }
        i = i + 1;
    }
    assert(bytes@.subrange(at as int, at + text@.len()) =~= text@);
    true
}

fn non_finite(bytes: &[u8], start: usize, p: usize, text: &[u8], dialect: Dialect) -> (r: Result<usize, Error>)
    requires
        p < bytes@.len(),
    ensures
        ends_as(r, non_finite_end(bytes@, start as int, p as int, text@, dialect)),
{
    let len: usize = bytes.len();
    if !spells(bytes, p, text) {
        return Err(Error::new(ErrorKind::InvalidNumber, start));
    }
    assert(p + text@.len() <= len);
    bounded(bytes, p + text.len(), dialect)
}

/// Classify a JSON5 non-finite spelling (already `+`-stripped), signed or not.
pub open spec fn non_finite_of(s: Seq<u8>) -> Option<NonFinite> {
    if s == infinity_text() {
        Some(NonFinite::Infinity)
    } else if s == seq![MINUS] + infinity_text() {
        Some(NonFinite::NegativeInfinity)
    } else if s == nan_text() || s == seq![MINUS] + nan_text() {
        Some(NonFinite::NaN)
    } else {
        None
    }
}

/// Classify a JSON5 non-finite spelling (already `+`-stripped), signed or not.
#[must_use]
pub fn non_finite_value(spelling: &[u8]) -> (r: Option<NonFinite>)
    ensures
        r == non_finite_of(spelling@),
{
    let infinity: [u8; 8] = [0x49, 0x6e, 0x66, 0x69, 0x6e, 0x69, 0x74, 0x79];
    let nan: [u8; 3] = [0x4e, 0x61, 0x4e];
    assert(infinity@ =~= infinity_text());
    assert(nan@ =~= nan_text());
    let len: usize = spelling.len();
    let negative: bool = len > 0 && spelling[0] == MINUS;
    let from: usize = if negative {
        1
    } else {
        0
    };
    let ghost tail = spelling@.subrange(from as int, len as int);
    let is_infinity: bool = len - from == 8 && spells(spelling, from, &infinity);
    let is_nan: bool = len - from == 3 && spells(spelling, from, &nan);
    proof {
        if negative {
            assert(spelling@ =~= seq![MINUS] + tail);
            assert((seq![MINUS] + infinity_text()).subrange(1, 9) =~= infinity_text());
            assert((seq![MINUS] + nan_text()).subrange(1, 4) =~= nan_text());
            assert(infinity_text()[0] != MINUS && nan_text()[0] != MINUS);
        } else {
            assert(spelling@ =~= tail);
            assert((seq![MINUS] + infinity_text())[0] == MINUS && (seq![MINUS] + nan_text())[0] == MINUS);
        }
        assert(is_infinity == (tail == infinity_text()));
        assert(is_nan == (tail == nan_text()));
    }
    if is_infinity {
        if negative {
            Some(NonFinite::NegativeInfinity)
        } else {
            Some(NonFinite::Infinity)
        }
    } else if is_nan {
        Some(NonFinite::NaN)
    } else {
        None
    }
}

/// The number spelled by hex digits.
pub open spec fn hex_number(s: Seq<u8>) -> nat
    decreases s.len(),
{
    if s.len() == 0 {
        0
    } else {
        (hex_number(s.drop_last()) * 16 + hex_value(s.last())) as nat
    }
}

/// The decimal spelling of a number.
pub open spec fn decimal(n: nat) -> Seq<u8>
    decreases n,
{
    if n < 10 {
        seq![(ZERO + n) as u8]
    } else {
        decimal(n / 10).push((ZERO + n % 10) as u8)
    }
}

/// A spelling without its leading `+`.
pub open spec fn without_plus(s: Seq<u8>) -> Seq<u8> {
    if s.len() > 0 && s[0] == PLUS {
        s.skip(1)
    } else {
        s
    }
}

/// A spelling without its leading `-`.
pub open spec fn without_minus(s: Seq<u8>) -> Seq<u8> {
    if s.len() > 0 && s[0] == MINUS {
        s.skip(1)
    } else {
        s
    }
}

/// Hex digits after an optional sign and `0x`/`0X` prefix; `None` when the
/// spelling is not hexadecimal.
pub open spec fn hex_digits_of(s: Seq<u8>) -> Option<Seq<u8>> {
    let unsigned = without_plus(without_minus(s));
    if hex_prefix(unsigned, 0) && forall|i: int| 2 <= i < unsigned.len() ==> is_hex(#[trigger] unsigned[i]) {
        Some(unsigned.skip(2))
    } else {
        None
    }
}

/// A JSON5 number spelling with `+` dropped and hex widened to decimal digits.
pub open spec fn normalized(s: Seq<u8>) -> Seq<u8> {
    match hex_digits_of(s) {
        Some(hex) => (if s[0] == MINUS {
            seq![MINUS]
        } else {
            Seq::empty()
        }) + decimal(hex_number(hex)),
        None => without_plus(s),
    }
}

/// Little-endian decimal digits as a number.
spec fn digits_value(s: Seq<u8>) -> nat
    decreases s.len(),
{
    if s.len() == 0 {
        0
    } else {
        (s[0] + 10 * digits_value(s.skip(1))) as nat
    }
}

/// Little-endian digits with no idle high zero.
spec fn compact_digits(s: Seq<u8>) -> bool {
    &&& s.len() >= 1
    &&& forall|i: int| 0 <= i < s.len() ==> #[trigger] s[i] < 10
    &&& s.len() > 1 ==> s.last() != 0
}

/// ASCII spelling of little-endian digits, high digit first.
spec fn spelled(s: Seq<u8>) -> Seq<u8>
    decreases s.len(),
{
    if s.len() == 0 {
        Seq::empty()
    } else {
        spelled(s.skip(1)).push((ZERO + s[0]) as u8)
    }
}

proof fn compact_value_positive(s: Seq<u8>)
    requires
        compact_digits(s),
        s.last() != 0,
    ensures
        digits_value(s) > 0,
    decreases s.len(),
{
    if s.len() > 1 {
        assert(s.skip(1).last() == s.last());
        assert forall|i: int| 0 <= i < s.skip(1).len() implies #[trigger] s.skip(1)[i] < 10 by {
            assert(s.skip(1)[i] == s[i + 1]);
        }
        compact_value_positive(s.skip(1));
    }
}

/// Compact digits spell their number in decimal.
proof fn spelled_is_decimal(s: Seq<u8>)
    requires
        compact_digits(s),
    ensures
        spelled(s) == decimal(digits_value(s)),
    decreases s.len(),
{
    let t = s.skip(1);
    if s.len() == 1 {
        assert(t.len() == 0);
        assert(spelled(t) =~= Seq::empty());
        assert(spelled(s) =~= seq![(ZERO + s[0]) as u8]);
        assert(digits_value(s) == s[0]);
    } else {
        assert(t.last() == s.last());
        assert forall|i: int| 0 <= i < t.len() implies #[trigger] t[i] < 10 by {
            assert(t[i] == s[i + 1]);
        }
        spelled_is_decimal(t);
        compact_value_positive(t);
        assert(digits_value(s) / 10 == digits_value(t) && digits_value(s) % 10 == s[0]) by {
            assert(digits_value(s) == s[0] + 10 * digits_value(t));
        }
    }
}

/// The value of digits split at `i`.
proof fn digits_value_split(s: Seq<u8>, i: int)
    requires
        0 <= i <= s.len(),
    ensures
        digits_value(s) == digits_value(s.take(i)) + pow(10, i as nat) * digits_value(s.skip(i)),
    decreases i,
{
    lemma_pow0(10);
    if i == 0 {
        assert(s.skip(0) =~= s);
        assert(s.take(0).len() == 0);
    } else {
        let t = s.skip(1);
        digits_value_split(t, i - 1);
        assert(t.take(i - 1) =~= s.take(i).skip(1));
        assert(t.skip(i - 1) =~= s.skip(i));
        assert(s.take(i)[0] == s[0]);
        lemma_pow1(10);
        lemma_pow_adds(10, 1, (i - 1) as nat);
        let a = pow(10, (i - 1) as nat);
        let v = digits_value(s.skip(i)) as int;
        assert(10 * (a * v) == (10 * a) * v) by (nonlinear_arith);
    }
}

/// Appending a digit adds it at the next power of ten.
proof fn digits_value_push(s: Seq<u8>, d: u8)
    ensures
        digits_value(s.push(d)) == digits_value(s) + pow(10, s.len()) * d,
{
    let t = s.push(d);
    digits_value_split(t, s.len() as int);
    assert(t.take(s.len() as int) =~= s);
    assert(t.skip(s.len() as int) =~= seq![d]);
    assert(seq![d].skip(1).len() == 0);
    reveal_with_fuel(digits_value, 2);
    assert(digits_value(seq![d]) == d);
}

/// Multiply little-endian digits by sixteen and add one nibble.
fn shift_in_nibble(digits: &mut Vec<u8>, nibble: u8)
    requires
        compact_digits(old(digits)@),
        nibble < 16,
    ensures
        compact_digits(final(digits)@),
        digits_value(final(digits)@) == 16 * digits_value(old(digits)@) + nibble,
{
    let ghost before = digits@;
    let mut carry: u32 = nibble as u32;
    let mut i: usize = 0;
    let n: usize = digits.len();
    proof {
        lemma_pow0(10);
        assert(before.skip(0) =~= before);
        assert(digits@.take(0).len() == 0);
    }
    while i < n
        invariant
            i <= n,
            digits@.len() == n,
            before.len() == n,
            compact_digits(before),
            carry < 16,
            forall|k: int| 0 <= k < i ==> #[trigger] digits@[k] < 10,
            forall|k: int| i <= k < n ==> #[trigger] digits@[k] == before[k],
            digits_value(digits@.take(i as int)) + pow(10, i as nat) * (carry + 16 * digits_value(
                before.skip(i as int),
            )) == 16 * digits_value(before) + nibble,
            i == n ==> (n > 1 ==> digits@[n - 1] != 0 || carry > 0),
        decreases n - i,
    {
        let ghost prior = digits@;
        let ghost prior_carry = carry as int;
        let value: u32 = digits[i] as u32 * 16 + carry;
        digits.set(i, (value % 10) as u8);
        carry = value / 10;
        proof {
            assert(digits@.take(i + 1) =~= prior.take(i as int).push((value % 10) as u8));
            digits_value_push(prior.take(i as int), (value % 10) as u8);
            let rest = before.skip(i as int);
            assert(rest.skip(1) =~= before.skip(i + 1));
            assert(rest[0] == before[i as int]);
            let p = pow(10, i as nat);
            let q = digits_value(before.skip(i + 1)) as int;
            let d = before[i as int] as int;
            let v = value as int;
            let c = carry as int;
            lemma_pow1(10);
            lemma_pow_adds(10, i as nat, 1);
            assert(pow(10, (i + 1) as nat) == p * 10);
            assert(v == d * 16 + prior_carry);
            assert(v == (v % 10) + 10 * c);
            assert(p * (v % 10) + (p * 10) * (c + 16 * q) == p * (prior_carry + 16 * (d + 10 * q))) by (nonlinear_arith)
                requires
                    v == d * 16 + prior_carry,
                    v == (v % 10) + 10 * c,
            ;
        }
        i = i + 1;
    }
    proof {
        assert(digits@.take(n as int) =~= digits@);
        assert(before.skip(n as int).len() == 0);
    }
    let ghost total = 16 * digits_value(before) + nibble;
    while carry > 0
        invariant
            carry < 16,
            digits@.len() >= 1,
            forall|k: int| 0 <= k < digits@.len() ==> #[trigger] digits@[k] < 10,
            digits_value(digits@) + pow(10, digits@.len()) * carry == total,
            digits@.len() > 1 ==> digits@.last() != 0 || carry > 0,
        decreases carry,
    {
        let ghost prior = digits@;
        let ghost prior_carry = carry as int;
        digits.push((carry % 10) as u8);
        carry = carry / 10;
        proof {
            digits_value_push(prior, (prior_carry % 10) as u8);
            lemma_pow1(10);
            lemma_pow_adds(10, prior.len(), 1);
            let p = pow(10, prior.len());
            let c = carry as int;
            assert(prior_carry == (prior_carry % 10) + 10 * c);
            assert(p * (prior_carry % 10) + (p * 10) * c == p * prior_carry) by (nonlinear_arith)
                requires
                    prior_carry == (prior_carry % 10) + 10 * c,
            ;
        }
    }
}

/// Append the decimal digits of a hex string, any width. Empty input is `0` so
/// a locate-mode `0x` span stays representable.
fn push_hex_decimal(spelling: &[u8], from: usize, out: &mut Vec<u8>)
    requires
        from <= spelling@.len(),
        forall|i: int| from <= i < spelling@.len() ==> is_hex(#[trigger] spelling@[i]),
    ensures
        final(out)@ == old(out)@ + decimal(hex_number(spelling@.skip(from as int))),
{
    let ghost hex = spelling@.skip(from as int);
    let mut digits: Vec<u8> = Vec::new();
    digits.push(0);
    let mut i: usize = from;
    proof {
        reveal_with_fuel(digits_value, 2);
        assert(digits@.skip(1).len() == 0);
        assert(hex.take(0).len() == 0);
    }
    while i < spelling.len()
        invariant
            from <= i <= spelling@.len(),
            hex == spelling@.skip(from as int),
            forall|k: int| from <= k < spelling@.len() ==> is_hex(#[trigger] spelling@[k]),
            compact_digits(digits@),
            digits_value(digits@) == hex_number(hex.take(i - from)),
        decreases spelling@.len() - i,
    {
        let nibble: u8 = match hex_digit(spelling[i]) {
            Some(nibble) => nibble,
            None => 0,
        };
        shift_in_nibble(&mut digits, nibble);
        proof {
            let t = hex.take(i + 1 - from);
            assert(t.drop_last() =~= hex.take(i - from));
            assert(t.last() == spelling@[i as int]);
        }
        i = i + 1;
    }
    proof {
        assert(hex.take(i - from) =~= hex);
        spelled_is_decimal(digits@);
    }
    let ghost before = out@;
    let mut n: usize = digits.len();
    proof {
        assert(digits@.skip(n as int).len() == 0);
        assert(out@ =~= before + spelled(digits@.skip(n as int)));
    }
    while n > 0
        invariant
            n <= digits@.len(),
            compact_digits(digits@),
            out@ == before + spelled(digits@.skip(n as int)),
        decreases n,
    {
        n = n - 1;
        out.push(ZERO + digits[n]);
        proof {
            let t = digits@.skip(n as int);
            assert(t.skip(1) =~= digits@.skip(n + 1));
            assert(t[0] == digits@[n as int]);
            assert(out@ =~= before + spelled(t));
        }
    }
    assert(digits@.skip(0) =~= digits@);
}

/// Where the hex digits of `spelling` start, when it is hexadecimal.
fn hex_body(spelling: &[u8]) -> (r: Option<usize>)
    ensures
        r matches Some(from) ==> from <= spelling@.len() && hex_digits_of(spelling@) == Some(
            spelling@.skip(from as int),
        ) && (forall|i: int| from <= i < spelling@.len() ==> is_hex(#[trigger] spelling@[i])),
        r is None ==> hex_digits_of(spelling@) is None,
{
    let len: usize = spelling.len();
    let mut from: usize = 0;
    if from < len && spelling[from] == MINUS {
        from = from + 1;
    }
    let ghost s1 = without_minus(spelling@);
    assert(s1 =~= spelling@.skip(from as int));
    if from < len && spelling[from] == PLUS {
        from = from + 1;
    }
    let ghost unsigned = without_plus(s1);
    assert(unsigned =~= spelling@.skip(from as int));
    if from + 1 >= len || spelling[from] != ZERO || !(spelling[from + 1] == 0x78 || spelling[from + 1] == 0x58) {
        return None;
    }
    let end: usize = find_stop::<HexDigits>(spelling, from + 2);
    proof {
        run_end_facts::<HexDigits>(spelling@, from + 2);
    }
    if end < len {
        assert(unsigned[end - from] == spelling@[end as int]);
        return None;
    }
    proof {
        assert(unsigned.skip(2) =~= spelling@.skip(from + 2));
        assert forall|i: int| 2 <= i < unsigned.len() implies is_hex(#[trigger] unsigned[i]) by {
            assert(unsigned[i] == spelling@[i + from]);
            assert(!HexDigits::stops(spelling@[i + from]));
        }
        assert forall|i: int| from + 2 <= i < spelling@.len() implies is_hex(#[trigger] spelling@[i]) by {
            assert(!HexDigits::stops(spelling@[i]));
        }
    }
    Some(from + 2)
}

/// Normalize a JSON5 number spelling into a reused buffer: `+` is dropped and
/// hex is widened to decimal digits.
pub fn normalize_json5_into(spelling: &[u8], buf: &mut Vec<u8>)
    ensures
        final(buf)@ == normalized(spelling@),
{
    buf.clear();
    match hex_body(spelling) {
        Some(from) => {
            if spelling.len() > 0 && spelling[0] == MINUS {
                buf.push(MINUS);
                assert(buf@ =~= seq![MINUS]);
            }
            push_hex_decimal(spelling, from, buf);
        },
        None => {
            let from: usize = if spelling.len() > 0 && spelling[0] == PLUS {
                1
            } else {
                0
            };
            let mut i: usize = from;
            while i < spelling.len()
                invariant
                    from <= i <= spelling@.len(),
                    from <= 1,
                    buf@ == spelling@.subrange(from as int, i as int),
                decreases spelling@.len() - i,
            {
                buf.push(spelling[i]);
                i = i + 1;
                assert(buf@ =~= spelling@.subrange(from as int, i as int));
            }
            assert(buf@ =~= without_plus(spelling@));
        },
    }
}

} // verus!
