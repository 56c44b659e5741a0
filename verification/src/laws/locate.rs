//! On valid text, skipping without value checks ends where a checked skip does.

use vstd::prelude::*;

use crate::ascii::{APOSTROPHE, BACKSLASH, DEL, DOT, LBRACE, LBRACKET, QUOTE, RBRACE, RBRACKET};
use crate::dialect::Dialect;
use crate::error::Error;
use crate::lex::number::{
    after_sign, exponent_end, has_digit, hex_prefix, infinity_text, is_exponent_mark, is_non_finite_mark,
    located_number_end, nan_text, number_end, number_end_bounds, NumberShape,
};
use crate::lex::skip::{
    items, member_value_at, member_value_at_bounds, members, next_at, next_at_bounds, scalar, starts_number, value,
    value_bounds, Check, Ctx, NextAt,
};
use crate::lex::stop_sets::{
    is_digit, is_hex, run_end, run_end_facts, run_end_is, Digits, Letters, SingleContent, StopSet, StringContent,
};
use crate::lex::string::{
    closing_quote, closing_quote_skips, escape, hex_fault_none, opens_string, string_piece, string_piece_facts,
    string_rest,
};
use crate::lex::ws::token_end;
use crate::lex::{key_end, string_end};

verus! {

/// A quote is looked for past bytes that are neither quote nor backslash.
proof fn quote_skips_hex(b: Seq<u8>, p: int, n: int, quote: u8)
    requires
        0 <= p,
        0 <= n,
        p + n <= b.len(),
        forall|i: int| p <= i < p + n ==> is_hex(#[trigger] b[i]),
        quote == QUOTE || quote == APOSTROPHE,
    ensures
        closing_quote(b, p, quote) == closing_quote(b, p + n, quote),
{
    assert forall|i: int| p <= i < p + n implies #[trigger] b[i] != quote && b[i] != BACKSLASH by {
        assert(is_hex(b[i]));
    }
    closing_quote_skips(b, p, p + n, quote);
}

/// A piece of a string that was read holds no closing quote.
proof fn piece_has_no_quote(b: Seq<u8>, pos: int, quote: u8, json5: bool)
    requires
        0 <= pos < b.len(),
        b[pos] != quote,
        quote == QUOTE || quote == APOSTROPHE,
    ensures
        string_piece(b, pos, quote, json5) matches Ok((next, _)) ==> closing_quote(b, pos, quote) == closing_quote(
            b,
            next,
            quote,
        ),
{
    if let Ok((next, _)) = string_piece(b, pos, quote, json5) {
        if b[pos] == BACKSLASH {
            escape_has_no_quote(b, pos + 1, quote, json5);
        } else if b[pos] == DEL {
        } else {
            run_end_facts::<StringContent>(b, pos);
            run_end_facts::<SingleContent>(b, pos);
            closing_quote_skips(b, pos, next, quote);
        }
    }
}

proof fn escape_has_no_quote(b: Seq<u8>, pos: int, quote: u8, json5: bool)
    requires
        0 < pos,
        quote == QUOTE || quote == APOSTROPHE,
    ensures
        escape(b, pos, json5) matches Ok((next, _)) ==> closing_quote(b, pos + 1, quote) == closing_quote(b, next, quote),
{
    if pos < b.len() && escape(b, pos, json5) is Ok {
        if crate::lex::string::simple_escape(b[pos], json5) is Some {
        } else if b[pos] == 0x75 {
            hex_fault_none(b, pos + 1);
            quote_skips_hex(b, pos + 1, 4, quote);
            let unit = crate::lex::string::four_hex(b, pos + 1);
            if 0xd800 <= unit <= 0xdbff {
                hex_fault_none(b, pos + 7);
                quote_skips_hex(b, pos + 7, 4, quote);
            }
        } else {
            let next = escape(b, pos, json5)->Ok_0.0;
            assert(pos + 1 <= next <= b.len());
            assert forall|i: int| pos + 1 <= i < next implies #[trigger] b[i] != quote && b[i] != BACKSLASH by {}
            closing_quote_skips(b, pos + 1, next, quote);
        }
    }
}

/// A string that is read ends at its closing quote.
pub(crate) proof fn read_string_is_located(b: Seq<u8>, pos: int, quote: u8, json5: bool)
    requires
        0 <= pos <= b.len(),
        quote == QUOTE || quote == APOSTROPHE,
    ensures
        string_rest(b, pos, quote, json5) matches Ok((end, _)) ==> closing_quote(b, pos, quote) == Some(end),
    decreases b.len() - pos,
{
    if pos < b.len() && b[pos] != quote {
        string_piece_facts(b, pos, quote, json5);
        piece_has_no_quote(b, pos, quote, json5);
        match string_piece(b, pos, quote, json5) {
            Ok((next, _)) => {
                read_string_is_located(b, next, quote, json5);
            },
            Err(_) => {},
        }
    }
}

/// A number that is read is located to the same end.
proof fn read_number_is_located(b: Seq<u8>, start: int, dialect: Dialect)
    requires
        0 <= start < b.len(),
        starts_number(b[start], dialect),
    ensures
        number_end(b, start, dialect) matches Ok(e) ==> located_number_end(b, start, dialect) == Ok::<int, Error>(e),
{
    number_end_bounds(b, start, dialect);
    if let Ok(e) = number_end(b, start, dialect) {
        let p = after_sign(b, start);
        if dialect == Dialect::Json5 && is_non_finite_mark(b[p]) {
            let word = if b[p] == 0x49 {
                infinity_text()
            } else {
                nan_text()
            };
            assert(b.subrange(p, e) == word);
            assert forall|i: int| p <= i < e implies !Letters::stops(#[trigger] b[i]) by {
                assert(b.subrange(p, e)[i - p] == b[i]);
            }
            run_end_is::<Letters>(b, p, e);
        } else if dialect == Dialect::Json5 && hex_prefix(b, p) {
        } else {
            digits_make_a_shape(b, start, dialect, e);
        }
    }
}

/// The digits, point and exponent of a number are the run that is located.
proof fn digits_make_a_shape(b: Seq<u8>, start: int, dialect: Dialect, e: int)
    requires
        0 <= start < b.len(),
        starts_number(b[start], dialect),
        number_end(b, start, dialect) == Ok::<int, Error>(e),
        start < e <= b.len(),
        !(dialect == Dialect::Json5 && (is_non_finite_mark(b[after_sign(b, start)]) || hex_prefix(b, after_sign(b, start)))),
    ensures
        located_number_end(b, start, dialect) == Ok::<int, Error>(e),
{
    let p = after_sign(b, start);
    let i = run_end::<Digits>(b, p);
    run_end_facts::<Digits>(b, p);
    let f = if i < b.len() && b[i] == DOT {
        run_end::<Digits>(b, i + 1)
    } else {
        i
    };
    if i < b.len() && b[i] == DOT {
        run_end_facts::<Digits>(b, i + 1);
    }
    assert(exponent_end(b, f) == Ok::<int, Error>(e));
    assert(token_end(b, e, dialect));
    if f < b.len() && is_exponent_mark(b[f]) {
        run_end_facts::<Digits>(b, crate::lex::number::after_sign(b, f + 1));
    }
    assert forall|k: int| p <= k < e implies !NumberShape::stops(#[trigger] b[k]) by {
        if k < i {
            assert(!Digits::stops(b[k]));
        } else if k < f {
            if k > i {
                assert(!Digits::stops(b[k]));
            }
        } else if k > f {
            let d = crate::lex::number::after_sign(b, f + 1);
            if k >= d {
                assert(!Digits::stops(b[k]));
            }
        }
    }
    run_end_is::<NumberShape>(b, p, e);
    if i > p {
        assert(!Digits::stops(b[p]));
        assert(is_digit(b[p]));
        assert(has_digit(b, p, e));
    } else {
        assert(!Digits::stops(b[i + 1]));
        assert(is_digit(b[i + 1]));
        assert(has_digit(b, p, e));
    }
}

pub(crate) proof fn scalar_is_located(b: Seq<u8>, pos: int, dialect: Dialect)
    requires
        0 <= pos <= b.len(),
    ensures
        scalar(b, pos, Check::Values, dialect) matches Ok(e) ==> scalar(b, pos, Check::Locate, dialect) == Ok::<int, Error>(e),
{
    if pos < b.len() {
        string_is_located(b, pos, dialect);
        if starts_number(b[pos], dialect) {
            read_number_is_located(b, pos, dialect);
        }
    }
}

proof fn string_is_located(b: Seq<u8>, pos: int, dialect: Dialect)
    requires
        0 <= pos < b.len(),
        ensures
        opens_string(b[pos], dialect) ==> (string_end(b, pos, Check::Values, dialect) matches Ok(e) ==> string_end(
            b,
            pos,
            Check::Locate,
            dialect,
        ) == Ok::<int, Error>(e)),
{
    if opens_string(b[pos], dialect) {
        read_string_is_located(b, pos + 1, b[pos], dialect == Dialect::Json5);
    }
}

pub(crate) proof fn key_is_located(b: Seq<u8>, pos: int, dialect: Dialect)
    requires
        0 <= pos <= b.len(),
    ensures
        key_end(b, pos, Check::Values, dialect) matches Ok(e) ==> key_end(b, pos, Check::Locate, dialect) == Ok::<int, Error>(e),
        member_value_at(b, pos, Check::Values, dialect) matches Ok(v) ==> member_value_at(b, pos, Check::Locate, dialect)
            == Ok::<int, Error>(v),
{
    reveal(member_value_at);
    if pos < b.len() {
        string_is_located(b, pos, dialect);
    }
}

/// A value that a checked skip accepts is located to the same end by an
/// unchecked one.
pub proof fn valid_value_is_located(b: Seq<u8>, pos: int, max: u32, dialect: Dialect, depth: int)
    requires
        0 <= pos <= b.len(),
    ensures
        value(b, pos, Ctx { check: Check::Values, max, dialect }, depth) matches Ok((e, n)) ==> value(
            b,
            pos,
            Ctx { check: Check::Locate, max, dialect },
            depth,
        ) == Ok::<(int, nat), Error>((e, n)),
    decreases b.len() - pos, 0nat,
{
    if pos < b.len() && (b[pos] == LBRACKET || b[pos] == LBRACE) {
        items_are_located(b, pos + 1, max, dialect, depth + 1, true);
        members_are_located(b, pos + 1, max, dialect, depth + 1, true);
    } else {
        scalar_is_located(b, pos, dialect);
    }
}

proof fn items_are_located(b: Seq<u8>, pos: int, max: u32, dialect: Dialect, depth: int, first: bool)
    requires
        0 <= pos <= b.len(),
    ensures
        items(b, pos, Ctx { check: Check::Values, max, dialect }, depth, first) matches Ok(r) ==> items(
            b,
            pos,
            Ctx { check: Check::Locate, max, dialect },
            depth,
            first,
        ) == Ok::<(int, nat), Error>(r),
    decreases b.len() - pos, 1nat,
{
    let ctx = Ctx { check: Check::Values, max, dialect };
    next_at_bounds(b, pos, dialect, RBRACKET, first);
    match next_at(b, pos, dialect, RBRACKET, first) {
        Ok(NextAt::Item(p)) => {
            value_bounds(b, p, ctx, depth);
            valid_value_is_located(b, p, max, dialect, depth);
            match value(b, p, ctx, depth) {
                Ok((e, _)) => items_are_located(b, e, max, dialect, depth, false),
                Err(_) => {},
            }
        },
        _ => {},
    }
}

proof fn members_are_located(b: Seq<u8>, pos: int, max: u32, dialect: Dialect, depth: int, first: bool)
    requires
        0 <= pos <= b.len(),
    ensures
        members(b, pos, Ctx { check: Check::Values, max, dialect }, depth, first) matches Ok(r) ==> members(
            b,
            pos,
            Ctx { check: Check::Locate, max, dialect },
            depth,
            first,
        ) == Ok::<(int, nat), Error>(r),
    decreases b.len() - pos, 1nat,
{
    let ctx = Ctx { check: Check::Values, max, dialect };
    next_at_bounds(b, pos, dialect, RBRACE, first);
    match next_at(b, pos, dialect, RBRACE, first) {
        Ok(NextAt::Item(p)) => {
            key_is_located(b, p, dialect);
            member_value_at_bounds(b, p, Check::Values, dialect);
            match member_value_at(b, p, Check::Values, dialect) {
                Ok(v) => {
                    value_bounds(b, v, ctx, depth);
                    valid_value_is_located(b, v, max, dialect, depth);
                    match value(b, v, ctx, depth) {
                        Ok((e, _)) => members_are_located(b, e, max, dialect, depth, false),
                        Err(_) => {},
                    }
                },
                Err(_) => {},
            }
        },
        _ => {},
    }
}

} // verus!
