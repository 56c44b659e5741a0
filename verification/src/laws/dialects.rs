//! Each dialect accepts what the narrower ones accept, and ends it at the same place.

use vstd::prelude::*;

use crate::ascii::{LBRACE, LBRACKET, QUOTE, RBRACE, RBRACKET, SLASH};
use crate::dialect::Dialect;
use crate::error::Error;
use crate::framing::text_start;
use crate::lex::key_end;
use crate::lex::number::{after_minus, after_sign, exponent_end, hex_prefix, number_end, rfc_number_end};
use crate::lex::skip::{
    items, member_value_at, member_value_at_bounds, members, next_at, next_at_bounds, scalar, starts_number, value,
    value_bounds, Check, Ctx, NextAt, MAX_NESTING,
};
use crate::lex::stop_sets::{run_end, run_end_facts, Digits, StopSet};
use crate::lex::string::{string_piece, string_rest};
use crate::lex::ws::{trivia_end, trivia_end_bounds};
use crate::scan::strict_root;

verus! {

/// Whether `wide` is `narrow` or a later dialect: JSON, JSON with comments, JSON5.
pub open spec fn widens(narrow: Dialect, wide: Dialect) -> bool {
    match narrow {
        Dialect::Rfc8259 => true,
        Dialect::Jsonc => wide != Dialect::Rfc8259,
        Dialect::Json5 => wide == Dialect::Json5,
    }
}

/// A checked read under `dialect`.
pub open spec fn checked(max: u32, dialect: Dialect) -> Ctx {
    Ctx { check: Check::Values, max, dialect }
}

/// Trivia that no comment follows ends at the same place.
proof fn trivia_widens(b: Seq<u8>, pos: int, narrow: Dialect, wide: Dialect)
    requires
        0 <= pos <= b.len(),
        widens(narrow, wide),
    ensures
        trivia_end(b, pos, narrow) matches Ok(p) ==> (p >= b.len() || b[p] != SLASH ==> trivia_end(b, pos, wide) == Ok::<
            int,
            Error,
        >(p)),
    decreases b.len() - pos,
{
    trivia_end_bounds(b, pos, narrow);
    if narrow.comments() {
        comments_are_shared(b, pos, narrow, wide);
    }
}

/// The dialects with comments share their trivia.
proof fn comments_are_shared(b: Seq<u8>, pos: int, one: Dialect, other: Dialect)
    requires
        0 <= pos <= b.len(),
        one.comments(),
        other.comments(),
    ensures
        trivia_end(b, pos, one) == trivia_end(b, pos, other),
    decreases b.len() - pos,
{
    let p = run_end::<crate::lex::stop_sets::Ws>(b, pos);
    run_end_facts::<crate::lex::stop_sets::Ws>(b, pos);
    if p < b.len() && b[p] == SLASH {
        crate::lex::ws::comment_end_bounds(b, p);
        if let Ok(e) = crate::lex::ws::comment_end(b, p) {
            if p < e <= b.len() {
                comments_are_shared(b, e, one, other);
            }
        }
    }
}

/// A string without the wider escapes reads the same.
proof fn string_widens(b: Seq<u8>, pos: int)
    requires
        0 <= pos,
    ensures
        string_rest(b, pos, QUOTE, false) is Ok ==> string_rest(b, pos, QUOTE, true) == string_rest(b, pos, QUOTE, false),
    decreases b.len() - pos,
{
    if pos < b.len() && b[pos] != QUOTE {
        if let Ok((next, _)) = string_piece(b, pos, QUOTE, false) {
            assert(string_piece(b, pos, QUOTE, true) == string_piece(b, pos, QUOTE, false));
            if pos < next <= b.len() {
                string_widens(b, next);
            }
        }
    }
}

/// A number of the narrow grammar is one of JSON5.
proof fn number_is_json5(b: Seq<u8>, start: int, narrow: Dialect)
    requires
        0 <= start < b.len(),
        narrow != Dialect::Json5,
        starts_number(b[start], narrow),
    ensures
        rfc_number_end(b, start, narrow) matches Ok(e) ==> number_end(b, start, Dialect::Json5) == Ok::<int, Error>(e),
{
    if let Ok(e) = rfc_number_end(b, start, narrow) {
        let p = after_minus(b, start);
        assert(after_sign(b, start) == p);
        let i = run_end::<Digits>(b, p);
        run_end_facts::<Digits>(b, p);
        assert(!Digits::stops(b[p]));
        assert(i > p);
        if i > p + 1 {
            assert(!Digits::stops(b[p + 1]));
        }
        if hex_prefix(b, p) {
            assert(i == p + 1);
            assert(exponent_end(b, i) == Ok::<int, Error>(i));
        }
        if i < b.len() && b[i] == crate::ascii::DOT {
            run_end_facts::<Digits>(b, i + 1);
        }
    }
}

/// A scalar ends at the same place.
proof fn scalar_widens(b: Seq<u8>, pos: int, narrow: Dialect, wide: Dialect)
    requires
        0 <= pos <= b.len(),
        widens(narrow, wide),
    ensures
        scalar(b, pos, Check::Values, narrow) matches Ok(e) ==> b[pos] != SLASH && pos < b.len() && scalar(
            b,
            pos,
            Check::Values,
            wide,
        ) == Ok::<int, Error>(e),
{
    if pos < b.len() && narrow != wide {
        string_widens(b, pos + 1);
        if starts_number(b[pos], narrow) && wide == Dialect::Json5 {
            number_is_json5(b, pos, narrow);
        }
    }
}

/// The next item of a container stands at the same place.
proof fn next_widens(b: Seq<u8>, pos: int, narrow: Dialect, wide: Dialect, closer: u8, first: bool)
    requires
        0 <= pos <= b.len(),
        widens(narrow, wide),
        closer == RBRACKET || closer == RBRACE,
    ensures
        match next_at(b, pos, narrow, closer, first) {
            Ok(NextAt::Close(e)) => next_at(b, pos, wide, closer, first) == Ok::<NextAt, Error>(NextAt::Close(e)),
            Ok(NextAt::Item(p)) => p < b.len() && b[p] != SLASH ==> next_at(b, pos, wide, closer, first) == Ok::<
                NextAt,
                Error,
            >(NextAt::Item(p)),
            Err(_) => true,
        },
{
    reveal(next_at);
    trivia_widens(b, pos, narrow, wide);
    trivia_end_bounds(b, pos, narrow);
    if let Ok(p) = trivia_end(b, pos, narrow) {
        if p < b.len() {
            trivia_widens(b, p + 1, narrow, wide);
        }
    }
}

/// A member's value stands at the same place.
proof fn member_widens(b: Seq<u8>, pos: int, narrow: Dialect, wide: Dialect)
    requires
        0 <= pos <= b.len(),
        widens(narrow, wide),
    ensures
        member_value_at(b, pos, Check::Values, narrow) matches Ok(v) ==> pos < b.len() && (b[pos] != SLASH || narrow
            == wide) && (v < b.len() && b[v] != SLASH ==> member_value_at(b, pos, Check::Values, wide) == Ok::<
            int,
            Error,
        >(v)),
{
    reveal(member_value_at);
    if narrow != wide && pos < b.len() {
        string_widens(b, pos + 1);
        crate::lex::key_end_bounds(b, pos, Check::Values, narrow);
        if let Ok(end) = key_end(b, pos, Check::Values, narrow) {
            trivia_widens(b, end, narrow, wide);
            trivia_end_bounds(b, end, narrow);
            if let Ok(p) = trivia_end(b, end, narrow) {
                if p < b.len() {
                    trivia_widens(b, p + 1, narrow, wide);
                }
            }
        }
    }
}

/// A value that a dialect accepts is accepted by every wider one, and ends at the same
/// place.
pub proof fn value_widens(b: Seq<u8>, pos: int, narrow: Dialect, wide: Dialect, max: u32, depth: int)
    requires
        0 <= pos <= b.len(),
        widens(narrow, wide),
    ensures
        value(b, pos, checked(max, narrow), depth) matches Ok(r) ==> pos < b.len() && b[pos] != SLASH && value(
            b,
            pos,
            checked(max, wide),
            depth,
        ) == Ok::<(int, nat), Error>(r),
    decreases b.len() - pos, 0nat,
{
    if pos < b.len() && (b[pos] == LBRACKET || b[pos] == LBRACE) {
        items_widen(b, pos + 1, narrow, wide, max, depth + 1, true);
        members_widen(b, pos + 1, narrow, wide, max, depth + 1, true);
    } else {
        scalar_widens(b, pos, narrow, wide);
    }
}

proof fn items_widen(b: Seq<u8>, pos: int, narrow: Dialect, wide: Dialect, max: u32, depth: int, first: bool)
    requires
        0 <= pos <= b.len(),
        widens(narrow, wide),
    ensures
        items(b, pos, checked(max, narrow), depth, first) matches Ok(r) ==> items(
            b,
            pos,
            checked(max, wide),
            depth,
            first,
        ) == Ok::<(int, nat), Error>(r),
    decreases b.len() - pos, 1nat,
{
    let ctx = checked(max, narrow);
    next_at_bounds(b, pos, narrow, RBRACKET, first);
    next_widens(b, pos, narrow, wide, RBRACKET, first);
    match next_at(b, pos, narrow, RBRACKET, first) {
        Ok(NextAt::Item(p)) => {
            value_bounds(b, p, ctx, depth);
            value_widens(b, p, narrow, wide, max, depth);
            if let Ok((e, _)) = value(b, p, ctx, depth) {
                items_widen(b, e, narrow, wide, max, depth, false);
            }
        },
        _ => {},
    }
}

proof fn members_widen(b: Seq<u8>, pos: int, narrow: Dialect, wide: Dialect, max: u32, depth: int, first: bool)
    requires
        0 <= pos <= b.len(),
        widens(narrow, wide),
    ensures
        members(b, pos, checked(max, narrow), depth, first) matches Ok(r) ==> members(
            b,
            pos,
            checked(max, wide),
            depth,
            first,
        ) == Ok::<(int, nat), Error>(r),
    decreases b.len() - pos, 1nat,
{
    let ctx = checked(max, narrow);
    next_at_bounds(b, pos, narrow, RBRACE, first);
    next_widens(b, pos, narrow, wide, RBRACE, first);
    match next_at(b, pos, narrow, RBRACE, first) {
        Ok(NextAt::Item(p)) => {
            member_widens(b, p, narrow, wide);
            member_value_at_bounds(b, p, Check::Values, narrow);
            if let Ok(v) = member_value_at(b, p, Check::Values, narrow) {
                value_bounds(b, v, ctx, depth);
                value_widens(b, v, narrow, wide, max, depth);
                if let Ok((e, _)) = value(b, v, ctx, depth) {
                    members_widen(b, e, narrow, wide, max, depth, false);
                }
            }
        },
        _ => {},
    }
}

/// Every text that is valid under a dialect is valid under every wider one, with the
/// same root.
pub proof fn valid_text_stays_valid(b: Seq<u8>, narrow: Dialect, wide: Dialect)
    requires
        widens(narrow, wide),
        strict_root(b, narrow) is Ok,
    ensures
        strict_root(b, wide) == strict_root(b, narrow),
{
    let start = text_start(b);
    trivia_end_bounds(b, start, narrow);
    trivia_widens(b, start, narrow, wide);
    let pos = trivia_end(b, start, narrow)->Ok_0;
    value_bounds(b, pos, checked(MAX_NESTING, narrow), 0);
    value_widens(b, pos, narrow, wide, MAX_NESTING, 0);
    let e = value(b, pos, checked(MAX_NESTING, narrow), 0)->Ok_0.0;
    trivia_end_bounds(b, e, narrow);
    trivia_widens(b, e, narrow, wide);
}

} // verus!
