//! A value reads the same on its own as inside its source.

use vstd::prelude::*;

use crate::ascii::{APOSTROPHE, BACKSLASH, COLON, COMMA, DEL, DOT, LBRACE, LBRACKET, QUOTE, RBRACE, RBRACKET, SLASH};
use crate::dialect::Dialect;
use crate::error::Error;
use crate::laws::forms::{no_room, read_text, unbounded};
use crate::laws::parse::{items_agree, key_agrees, members_agree, parse_agrees_with_strict_skip, position_facts, strict_ctx};
use crate::laws::strict::{item_is_settled, member_value_is_settled};
use crate::lex::number::{
    after_minus, after_sign, bounded_number, exponent_end, exponent_end_bounds, hex_prefix, infinity_text, integer_at,
    is_exponent_mark, json5_number_end, nan_text, non_finite_end, number_end, number_end_bounds, rfc_number_end,
};
use crate::lex::skip::{
    after_colon, items_bounds, literal_text, members_bounds, next_at, next_at_bounds, spelling_end, starts_literal, starts_number, NextAt, MAX_NESTING,
};
use crate::lex::stop_sets::{
    is_digit, is_space, run_end, run_end_facts, run_end_is, Digits, HexDigits, Ident, NdjsonFrame, SingleContent,
    StopSet, StringContent, Ws,
};
use crate::lex::string::{
    content_end, escape, four_hex, hex_fault, hex_fault_none, opens_string, prepended, simple_escape, string_piece,
    string_piece_facts, string_rest, string_rest_facts, string_text,
};
use crate::lex::ws::{block_close, block_close_bounds, comment_end, comment_end_bounds, token_end, trivia_end, trivia_end_bounds, trivia_end_here};
use crate::lex::{key_text, key_text_end};
use crate::tape::{built, built_items, built_key, built_members, built_scalar, built_text, merged, number_at, Room};
use crate::value::Json;

verus! {

/// The bytes `[from, to)` of a source.
pub open spec fn cut(b: Seq<u8>, from: int, to: int) -> Seq<u8> {
    b.subrange(from, to)
}

/// Whether the bytes `[from, to)` of `b` stand in `o`, `d` further on.
pub open spec fn copied(b: Seq<u8>, from: int, to: int, o: Seq<u8>, d: int) -> bool {
    &&& 0 <= from <= to <= b.len()
    &&& 0 <= from + d
    &&& to + d <= o.len()
    &&& forall|i: int| from <= i < to ==> #[trigger] b[i] == o[i + d]
}

pub(crate) proof fn run_is_local<S: StopSet>(b: Seq<u8>, from: int, to: int, o: Seq<u8>, d: int, pos: int)
    requires
        copied(b, from, to, o, d),
        0 <= from <= pos <= to <= b.len(),
    ensures
        run_end::<S>(b, pos) < to ==> run_end::<S>(o, pos + d) == run_end::<S>(b, pos) + d,
        run_end::<S>(b, pos) >= to && (to + d == o.len() || S::stops(o[to + d])) ==> run_end::<S>(o, pos + d) == to + d,
{
    run_end_facts::<S>(b, pos);
    let r = run_end::<S>(b, pos);
    let e = if r <= to {
        r
    } else {
        to
    };
    assert forall|i: int| pos + d <= i < e + d implies !S::stops(#[trigger] o[i]) by {
        assert(b[i - d] == o[i]);
        assert(!S::stops(b[i - d]));
    }
    if e < to {
        assert(o[e + d] == b[e]);
        run_end_is::<S>(o, pos + d, e + d);
    } else if to + d == o.len() || S::stops(o[to + d]) {
        run_end_is::<S>(o, pos + d, e + d);
    }
}

pub(crate) proof fn block_is_local(b: Seq<u8>, from: int, to: int, o: Seq<u8>, d: int, pos: int)
    requires
        copied(b, from, to, o, d),
        0 <= from <= pos <= to <= b.len(),
    ensures
        block_close(b, pos) matches Some(e) ==> (e <= to ==> block_close(o, pos + d) == Some(e + d)),
    decreases to - pos,
{
    block_close_bounds(b, pos);
    if pos + 1 < to {
        assert(o[pos + d] == b[pos] && o[pos + 1 + d] == b[pos + 1]);
        block_is_local(b, from, to, o, d, pos + 1);
    }
}

pub(crate) proof fn comment_is_local(b: Seq<u8>, from: int, to: int, o: Seq<u8>, d: int, start: int)
    requires
        copied(b, from, to, o, d),
        0 <= from <= start < to <= b.len(),
    ensures
        comment_end(b, start) matches Ok(e) ==> (e < to || (e == to && to + d == o.len()) ==> comment_end(o, start + d) == Ok::<int, Error>(
            e + d,
        )),
{
    comment_end_bounds(b, start);
    if let Ok(e) = comment_end(b, start) {
        if e <= to {
            assert(o[start + d] == b[start] && o[start + 1 + d] == b[start + 1]);
            block_is_local(b, from, to, o, d, start + 2);
            run_is_local::<NdjsonFrame>(b, from, to, o, d, start + 2);
        }
    }
}

pub(crate) proof fn trivia_is_local(b: Seq<u8>, from: int, to: int, o: Seq<u8>, d: int, pos: int, dialect: Dialect)
    requires
        copied(b, from, to, o, d),
        0 <= from <= pos <= to <= b.len(),
    ensures
        trivia_end(b, pos, dialect) matches Ok(e) ==> (e < to || (e == to && to + d == o.len()) ==> trivia_end(o, pos + d, dialect) == Ok::<
            int,
            Error,
        >(e + d)),
    decreases to - pos,
{
    run_is_local::<Ws>(b, from, to, o, d, pos);
    run_end_facts::<Ws>(b, pos);
    let p = run_end::<Ws>(b, pos);
    trivia_end_bounds(b, pos, dialect);
    if dialect.comments() && p < b.len() && b[p] == SLASH {
        comment_end_bounds(b, p);
        if let Ok(e) = comment_end(b, p) {
            trivia_end_bounds(b, e, dialect);
            if e <= to {
                assert(o[p + d] == b[p]);
                comment_is_local(b, from, to, o, d, p);
                trivia_is_local(b, from, to, o, d, e, dialect);
            }
        }
    } else if p < to {
        assert(o[p + d] == b[p]);
    }
}

/// What comes next in a container is local: its closer, or a child that starts
/// inside.
pub(crate) proof fn next_is_local(b: Seq<u8>, from: int, to: int, o: Seq<u8>, d: int, pos: int, dialect: Dialect, closer: u8, first: bool)
    requires
        copied(b, from, to, o, d),
        0 <= from <= pos <= to <= b.len(),
    ensures
        match next_at(b, pos, dialect, closer, first) {
            Ok(NextAt::Close(e)) => e <= to ==> next_at(o, pos + d, dialect, closer, first) == Ok::<
                NextAt,
                Error,
            >(NextAt::Close(e + d)),
            Ok(NextAt::Item(p)) => p < to ==> next_at(o, pos + d, dialect, closer, first) == Ok::<
                NextAt,
                Error,
            >(NextAt::Item(p + d)),
            Err(_) => true,
        },
{
    reveal(next_at);
    trivia_is_local(b, from, to, o, d, pos, dialect);
    trivia_end_bounds(b, pos, dialect);
    if let Ok(p) = trivia_end(b, pos, dialect) {
        if p < to {
            assert(o[p + d] == b[p]);
            trivia_is_local(b, from, to, o, d, p + 1, dialect);
            trivia_end_bounds(b, p + 1, dialect);
            if let Ok(q) = trivia_end(b, p + 1, dialect) {
                if q < to {
                    assert(o[q + d] == b[q]);
                }
            }
        } else if p < b.len() {
            trivia_end_bounds(b, p + 1, dialect);
        }
    }
}

pub(crate) proof fn colon_is_local(b: Seq<u8>, from: int, to: int, o: Seq<u8>, d: int, end: int, dialect: Dialect)
    requires
        copied(b, from, to, o, d),
        0 <= from <= end <= to <= b.len(),
    ensures
        after_colon(b, end, dialect) matches Ok(v) ==> (v < to ==> after_colon(o, end + d, dialect)
            == Ok::<int, Error>(v + d)),
{
    trivia_is_local(b, from, to, o, d, end, dialect);
    trivia_end_bounds(b, end, dialect);
    if let Ok(p) = trivia_end(b, end, dialect) {
        if p < b.len() {
            trivia_end_bounds(b, p + 1, dialect);
        }
        if p < to {
            assert(o[p + d] == b[p]);
            trivia_is_local(b, from, to, o, d, p + 1, dialect);
        }
    }
}

proof fn hex_is_local(b: Seq<u8>, from: int, to: int, o: Seq<u8>, d: int, pos: int)
    requires
        copied(b, from, to, o, d),
        0 <= from <= pos,
        pos + 4 <= to <= b.len(),
        hex_fault(b, pos, 4) is None,
    ensures
        hex_fault(o, pos + d, 4) is None,
        four_hex(o, pos + d) == four_hex(b, pos),
{
    hex_fault_none(b, pos);
    assert(o[pos + d] == b[pos] && o[pos + 1 + d] == b[pos + 1] && o[pos + 2 + d] == b[pos + 2] && o[pos + 3 + d]
        == b[pos + 3]);
    reveal_with_fuel(hex_fault, 5);
}

/// An escape that ends before `to` is local.
proof fn escape_is_local(b: Seq<u8>, from: int, to: int, o: Seq<u8>, d: int, pos: int, json5: bool)
    requires
        copied(b, from, to, o, d),
        0 <= from <= pos < to <= b.len(),
    ensures
        escape(b, pos, json5) matches Ok((next, text)) ==> (next < to ==> escape(o, pos + d, json5) == Ok::<
            (int, Seq<u8>),
            Error,
        >((next + d, text))),
{
    assert(o[pos + d] == b[pos]);
    if let Ok((next, text)) = escape(b, pos, json5) {
        if next < to {
            if simple_escape(b[pos], json5) is Some {
            } else if b[pos] == 0x75 {
                hex_fault_none(b, pos + 1);
                let unit = four_hex(b, pos + 1);
                if 0xd800 <= unit <= 0xdbff {
                    hex_fault_none(b, pos + 7);
                    hex_is_local(b, from, to, o, d, pos + 1);
                    hex_is_local(b, from, to, o, d, pos + 7);
                    assert(o[pos + 5 + d] == b[pos + 5] && o[pos + 6 + d] == b[pos + 6]);
                } else {
                    hex_is_local(b, from, to, o, d, pos + 1);
                }
            } else {
                assert(pos + 1 <= next);
                assert(o[pos + 1 + d] == b[pos + 1]);
                if pos + 2 < to {
                    assert(o[pos + 2 + d] == b[pos + 2]);
                }
            }
        }
    }
}

proof fn content_is_local(b: Seq<u8>, from: int, to: int, o: Seq<u8>, d: int, pos: int, quote: u8)
    requires
        copied(b, from, to, o, d),
        0 <= from <= pos < to <= b.len(),
        content_end(b, pos, quote) < to,
    ensures
        pos <= content_end(b, pos, quote),
        content_end(o, pos + d, quote) == content_end(b, pos, quote) + d,
        o.subrange(pos + d, content_end(b, pos, quote) + d) == b.subrange(
            pos,
            content_end(b, pos, quote),
        ),
{
    run_end_facts::<StringContent>(b, pos);
    run_end_facts::<SingleContent>(b, pos);
    run_is_local::<StringContent>(b, from, to, o, d, pos);
    run_is_local::<SingleContent>(b, from, to, o, d, pos);
    let next = content_end(b, pos, quote);
    assert(o.subrange(pos + d, next + d) =~= b.subrange(pos, next));
}

proof fn piece_is_local(b: Seq<u8>, from: int, to: int, o: Seq<u8>, d: int, pos: int, quote: u8, json5: bool)
    requires
        copied(b, from, to, o, d),
        0 <= from <= pos < to <= b.len(),
        b[pos] != quote,
        quote == QUOTE || quote == APOSTROPHE,
    ensures
        string_piece(b, pos, quote, json5) matches Ok((next, text)) ==> (next < to ==> string_piece(
            o,
            pos + d,
            quote,
            json5,
        ) == Ok::<(int, Seq<u8>), Error>((next + d, text))),
{
    assert(o[pos + d] == b[pos]);
    string_piece_facts(b, pos, quote, json5);
    if let Ok((next, text)) = string_piece(b, pos, quote, json5) {
        if next < to {
            if b[pos] == BACKSLASH {
                escape_is_local(b, from, to, o, d, pos + 1, json5);
            } else if b[pos] != DEL {
                content_is_local(b, from, to, o, d, pos, quote);
            }
        }
    }
}

#[verifier::opaque]
pub(crate) open spec fn piece(b: Seq<u8>, pos: int, quote: u8, json5: bool) -> Result<(int, Seq<u8>), Error> {
    string_piece(b, pos, quote, json5)
}

#[verifier::opaque]
pub(crate) open spec fn rest(b: Seq<u8>, pos: int, quote: u8, json5: bool) -> Result<(int, Seq<u8>), Error> {
    string_rest(b, pos, quote, json5)
}

/// A string is its first piece and the rest of it.
pub(crate) proof fn rest_steps(b: Seq<u8>, pos: int, quote: u8, json5: bool)
    requires
        0 <= pos < b.len(),
        quote == QUOTE || quote == APOSTROPHE,
    ensures
        b[pos] == quote ==> rest(b, pos, quote, json5) == Ok::<(int, Seq<u8>), Error>((pos + 1, Seq::empty())),
        b[pos] != quote ==> match piece(b, pos, quote, json5) {
            Ok((next, text)) => {
                &&& pos < next <= b.len()
                &&& rest(b, pos, quote, json5) == prepended(text, rest(b, next, quote, json5))
            },
            Err(_) => rest(b, pos, quote, json5) is Err,
        },
{
    reveal(piece);
    reveal(rest);
    if b[pos] != quote {
        string_piece_facts(b, pos, quote, json5);
    }
}

pub(crate) proof fn rest_starts(b: Seq<u8>, pos: int, quote: u8, json5: bool)
    requires
        0 <= pos <= b.len(),
        quote == QUOTE || quote == APOSTROPHE,
    ensures
        rest(b, pos, quote, json5) matches Ok((end, _)) ==> pos < end <= b.len(),
{
    reveal(rest);
    string_rest_facts(b, pos, quote, json5);
}

proof fn opaque_piece_is_local(b: Seq<u8>, from: int, to: int, o: Seq<u8>, d: int, pos: int, quote: u8, json5: bool)
    requires
        copied(b, from, to, o, d),
        0 <= from <= pos < to <= b.len(),
        b[pos] != quote,
        quote == QUOTE || quote == APOSTROPHE,
    ensures
        piece(b, pos, quote, json5) matches Ok((next, text)) ==> (next < to ==> piece(o, pos + d, quote, json5)
            == Ok::<(int, Seq<u8>), Error>((next + d, text))),
{
    reveal(piece);
    piece_is_local(b, from, to, o, d, pos, quote, json5);
}

proof fn rest_is_local(b: Seq<u8>, from: int, to: int, o: Seq<u8>, d: int, pos: int, quote: u8, json5: bool)
    requires
        copied(b, from, to, o, d),
        0 <= from <= pos <= to <= b.len(),
        quote == QUOTE || quote == APOSTROPHE,
    ensures
        rest(b, pos, quote, json5) matches Ok((end, text)) ==> (end <= to ==> rest(o, pos + d, quote, json5)
            == Ok::<(int, Seq<u8>), Error>((end + d, text))),
    decreases to - pos,
{
    rest_starts(b, pos, quote, json5);
    if pos < to {
        assert(o[pos + d] == b[pos]);
        rest_steps(b, pos, quote, json5);
        rest_steps(o, pos + d, quote, json5);
        if b[pos] != quote {
            opaque_piece_is_local(b, from, to, o, d, pos, quote, json5);
            if let Ok((next, _)) = piece(b, pos, quote, json5) {
                rest_starts(b, next, quote, json5);
                if next < to {
                    rest_is_local(b, from, to, o, d, next, quote, json5);
                }
            }
        }
    }
}

pub(crate) proof fn text_is_local(b: Seq<u8>, from: int, to: int, o: Seq<u8>, d: int, pos: int, dialect: Dialect)
    requires
        copied(b, from, to, o, d),
        0 <= from <= pos < to <= b.len(),
        opens_string(b[pos], dialect),
    ensures
        string_text(b, pos, dialect) matches Ok((end, text)) ==> (end <= to ==> string_text(
            o,
            pos + d,
            dialect,
        ) == Ok::<(int, Seq<u8>), Error>((end + d, text))),
{
    assert(o[pos + d] == b[pos]);
    reveal(rest);
    rest_is_local(b, from, to, o, d, pos + 1, b[pos], dialect == Dialect::Json5);
}

proof fn key_is_local(b: Seq<u8>, from: int, to: int, o: Seq<u8>, d: int, pos: int, dialect: Dialect)
    requires
        copied(b, from, to, o, d),
        0 <= from <= pos < to <= b.len(),
    ensures
        key_text(b, pos, dialect) matches Ok((end, text)) ==> (end < to ==> key_text(o, pos + d, dialect)
            == Ok::<(int, Seq<u8>), Error>((end + d, text))),
{
    assert(o[pos + d] == b[pos]);
    if opens_string(b[pos], dialect) {
        text_is_local(b, from, to, o, d, pos, dialect);
    } else {
        run_is_local::<Ident>(b, from, to, o, d, pos);
        run_end_facts::<Ident>(b, pos);
        let e = run_end::<Ident>(b, pos);
        if e <= to {
            assert(o.subrange(pos + d, e + d) =~= b.subrange(pos, e));
        }
    }
}

proof fn boundary_is_local(b: Seq<u8>, from: int, to: int, o: Seq<u8>, d: int, e: int, dialect: Dialect)
    requires
        copied(b, from, to, o, d),
        token_end(o, to + d, dialect),
        0 <= from <= e <= to <= b.len(),
        token_end(b, e, dialect),
    ensures
        token_end(o, e + d, dialect),
{
    if e < to {
        assert(o[e + d] == b[e]);
    }
}

proof fn exponent_is_local(b: Seq<u8>, from: int, to: int, o: Seq<u8>, d: int, pos: int, dialect: Dialect)
    requires
        copied(b, from, to, o, d),
        token_end(o, to + d, dialect),
        0 <= from <= pos <= b.len(),
        from <= to <= b.len(),
    ensures
        bounded_number(b, exponent_end(b, pos), dialect) matches Ok(e) ==> pos <= e && (e <= to ==> bounded_number(
            o,
            exponent_end(o, pos + d),
            dialect,
        ) == Ok::<int, Error>(e + d)),
{
    exponent_end_bounds(b, pos);
    if let Ok(e) = bounded_number(b, exponent_end(b, pos), dialect) {
        if e <= to {
            boundary_is_local(b, from, to, o, d, e, dialect);
            if pos < to {
                assert(o[pos + d] == b[pos]);
                if pos + 1 < to {
                    assert(o[pos + 1 + d] == b[pos + 1]);
                }
                if is_exponent_mark(b[pos]) {
                    let digits = after_sign(b, pos + 1);
                    run_end_facts::<Digits>(b, digits);
                    run_is_local::<Digits>(b, from, to, o, d, digits);
                }
            }
        }
    }
}

proof fn rfc_number_is_local(b: Seq<u8>, from: int, to: int, o: Seq<u8>, d: int, pos: int, dialect: Dialect)
    requires
        copied(b, from, to, o, d),
        token_end(o, to + d, dialect),
        0 <= from <= pos < to <= b.len(),
    ensures
        rfc_number_end(b, pos, dialect) matches Ok(e) ==> (e <= to ==> rfc_number_end(o, pos + d, dialect)
            == Ok::<int, Error>(e + d)),
{
    assert(o[pos + d] == b[pos]);
    if let Ok(e) = rfc_number_end(b, pos, dialect) {
        if e <= to {
            let p = after_minus(b, pos);
            let i = run_end::<Digits>(b, p);
            run_end_facts::<Digits>(b, p);
            if i < b.len() && b[i] == DOT {
                let f = run_end::<Digits>(b, i + 1);
                run_end_facts::<Digits>(b, i + 1);
                exponent_is_local(b, from, to, o, d, f, dialect);
                assert(o[p + d] == b[p] && o[i + d] == b[i]);
                if p + 1 < to {
                    assert(o[p + 1 + d] == b[p + 1]);
                }
                run_is_local::<Digits>(b, from, to, o, d, p);
                run_is_local::<Digits>(b, from, to, o, d, i + 1);
            } else {
                exponent_is_local(b, from, to, o, d, i, dialect);
                assert(p < i) by {
                    run_end_facts::<Digits>(b, p + 1);
                }
                assert(o[p + d] == b[p]);
                if p + 1 < to {
                    assert(o[p + 1 + d] == b[p + 1]);
                }
                if i < to {
                    assert(o[i + d] == b[i]);
                }
                run_is_local::<Digits>(b, from, to, o, d, p);
            }
        }
    }
}

proof fn word_is_local(b: Seq<u8>, from: int, to: int, o: Seq<u8>, d: int, start: int, p: int, text: Seq<u8>, dialect: Dialect)
    requires
        copied(b, from, to, o, d),
        token_end(o, to + d, dialect),
        0 <= from <= p,
        to <= b.len(),
    ensures
        non_finite_end(b, start, p, text, dialect) matches Ok(e) ==> (e <= to ==> non_finite_end(
            o,
            start + d,
            p + d,
            text,
            dialect,
        ) == Ok::<int, Error>(e + d)),
        spelling_end(b, p, text, dialect) matches Ok(e) ==> (e <= to ==> spelling_end(o, p + d, text, dialect)
            == Ok::<int, Error>(e + d)),
{
    let e = p + text.len();
    if e <= to {
        assert(o.subrange(p + d, e + d) =~= b.subrange(p, e));
        if token_end(b, e, dialect) {
            boundary_is_local(b, from, to, o, d, e, dialect);
        }
    }
}

proof fn json5_number_is_local(b: Seq<u8>, from: int, to: int, o: Seq<u8>, d: int, pos: int, dialect: Dialect)
    requires
        copied(b, from, to, o, d),
        token_end(o, to + d, dialect),
        0 <= from <= pos < to <= b.len(),
    ensures
        json5_number_end(b, pos, dialect) matches Ok(e) ==> (e <= to ==> json5_number_end(o, pos + d, dialect)
            == Ok::<int, Error>(e + d)),
{
    assert(o[pos + d] == b[pos]);
    if let Ok(e) = json5_number_end(b, pos, dialect) {
        if e <= to {
            let p = after_sign(b, pos);
            if b[p] == 0x49 {
                assert(o[p + d] == b[p]);
                word_is_local(b, from, to, o, d, pos, p, infinity_text(), dialect);
            } else if b[p] == 0x4e {
                assert(o[p + d] == b[p]);
                word_is_local(b, from, to, o, d, pos, p, nan_text(), dialect);
            } else if hex_prefix(b, p) {
                run_end_facts::<HexDigits>(b, p + 2);
                assert(o[p + d] == b[p] && o[p + 1 + d] == b[p + 1]);
                run_is_local::<HexDigits>(b, from, to, o, d, p + 2);
                boundary_is_local(b, from, to, o, d, e, dialect);
            } else {
                json5_decimal_is_local(b, from, to, o, d, pos, p, e, dialect);
            }
        }
    }
}

proof fn json5_decimal_is_local(b: Seq<u8>, from: int, to: int, o: Seq<u8>, d: int, pos: int, p: int, e: int, dialect: Dialect)
    requires
        copied(b, from, to, o, d),
        token_end(o, to + d, dialect),
        0 <= from <= pos < to <= b.len(),
        json5_number_end(b, pos, dialect) == Ok::<int, Error>(e),
        e <= to,
        p == after_sign(b, pos),
        b[p] != 0x49 && b[p] != 0x4e && !hex_prefix(b, p),
    ensures
        json5_number_end(o, pos + d, dialect) == Ok::<int, Error>(e + d),
{
    assert(o[pos + d] == b[pos]);
    let i = run_end::<Digits>(b, p);
    run_end_facts::<Digits>(b, p);
    let f = if i < b.len() && b[i] == DOT {
        run_end::<Digits>(b, i + 1)
    } else {
        i
    };
    if i < b.len() {
        run_end_facts::<Digits>(b, i + 1);
    }
    exponent_is_local(b, from, to, o, d, f, dialect);
    assert(o[p + d] == b[p]);
    if p + 1 < to {
        assert(o[p + 1 + d] == b[p + 1]);
    }
    if i < to {
        assert(o[i + d] == b[i]);
        if b[i] == DOT {
            run_is_local::<Digits>(b, from, to, o, d, i + 1);
        }
    }
    run_is_local::<Digits>(b, from, to, o, d, p);
}

proof fn number_is_local(b: Seq<u8>, from: int, to: int, o: Seq<u8>, d: int, pos: int, dialect: Dialect)
    requires
        copied(b, from, to, o, d),
        token_end(o, to + d, dialect),
        0 <= from <= pos < to <= b.len(),
    ensures
        number_end(b, pos, dialect) matches Ok(e) ==> (e <= to ==> number_end(o, pos + d, dialect) == Ok::<
            int,
            Error,
        >(e + d)),
{
    rfc_number_is_local(b, from, to, o, d, pos, dialect);
    json5_number_is_local(b, from, to, o, d, pos, dialect);
}

/// Whether a number is a plain integer is local.
proof fn integer_is_local(b: Seq<u8>, from: int, to: int, o: Seq<u8>, d: int, pos: int, e: int)
    requires
        copied(b, from, to, o, d),
        token_end(o, to + d, Dialect::Json5),
        0 <= from <= pos < to <= b.len(),
        number_end(b, pos, Dialect::Json5) == Ok::<int, Error>(e),
        e <= to,
    ensures
        integer_at(o, pos + d, Dialect::Json5) == integer_at(b, pos, Dialect::Json5),
{
    let dialect = Dialect::Json5;
    number_end_bounds(b, pos, dialect);
    assert(o[pos + d] == b[pos]);
    let p = after_minus(b, pos);
    let i = run_end::<Digits>(b, p);
    run_end_facts::<Digits>(b, p);
    if p < to {
        assert(o[p + d] == b[p]);
        if is_digit(b[p]) {
            if p + 1 < to {
                assert(o[p + 1 + d] == b[p + 1]);
            }
            run_is_local::<Digits>(b, from, to, o, d, p);
            assert(i <= e) by {
                if hex_prefix(b, p) {
                    run_end_is::<Digits>(b, p, p + 1);
                    run_end_facts::<HexDigits>(b, p + 2);
                } else {
                    if i < b.len() {
                        run_end_facts::<Digits>(b, i + 1);
                    }
                    exponent_end_bounds(b, i);
                    if i < b.len() && b[i] == DOT {
                        exponent_end_bounds(b, run_end::<Digits>(b, i + 1));
                    }
                }
            }
            if i < to {
                assert(o[i + d] == b[i]);
            } else {
                boundary_is_local(b, from, to, o, d, i, dialect);
            }
        }
    }
}

pub(crate) proof fn scalar_is_local(b: Seq<u8>, from: int, to: int, o: Seq<u8>, d: int, pos: int, dialect: Dialect)
    requires
        copied(b, from, to, o, d),
        token_end(o, to + d, dialect),
        0 <= from <= pos < to <= b.len(),
    ensures
        built_scalar(b, pos, unbounded(dialect), no_room()) matches Ok((e, j, _)) ==> (e <= to ==> built_scalar(
            o,
            pos + d,
            unbounded(dialect),
            no_room(),
        ) == Ok::<(int, Json, Room), Error>((e + d, j, no_room()))),
{
    reveal(built_scalar);
    assert(o[pos + d] == b[pos]);
    if opens_string(b[pos], dialect) {
        string_is_local(b, from, to, o, d, pos, dialect);
    } else if starts_number(b[pos], dialect) {
        number_value_is_local(b, from, to, o, d, pos, dialect);
    } else if starts_literal(b[pos]) {
        word_is_local(b, from, to, o, d, pos, pos, literal_text(b[pos]), dialect);
    }
}

proof fn string_is_local(b: Seq<u8>, from: int, to: int, o: Seq<u8>, d: int, pos: int, dialect: Dialect)
    requires
        copied(b, from, to, o, d),
        token_end(o, to + d, dialect),
        0 <= from <= pos < to <= b.len(),
        opens_string(b[pos], dialect),
    ensures
        built_scalar(b, pos, unbounded(dialect), no_room()) matches Ok((e, j, _)) ==> (e <= to ==> built_scalar(
            o,
            pos + d,
            unbounded(dialect),
            no_room(),
        ) == Ok::<(int, Json, Room), Error>((e + d, j, no_room()))),
{
    reveal(built_scalar);
    assert(o[pos + d] == b[pos]);
    text_is_local(b, from, to, o, d, pos, dialect);
}

proof fn spelling_is_local(b: Seq<u8>, from: int, to: int, o: Seq<u8>, d: int, pos: int, dialect: Dialect)
    requires
        copied(b, from, to, o, d),
        token_end(o, to + d, dialect),
        0 <= from <= pos < to <= b.len(),
    ensures
        number_at(b, pos, dialect) matches Ok((e, text, kept)) ==> (e <= to ==> number_at(o, pos + d, dialect)
            == Ok::<(int, Seq<u8>, bool), Error>((e + d, text, kept))),
{
    number_is_local(b, from, to, o, d, pos, dialect);
    number_end_bounds(b, pos, dialect);
    if let Ok(e) = number_end(b, pos, dialect) {
        if e <= to {
            assert(o.subrange(pos + d, e + d) =~= b.subrange(pos, e));
            if dialect == Dialect::Json5 {
                integer_is_local(b, from, to, o, d, pos, e);
            }
        }
    }
}

proof fn number_value_is_local(b: Seq<u8>, from: int, to: int, o: Seq<u8>, d: int, pos: int, dialect: Dialect)
    requires
        copied(b, from, to, o, d),
        token_end(o, to + d, dialect),
        0 <= from <= pos < to <= b.len(),
        starts_number(b[pos], dialect),
        !opens_string(b[pos], dialect),
    ensures
        built_scalar(b, pos, unbounded(dialect), no_room()) matches Ok((e, j, _)) ==> (e <= to ==> built_scalar(
            o,
            pos + d,
            unbounded(dialect),
            no_room(),
        ) == Ok::<(int, Json, Room), Error>((e + d, j, no_room()))),
{
    reveal(built_scalar);
    assert(o[pos + d] == b[pos]);
    spelling_is_local(b, from, to, o, d, pos, dialect);
}

pub(crate) proof fn colon_bounds(b: Seq<u8>, end: int, dialect: Dialect)
    requires
        0 <= end <= b.len(),
    ensures
        after_colon(b, end, dialect) matches Ok(v) ==> end < v <= b.len(),
{
    trivia_end_bounds(b, end, dialect);
    if let Ok(q) = trivia_end(b, end, dialect) {
        if q < b.len() {
            trivia_end_bounds(b, q + 1, dialect);
        }
    }
}

/// The end and the text of a key.
#[verifier::opaque]
pub(crate) open spec fn key_of(b: Seq<u8>, p: int, dialect: Dialect) -> Result<(int, Seq<u8>), Error> {
    key_text(b, p, dialect)
}

/// The value a key leads to.
#[verifier::opaque]
pub(crate) open spec fn led_to(b: Seq<u8>, end: int, dialect: Dialect) -> Result<int, Error> {
    after_colon(b, end, dialect)
}

pub(crate) proof fn built_key_is(b: Seq<u8>, p: int, dialect: Dialect)
    ensures
        built_key(b, p, unbounded(dialect), no_room()) == (match key_of(b, p, dialect) {
            Err(error) => Err(error),
            Ok((end, key)) => match led_to(b, end, dialect) {
                Err(error) => Err(error),
                Ok(v) => Ok((v, key, no_room())),
            },
        }),
{
    reveal(built_key);
    reveal(key_of);
    reveal(led_to);
}

pub(crate) proof fn key_of_is_local(b: Seq<u8>, from: int, to: int, o: Seq<u8>, d: int, p: int, dialect: Dialect)
    requires
        copied(b, from, to, o, d),
        0 <= from <= p < to <= b.len(),
    ensures
        key_of(b, p, dialect) matches Ok((end, key)) ==> 0 <= end <= b.len() && from <= end && (end < to ==> key_of(
            o,
            p + d,
            dialect,
        ) == Ok::<(int, Seq<u8>), Error>((end + d, key))),
{
    reveal(key_of);
    key_is_local(b, from, to, o, d, p, dialect);
    key_text_end(b, p, dialect);
}

pub(crate) proof fn led_to_is_local(b: Seq<u8>, from: int, to: int, o: Seq<u8>, d: int, end: int, dialect: Dialect)
    requires
        copied(b, from, to, o, d),
        0 <= from <= end <= b.len(),
        to <= b.len(),
    ensures
        led_to(b, end, dialect) matches Ok(v) ==> end < v && (v < to ==> led_to(o, end + d, dialect) == Ok::<
            int,
            Error,
        >(v + d)),
{
    reveal(led_to);
    colon_bounds(b, end, dialect);
    if end <= to {
        colon_is_local(b, from, to, o, d, end, dialect);
    }
}

pub(crate) proof fn built_key_is_local(b: Seq<u8>, from: int, to: int, o: Seq<u8>, d: int, p: int, dialect: Dialect)
    requires
        copied(b, from, to, o, d),
        0 <= from <= p < to <= b.len(),
    ensures
        built_key(b, p, unbounded(dialect), no_room()) matches Ok((v, key, _)) ==> (v < to ==> built_key(
            o,
            p + d,
            unbounded(dialect),
            no_room(),
        ) == Ok::<(int, Seq<u8>, Room), Error>((v + d, key, no_room()))),
{
    built_key_is(b, p, dialect);
    built_key_is(o, p + d, dialect);
    key_of_is_local(b, from, to, o, d, p, dialect);
    if let Ok((end, _)) = key_of(b, p, dialect) {
        led_to_is_local(b, from, to, o, d, end, dialect);
    }
}

/// A value that ends inside the cut reads there as it does in the source.
pub(crate) proof fn read_is_local(b: Seq<u8>, from: int, to: int, o: Seq<u8>, d: int, pos: int, dialect: Dialect, depth: int)
    requires
        copied(b, from, to, o, d),
        token_end(o, to + d, dialect),
        0 <= from <= pos < to <= b.len(),
    ensures
        built(b, pos, unbounded(dialect), no_room(), depth) matches Ok((e, j, _)) ==> (e <= to ==> built(
            o,
            pos + d,
            unbounded(dialect),
            no_room(),
            depth,
        ) == Ok::<(int, Json, Room), Error>((e + d, j, no_room()))),
    decreases to - pos, 0nat,
{
    assert(o[pos + d] == b[pos]);
    if b[pos] == LBRACKET || b[pos] == LBRACE {
        if depth < MAX_NESTING {
            items_are_local(b, from, to, o, d, pos + 1, dialect, depth + 1, Seq::empty());
            members_are_local(b, from, to, o, d, pos + 1, dialect, depth + 1, Seq::empty());
        }
    } else {
        scalar_is_local(b, from, to, o, d, pos, dialect);
    }
}

pub(crate) proof fn items_are_local(b: Seq<u8>, from: int, to: int, o: Seq<u8>, d: int, pos: int, dialect: Dialect, depth: int, done: Seq<Json>)
    requires
        copied(b, from, to, o, d),
        token_end(o, to + d, dialect),
        0 <= from <= pos <= to <= b.len(),
    ensures
        built_items(b, pos, unbounded(dialect), no_room(), depth, done) matches Ok((e, items, _)) ==> (e <= to ==> built_items(
            o,
            pos + d,
            unbounded(dialect),
            no_room(),
            depth,
            done,
        ) == Ok::<(int, Seq<Json>, Room), Error>((e + d, items, no_room()))),
    decreases to - pos, 1nat,
{
    let first = done.len() == 0;
    next_is_local(b, from, to, o, d, pos, dialect, RBRACKET, first);
    next_at_bounds(b, pos, dialect, RBRACKET, first);
    if let Ok(NextAt::Item(p)) = next_at(b, pos, dialect, RBRACKET, first) {
        parse_agrees_with_strict_skip(b, p, dialect, depth);
        if let Ok((e, item, _)) = built(b, p, unbounded(dialect), no_room(), depth) {
            items_agree(b, e, dialect, depth, done.push(item));
            items_bounds(b, e, strict_ctx(dialect), depth, false);
            if e <= to {
                read_is_local(b, from, to, o, d, p, dialect, depth);
                items_are_local(b, from, to, o, d, e, dialect, depth, done.push(item));
            }
        }
    }
}

pub(crate) proof fn merged_is_not_empty(done: Seq<(Seq<u8>, Json)>, key: Seq<u8>, x: Json)
    ensures
        merged(done, key, x).len() > 0,
{
    position_facts(done, key, 0);
}

pub(crate) proof fn members_are_local(
    b: Seq<u8>,
    from: int,
    to: int,
    o: Seq<u8>,
    d: int,
    pos: int,
    dialect: Dialect,
    depth: int,
    done: Seq<(Seq<u8>, Json)>,
)
    requires
        copied(b, from, to, o, d),
        token_end(o, to + d, dialect),
        0 <= from <= pos <= to <= b.len(),
    ensures
        built_members(b, pos, unbounded(dialect), no_room(), depth, done) matches Ok((e, members, _)) ==> (e <= to
            ==> built_members(o, pos + d, unbounded(dialect), no_room(), depth, done) == Ok::<
            (int, Seq<(Seq<u8>, Json)>, Room),
            Error,
        >((e + d, members, no_room()))),
    decreases to - pos, 1nat,
{
    let first = done.len() == 0;
    next_is_local(b, from, to, o, d, pos, dialect, RBRACE, first);
    next_at_bounds(b, pos, dialect, RBRACE, first);
    if let Ok(NextAt::Item(p)) = next_at(b, pos, dialect, RBRACE, first) {
        key_agrees(b, p, dialect);
        if let Ok((v, key, _)) = built_key(b, p, unbounded(dialect), no_room()) {
            parse_agrees_with_strict_skip(b, v, dialect, depth);
            if let Ok((e, x, _)) = built(b, v, unbounded(dialect), no_room(), depth) {
                members_agree(b, e, dialect, depth, merged(done, key, x));
                merged_is_not_empty(done, key, x);
                members_bounds(b, e, strict_ctx(dialect), depth, false);
                if e <= to {
                    built_key_is_local(b, from, to, o, d, p, dialect);
                    read_is_local(b, from, to, o, d, v, dialect, depth);
                    members_are_local(b, from, to, o, d, e, dialect, depth, merged(done, key, x));
                }
            }
        }
    }
}

/// The first byte of a value is no trivia, no closer and no separator.
pub(crate) proof fn value_start(b: Seq<u8>, pos: int, dialect: Dialect, depth: int)
    requires
        0 <= pos <= b.len(),
    ensures
        built(b, pos, unbounded(dialect), no_room(), depth) is Ok ==> pos < b.len() && Ws::stops(b[pos]) && !is_space(b[pos])
            && b[pos] != SLASH && b[pos] != RBRACKET && b[pos] != RBRACE && b[pos] != COMMA && b[pos] != COLON && b[pos] < 0x80,
{
    reveal(built_scalar);
}

proof fn lone_value_is_a_text(c: Seq<u8>, j: Json, dialect: Dialect)
    requires
        c.len() > 0,
        !is_space(c[0]) && c[0] != SLASH,
        built(c, 0, unbounded(dialect), no_room(), 0) == Ok::<(int, Json, Room), Error>((c.len() as int, j, no_room())),
    ensures
        read_text(c, dialect) == Ok::<Json, Error>(j),
{
    trivia_end_here(c, 0, dialect);
    trivia_end_here(c, c.len() as int, dialect);
    reveal(built_text);
}

/// A value cut out of its source is a whole text that reads as the value did in
/// place.
pub proof fn value_reads_the_same_alone(b: Seq<u8>, pos: int, dialect: Dialect)
    requires
        0 <= pos <= b.len(),
    ensures
        built(b, pos, unbounded(dialect), no_room(), 0) matches Ok((e, j, _)) ==> read_text(cut(b, pos, e), dialect) == Ok::<
            Json,
            Error,
        >(j),
{
    parse_agrees_with_strict_skip(b, pos, dialect, 0);
    if let Ok((e, j, _)) = built(b, pos, unbounded(dialect), no_room(), 0) {
        let c = cut(b, pos, e);
        read_is_local(b, pos, e, c, -pos, pos, dialect, 0);
        value_start(b, pos, dialect, 0);
        assert(c[0] == b[pos]);
        lone_value_is_a_text(c, j, dialect);
    }
}

/// A text reads the same behind a prefix that is cut off.
pub(crate) proof fn text_reads_the_same_behind(b: Seq<u8>, from: int, dialect: Dialect)
    requires
        0 <= from <= b.len(),
    ensures
        trivia_end(b, from, dialect) matches Ok(pos) ==> (built(b, pos, unbounded(dialect), no_room(), 0) matches Ok((e, j, _))
            ==> (trivia_end(b, e, dialect) == Ok::<int, Error>(b.len() as int) ==> read_text(
            cut(b, from, b.len() as int),
            dialect,
        ) == Ok::<Json, Error>(j))),
{
    let to = b.len() as int;
    let c = cut(b, from, to);
    trivia_end_bounds(b, from, dialect);
    trivia_is_local(b, from, to, c, -from, from, dialect);
    if let Ok(pos) = trivia_end(b, from, dialect) {
        parse_agrees_with_strict_skip(b, pos, dialect, 0);
        if let Ok((e, _, _)) = built(b, pos, unbounded(dialect), no_room(), 0) {
            read_is_local(b, from, to, c, -from, pos, dialect, 0);
            trivia_is_local(b, from, to, c, -from, e, dialect);
            reveal(built_text);
        }
    }
}

/// Whether what follows reads as trivia.
#[verifier::opaque]
pub open spec fn settles(b: Seq<u8>, pos: int, dialect: Dialect) -> bool {
    trivia_end(b, pos, dialect) is Ok
}

proof fn items_settle(b: Seq<u8>, pos: int, dialect: Dialect, depth: int, done: Seq<Json>)
    requires
        built_items(b, pos, unbounded(dialect), no_room(), depth, done) is Ok,
    ensures
        settles(b, pos, dialect),
{
    reveal(next_at);
    reveal(settles);
}

proof fn members_settle(b: Seq<u8>, pos: int, dialect: Dialect, depth: int, done: Seq<(Seq<u8>, Json)>)
    requires
        built_members(b, pos, unbounded(dialect), no_room(), depth, done) is Ok,
    ensures
        settles(b, pos, dialect),
{
    reveal(next_at);
    reveal(settles);
}

/// A key starts with no trivia and no closer.
pub(crate) proof fn key_start(b: Seq<u8>, p: int, dialect: Dialect)
    requires
        0 <= p <= b.len(),
        key_text(b, p, dialect) is Ok,
    ensures
        p < b.len(),
        !is_space(b[p]) && b[p] != SLASH && b[p] != RBRACE && b[p] != RBRACKET,
{
}

/// What a key and its colon say of their place.
pub(crate) proof fn built_key_reads(b: Seq<u8>, p: int, dialect: Dialect)
    requires
        0 <= p <= b.len(),
        built_key(b, p, unbounded(dialect), no_room()) is Ok,
    ensures
        p < b.len(),
        !is_space(b[p]) && b[p] != SLASH && b[p] != RBRACE,
        trivia_end(b, built_key(b, p, unbounded(dialect), no_room())->Ok_0.0, dialect) == Ok::<int, Error>(
            built_key(b, p, unbounded(dialect), no_room())->Ok_0.0,
        ),
{
    reveal(built_key);
    key_start(b, p, dialect);
    key_text_end(b, p, dialect);
    member_value_is_settled(b, key_text(b, p, dialect)->Ok_0.0, dialect);
}

/// Items are read one after the other.
pub(crate) proof fn items_unfold(b: Seq<u8>, pos: int, dialect: Dialect, depth: int, done: Seq<Json>)
    requires
        0 <= pos <= b.len(),
        built_items(b, pos, unbounded(dialect), no_room(), depth, done) is Ok,
    ensures
        match next_at(b, pos, dialect, RBRACKET, done.len() == 0) {
            Ok(NextAt::Close(e)) => built_items(b, pos, unbounded(dialect), no_room(), depth, done) == Ok::<
                (int, Seq<Json>, Room),
                Error,
            >((e, done, no_room())),
            Ok(NextAt::Item(p)) => {
                &&& pos <= p < b.len()
                &&& trivia_end(b, p, dialect) == Ok::<int, Error>(p)
                &&& built(b, p, unbounded(dialect), no_room(), depth) matches Ok((m, item, room)) && room == no_room() && p < m
                    <= b.len() && settles(b, m, dialect) && built_items(b, pos, unbounded(dialect), no_room(), depth, done) == built_items(
                    b,
                    m,
                    unbounded(dialect),
                    no_room(),
                    depth,
                    done.push(item),
                )
            },
            Err(_) => false,
        },
{
    let first = done.len() == 0;
    next_at_bounds(b, pos, dialect, RBRACKET, first);
    if let Ok(NextAt::Item(p)) = next_at(b, pos, dialect, RBRACKET, first) {
        parse_agrees_with_strict_skip(b, p, dialect, depth);
        item_is_settled(b, pos, dialect, RBRACKET, first);
        let (m, item, _) = built(b, p, unbounded(dialect), no_room(), depth)->Ok_0;
        items_settle(b, m, dialect, depth, done.push(item));
    }
}

/// Members are read one after the other.
pub(crate) proof fn members_unfold(b: Seq<u8>, pos: int, dialect: Dialect, depth: int, done: Seq<(Seq<u8>, Json)>)
    requires
        0 <= pos <= b.len(),
        built_members(b, pos, unbounded(dialect), no_room(), depth, done) is Ok,
    ensures
        match next_at(b, pos, dialect, RBRACE, done.len() == 0) {
            Ok(NextAt::Close(e)) => built_members(b, pos, unbounded(dialect), no_room(), depth, done) == Ok::<
                (int, Seq<(Seq<u8>, Json)>, Room),
                Error,
            >((e, done, no_room())),
            Ok(NextAt::Item(p)) => {
                &&& pos <= p < b.len()
                &&& built_key(b, p, unbounded(dialect), no_room()) matches Ok((v, key, kept)) && kept == no_room() && p < v
                    < b.len() && trivia_end(b, v, dialect) == Ok::<int, Error>(v) && (built(
                    b,
                    v,
                    unbounded(dialect),
                    no_room(),
                    depth,
                ) matches Ok((m, x, room)) && room == no_room() && v < m <= b.len() && settles(b, m, dialect) && built_members(
                    b,
                    pos,
                    unbounded(dialect),
                    no_room(),
                    depth,
                    done,
                ) == built_members(b, m, unbounded(dialect), no_room(), depth, merged(done, key, x)))
            },
            Err(_) => false,
        },
{
    let first = done.len() == 0;
    next_at_bounds(b, pos, dialect, RBRACE, first);
    if let Ok(NextAt::Item(p)) = next_at(b, pos, dialect, RBRACE, first) {
        key_agrees(b, p, dialect);
        built_key_reads(b, p, dialect);
        let v = built_key(b, p, unbounded(dialect), no_room())->Ok_0.0;
        parse_agrees_with_strict_skip(b, v, dialect, depth);
        let (m, x, _) = built(b, v, unbounded(dialect), no_room(), depth)->Ok_0;
        let key = built_key(b, p, unbounded(dialect), no_room())->Ok_0.1;
        members_settle(b, m, dialect, depth, merged(done, key, x));
    }
}

} // verus!
