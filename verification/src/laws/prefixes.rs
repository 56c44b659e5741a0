//! What a feeder drains of a growing run of adjacent values is final: more bytes change
//! none of the drained values.

use vstd::prelude::*;

use crate::ascii::{BACKSLASH, LBRACE, LBRACKET, RBRACE, RBRACKET};
use crate::dialect::Dialect;
use crate::error::Error;
use crate::framing::{
    adjacent, adjacent_prefix, locating, prefix_from, split, split_agrees_with_adjacent, split_from, text_start,
    values_from,
};
use crate::laws::local::{
    colon_bounds, colon_is_local, copied, next_is_local, run_is_local, trivia_is_local,
};
use crate::lex::number::{
    after_sign, has_digit, hex_prefix, is_non_finite_mark, located_number_end, located_number_end_bounds, NumberShape,
};
use crate::lex::skip::{
    end_at, items, literal_text, member_value_at, member_value_at_bounds, members, next_at, next_at_bounds, scalar,
    scalar_bounds, spelling_end, starts_number, value, value_bounds, value_past_trivia, Check, NextAt,
};
use crate::lex::stop_sets::{is_digit, run_end, run_end_facts, HexDigits, Ident, Letters, StopSet};
use crate::lex::string::{closing_quote, closing_quote_bounds, opens_string};
use crate::lex::ws::{token_end, trivia_end, trivia_end_bounds};
use crate::lex::{key_end, key_end_bounds};
use crate::value::{span, ByteRange};

verus! {

/// Whether a token that ends at `e` is settled by the `to` bytes that two texts share:
/// a byte of them follows it, or `o` ends with it.
pub open spec fn settled(e: int, to: int, o: Seq<u8>) -> bool {
    e < to || (e == to && to == o.len())
}

/// Whether two texts share their first `to` bytes.
#[verifier::opaque]
pub open spec fn shares(b: Seq<u8>, to: int, o: Seq<u8>) -> bool {
    copied(b, 0, to, o, 0)
}

proof fn byte_is_shared(b: Seq<u8>, to: int, o: Seq<u8>, i: int)
    requires
        shares(b, to, o),
    ensures
        0 <= to <= b.len() && to <= o.len(),
        0 <= i < to ==> b[i] == o[i],
{
    reveal(shares);
    if 0 <= i < to {
        assert(b[i] == o[i + 0]);
    }
}

proof fn trivia_is_shared(b: Seq<u8>, to: int, o: Seq<u8>, pos: int, dialect: Dialect)
    requires
        shares(b, to, o),
        0 <= pos <= to,
    ensures
        trivia_end(b, pos, dialect) matches Ok(e) ==> (settled(e, to, o) ==> trivia_end(o, pos, dialect) == Ok::<
            int,
            Error,
        >(e)),
{
    reveal(shares);
    trivia_is_local(b, 0, to, o, 0, pos, dialect);
}

proof fn next_is_shared(b: Seq<u8>, to: int, o: Seq<u8>, pos: int, dialect: Dialect, closer: u8, first: bool)
    requires
        shares(b, to, o),
        0 <= pos,
    ensures
        match next_at(b, pos, dialect, closer, first) {
            Ok(NextAt::Close(e)) => pos < e <= to ==> next_at(o, pos, dialect, closer, first) == Ok::<NextAt, Error>(
                NextAt::Close(e),
            ),
            Ok(NextAt::Item(p)) => pos <= p < to ==> next_at(o, pos, dialect, closer, first) == Ok::<NextAt, Error>(
                NextAt::Item(p),
            ),
            Err(_) => true,
        },
{
    reveal(shares);
    if pos <= to {
        next_is_local(b, 0, to, o, 0, pos, dialect, closer, first);
    }
}

/// A closing quote is found in both texts.
proof fn quote_is_shared(b: Seq<u8>, to: int, o: Seq<u8>, pos: int, quote: u8)
    requires
        copied(b, 0, to, o, 0),
        0 <= pos,
    ensures
        closing_quote(b, pos, quote) matches Some(e) ==> (e <= to ==> closing_quote(o, pos, quote) == Some(e)),
    decreases b.len() - pos + 1,
{
    closing_quote_bounds(b, pos, quote);
    if pos < b.len() && b[pos] != quote {
        if b[pos] == BACKSLASH {
            closing_quote_bounds(b, pos + 2, quote);
            quote_is_shared(b, to, o, pos + 2, quote);
        } else {
            closing_quote_bounds(b, pos + 1, quote);
            quote_is_shared(b, to, o, pos + 1, quote);
        }
    }
    if pos < to {
        assert(b[pos] == o[pos + 0]);
    }
}

/// A run of bytes is the same in both texts.
proof fn run_is_shared<S: StopSet>(b: Seq<u8>, to: int, o: Seq<u8>, pos: int)
    requires
        copied(b, 0, to, o, 0),
        0 <= pos <= to,
    ensures
        settled(run_end::<S>(b, pos), to, o) ==> run_end::<S>(o, pos) == run_end::<S>(b, pos),
{
    run_is_local::<S>(b, 0, to, o, 0, pos);
}

/// A located number is the same in both texts.
proof fn number_is_shared(b: Seq<u8>, to: int, o: Seq<u8>, pos: int, dialect: Dialect)
    requires
        copied(b, 0, to, o, 0),
        0 <= pos < to,
        starts_number(b[pos], dialect),
    ensures
        located_number_end(b, pos, dialect) matches Ok(e) ==> (settled(e, to, o) ==> located_number_end(o, pos, dialect)
            == Ok::<int, Error>(e)),
{
    located_number_end_bounds(b, pos, dialect);
    if let Ok(e) = located_number_end(b, pos, dialect) {
        if settled(e, to, o) {
            let p = after_sign(b, pos);
            assert(b[pos] == o[pos + 0]);
            assert(after_sign(o, pos) == p);
            run_end_facts::<Letters>(b, p);
            run_end_facts::<NumberShape>(b, p);
            if hex_prefix(b, p) {
                run_end_facts::<HexDigits>(b, p + 2);
            }
            if is_non_finite_mark(b[p]) {
                assert(!Letters::stops(b[p]));
            }
            assert(p < e);
            assert(b[p] == o[p + 0]);
            if p + 1 < to {
                assert(b[p + 1] == o[p + 1 + 0]);
            }
            run_is_shared::<Letters>(b, to, o, p);
            run_is_shared::<NumberShape>(b, to, o, p);
            if hex_prefix(b, p) && p + 2 <= to {
                run_is_shared::<HexDigits>(b, to, o, p + 2);
            }
            if has_digit(b, p, e) {
                let i = choose|i: int| p <= i < e && is_digit(#[trigger] b[i]);
                assert(is_digit(o[i + 0]));
                assert(has_digit(o, p, e));
            }
        }
    }
}

/// A literal is the same in both texts.
proof fn literal_is_shared(b: Seq<u8>, to: int, o: Seq<u8>, pos: int, text: Seq<u8>, dialect: Dialect)
    requires
        copied(b, 0, to, o, 0),
        0 <= pos,
    ensures
        spelling_end(b, pos, text, dialect) matches Ok(e) ==> (settled(e, to, o) ==> spelling_end(
            o,
            pos,
            text,
            dialect,
        ) == Ok::<int, Error>(e)),
{
    if let Ok(e) = spelling_end(b, pos, text, dialect) {
        if settled(e, to, o) {
            assert forall|i: int| pos <= i < e implies #[trigger] b[i] == o[i] by {
                assert(b[i] == o[i + 0]);
            }
            assert(o.subrange(pos, e) =~= b.subrange(pos, e));
            if e < to {
                assert(b[e] == o[e + 0]);
            }
            assert(token_end(o, e, dialect));
        }
    }
}

proof fn scalar_is_shared(b: Seq<u8>, to: int, o: Seq<u8>, pos: int, dialect: Dialect)
    requires
        shares(b, to, o),
        0 <= pos <= b.len(),
    ensures
        scalar(b, pos, Check::Locate, dialect) matches Ok(e) ==> (settled(e, to, o) ==> scalar(
            o,
            pos,
            Check::Locate,
            dialect,
        ) == Ok::<int, Error>(e)),
{
    reveal(shares);
    scalar_bounds(b, pos, Check::Locate, dialect);
    if let Ok(e) = scalar(b, pos, Check::Locate, dialect) {
        if settled(e, to, o) {
            byte_is_shared(b, to, o, pos);
            if opens_string(b[pos], dialect) {
                quote_is_shared(b, to, o, pos + 1, b[pos]);
            } else if starts_number(b[pos], dialect) {
                number_is_shared(b, to, o, pos, dialect);
            } else {
                literal_is_shared(b, to, o, pos, literal_text(b[pos]), dialect);
            }
        }
    }
}

proof fn member_is_shared(b: Seq<u8>, to: int, o: Seq<u8>, pos: int, dialect: Dialect)
    requires
        shares(b, to, o),
        0 <= pos <= b.len(),
    ensures
        member_value_at(b, pos, Check::Locate, dialect) matches Ok(v) ==> (v < to ==> member_value_at(
            o,
            pos,
            Check::Locate,
            dialect,
        ) == Ok::<int, Error>(v)),
{
    reveal(shares);
    reveal(member_value_at);
    key_end_bounds(b, pos, Check::Locate, dialect);
    if let Ok(end) = key_end(b, pos, Check::Locate, dialect) {
        colon_bounds(b, end, dialect);
        if let Ok(v) = member_value_at(b, pos, Check::Locate, dialect) {
            if v < to {
                byte_is_shared(b, to, o, pos);
                colon_is_local(b, 0, to, o, 0, end, dialect);
                if opens_string(b[pos], dialect) {
                    quote_is_shared(b, to, o, pos + 1, b[pos]);
                } else {
                    run_is_shared::<Ident>(b, to, o, pos);
                }
            }
        }
    }
}

/// A located value is the same in both texts.
proof fn value_is_shared(b: Seq<u8>, to: int, o: Seq<u8>, pos: int, max: u32, dialect: Dialect, depth: int)
    requires
        shares(b, to, o),
        0 <= pos <= b.len(),
    ensures
        value(b, pos, locating(max, dialect), depth) matches Ok((e, n)) ==> (settled(e, to, o) ==> value(
            o,
            pos,
            locating(max, dialect),
            depth,
        ) == Ok::<(int, nat), Error>((e, n))),
    decreases b.len() - pos, 0nat,
{
    value_bounds(b, pos, locating(max, dialect), depth);
    if pos < b.len() && (b[pos] == LBRACKET || b[pos] == LBRACE) {
        items_are_shared(b, to, o, pos + 1, max, dialect, depth + 1, true);
        members_are_shared(b, to, o, pos + 1, max, dialect, depth + 1, true);
        if pos < to {
            byte_is_shared(b, to, o, pos);
        }
    } else {
        scalar_is_shared(b, to, o, pos, dialect);
        if pos < to {
            byte_is_shared(b, to, o, pos);
        }
    }
}

proof fn items_are_shared(
    b: Seq<u8>,
    to: int,
    o: Seq<u8>,
    pos: int,
    max: u32,
    dialect: Dialect,
    depth: int,
    first: bool,
)
    requires
        shares(b, to, o),
        0 <= pos <= b.len(),
    ensures
        items(b, pos, locating(max, dialect), depth, first) matches Ok((e, n)) ==> pos < e && (settled(e, to, o) ==> items(
            o,
            pos,
            locating(max, dialect),
            depth,
            first,
        ) == Ok::<(int, nat), Error>((e, n))),
    decreases b.len() - pos, 1nat,
{
    let ctx = locating(max, dialect);
    next_at_bounds(b, pos, dialect, RBRACKET, first);
    next_is_shared(b, to, o, pos, dialect, RBRACKET, first);
    byte_is_shared(b, to, o, pos);
    match next_at(b, pos, dialect, RBRACKET, first) {
        Ok(NextAt::Item(p)) => {
            value_bounds(b, p, ctx, depth);
            value_is_shared(b, to, o, p, max, dialect, depth);
            if let Ok((e, _)) = value(b, p, ctx, depth) {
                items_are_shared(b, to, o, e, max, dialect, depth, false);
            }
        },
        _ => {},
    }
}

proof fn members_are_shared(
    b: Seq<u8>,
    to: int,
    o: Seq<u8>,
    pos: int,
    max: u32,
    dialect: Dialect,
    depth: int,
    first: bool,
)
    requires
        shares(b, to, o),
        0 <= pos <= b.len(),
    ensures
        members(b, pos, locating(max, dialect), depth, first) matches Ok((e, n)) ==> pos < e && (settled(e, to, o) ==> members(
            o,
            pos,
            locating(max, dialect),
            depth,
            first,
        ) == Ok::<(int, nat), Error>((e, n))),
    decreases b.len() - pos, 1nat,
{
    let ctx = locating(max, dialect);
    next_at_bounds(b, pos, dialect, RBRACE, first);
    next_is_shared(b, to, o, pos, dialect, RBRACE, first);
    byte_is_shared(b, to, o, pos);
    match next_at(b, pos, dialect, RBRACE, first) {
        Ok(NextAt::Item(p)) => {
            member_value_at_bounds(b, p, Check::Locate, dialect);
            member_is_shared(b, to, o, p, dialect);
            if let Ok(v) = member_value_at(b, p, Check::Locate, dialect) {
                value_bounds(b, v, ctx, depth);
                value_is_shared(b, to, o, v, max, dialect, depth);
                if let Ok((e, _)) = value(b, v, ctx, depth) {
                    members_are_shared(b, to, o, e, max, dialect, depth, false);
                }
            }
        },
        _ => {},
    }
}

/// A value behind trivia is the same in both texts.
proof fn next_value_is_shared(b: Seq<u8>, to: int, o: Seq<u8>, pos: int, max: u32, dialect: Dialect)
    requires
        shares(b, to, o),
        0 <= pos <= to,
    ensures
        value_past_trivia(b, pos, locating(max, dialect), 0) matches Ok((e, n)) ==> pos < e <= b.len() && (settled(e, to, o)
            ==> value_past_trivia(o, pos, locating(max, dialect), 0) == Ok::<(int, nat), Error>((e, n))),
{
    byte_is_shared(b, to, o, pos);
    trivia_end_bounds(b, pos, dialect);
    trivia_is_shared(b, to, o, pos, dialect);
    if let Ok(p) = trivia_end(b, pos, dialect) {
        value_bounds(b, p, locating(max, dialect), 0);
        value_is_shared(b, to, o, p, max, dialect, 0);
    }
}

proof fn longer_shares(b: Seq<u8>, c: Seq<u8>)
    requires
        b.len() <= c.len(),
        c.take(b.len() as int) == b,
    ensures
        shares(b, b.len() as int, c),
{
    reveal(shares);
    assert forall|i: int| 0 <= i < b.len() implies #[trigger] b[i] == c[i + 0] by {
        assert(c.take(b.len() as int)[i] == c[i]);
    }
}

proof fn prefix_shares(b: Seq<u8>, n: int)
    requires
        0 <= n <= b.len(),
    ensures
        shares(b, n, b.take(n)),
{
    reveal(shares);
}

/// Whether one list starts with another.
pub open spec fn starts_with(all: Seq<ByteRange>, some: Seq<ByteRange>) -> bool {
    some.len() <= all.len() && all.take(some.len() as int) == some
}

/// Where the value behind the trivia at `pos` ends.
#[verifier::opaque]
spec fn ends(b: Seq<u8>, pos: int, max: u32, dialect: Dialect) -> Result<int, Error> {
    end_at(value_past_trivia(b, pos, locating(max, dialect), 0))
}

proof fn end_is_shared(b: Seq<u8>, to: int, o: Seq<u8>, pos: int, max: u32, dialect: Dialect)
    requires
        shares(b, to, o),
        0 <= pos <= to,
    ensures
        ends(b, pos, max, dialect) matches Ok(e) ==> pos < e <= b.len() && (settled(e, to, o) ==> ends(
            o,
            pos,
            max,
            dialect,
        ) == Ok::<int, Error>(e)),
{
    reveal(ends);
    next_value_is_shared(b, to, o, pos, max, dialect);
}

/// A drained value is followed by a byte.
proof fn drained_step(b: Seq<u8>, pos: int, max: u32, dialect: Dialect) -> (r: (int, int))
    requires
        0 <= pos <= b.len(),
        prefix_from(b, pos, pos, max, dialect) != pos,
    ensures
        ends(b, pos, max, dialect) == Ok::<int, Error>(r.0),
        trivia_end(b, r.0, dialect) == Ok::<int, Error>(r.1),
        pos < r.0 <= r.1 <= b.len(),
        r.0 < b.len(),
        prefix_from(b, pos, pos, max, dialect) == prefix_from(b, r.1, r.1, max, dialect),
{
    reveal(ends);
    prefix_shares(b, b.len() as int);
    end_is_shared(b, b.len() as int, b.take(b.len() as int), pos, max, dialect);
    let e = ends(b, pos, max, dialect)->Ok_0;
    trivia_end_bounds(b, e, dialect);
    (e, trivia_end(b, e, dialect)->Ok_0)
}

proof fn values_step(t: Seq<u8>, pos: int, e: int, next: int, max: u32, dialect: Dialect)
    requires
        0 <= pos < next <= t.len(),
        ends(t, pos, max, dialect) == Ok::<int, Error>(e),
        trivia_end(t, e, dialect) == Ok::<int, Error>(next),
        values_from(t, next, max, dialect) is Ok,
    ensures
        values_from(t, pos, max, dialect) == Ok::<Seq<ByteRange>, Error>(
            seq![span(pos, e)] + values_from(t, next, max, dialect)->Ok_0,
        ),
{
    reveal(ends);
}

proof fn found_step(c: Seq<u8>, pos: int, e: int, max: u32, dialect: Dialect)
    requires
        0 <= pos < c.len(),
        ends(c, pos, max, dialect) == Ok::<int, Error>(e),
    ensures
        starts_with(split_from(c, pos, max, dialect).0, seq![span(pos, e)]),
        trivia_end(c, e, dialect) matches Ok(next) ==> (pos < next <= c.len() ==> split_from(c, pos, max, dialect).0
            == seq![span(pos, e)] + split_from(c, next, max, dialect).0),
{
    reveal(ends);
    let found = split_from(c, pos, max, dialect).0;
    assert(found.take(1) =~= seq![span(pos, e)]);
}

/// The drained values from `pos` on.
proof fn drained_from(b: Seq<u8>, c: Seq<u8>, pos: int, max: u32, dialect: Dialect)
    requires
        0 <= pos <= b.len() <= c.len(),
        c.take(b.len() as int) == b,
    ensures
        pos <= prefix_from(b, pos, pos, max, dialect) <= b.len(),
        values_from(b.take(prefix_from(b, pos, pos, max, dialect)), pos, max, dialect) is Ok,
        starts_with(
            split_from(c, pos, max, dialect).0,
            values_from(b.take(prefix_from(b, pos, pos, max, dialect)), pos, max, dialect)->Ok_0,
        ),
    decreases b.len() - pos,
{
    let n = prefix_from(b, pos, pos, max, dialect);
    let len = b.len() as int;
    if n != pos {
        let (e, next) = drained_step(b, pos, max, dialect);
        drained_from(b, c, next, max, dialect);
        let t = b.take(n);
        longer_shares(b, c);
        prefix_shares(b, n);
        end_is_shared(b, len, c, pos, max, dialect);
        end_is_shared(b, n, t, pos, max, dialect);
        trivia_is_shared(b, n, t, e, dialect);
        trivia_is_shared(b, len, c, e, dialect);
        values_step(t, pos, e, next, max, dialect);
        found_step(c, pos, e, max, dialect);
        let rest = values_from(t, next, max, dialect)->Ok_0;
        let here = seq![span(pos, e)];
        let found = split_from(c, pos, max, dialect).0;
        if next < len {
            let more = split_from(c, next, max, dialect).0;
            assert(found.take(rest.len() as int + 1) =~= here + more.take(rest.len() as int));
        } else {
            assert(here + rest =~= here);
        }
    } else {
        assert(split_from(c, pos, max, dialect).0.take(0) =~= Seq::empty());
    }
}

/// The prefix that a feeder drains holds complete values only, and no later byte
/// changes one of them: they are the first values of every longer source.
pub proof fn drained_values_are_final(b: Seq<u8>, c: Seq<u8>, max: u32, dialect: Dialect)
    requires
        b.len() <= c.len(),
        c.take(b.len() as int) == b,
    ensures
        0 <= adjacent_prefix(b, max, dialect) <= b.len(),
        adjacent(b.take(adjacent_prefix(b, max, dialect)), max, dialect) is Ok,
        starts_with(
            split(c, max, dialect).0,
            adjacent(b.take(adjacent_prefix(b, max, dialect)), max, dialect)->Ok_0,
        ),
        adjacent(c, max, dialect) matches Ok(all) ==> starts_with(
            all,
            adjacent(b.take(adjacent_prefix(b, max, dialect)), max, dialect)->Ok_0,
        ),
{
    let start = text_start(b);
    let len = b.len() as int;
    let n = adjacent_prefix(b, max, dialect);
    let t = b.take(n);
    longer_shares(b, c);
    trivia_end_bounds(b, start, dialect);
    trivia_end_bounds(c, text_start(c), dialect);
    if let Ok(all) = adjacent(c, max, dialect) {
        split_agrees_with_adjacent(c, trivia_end(c, text_start(c), dialect)->Ok_0, max, dialect);
    }
    match trivia_end(b, start, dialect) {
        Err(_) => {
            trivia_end_bounds(t, 0, dialect);
            assert(adjacent(t, max, dialect) == Ok::<Seq<ByteRange>, Error>(Seq::empty()));
            assert(split(c, max, dialect).0.take(0) =~= Seq::empty());
        },
        Ok(pos) => {
            drained_from(b, c, pos, max, dialect);
            assert(text_start(t) == start);
            prefix_shares(b, n);
            trivia_is_shared(b, n, t, start, dialect);
            assert(adjacent(t, max, dialect) == values_from(t, pos, max, dialect));
            if n > pos {
                let (e, next) = drained_step(b, pos, max, dialect);
                trivia_is_shared(b, len, c, start, dialect);
                byte_is_shared(b, len, c, 0);
                byte_is_shared(b, len, c, 1);
                byte_is_shared(b, len, c, 2);
                assert(text_start(c) == start);
            } else {
                assert(values_from(t, pos, max, dialect) == Ok::<Seq<ByteRange>, Error>(Seq::empty()));
                assert(split(c, max, dialect).0.take(0) =~= Seq::empty());
            }
        },
    }
}

} // verus!
