//! A cut of an array body keeps its place over everything that a scan can pass: it names
//! the array's closer, and begins each part where an element does.

use vstd::prelude::*;

use crate::ascii::{APOSTROPHE, BACKSLASH, COMMA, LBRACE, LBRACKET, QUOTE, RBRACE, RBRACKET, SLASH, STAR};
use crate::dialect::Dialect;
use crate::error::Error;
use crate::laws::cuts::{
    balanced_body, clean_body_is_cut, closed_stays, level, level_splits, level_step, opened_body, Level,
};
use crate::laws::ends::{locating, reach};
use crate::laws::folds::{items_before, items_from};
use crate::lex::number::{after_sign, hex_prefix, is_non_finite_mark, located_number_end, located_number_end_bounds, NumberShape};
use crate::lex::skip::{
    items, items_bounds, literal_text, member_value_at, member_value_at_bounds, members, members_bounds, next_at,
    next_at_bounds, scalar, spelling_end, starts_number, value, value_bounds, Check, Ctx, NextAt,
};
use crate::lex::stop_sets::{
    is_space, run_end, run_end_facts, HexDigits, Ident, Letters, NdjsonFrame, StopSet, Ws,
};
use crate::lex::string::{closing_quote, closing_quote_bounds, located_string_end, opens_string};
use crate::lex::ws::{
    block_close, block_close_bounds, comment_end, comment_end_bounds, trivia_end, trivia_end_bounds,
    trivia_skips_space,
};
use crate::lex::{key_end, key_end_bounds};
use crate::shard::cut::{serial_elements, trimmed_end, with_element, ScanState};
use crate::value::ByteRange;
use crate::walk::model::WalkCtx;

verus! {

/// Whether a byte outside strings and comments neither opens nor closes nor
/// separates anything.
pub(crate) open spec fn quiet(byte: u8) -> bool {
    byte != QUOTE && byte != APOSTROPHE && byte != SLASH && byte != LBRACE && byte != LBRACKET && byte != RBRACE && byte
        != RBRACKET && byte != COMMA
}

/// Whether a level is open and outside strings and comments.
pub(crate) open spec fn ready(m: Level) -> bool {
    m.state == ScanState::Normal && m.closed is None && m.sound && m.depth >= 1
}

pub(crate) proof fn quiet_run(b: Seq<u8>, pos: int, end: int, m: Level)
    requires
        ready(m),
        0 <= pos <= end <= b.len(),
        forall|i: int| pos <= i < end ==> quiet(#[trigger] b[i]),
    ensures
        level(b, pos, end, m) == m,
    decreases end - pos,
{
    if pos < end {
        assert(quiet(b[pos]));
        assert(level_step(b, pos, m) == m);
        quiet_run(b, pos + 1, end, m);
    }
}

/// A comment is passed over with the line break that ends it.
proof fn line_run(b: Seq<u8>, pos: int, end: int, m: Level)
    requires
        m.state == ScanState::LineComment,
        m.closed is None,
        m.sound,
        m.depth >= 1,
        0 <= pos <= end < b.len(),
        forall|i: int| pos <= i < end ==> !NdjsonFrame::stops(#[trigger] b[i]),
        NdjsonFrame::stops(b[end]),
    ensures
        level(b, pos, end + 1, m) == (Level { state: ScanState::Normal, ..m }),
    decreases end - pos,
{
    if pos < end {
        assert(!NdjsonFrame::stops(b[pos]));
        assert(level_step(b, pos, m) == m);
        line_run(b, pos + 1, end, m);
    } else {
        assert(level_step(b, pos, m) == (Level { state: ScanState::Normal, ..m }));
        assert(level(b, pos + 1, end + 1, level_step(b, pos, m)) == level_step(b, pos, m));
    }
}

/// A block comment is passed over up to its close.
proof fn block_run(b: Seq<u8>, pos: int, end: int, m: Level)
    requires
        m.state is BlockComment,
        m.state->star ==> pos > 0 && b[pos - 1] == STAR && b[pos] != SLASH,
        m.closed is None,
        m.sound,
        m.depth >= 1,
        0 <= pos,
        block_close(b, pos) == Some(end),
    ensures
        level(b, pos, end, m) == (Level { state: ScanState::Normal, ..m }),
    decreases end - pos,
{
    block_close_bounds(b, pos);
    let next = level_step(b, pos, m);
    assert(next == (Level { state: ScanState::BlockComment { star: b[pos] == STAR }, ..m }));
    if b[pos] == STAR && b[pos + 1] == SLASH {
        let last = level_step(b, pos + 1, next);
        assert(last == (Level { state: ScanState::Normal, ..m }));
        assert(level(b, pos + 1, end, next) == level(b, pos + 2, end, last));
    } else {
        block_close_bounds(b, pos + 1);
        block_run(b, pos + 1, end, next);
    }
}

/// Trivia changes nothing.
pub(crate) proof fn trivia_run(b: Seq<u8>, pos: int, end: int, dialect: Dialect, m: Level)
    requires
        ready(m),
        0 <= pos <= b.len(),
        trivia_end(b, pos, dialect) == Ok::<int, Error>(end),
        end < b.len(),
    ensures
        level(b, pos, end, m) == m,
    decreases b.len() - pos,
{
    run_end_facts::<Ws>(b, pos);
    trivia_end_bounds(b, pos, dialect);
    let p = run_end::<Ws>(b, pos);
    assert forall|i: int| pos <= i < p implies quiet(#[trigger] b[i]) by {
        assert(!Ws::stops(b[i]));
    }
    quiet_run(b, pos, p, m);
    if dialect.comments() && p < b.len() && b[p] == SLASH {
        comment_end_bounds(b, p);
        let ce = comment_end(b, p)->Ok_0;
        trivia_end_bounds(b, ce, dialect);
        let slash = level_step(b, p, m);
        assert(slash == (Level { state: ScanState::Slash, ..m }));
        let inner = level_step(b, p + 1, slash);
        if b[p + 1] == SLASH {
            run_end_facts::<NdjsonFrame>(b, p + 2);
            assert(inner == (Level { state: ScanState::LineComment, ..m }));
            if ce < b.len() {
                line_run(b, p + 2, ce, inner);
                let r = run_end::<Ws>(b, ce + 1);
                assert(run_end::<Ws>(b, ce) == r);
                trivia_skips_space(b, ce, r, dialect);
                trivia_skips_space(b, ce + 1, r, dialect);
                trivia_end_bounds(b, ce + 1, dialect);
                trivia_run(b, ce + 1, end, dialect, m);
                level_splits(b, p + 2, ce + 1, end, inner);
            }
        } else {
            assert(inner == (Level { state: ScanState::BlockComment { star: false }, ..m }));
            block_run(b, p + 2, ce, inner);
            trivia_run(b, ce, end, dialect, m);
            level_splits(b, p + 2, ce, end, inner);
        }
        assert(level(b, p, end, m) == level(b, p + 1, end, slash));
        assert(level(b, p + 1, end, slash) == level(b, p + 2, end, inner));
    }
    level_splits(b, pos, p, end, m);
}

/// The inside of a string changes nothing.
pub(crate) proof fn quoted_run(b: Seq<u8>, pos: int, end: int, quote: u8, m: Level)
    requires
        m.state == (ScanState::Quoted { quote, escaped: false }),
        quote == QUOTE || quote == APOSTROPHE,
        m.closed is None,
        m.sound,
        m.depth >= 1,
        0 <= pos <= b.len(),
        closing_quote(b, pos, quote) == Some(end),
    ensures
        level(b, pos, end, m) == (Level { state: ScanState::Normal, ..m }),
    decreases end - pos,
{
    closing_quote_bounds(b, pos, quote);
    let next = level_step(b, pos, m);
    if b[pos] == quote {
        assert(next == (Level { state: ScanState::Normal, ..m }));
        assert(level(b, pos + 1, end, next) == next);
    } else if b[pos] == BACKSLASH {
        closing_quote_bounds(b, pos + 2, quote);
        assert(next == (Level { state: ScanState::Quoted { quote, escaped: true }, ..m }));
        let after = level_step(b, pos + 1, next);
        assert(after == m);
        quoted_run(b, pos + 2, end, quote, m);
        assert(level(b, pos + 1, end, next) == level(b, pos + 2, end, after));
    } else {
        closing_quote_bounds(b, pos + 1, quote);
        assert(next == m);
        quoted_run(b, pos + 1, end, quote, m);
    }
}

/// A string changes nothing.
proof fn string_run(b: Seq<u8>, pos: int, dialect: Dialect, m: Level)
    requires
        ready(m),
        0 <= pos < b.len(),
        opens_string(b[pos], dialect),
        located_string_end(b, pos, dialect) is Ok,
    ensures
        ({
            let e = located_string_end(b, pos, dialect)->Ok_0;
            pos + 1 < e <= b.len() && level(b, pos, e, m) == m
        }),
{
    let quote = b[pos];
    let end = located_string_end(b, pos, dialect)->Ok_0;
    closing_quote_bounds(b, pos + 1, quote);
    let inner = level_step(b, pos, m);
    assert(inner == (Level { state: ScanState::Quoted { quote, escaped: false }, ..m }));
    quoted_run(b, pos + 1, end, quote, inner);
}

/// A number changes nothing.
proof fn number_run(b: Seq<u8>, pos: int, dialect: Dialect, m: Level)
    requires
        ready(m),
        0 <= pos < b.len(),
        starts_number(b[pos], dialect),
        located_number_end(b, pos, dialect) is Ok,
    ensures
        ({
            let e = located_number_end(b, pos, dialect)->Ok_0;
            pos < e <= b.len() && level(b, pos, e, m) == m
        }),
{
    located_number_end_bounds(b, pos, dialect);
    let e = located_number_end(b, pos, dialect)->Ok_0;
    let p = after_sign(b, pos);
    run_end_facts::<Letters>(b, p);
    run_end_facts::<NumberShape>(b, p);
    if hex_prefix(b, p) {
        run_end_facts::<HexDigits>(b, p + 2);
    }
    assert forall|i: int| pos <= i < e implies quiet(#[trigger] b[i]) by {
        if i >= p {
            if dialect == Dialect::Json5 && is_non_finite_mark(b[p]) {
                assert(!Letters::stops(b[i]));
            } else if dialect == Dialect::Json5 && hex_prefix(b, p) {
                if i >= p + 2 {
                    assert(!HexDigits::stops(b[i]));
                }
            } else {
                assert(!NumberShape::stops(b[i]));
            }
        }
    }
    quiet_run(b, pos, e, m);
}

/// A scalar changes nothing.
proof fn scalar_run(b: Seq<u8>, pos: int, dialect: Dialect, m: Level)
    requires
        ready(m),
        0 <= pos < b.len(),
        scalar(b, pos, Check::Locate, dialect) is Ok,
    ensures
        ({
            let e = scalar(b, pos, Check::Locate, dialect)->Ok_0;
            pos < e <= b.len() && level(b, pos, e, m) == m
        }),
{
    if opens_string(b[pos], dialect) {
        assert(scalar(b, pos, Check::Locate, dialect) == located_string_end(b, pos, dialect));
        string_run(b, pos, dialect, m);
    } else if starts_number(b[pos], dialect) {
        assert(scalar(b, pos, Check::Locate, dialect) == located_number_end(b, pos, dialect));
        number_run(b, pos, dialect, m);
    } else {
        literal_run(b, pos, dialect, m);
    }
}

/// A literal changes nothing.
proof fn literal_run(b: Seq<u8>, pos: int, dialect: Dialect, m: Level)
    requires
        ready(m),
        0 <= pos < b.len(),
        spelling_end(b, pos, literal_text(b[pos]), dialect) is Ok,
    ensures
        ({
            let e = spelling_end(b, pos, literal_text(b[pos]), dialect)->Ok_0;
            pos < e <= b.len() && level(b, pos, e, m) == m
        }),
{
    let text = literal_text(b[pos]);
    let e = pos + text.len();
    assert(forall|i: int| 0 <= i < text.len() ==> quiet(#[trigger] text[i]));
    assert forall|i: int| pos <= i < e implies quiet(#[trigger] b[i]) by {
        assert(b.subrange(pos, e)[i - pos] == text[i - pos]);
        assert(quiet(text[i - pos]));
    }
    quiet_run(b, pos, e, m);
}

/// A key and its colon change nothing.
proof fn key_run(b: Seq<u8>, p: int, dialect: Dialect, m: Level)
    requires
        ready(m),
        0 <= p < b.len(),
        member_value_at(b, p, Check::Locate, dialect) matches Ok(v) && v < b.len(),
    ensures
        level(b, p, member_value_at(b, p, Check::Locate, dialect)->Ok_0, m) == m,
{
    reveal(member_value_at);
    key_end_bounds(b, p, Check::Locate, dialect);
    let end = key_end(b, p, Check::Locate, dialect)->Ok_0;
    let v = member_value_at(b, p, Check::Locate, dialect)->Ok_0;
    trivia_end_bounds(b, end, dialect);
    let c = trivia_end(b, end, dialect)->Ok_0;
    trivia_end_bounds(b, c + 1, dialect);
    if opens_string(b[p], dialect) {
        string_run(b, p, dialect, m);
    } else {
        run_end_facts::<Ident>(b, p);
        assert forall|i: int| p <= i < end implies quiet(#[trigger] b[i]) by {
            assert(!Ident::stops(b[i]));
        }
        quiet_run(b, p, end, m);
    }
    trivia_run(b, end, c, dialect, m);
    quiet_run(b, c, c + 1, m);
    trivia_run(b, c + 1, v, dialect, m);
    level_splits(b, p, end, v, m);
    level_splits(b, end, c, v, m);
    level_splits(b, c, c + 1, v, m);
}

/// The way to the next child of a container deeper than the array.
pub(crate) proof fn next_run(b: Seq<u8>, pos: int, dialect: Dialect, closer: u8, first: bool, m: Level)
    requires
        ready(m),
        m.depth >= 2,
        0 <= pos <= b.len(),
        closer == RBRACKET || closer == RBRACE,
    ensures
        match next_at(b, pos, dialect, closer, first) {
            Ok(NextAt::Close(e)) => pos < e <= b.len() && b[e - 1] == closer && level(b, pos, e, m) == (Level {
                depth: m.depth - 1,
                ..m
            }),
            Ok(NextAt::Item(p)) => p < b.len() ==> level(b, pos, p, m) == m,
            Err(_) => true,
        },
{
    reveal(next_at);
    next_at_bounds(b, pos, dialect, closer, first);
    trivia_end_bounds(b, pos, dialect);
    if let Ok(p) = trivia_end(b, pos, dialect) {
        if p < b.len() {
            trivia_run(b, pos, p, dialect, m);
            let up = Level { depth: m.depth - 1, ..m };
            if b[p] == closer {
                assert(level_step(b, p, m) == up);
                assert(level(b, p, p + 1, m) == level(b, p + 1, p + 1, up));
                level_splits(b, pos, p, p + 1, m);
            } else if !first && b[p] == COMMA {
                trivia_end_bounds(b, p + 1, dialect);
                if let Ok(q) = trivia_end(b, p + 1, dialect) {
                    if q < b.len() {
                        assert(level_step(b, p, m) == m);
                        trivia_run(b, p + 1, q, dialect, m);
                        level_splits(b, pos, p, q, m);
                        assert(level(b, p, q, m) == level(b, p + 1, q, m));
                        if b[q] == closer {
                            assert(level_step(b, q, m) == up);
                            assert(level(b, q, q + 1, m) == level(b, q + 1, q + 1, up));
                            level_splits(b, pos, q, q + 1, m);
                        }
                    }
                }
            }
        }
    }
}

/// A value changes nothing.
proof fn value_run(b: Seq<u8>, p: int, ctx: Ctx, depth: int, m: Level)
    requires
        ready(m),
        0 <= p < b.len(),
        ctx.check == Check::Locate,
        value(b, p, ctx, depth) is Ok,
    ensures
        ({
            let e = value(b, p, ctx, depth)->Ok_0.0;
            p < e <= b.len() && level(b, p, e, m) == m
        }),
    decreases b.len() - p, 0nat,
{
    value_bounds(b, p, ctx, depth);
    let inner = Level { depth: m.depth + 1, ..m };
    if b[p] == LBRACKET {
        assert(level_step(b, p, m) == inner);
        items_run(b, p + 1, ctx, depth + 1, true, inner);
    } else if b[p] == LBRACE {
        assert(level_step(b, p, m) == inner);
        members_run(b, p + 1, ctx, depth + 1, true, inner);
    } else {
        scalar_run(b, p, ctx.dialect, m);
    }
}

proof fn items_run(b: Seq<u8>, pos: int, ctx: Ctx, depth: int, first: bool, m: Level)
    requires
        ready(m),
        m.depth >= 2,
        0 <= pos <= b.len(),
        ctx.check == Check::Locate,
        items(b, pos, ctx, depth, first) is Ok,
    ensures
        ({
            let e = items(b, pos, ctx, depth, first)->Ok_0.0;
            pos < e <= b.len() && level(b, pos, e, m) == (Level { depth: m.depth - 1, ..m })
        }),
    decreases b.len() - pos, 1nat,
{
    items_bounds(b, pos, ctx, depth, first);
    next_at_bounds(b, pos, ctx.dialect, RBRACKET, first);
    next_run(b, pos, ctx.dialect, RBRACKET, first, m);
    let e = items(b, pos, ctx, depth, first)->Ok_0.0;
    if let Ok(NextAt::Item(p)) = next_at(b, pos, ctx.dialect, RBRACKET, first) {
        value_bounds(b, p, ctx, depth);
        let x = value(b, p, ctx, depth)->Ok_0.0;
        value_run(b, p, ctx, depth, m);
        items_run(b, x, ctx, depth, false, m);
        level_splits(b, pos, p, e, m);
        level_splits(b, p, x, e, m);
    }
}

proof fn members_run(b: Seq<u8>, pos: int, ctx: Ctx, depth: int, first: bool, m: Level)
    requires
        ready(m),
        m.depth >= 2,
        0 <= pos <= b.len(),
        ctx.check == Check::Locate,
        members(b, pos, ctx, depth, first) is Ok,
    ensures
        ({
            let e = members(b, pos, ctx, depth, first)->Ok_0.0;
            pos < e <= b.len() && level(b, pos, e, m) == (Level { depth: m.depth - 1, ..m })
        }),
    decreases b.len() - pos, 1nat,
{
    members_bounds(b, pos, ctx, depth, first);
    next_at_bounds(b, pos, ctx.dialect, RBRACE, first);
    next_run(b, pos, ctx.dialect, RBRACE, first, m);
    let e = members(b, pos, ctx, depth, first)->Ok_0.0;
    if let Ok(NextAt::Item(p)) = next_at(b, pos, ctx.dialect, RBRACE, first) {
        member_value_at_bounds(b, p, ctx.check, ctx.dialect);
        let v = member_value_at(b, p, ctx.check, ctx.dialect)->Ok_0;
        value_bounds(b, v, ctx, depth);
        let x = value(b, v, ctx, depth)->Ok_0.0;
        key_run(b, p, ctx.dialect, m);
        value_run(b, v, ctx, depth, m);
        members_run(b, x, ctx, depth, false, m);
        level_splits(b, pos, p, e, m);
        level_splits(b, p, v, e, m);
        level_splits(b, v, x, e, m);
    }
}

/// Where the array closes whose elements go on at `pos`; none when they do not read.
pub open spec fn closes_at(b: Seq<u8>, pos: int, ctx: WalkCtx, first: bool) -> Option<int>
    decreases b.len() - pos,
{
    match next_at(b, pos, ctx.dialect, RBRACKET, first) {
        Ok(NextAt::Close(c)) => Some(c),
        Ok(NextAt::Item(p)) => match reach(b, p, ctx) {
            Ok(e) => if pos < e <= b.len() {
                closes_at(b, e, ctx, false)
            } else {
                None
            },
            Err(_) => None,
        },
        Err(_) => None,
    }
}

/// Whether what comes next at `s`, as the first of a body, is what comes next at `pos`.
pub open spec fn goes_on_at(b: Seq<u8>, pos: int, first: bool, s: int, ctx: WalkCtx) -> bool {
    &&& pos <= s
    &&& next_at(b, s, ctx.dialect, RBRACKET, true) == next_at(b, pos, ctx.dialect, RBRACKET, first)
    &&& match next_at(b, pos, ctx.dialect, RBRACKET, first) {
        Ok(NextAt::Item(p)) => s <= p,
        Ok(NextAt::Close(c)) => s < c,
        Err(_) => false,
    }
}

/// Whether the elements from `pos` on can be read up to `s`, and from `s` on as the first
/// of a body.
pub open spec fn resumes(b: Seq<u8>, pos: int, first: bool, s: int, ctx: WalkCtx) -> bool
    decreases b.len() - pos,
{
    ||| goes_on_at(b, pos, first, s, ctx)
    ||| next_at(b, pos, ctx.dialect, RBRACKET, first) matches Ok(NextAt::Item(p)) && p < s && (reach(b, p, ctx) matches Ok(e)
        && pos < e <= b.len() && e <= s && resumes(b, e, false, s, ctx))
}

/// A run that begins with something else than whitespace is not trimmed away.
proof fn kept_run(b: Seq<u8>, s: int, end: int)
    requires
        0 <= s < end <= b.len(),
        !is_space(b[s]),
    ensures
        s < trimmed_end(b, s, end) <= end,
    decreases end - s,
{
    if is_space(b[end - 1]) {
        kept_run(b, s, end - 1);
    }
}

/// What is cut between two places is named when it begins before the second.
proof fn cut_between(b: Seq<u8>, out: Seq<ByteRange>, from: int, to: int)
    requires
        0 <= from <= to < b.len() <= usize::MAX,
        !is_space(b[to]),
    ensures
        from <= run_end::<Ws>(b, from) <= to,
        run_end::<Ws>(b, from) < to ==> ({
            let cut = with_element(out, b, from, to);
            cut.len() == out.len() + 1 && cut.drop_last() == out && cut.last().start == run_end::<Ws>(b, from)
        }),
        run_end::<Ws>(b, from) == to ==> with_element(out, b, from, to) == out,
{
    run_end_facts::<Ws>(b, from);
    let s = run_end::<Ws>(b, from);
    if s > to {
        assert(!Ws::stops(b[to]));
    }
    if s < to {
        assert(Ws::stops(b[s]));
        kept_run(b, s, to);
        assert(with_element(out, b, from, to).drop_last() =~= out);
    }
}

/// Spans behind the first `n`: each begins where the elements from `pos` on can go on, one
/// after the other.
spec fn begin(b: Seq<u8>, spans: Seq<ByteRange>, n: int, pos: int, first: bool, ctx: WalkCtx) -> bool {
    &&& forall|k: int| n <= k < spans.len() ==> pos <= (#[trigger] spans[k]).start && resumes(b, pos, first, spans[k].start as int, ctx)
    &&& forall|k: int, l: int| n <= k < l < spans.len() ==> (#[trigger] spans[k]).start < (#[trigger] spans[l]).start
    &&& forall|k: int|
        n <= k < spans.len() ==> items_before(b, pos, (#[trigger] spans[k]).start as int, ctx, first).len() == k - n
    &&& items_from(b, pos, ctx, first).len() <= spans.len() - n
}

/// A level at an element of the array, or before its first.
spec fn at_element(b: Seq<u8>, pos: int, first: bool, m: Level) -> bool {
    &&& ready(m)
    &&& m.depth == 1
    &&& 0 <= m.start <= pos <= b.len() <= usize::MAX
    &&& first ==> m.start == pos
    &&& !first ==> run_end::<Ws>(b, m.start) < pos
}

/// What a cut of the rest of an array body comes to.
spec fn cut_well(b: Seq<u8>, pos: int, first: bool, ctx: WalkCtx, m: Level, c: int) -> bool {
    let last = level(b, pos, c, m);
    let spans = with_element(last.out, b, last.start, c - 1);
    let n = m.out.len() as int;
    &&& pos < c <= b.len()
    &&& last.closed == Some(c - 1)
    &&& last.sound
    &&& last.clean == m.clean
    &&& first ==> n <= spans.len() && spans.take(n) == m.out && begin(b, spans, n, pos, true, ctx) && (n < spans.len()
        ==> goes_on_at(b, pos, true, spans[n].start as int, ctx))
    &&& !first ==> n < spans.len() && spans.take(n) == m.out && spans[n].start == run_end::<Ws>(b, m.start) && begin(
        b,
        spans,
        n + 1,
        pos,
        false,
        ctx,
    )
}

/// The elements of an array body are cut where they can go on.
proof fn body_run(b: Seq<u8>, pos: int, first: bool, ctx: WalkCtx, m: Level, c: int)
    requires
        at_element(b, pos, first, m),
        closes_at(b, pos, ctx, first) == Some(c),
    ensures
        cut_well(b, pos, first, ctx, m, c),
    decreases b.len() - pos, 1nat,
{
    reveal(next_at);
    next_at_bounds(b, pos, ctx.dialect, RBRACKET, first);
    trivia_end_bounds(b, pos, ctx.dialect);
    let p = trivia_end(b, pos, ctx.dialect)->Ok_0;
    trivia_run(b, pos, p, ctx.dialect, m);
    let stepped = level_step(b, p, m);
    level_splits(b, pos, p, p + 1, m);
    assert(level(b, p, p + 1, m) == level(b, p + 1, p + 1, stepped));
    if b[p] == RBRACKET {
        body_closes(b, pos, first, ctx, m, p);
    } else if first {
        element_runs(b, pos, true, ctx, m, m, p, c);
    } else {
        trivia_end_bounds(b, p + 1, ctx.dialect);
        let q = trivia_end(b, p + 1, ctx.dialect)->Ok_0;
        cut_between(b, m.out, m.start, p);
        assert(q < b.len()) by {
            if q == b.len() {
                assert(next_at(b, pos, ctx.dialect, RBRACKET, first) == Ok::<NextAt, Error>(NextAt::Item(q)));
                reveal(reach);
                value_bounds(b, q, locating(ctx), q - b.len());
            }
        }
        trivia_run(b, p + 1, q, ctx.dialect, stepped);
        level_splits(b, pos, p + 1, q, m);
        if b[q] == RBRACKET {
            trailing_comma_closes(b, pos, ctx, m, stepped, p, q);
        } else {
            element_runs(b, pos, false, ctx, m, stepped, q, c);
        }
    }
}

/// A body closes.
proof fn body_closes(b: Seq<u8>, pos: int, first: bool, ctx: WalkCtx, m: Level, p: int)
    requires
        at_element(b, pos, first, m),
        trivia_end(b, pos, ctx.dialect) == Ok::<int, Error>(p),
        pos <= p < b.len(),
        b[p] == RBRACKET,
        level(b, pos, p + 1, m) == level_step(b, p, m),
    ensures
        cut_well(b, pos, first, ctx, m, p + 1),
{
    reveal(next_at);
    let last = level_step(b, p, m);
    cut_between(b, m.out, m.start, p);
    let spans = with_element(last.out, b, last.start, p);
    let s = run_end::<Ws>(b, m.start);
    assert(spans.take(m.out.len() as int) =~= m.out);
    if first && s < p {
        trivia_skips_space(b, pos, s, ctx.dialect);
        assert(goes_on_at(b, pos, true, s, ctx));
    }
}

/// A body closes behind a comma.
proof fn trailing_comma_closes(b: Seq<u8>, pos: int, ctx: WalkCtx, m: Level, stepped: Level, p: int, q: int)
    requires
        at_element(b, pos, false, m),
        trivia_end(b, pos, ctx.dialect) == Ok::<int, Error>(p),
        trivia_end(b, p + 1, ctx.dialect) == Ok::<int, Error>(q),
        pos <= p < q < b.len(),
        b[p] == COMMA,
        b[q] == RBRACKET,
        ctx.dialect.comments(),
        stepped == level_step(b, p, m),
        level(b, pos, q, m) == stepped,
    ensures
        cut_well(b, pos, false, ctx, m, q + 1),
{
    reveal(next_at);
    let last = level_step(b, q, stepped);
    level_splits(b, pos, q, q + 1, m);
    assert(level(b, q, q + 1, stepped) == level(b, q + 1, q + 1, last));
    cut_between(b, m.out, m.start, p);
    cut_between(b, stepped.out, p + 1, q);
    let n = m.out.len() as int;
    let spans = with_element(last.out, b, last.start, q);
    assert(stepped.out == with_element(m.out, b, m.start, p));
    assert(stepped.out.take(n) =~= m.out);
    let s = run_end::<Ws>(b, p + 1);
    assert(spans.take(n) =~= m.out);
    if s < q {
        assert(spans.drop_last() == stepped.out);
        assert(spans[n] == spans.drop_last()[n]);
        trivia_skips_space(b, p + 1, s, ctx.dialect);
        assert(goes_on_at(b, pos, false, s, ctx));
    }
}

/// An element is passed, and the body goes on behind it.
proof fn element_runs(b: Seq<u8>, pos: int, first: bool, ctx: WalkCtx, m: Level, stepped: Level, p: int, c: int)
    requires
        at_element(b, pos, first, m),
        next_at(b, pos, ctx.dialect, RBRACKET, first) == Ok::<NextAt, Error>(NextAt::Item(p)),
        closes_at(b, pos, ctx, first) == Some(c),
        pos <= p < b.len(),
        b[p] != RBRACKET,
        trivia_end(b, stepped.start, ctx.dialect) == Ok::<int, Error>(p),
        level(b, pos, p, m) == stepped,
        first ==> stepped == m,
        !first ==> pos < stepped.start && ready(stepped) && stepped.depth == 1 && stepped.clean == m.clean && stepped.out.len()
            == m.out.len() + 1 && stepped.out.drop_last() == m.out && stepped.out.last().start == run_end::<Ws>(b, m.start),
    ensures
        cut_well(b, pos, first, ctx, m, c),
    decreases b.len() - pos, 0nat,
{
    let e = reach(b, p, ctx)->Ok_0;
    assert(value(b, p, locating(ctx), p - b.len()) is Ok && value(b, p, locating(ctx), p - b.len())->Ok_0.0 == e) by {
        reveal(reach);
    }
    value_run(b, p, locating(ctx), p - b.len(), stepped);
    trivia_end_bounds(b, stepped.start, ctx.dialect);
    let from = stepped.start;
    run_end_facts::<Ws>(b, from);
    let s = run_end::<Ws>(b, from);
    trivia_skips_space(b, from, s, ctx.dialect);
    assert(s <= p) by {
        trivia_end_bounds(b, s, ctx.dialect);
    }
    body_run(b, e, false, ctx, stepped, c);
    level_splits(b, pos, p, c, m);
    level_splits(b, p, e, c, stepped);
    let last = level(b, pos, c, m);
    assert(last == level(b, e, c, stepped));
    let spans = with_element(last.out, b, last.start, c - 1);
    let n = m.out.len() as int;
    let k0 = stepped.out.len() as int;
    assert(goes_on_at(b, pos, first, s, ctx)) by {
        reveal(next_at);
    }
    assert(spans.take(n) =~= m.out) by {
        assert(spans.take(k0) == stepped.out);
        assert forall|k: int| 0 <= k < n implies spans[k] == m.out[k] by {
            assert(spans.take(k0)[k] == spans[k]);
            if !first {
                assert(stepped.out.drop_last()[k] == stepped.out[k]);
            }
        }
    }
    if !first {
        assert(spans.take(k0)[n] == spans[n]);
    }
    assert forall|k: int| k0 <= k < spans.len() implies pos <= (#[trigger] spans[k]).start && resumes(
        b,
        pos,
        first,
        spans[k].start as int,
        ctx,
    ) by {
        if k > k0 {
            assert(resumes(b, e, false, spans[k].start as int, ctx));
        } else {
            assert(spans[k].start == s);
        }
    }
    assert forall|k: int| k0 <= k < spans.len() implies items_before(b, pos, (#[trigger] spans[k]).start as int, ctx, first).len() == k
        - k0 by {
        if k > k0 {
            assert(items_before(b, e, spans[k].start as int, ctx, false).len() == k - (k0 + 1));
        }
    }
}

/// Whether the spans of an array begin where its elements can go on, one after the other.
pub open spec fn spans_begin(b: Seq<u8>, start: int, spans: Seq<ByteRange>, c: int, ctx: WalkCtx) -> bool {
    &&& closes_at(b, start + 1, ctx, true) == Some(c)
    &&& c <= b.len()
    &&& forall|k: int| 0 <= k < spans.len() ==> start < (#[trigger] spans[k]).start && resumes(b, start + 1, true, spans[k].start as int, ctx)
    &&& spans.len() > 0 ==> goes_on_at(b, start + 1, true, spans[0].start as int, ctx)
    &&& forall|k: int, l: int| 0 <= k < l < spans.len() ==> (#[trigger] spans[k]).start < (#[trigger] spans[l]).start
    &&& forall|k: int|
        0 <= k < spans.len() ==> items_before(b, start + 1, (#[trigger] spans[k]).start as int, ctx, true).len() == k
    &&& items_from(b, start + 1, ctx, true).len() <= spans.len()
}

/// A cut of an array that a scan can pass ends at the array's closer, is balanced, and
/// begins each part where the elements can go on.
pub(crate) proof fn array_is_cut_to_go_on(b: Seq<u8>, start: int, ctx: WalkCtx, c: int)
    requires
        0 <= start < b.len() <= usize::MAX,
        closes_at(b, start + 1, ctx, true) == Some(c),
    ensures
        balanced_body(b, start + 1),
        start + 1 < c <= b.len(),
        serial_elements(b, start + 1) is Ok,
        serial_elements(b, start + 1)->Ok_0.1 == c,
        spans_begin(b, start, serial_elements(b, start + 1)->Ok_0.0, c, ctx),
{
    let m = opened_body(start + 1);
    body_run(b, start + 1, true, ctx, m, c);
    let last = level(b, start + 1, c, m);
    level_splits(b, start + 1, c, b.len() as int, m);
    closed_stays(b, c, b.len() as int, last);
    clean_body_is_cut(b, start + 1);
}

} // verus!
