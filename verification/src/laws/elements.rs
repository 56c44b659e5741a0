//! The cut of a valid array finds its closer and its elements.

use vstd::prelude::*;

use crate::ascii::{COMMA, DOT, LBRACE, LBRACKET, RBRACE, RBRACKET};
use crate::dialect::Dialect;
use crate::error::Error;
use crate::laws::cuts::{
    a_balanced_body_is_even, balanced_body, blocks_name_the_serial_elements, clean_body_is_cut, closed_stays, contiguous, level, level_splits, level_step,
    opened_body, Level,
};
use crate::laws::replace::opens_as;
use crate::laws::ends::ends_at_reach;
use crate::laws::folds::{items_from, items_split};
use crate::laws::forms::{no_room, unbounded};
use crate::laws::levels::{
    array_is_cut_to_go_on, closes_at, next_run, quiet, quiet_run, quoted_run, ready, trivia_run,
};
use crate::laws::local::{items_unfold, members_unfold};
use crate::laws::locate::read_string_is_located;
use crate::laws::parse::parse_agrees_with_strict_skip;
use crate::lex::number::{
    after_minus, after_sign, exponent_end, exponent_end_bounds, hex_prefix, infinity_text, is_exponent_mark,
    json5_number_end, nan_text, number_end_bounds, rfc_number_end,
};
use crate::lex::skip::{literal_text, next_at, next_at_bounds, starts_number, Check, NextAt, MAX_NESTING};
use crate::lex::stop_sets::{is_space, run_end, run_end_facts, Digits, HexDigits, Ident, StopSet, Ws};
use crate::lex::string::{closing_quote_bounds, opens_string, string_text};
use crate::lex::ws::{trivia_end, trivia_end_bounds};
use crate::lex::{key_text, key_text_end};
use crate::shard::cut::{
    element_between, serial_elements, summed_elements, trimmed_end, with_element, ScanState, SummaryModel,
};
use crate::tape::{built, built_items, built_key, built_members, built_scalar, merged, Room};
use crate::value::{span, ByteRange, Json};
use crate::walk::model::WalkCtx;

verus! {

/// A string changes nothing.
proof fn string_run(b: Seq<u8>, pos: int, dialect: Dialect, m: Level)
    requires
        ready(m),
        0 <= pos < b.len(),
        opens_string(b[pos], dialect),
        string_text(b, pos, dialect) is Ok,
    ensures
        level(b, pos, string_text(b, pos, dialect)->Ok_0.0, m) == m,
        pos + 1 < string_text(b, pos, dialect)->Ok_0.0 <= b.len(),
        !is_space(b[string_text(b, pos, dialect)->Ok_0.0 - 1]),
{
    let quote = b[pos];
    read_string_is_located(b, pos + 1, quote, dialect == Dialect::Json5);
    let end = string_text(b, pos, dialect)->Ok_0.0;
    closing_quote_bounds(b, pos + 1, quote);
    let inner = level_step(b, pos, m);
    assert(inner == (Level { state: ScanState::Quoted { quote, escaped: false }, ..m }));
    quoted_run(b, pos + 1, end, quote, inner);
}

/// Whether a byte is part of a number or a word.
spec fn plain(byte: u8) -> bool {
    quiet(byte) && !is_space(byte)
}

proof fn exponent_is_plain(b: Seq<u8>, pos: int)
    requires
        0 <= pos <= b.len(),
    ensures
        exponent_end(b, pos) matches Ok(e) ==> pos <= e <= b.len() && forall|i: int| pos <= i < e ==> plain(#[trigger] b[i]),
{
    exponent_end_bounds(b, pos);
    if pos < b.len() && is_exponent_mark(b[pos]) {
        let digits = after_sign(b, pos + 1);
        run_end_facts::<Digits>(b, digits);
        let e = run_end::<Digits>(b, digits);
        assert forall|i: int| pos <= i < e implies plain(#[trigger] b[i]) by {
            if i >= digits {
                assert(!Digits::stops(b[i]));
            }
        }
    }
}

proof fn digits_are_plain(b: Seq<u8>, pos: int)
    requires
        0 <= pos <= b.len(),
    ensures
        pos <= run_end::<Digits>(b, pos) <= b.len(),
        forall|i: int| pos <= i < run_end::<Digits>(b, pos) ==> plain(#[trigger] b[i]),
{
    run_end_facts::<Digits>(b, pos);
    assert forall|i: int| pos <= i < run_end::<Digits>(b, pos) implies plain(#[trigger] b[i]) by {
        assert(!Digits::stops(b[i]));
    }
}

proof fn rfc_number_is_plain(b: Seq<u8>, pos: int, dialect: Dialect)
    requires
        0 <= pos < b.len(),
    ensures
        rfc_number_end(b, pos, dialect) matches Ok(e) ==> forall|i: int| pos <= i < e ==> plain(#[trigger] b[i]),
{
    let p = after_minus(b, pos);
    if rfc_number_end(b, pos, dialect) is Ok {
        digits_are_plain(b, p);
        let i = run_end::<Digits>(b, p);
        exponent_is_plain(b, i);
        if i < b.len() && b[i] == DOT {
            digits_are_plain(b, i + 1);
            exponent_is_plain(b, run_end::<Digits>(b, i + 1));
        }
    }
}

proof fn word_is_plain(b: Seq<u8>, p: int, text: Seq<u8>)
    requires
        0 <= p,
        p + text.len() <= b.len(),
        b.subrange(p, p + text.len()) == text,
        forall|i: int| 0 <= i < text.len() ==> plain(#[trigger] text[i]),
    ensures
        forall|i: int| p <= i < p + text.len() ==> plain(#[trigger] b[i]),
{
    assert forall|i: int| p <= i < p + text.len() implies plain(#[trigger] b[i]) by {
        assert(b.subrange(p, p + text.len())[i - p] == b[i]);
        assert(plain(text[i - p]));
    }
}

proof fn json5_number_is_plain(b: Seq<u8>, pos: int, dialect: Dialect)
    requires
        0 <= pos < b.len(),
    ensures
        json5_number_end(b, pos, dialect) matches Ok(e) ==> forall|i: int| pos <= i < e ==> plain(#[trigger] b[i]),
{
    let p = after_sign(b, pos);
    if let Ok(e) = json5_number_end(b, pos, dialect) {
        if b[p] == 0x49 {
            word_is_plain(b, p, infinity_text());
        } else if b[p] == 0x4e {
            word_is_plain(b, p, nan_text());
        } else if hex_prefix(b, p) {
            run_end_facts::<HexDigits>(b, p + 2);
            assert forall|i: int| pos <= i < e implies plain(#[trigger] b[i]) by {
                if i >= p + 2 {
                    assert(!HexDigits::stops(b[i]));
                }
            }
        } else {
            digits_are_plain(b, p);
            let i = run_end::<Digits>(b, p);
            exponent_is_plain(b, i);
            if i < b.len() && b[i] == DOT {
                digits_are_plain(b, i + 1);
                exponent_is_plain(b, run_end::<Digits>(b, i + 1));
            }
        }
    }
}

/// A scalar changes nothing, and does not end in whitespace.
proof fn scalar_run(b: Seq<u8>, pos: int, dialect: Dialect, m: Level)
    requires
        ready(m),
        0 <= pos < b.len(),
        built_scalar(b, pos, unbounded(dialect), no_room()) is Ok,
    ensures
        ({
            let e = built_scalar(b, pos, unbounded(dialect), no_room())->Ok_0.0;
            pos < e <= b.len() && level(b, pos, e, m) == m && !is_space(b[e - 1])
        }),
{
    reveal(built_scalar);
    let e = built_scalar(b, pos, unbounded(dialect), no_room())->Ok_0.0;
    if opens_string(b[pos], dialect) {
        string_run(b, pos, dialect, m);
    } else if starts_number(b[pos], dialect) {
        number_end_bounds(b, pos, dialect);
        rfc_number_is_plain(b, pos, dialect);
        json5_number_is_plain(b, pos, dialect);
        assert(plain(b[e - 1]));
        assert forall|i: int| pos <= i < e implies quiet(#[trigger] b[i]) by {
            assert(plain(b[i]));
        }
        quiet_run(b, pos, e, m);
    } else {
        let text = literal_text(b[pos]);
        word_is_plain(b, pos, text);
        assert(plain(b[e - 1]));
        assert forall|i: int| pos <= i < e implies quiet(#[trigger] b[i]) by {
            assert(plain(b[i]));
        }
        quiet_run(b, pos, e, m);
    }
}

/// A key and its colon change nothing.
proof fn key_run(b: Seq<u8>, p: int, dialect: Dialect, m: Level)
    requires
        ready(m),
        0 <= p < b.len(),
        built_key(b, p, unbounded(dialect), no_room()) matches Ok((v, _, _)) && v < b.len(),
    ensures
        level(b, p, built_key(b, p, unbounded(dialect), no_room())->Ok_0.0, m) == m,
{
    reveal(built_key);
    key_text_end(b, p, dialect);
    let end = key_text(b, p, dialect)->Ok_0.0;
    let v = built_key(b, p, unbounded(dialect), no_room())->Ok_0.0;
    trivia_end_bounds(b, end, dialect);
    let c = trivia_end(b, end, dialect)->Ok_0;
    trivia_end_bounds(b, c + 1, dialect);
    if opens_string(b[p], dialect) {
        string_run(b, p, dialect, m);
    } else {
        run_end_facts::<Ident>(b, p);
        assert forall|i: int| p <= i < end implies quiet(#[trigger] b[i]) by {
            assert(!Ident::stops(b[i]));
        }
        quiet_run(b, p, end, m);
    }
    trivia_run(b, end, c, dialect, m);
    quiet_run(b, c, c + 1, m);
    trivia_run(b, c + 1, v, dialect, m);
    level_splits(b, p, end, v, m);
    level_splits(b, end, c, v, m);
    level_splits(b, c, c + 1, v, m);
}

/// A value changes nothing, and does not end in whitespace.
proof fn value_run(b: Seq<u8>, p: int, dialect: Dialect, depth: int, m: Level)
    requires
        ready(m),
        0 <= p < b.len(),
        built(b, p, unbounded(dialect), no_room(), depth) is Ok,
    ensures
        ({
            let e = built(b, p, unbounded(dialect), no_room(), depth)->Ok_0.0;
            p < e <= b.len() && level(b, p, e, m) == m && !is_space(b[e - 1])
        }),
    decreases b.len() - p, 0nat,
{
    parse_agrees_with_strict_skip(b, p, dialect, depth);
    let e = built(b, p, unbounded(dialect), no_room(), depth)->Ok_0.0;
    let inner = Level { depth: m.depth + 1, ..m };
    if b[p] == LBRACKET {
        assert(level_step(b, p, m) == inner);
        items_run(b, p + 1, dialect, depth + 1, Seq::empty(), inner);
    } else if b[p] == LBRACE {
        assert(level_step(b, p, m) == inner);
        members_run(b, p + 1, dialect, depth + 1, Seq::empty(), inner);
    } else {
        scalar_run(b, p, dialect, m);
    }
}

proof fn items_run(b: Seq<u8>, pos: int, dialect: Dialect, depth: int, done: Seq<Json>, m: Level)
    requires
        ready(m),
        m.depth >= 2,
        0 <= pos <= b.len(),
        built_items(b, pos, unbounded(dialect), no_room(), depth, done) is Ok,
    ensures
        ({
            let e = built_items(b, pos, unbounded(dialect), no_room(), depth, done)->Ok_0.0;
            pos < e <= b.len() && level(b, pos, e, m) == (Level { depth: m.depth - 1, ..m }) && b[e - 1] == RBRACKET
        }),
    decreases b.len() - pos, 1nat,
{
    items_unfold(b, pos, dialect, depth, done);
    next_run(b, pos, dialect, RBRACKET, done.len() == 0, m);
    let e = built_items(b, pos, unbounded(dialect), no_room(), depth, done)->Ok_0.0;
    if let Ok(NextAt::Item(p)) = next_at(b, pos, dialect, RBRACKET, done.len() == 0) {
        let (x, item, _) = built(b, p, unbounded(dialect), no_room(), depth)->Ok_0;
        value_run(b, p, dialect, depth, m);
        items_run(b, x, dialect, depth, done.push(item), m);
        level_splits(b, pos, p, e, m);
        level_splits(b, p, x, e, m);
    }
}

proof fn members_run(b: Seq<u8>, pos: int, dialect: Dialect, depth: int, done: Seq<(Seq<u8>, Json)>, m: Level)
    requires
        ready(m),
        m.depth >= 2,
        0 <= pos <= b.len(),
        built_members(b, pos, unbounded(dialect), no_room(), depth, done) is Ok,
    ensures
        ({
            let e = built_members(b, pos, unbounded(dialect), no_room(), depth, done)->Ok_0.0;
            pos < e <= b.len() && level(b, pos, e, m) == (Level { depth: m.depth - 1, ..m }) && b[e - 1] == RBRACE
        }),
    decreases b.len() - pos, 1nat,
{
    members_unfold(b, pos, dialect, depth, done);
    next_run(b, pos, dialect, RBRACE, done.len() == 0, m);
    let e = built_members(b, pos, unbounded(dialect), no_room(), depth, done)->Ok_0.0;
    if let Ok(NextAt::Item(p)) = next_at(b, pos, dialect, RBRACE, done.len() == 0) {
        let (v, key, _) = built_key(b, p, unbounded(dialect), no_room())->Ok_0;
        let (x, value, _) = built(b, v, unbounded(dialect), no_room(), depth)->Ok_0;
        key_run(b, p, dialect, m);
        value_run(b, v, dialect, depth, m);
        members_run(b, x, dialect, depth, merged(done, key, value), m);
        level_splits(b, pos, p, e, m);
        level_splits(b, p, v, e, m);
        level_splits(b, v, x, e, m);
    }
}

/// The spans of the items of an array, from `pos` on, after those in `done`.
pub open spec fn element_spans(b: Seq<u8>, pos: int, dialect: Dialect, depth: int, done: Seq<ByteRange>) -> Seq<ByteRange>
    decreases b.len() - pos,
{
    match next_at(b, pos, dialect, RBRACKET, done.len() == 0) {
        Ok(NextAt::Item(p)) => match built(b, p, unbounded(dialect), no_room(), depth) {
            Ok((e, _, _)) => if pos < e <= b.len() {
                element_spans(b, e, dialect, depth, done.push(span(p, e)))
            } else {
                done
            },
            Err(_) => done,
        },
        _ => done,
    }
}

/// Where whitespace is trimmed to.
proof fn trimmed(b: Seq<u8>, s: int, e: int, end: int)
    requires
        0 <= s <= e <= end <= b.len(),
        forall|i: int| e <= i < end ==> is_space(#[trigger] b[i]),
        s < e ==> !is_space(b[e - 1]),
    ensures
        trimmed_end(b, s, end) == e,
    decreases end - e,
{
    if e < end {
        assert(is_space(b[end - 1]));
        trimmed(b, s, e, end - 1);
    }
}

/// Whether the running element is the last of `spans`, and the others are cut.
spec fn runs(b: Seq<u8>, pos: int, spans: Seq<ByteRange>, m: Level) -> bool {
    if spans.len() == 0 {
        m.start == pos && m.out == spans
    } else {
        let last = spans.last();
        &&& m.out == spans.drop_last()
        &&& 0 <= m.start <= last.start < last.end == pos
        &&& run_end::<Ws>(b, m.start) == last.start
        &&& !is_space(b[pos - 1])
    }
}

/// What is cut at `end`, behind whitespace only, is the running element.
proof fn running_element(b: Seq<u8>, pos: int, end: int, spans: Seq<ByteRange>, m: Level)
    requires
        0 <= pos <= end < b.len() <= usize::MAX,
        runs(b, pos, spans, m),
        run_end::<Ws>(b, pos) == end,
    ensures
        with_element(m.out, b, m.start, end) == spans,
{
    run_end_facts::<Ws>(b, pos);
    assert forall|i: int| pos <= i < end implies is_space(#[trigger] b[i]) by {
        assert(!Ws::stops(b[i]));
    }
    if spans.len() == 0 {
        trimmed(b, end, end, end);
        assert(with_element(m.out, b, m.start, end) =~= spans);
    } else {
        let last = spans.last();
        trimmed(b, last.start as int, pos, end);
        assert(element_between(b, m.start, end) == Some(last));
        assert(spans.drop_last().push(last) =~= spans);
    }
}

/// The way to the array's next element or to its closer.
proof fn body_next(b: Seq<u8>, pos: int, dialect: Dialect, spans: Seq<ByteRange>, m: Level)
    requires
        ready(m),
        m.depth == 1,
        0 <= pos <= b.len() <= usize::MAX,
        dialect == Dialect::Rfc8259 ==> runs(b, pos, spans, m),
    ensures
        match next_at(b, pos, dialect, RBRACKET, spans.len() == 0) {
            Ok(NextAt::Close(e)) => ({
                let last = level(b, pos, e, m);
                &&& pos < e <= b.len()
                &&& last.closed == Some(e - 1)
                &&& last.sound
                &&& last.clean == m.clean
                &&& dialect == Dialect::Rfc8259 ==> with_element(last.out, b, last.start, e - 1) == spans
            }),
            Ok(NextAt::Item(p)) => p < b.len() ==> ({
                let next = level(b, pos, p, m);
                &&& ready(next)
                &&& next.depth == 1
                &&& next.clean == m.clean
                &&& dialect == Dialect::Rfc8259 ==> next.out == spans && 0 <= next.start <= p && run_end::<Ws>(b, next.start) == p
            }),
            Err(_) => true,
        },
{
    reveal(next_at);
    let first = spans.len() == 0;
    next_at_bounds(b, pos, dialect, RBRACKET, first);
    trivia_end_bounds(b, pos, dialect);
    if let Ok(p) = trivia_end(b, pos, dialect) {
        if p < b.len() {
            trivia_run(b, pos, p, dialect, m);
            if dialect == Dialect::Rfc8259 && (b[p] == RBRACKET || (!first && b[p] == COMMA)) {
                running_element(b, pos, p, spans, m);
            }
            let stepped = level_step(b, p, m);
            level_splits(b, pos, p, p + 1, m);
            assert(level(b, p, p + 1, m) == level(b, p + 1, p + 1, stepped));
            if b[p] == RBRACKET {
            } else if first {
                run_end_facts::<Ws>(b, pos);
            } else if b[p] == COMMA {
                trivia_end_bounds(b, p + 1, dialect);
                if let Ok(q) = trivia_end(b, p + 1, dialect) {
                    if q < b.len() {
                        run_end_facts::<Ws>(b, p + 1);
                        trivia_run(b, p + 1, q, dialect, stepped);
                        level_splits(b, pos, p + 1, q, m);
                        if b[q] == RBRACKET {
                            let last = level_step(b, q, stepped);
                            level_splits(b, pos, q, q + 1, m);
                            assert(level(b, q, q + 1, stepped) == level(b, q + 1, q + 1, last));
                        }
                    }
                }
            }
        }
    }
}

/// An array body is cut at its elements and closes where it does.
proof fn body_run(b: Seq<u8>, pos: int, dialect: Dialect, depth: int, done: Seq<Json>, spans: Seq<ByteRange>, m: Level)
    requires
        ready(m),
        m.depth == 1,
        0 <= pos <= b.len() <= usize::MAX,
        spans.len() == done.len(),
        built_items(b, pos, unbounded(dialect), no_room(), depth, done) is Ok,
        dialect == Dialect::Rfc8259 ==> runs(b, pos, spans, m),
    ensures
        ({
            let e = built_items(b, pos, unbounded(dialect), no_room(), depth, done)->Ok_0.0;
            let last = level(b, pos, e, m);
            &&& pos < e <= b.len()
            &&& last.closed == Some(e - 1)
            &&& last.sound
            &&& last.clean == m.clean
            &&& dialect == Dialect::Rfc8259 ==> with_element(last.out, b, last.start, e - 1) == element_spans(
                b,
                pos,
                dialect,
                depth,
                spans,
            )
        }),
    decreases b.len() - pos,
{
    items_unfold(b, pos, dialect, depth, done);
    body_next(b, pos, dialect, spans, m);
    let e = built_items(b, pos, unbounded(dialect), no_room(), depth, done)->Ok_0.0;
    if let Ok(NextAt::Item(p)) = next_at(b, pos, dialect, RBRACKET, done.len() == 0) {
        let next = level(b, pos, p, m);
        let (x, item, _) = built(b, p, unbounded(dialect), no_room(), depth)->Ok_0;
        value_run(b, p, dialect, depth, next);
        let more = spans.push(span(p, x));
        assert(more.drop_last() =~= spans);
        body_run(b, x, dialect, depth, done.push(item), more, next);
        level_splits(b, pos, p, e, m);
        level_splits(b, p, x, e, next);
        assert(element_spans(b, pos, dialect, depth, spans) == element_spans(b, x, dialect, depth, more));
    }
}

/// The spans of an array's items are where the items read.
proof fn spans_read(b: Seq<u8>, pos: int, dialect: Dialect, depth: int, done: Seq<Json>, spans: Seq<ByteRange>)
    requires
        0 <= pos <= b.len() <= usize::MAX,
        spans.len() == done.len(),
        forall|i: int| 0 <= i < done.len() ==> reads_span(b, #[trigger] spans[i], done[i], dialect, depth),
        built_items(b, pos, unbounded(dialect), no_room(), depth, done) is Ok,
    ensures
        ({
            let read = built_items(b, pos, unbounded(dialect), no_room(), depth, done)->Ok_0.1;
            let all = element_spans(b, pos, dialect, depth, spans);
            all.len() == read.len() && forall|i: int|
                0 <= i < read.len() ==> reads_span(b, #[trigger] all[i], read[i], dialect, depth)
        }),
    decreases b.len() - pos,
{
    items_unfold(b, pos, dialect, depth, done);
    if let Ok(NextAt::Item(p)) = next_at(b, pos, dialect, RBRACKET, done.len() == 0) {
        let (x, item, _) = built(b, p, unbounded(dialect), no_room(), depth)->Ok_0;
        let more = spans.push(span(p, x));
        assert forall|i: int| 0 <= i < done.push(item).len() implies reads_span(
            b,
            #[trigger] more[i],
            done.push(item)[i],
            dialect,
            depth,
        ) by {
            if i < done.len() {
                assert(more[i] == spans[i]);
            }
        }
        spans_read(b, x, dialect, depth, done.push(item), more);
        assert(element_spans(b, pos, dialect, depth, spans) == element_spans(b, x, dialect, depth, more));
    }
}

/// Whether a span is that of a value that reads as `x`.
pub open spec fn reads_span(b: Seq<u8>, s: ByteRange, x: Json, dialect: Dialect, depth: int) -> bool {
    built(b, s.start as int, unbounded(dialect), no_room(), depth) == Ok::<(int, Json, Room), Error>(
        (s.end as int, x, no_room()),
    )
}

/// A valid array is cut at its closer, and under RFC 8259 between its elements.
pub(crate) proof fn array_is_cut(b: Seq<u8>, start: int, dialect: Dialect, depth: int, e: int, items: Seq<Json>)
    requires
        0 <= start < b.len() <= usize::MAX,
        built(b, start, unbounded(dialect), no_room(), depth) == Ok::<(int, Json, Room), Error>(
            (e, Json::Array(items), no_room()),
        ),
    ensures
        balanced_body(b, start + 1),
        serial_elements(b, start + 1) matches Ok((spans, close_end)) && close_end == e && (dialect == Dialect::Rfc8259 ==> spans
            == element_spans(b, start + 1, dialect, depth + 1, Seq::empty())),
{
    opens_as(b, start, dialect, depth);
    let m = opened_body(start + 1);
    let none = Seq::<ByteRange>::empty();
    body_run(b, start + 1, dialect, depth + 1, Seq::empty(), none, m);
    let last = level(b, start + 1, e, m);
    level_splits(b, start + 1, e, b.len() as int, m);
    closed_stays(b, e, b.len() as int, last);
    clean_body_is_cut(b, start + 1);
}

/// A valid array is cut without a refusal, up to its own closer; under RFC 8259 what
/// is cut are its elements, one after the other.
pub proof fn valid_array_is_cut_into_its_elements(b: Seq<u8>, start: int, dialect: Dialect, depth: int, e: int, items: Seq<Json>)
    requires
        0 <= start < b.len() <= usize::MAX,
        built(b, start, unbounded(dialect), no_room(), depth) == Ok::<(int, Json, Room), Error>(
            (e, Json::Array(items), no_room()),
        ),
    ensures
        balanced_body(b, start + 1),
        serial_elements(b, start + 1) matches Ok((spans, close_end)) && close_end == e && (dialect == Dialect::Rfc8259
            ==> spans.len() == items.len() && forall|i: int|
            0 <= i < items.len() ==> reads_span(b, #[trigger] spans[i], items[i], dialect, depth + 1)),
{
    array_is_cut(b, start, dialect, depth, e, items);
    opens_as(b, start, dialect, depth);
    spans_read(b, start + 1, dialect, depth + 1, Seq::empty(), Seq::empty());
}

/// The summaries of contiguous blocks name the elements of a valid array as one
/// serial cut does, wherever the blocks begin: inside a string, a comment or a nested
/// value.
pub proof fn blocks_name_the_elements_of_a_valid_array(
    b: Seq<u8>,
    start: int,
    dialect: Dialect,
    depth: int,
    summaries: Seq<SummaryModel>,
)
    requires
        0 <= start < b.len() <= usize::MAX,
        built(b, start, unbounded(dialect), no_room(), depth) matches Ok((_, j, room)) && j is Array && room == no_room(),
        contiguous(b, summaries, 0, start + 1),
    ensures
        serial_elements(b, start + 1) == Ok::<(Seq<ByteRange>, int), Error>(summed_elements(b, start, summaries)),
{
    let (e, j, _) = built(b, start, unbounded(dialect), no_room(), depth)->Ok_0;
    valid_array_is_cut_into_its_elements(b, start, dialect, depth, e, j->Array_0);
    a_balanced_body_is_even(b, start + 1);
    blocks_name_the_serial_elements(b, start, summaries);
}

/// The elements that a parse reads are the elements that a scan passes.
proof fn parsed_items_are(b: Seq<u8>, pos: int, ctx: WalkCtx, depth: int, done: Seq<Json>)
    requires
        0 <= pos <= b.len(),
        0 <= depth,
        ctx.max == MAX_NESTING,
        built_items(b, pos, unbounded(ctx.dialect), no_room(), depth, done) is Ok,
    ensures
        ({
            let (e, all, _) = built_items(b, pos, unbounded(ctx.dialect), no_room(), depth, done)->Ok_0;
            let its = items_from(b, pos, ctx, done.len() == 0);
            &&& closes_at(b, pos, ctx, done.len() == 0) == Some(e)
            &&& all.len() == done.len() + its.len()
            &&& all.take(done.len() as int) == done
            &&& forall|k: int| 0 <= k < its.len() ==> reads_at(b, #[trigger] its[k], all[done.len() + k], ctx.dialect, depth)
        }),
    decreases b.len() - pos,
{
    items_unfold(b, pos, ctx.dialect, depth, done);
    next_at_bounds(b, pos, ctx.dialect, RBRACKET, done.len() == 0);
    let (e, all, _) = built_items(b, pos, unbounded(ctx.dialect), no_room(), depth, done)->Ok_0;
    let its = items_from(b, pos, ctx, done.len() == 0);
    if let Ok(NextAt::Item(p)) = next_at(b, pos, ctx.dialect, RBRACKET, done.len() == 0) {
        let (x, item, _) = built(b, p, unbounded(ctx.dialect), no_room(), depth)->Ok_0;
        parse_agrees_with_strict_skip(b, p, ctx.dialect, depth);
        ends_at_reach(b, p, Check::Values, ctx, depth);
        let more = done.push(item);
        parsed_items_are(b, x, ctx, depth, more);
        let rest = items_from(b, x, ctx, false);
        assert(its == seq![p] + rest);
        assert(all.take(more.len() as int)[done.len() as int] == all[done.len() as int]);
        assert(all.take(done.len() as int) =~= all.take(more.len() as int).take(done.len() as int));
        assert(more.take(done.len() as int) =~= done);
        assert forall|k: int| 0 <= k < its.len() implies reads_at(b, #[trigger] its[k], all[done.len() + k], ctx.dialect, depth) by {
            if k > 0 {
                assert(its[k] == rest[k - 1]);
            }
        }
    } else {
        assert(all.take(done.len() as int) =~= done);
    }
}

/// Whether a value at `p` reads as `x`.
pub open spec fn reads_at(b: Seq<u8>, p: int, x: Json, dialect: Dialect, depth: int) -> bool {
    built(b, p, unbounded(dialect), no_room(), depth) matches Ok((_, j, _)) && j == x
}

/// In every dialect a valid array is cut up to its own closer, and each of its elements is
/// read from where its part begins, behind comments at most; only comments behind a last
/// comma are one part more.
pub proof fn a_valid_array_is_cut_at_its_elements(b: Seq<u8>, start: int, dialect: Dialect, depth: int, e: int, found: Seq<Json>)
    requires
        0 <= start < b.len() <= usize::MAX,
        0 <= depth,
        built(b, start, unbounded(dialect), no_room(), depth) == Ok::<(int, Json, Room), Error>(
            (e, Json::Array(found), no_room()),
        ),
    ensures
        serial_elements(b, start + 1) is Ok,
        ({
            let (spans, close) = serial_elements(b, start + 1)->Ok_0;
            &&& close == e
            &&& found.len() <= spans.len() <= found.len() + 1
            &&& forall|i: int|
                0 <= i < found.len() ==> (trivia_end(b, (#[trigger] spans[i]).start as int, dialect) matches Ok(p) && reads_at(
                    b,
                    p,
                    found[i],
                    dialect,
                    depth + 1,
                ))
        }),
{
    let ctx = WalkCtx { strictness: crate::demand::Strictness::Strict, max: MAX_NESTING, dialect };
    opens_as(b, start, dialect, depth);
    parsed_items_are(b, start + 1, ctx, depth + 1, Seq::empty());
    array_is_cut_to_go_on(b, start, ctx, e);
    let spans = serial_elements(b, start + 1)->Ok_0.0;
    let its = items_from(b, start + 1, ctx, true);
    assert forall|i: int| 0 <= i < found.len() implies (trivia_end(b, (#[trigger] spans[i]).start as int, dialect) matches Ok(p)
        && reads_at(b, p, found[i], dialect, depth + 1)) by {
        let s = spans[i].start as int;
        items_split(b, start + 1, true, s, ctx);
        let left = items_from(b, s, ctx, true);
        assert(its[i] == left[0]);
        reveal(next_at);
        assert(reads_at(b, its[i], found[i], dialect, depth + 1));
    }
    if spans.len() > 0 {
        let k = spans.len() - 1;
        items_split(b, start + 1, true, spans[k].start as int, ctx);
    }
}

} // verus!
