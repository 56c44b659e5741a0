//! The comment facts of a Strict scan are comments that can be written back.

use vstd::prelude::*;

use crate::answer::AnswerModel;
use crate::ascii::{COMMA, LF, RBRACE, SLASH};
use crate::dialect::Dialect;
use crate::emit::{fact_bytes, line_comment_at, written_document};
use crate::encode::EncodeOptions;
use crate::error::Error;
use crate::facts::{
    collected, container_facts, fact, gap_fact, gap_facts, next_child, closes_next, space_end, top_facts,
    trailer_facts, trailer_role, trivia_read, value_after_key, value_facts, FactModel, FactRole,
};
use crate::framing::text_start;
use crate::laws::emitted::{chosen_facts_are_writable, is_comment, writable_facts, written_document_reads_back};
use crate::laws::forms::read_text;
use crate::laws::local::{block_is_local, copied};
use crate::laws::paths::{all_paths, answer_fits, path_answers_are_lookups, steps_of, text_value, tree_at};
use crate::lex::key_end;
use crate::lex::skip::{Check, MAX_NESTING};
use crate::lex::stop_sets::{run_end_facts, run_end_is, NdjsonFrame, StopSet, Ws};
use crate::lex::ws::{block_close_bounds, comment_end, comment_end_bounds};
use crate::scan::{asked_facts, scanned, Ask, JsonInput};
use crate::value::{span, span_bytes, ByteRange, Json};
use crate::demand::Strictness;

verus! {

/// Whether a span is a comment of the source.
spec fn is_glyph(b: Seq<u8>, c: (int, int)) -> bool {
    &&& 0 <= c.0 < c.1 <= b.len()
    &&& b[c.0] == SLASH
    &&& comment_end(b, c.0) == Ok::<int, Error>(c.1)
}

spec fn all_glyphs(b: Seq<u8>, comments: Seq<(int, int)>) -> bool {
    forall|i: int| 0 <= i < comments.len() ==> is_glyph(b, #[trigger] comments[i])
}

spec fn all_writable(b: Seq<u8>, facts: Seq<FactModel>) -> bool {
    forall|i: int| 0 <= i < facts.len() ==> is_comment(fact_bytes(b, #[trigger] facts[i]))
}

proof fn glyphs_join(b: Seq<u8>, x: Seq<(int, int)>, y: Seq<(int, int)>)
    requires
        all_glyphs(b, x),
        all_glyphs(b, y),
    ensures
        all_glyphs(b, x + y),
{
    assert forall|i: int| 0 <= i < (x + y).len() implies is_glyph(b, #[trigger] (x + y)[i]) by {
        if i < x.len() {
            assert((x + y)[i] == x[i]);
        } else {
            assert((x + y)[i] == y[i - x.len()]);
        }
    }
}

proof fn writable_join(b: Seq<u8>, x: Seq<FactModel>, y: Seq<FactModel>)
    requires
        all_writable(b, x),
        all_writable(b, y),
    ensures
        all_writable(b, x + y),
{
    assert forall|i: int| 0 <= i < (x + y).len() implies is_comment(fact_bytes(b, #[trigger] (x + y)[i])) by {
        if i < x.len() {
            assert((x + y)[i] == x[i]);
        } else {
            assert((x + y)[i] == y[i - x.len()]);
        }
    }
}

proof fn trivia_holds_glyphs(b: Seq<u8>, pos: int, end: int)
    ensures
        trivia_read(b, pos, end) matches Some((next, comments)) ==> all_glyphs(b, comments),
    decreases b.len() - pos,
{
    if 0 <= pos <= end <= b.len() {
        run_end_facts::<Ws>(b, pos);
        let p = space_end(b, pos, end);
        if p < end && b[p] == SLASH {
            comment_end_bounds(b, p);
            if let Ok(close) = comment_end(b, p) {
                if close <= end && pos < close {
                    trivia_holds_glyphs(b, close, end);
                    if let Some((_, rest)) = trivia_read(b, close, end) {
                        glyphs_join(b, seq![(p, close)], rest);
                    }
                }
            }
        }
    }
}

/// A comment of the source is written as a comment.
proof fn glyph_is_written(b: Seq<u8>, role: FactRole, c: (int, int), owner: ByteRange)
    requires
        b.len() <= usize::MAX,
        is_glyph(b, c),
    ensures
        is_comment(fact_bytes(b, fact(b, role, c, owner, true))),
{
    let (start, end) = c;
    comment_end_bounds(b, start);
    let glyph = b.subrange(start, end);
    assert(span_bytes(b, span(start, end)) == glyph);
    let n = glyph.len() as int;
    assert(glyph[0] == b[start] && glyph[1] == b[start + 1]);
    if line_comment_at(b, start) {
        let g = glyph + seq![LF];
        run_end_facts::<NdjsonFrame>(b, start + 2);
        assert forall|i: int| 2 <= i < n implies !NdjsonFrame::stops(#[trigger] g[i]) by {
            assert(g[i] == b[start + i]);
            assert(!NdjsonFrame::stops(b[start + i]));
        }
        assert(g[n] == LF);
        run_end_is::<NdjsonFrame>(g, 2, n);
        assert(g[0] == glyph[0] && g[1] == glyph[1]);
    } else {
        block_close_bounds(b, start + 2);
        assert(copied(b, start, end, glyph, -start)) by {
            assert forall|i: int| start <= i < end implies #[trigger] b[i] == glyph[i + (-start)] by {}
        }
        block_is_local(b, start, end, glyph, -start, start + 2);
        assert(glyph + Seq::<u8>::empty() =~= glyph);
    }
}

proof fn gap_is_written(b: Seq<u8>, comments: Seq<(int, int)>, previous: Option<ByteRange>, next: ByteRange)
    requires
        b.len() <= usize::MAX,
        all_glyphs(b, comments),
    ensures
        all_writable(b, gap_facts(b, comments, previous, next, true)),
    decreases comments.len(),
{
    if comments.len() > 0 {
        let rest = comments.drop_last();
        assert forall|i: int| 0 <= i < rest.len() implies is_glyph(b, #[trigger] rest[i]) by {
            assert(rest[i] == comments[i]);
        }
        gap_is_written(b, rest, previous, next);
        let c = comments.last();
        assert(c == comments[comments.len() - 1]);
        glyph_is_written(b, FactRole::CommentLead, c, next);
        if previous is Some {
            glyph_is_written(b, FactRole::CommentFoot, c, previous->0);
        }
        writable_join(b, gap_facts(b, rest, previous, next, true), gap_fact(b, c, previous, next, true));
    }
}

proof fn trailer_is_written(b: Seq<u8>, comments: Seq<(int, int)>, previous: Option<ByteRange>, container: ByteRange)
    requires
        b.len() <= usize::MAX,
        all_glyphs(b, comments),
    ensures
        all_writable(b, trailer_facts(b, comments, previous, container, true)),
{
    let facts = trailer_facts(b, comments, previous, container, true);
    assert forall|i: int| 0 <= i < facts.len() implies is_comment(fact_bytes(b, #[trigger] facts[i])) by {
        assert(is_glyph(b, comments[i]));
        glyph_is_written(b, trailer_role(previous), comments[i], container);
    }
}

proof fn child_holds_glyphs(b: Seq<u8>, pos: int, closer: u8, dialect: Dialect)
    ensures
        next_child(b, pos, closer, dialect) matches Some((next, comments)) ==> all_glyphs(b, comments),
{
    let len = b.len() as int;
    trivia_holds_glyphs(b, pos, len);
    if let Some((p, before)) = trivia_read(b, pos, len) {
        trivia_holds_glyphs(b, p + 1, len);
        let past = if p < b.len() && b[p] == COMMA {
            match trivia_read(b, p + 1, len) {
                None => None,
                Some((q, after)) => Some((q, before + after)),
            }
        } else {
            Some((p, before))
        };
        if let Some((q, after)) = trivia_read(b, p + 1, len) {
            glyphs_join(b, before, after);
        }
        if let Some((q, comments)) = past {
            if let Some((v, rest)) = value_after_key(b, q, dialect) {
                key_holds_glyphs(b, q, dialect);
                glyphs_join(b, comments, rest);
            }
        }
    }
}

proof fn key_holds_glyphs(b: Seq<u8>, key: int, dialect: Dialect)
    ensures
        value_after_key(b, key, dialect) matches Some((next, comments)) ==> all_glyphs(b, comments),
{
    if let Ok(end) = key_end(b, key, Check::Locate, dialect) {
        let len = b.len() as int;
        trivia_holds_glyphs(b, end, len);
        if let Some((colon, before)) = trivia_read(b, end, len) {
            trivia_holds_glyphs(b, colon + 1, len);
            if let Some((_, after)) = trivia_read(b, colon + 1, len) {
                glyphs_join(b, before, after);
            }
        }
    }
}

proof fn value_is_written(b: Seq<u8>, next: int, dialect: Dialect)
    requires
        b.len() <= usize::MAX,
    ensures
        all_writable(b, value_facts(b, next, dialect, true).1),
    decreases b.len() - next, 0nat,
{
    if 0 <= next < b.len() {
        let closer = if b[next] == crate::ascii::LBRACKET {
            crate::ascii::RBRACKET
        } else {
            RBRACE
        };
        container_is_written(b, next, closer, next + 1, None, Seq::empty(), dialect);
    }
}

proof fn container_is_written(
    b: Seq<u8>,
    start: int,
    closer: u8,
    pos: int,
    previous: Option<ByteRange>,
    found: Seq<FactModel>,
    dialect: Dialect,
)
    requires
        b.len() <= usize::MAX,
        all_writable(b, found),
    ensures
        all_writable(b, container_facts(b, start, closer, pos, previous, found, dialect, true).1),
    decreases b.len() - pos, 1nat,
{
    child_holds_glyphs(b, pos, closer, dialect);
    if let Some((next, comments)) = next_child(b, pos, closer, dialect) {
        if closes_next(b, pos, closer) {
            let s = span(start, next + 1);
            trailer_is_written(b, comments, previous, s);
            writable_join(b, found, trailer_facts(b, comments, previous, s, true));
        } else if pos <= next < b.len() {
            value_is_written(b, next, dialect);
            let (end, inner) = value_facts(b, next, dialect, true);
            let value = span(next, end);
            gap_is_written(b, comments, previous, value);
            let gap = gap_facts(b, comments, previous, value, true);
            writable_join(b, found, gap);
            writable_join(b, found + gap, inner);
            if next < end <= b.len() {
                container_is_written(b, start, closer, end, Some(value), found + gap + inner, dialect);
            }
        }
    }
}

proof fn top_is_written(
    b: Seq<u8>,
    from: int,
    to: int,
    pos: int,
    previous: Option<ByteRange>,
    root: Option<ByteRange>,
    found: Seq<FactModel>,
    dialect: Dialect,
)
    requires
        b.len() <= usize::MAX,
        all_writable(b, found),
    ensures
        all_writable(b, top_facts(b, from, to, pos, previous, root, found, dialect, true)),
    decreases b.len() - pos,
{
    trivia_holds_glyphs(b, pos, to);
    if let Some((next, comments)) = trivia_read(b, pos, to) {
        let owner = match root {
            Some(r) => r,
            None => span(from, to),
        };
        trailer_is_written(b, comments, previous, owner);
        writable_join(b, found, trailer_facts(b, comments, previous, owner, true));
        if pos <= next < b.len() {
            value_is_written(b, next, dialect);
            let (end, inner) = value_facts(b, next, dialect, true);
            let value = span(next, end);
            gap_is_written(b, comments, previous, value);
            let gap = gap_facts(b, comments, previous, value, true);
            writable_join(b, found, gap);
            writable_join(b, found + gap, inner);
            if next < end <= b.len() {
                top_is_written(
                    b,
                    from,
                    to,
                    end,
                    Some(value),
                    Some(
                        match root {
                            Some(r) => r,
                            None => value,
                        },
                    ),
                    found + gap + inner,
                    dialect,
                );
            }
        }
    }
}

/// Facts that keep their glyphs are comments of the source, and can be written.
pub proof fn collected_facts_are_writable(b: Seq<u8>, from: int, to: int, dialect: Dialect)
    requires
        b.len() <= usize::MAX,
    ensures
        writable_facts(b, collected(b, from, to, dialect, true), dialect),
{
    let end = if to > b.len() {
        b.len() as int
    } else {
        to
    };
    top_is_written(b, from, end, from, None, None, Seq::empty(), dialect);
}

/// What a Strict scan of a text finds along a path can be written, compact or
/// pretty, with its comments or verbatim, and reads back as the same value.
pub proof fn scanned_document_reads_back(b: Seq<u8>, ask: Ask, j: Json, i: int, opts: EncodeOptions)
    requires
        b.len() <= usize::MAX,
        ask.input == JsonInput::Text,
        ask.ctx.strictness == Strictness::Strict,
        ask.ctx.max == MAX_NESTING,
        all_paths(ask.demands),
        text_value(b, ask.ctx.dialect) == Ok::<Json, Error>(j),
        0 <= i < ask.demands.len(),
        opts.dialect == ask.ctx.dialect,
    ensures
        tree_at(j, steps_of(ask.demands[i])) matches Some(x) ==> (scanned(b, ask) matches Ok((answers, _)) && answers[i] matches AnswerModel::Document(
            d,
        ) && written_document(d, opts) matches Ok(text) && read_text(text, opts.dialect) == Ok::<Json, Error>(x)),
{
    if let Some(x) = tree_at(j, steps_of(ask.demands[i])) {
        path_answers_are_lookups(b, ask, j);
        let answers = scanned(b, ask)->Ok_0.0;
        assert(answer_fits(answers[i], Some(x), ask.ctx.dialect));
        let d = answers[i]->Document_0;
        let facts = asked_facts(b, ask);
        collected_facts_are_writable(b, 0, b.len() as int, ask.ctx.dialect);
        collected_facts_are_writable(b, text_start(b), b.len() as int, ask.ctx.dialect);
        assert(writable_facts(b, facts, ask.ctx.dialect));
        chosen_facts_are_writable(b, facts, d.root.start as int, d.root.end as int, ask.ctx.dialect);
        written_document_reads_back(d, opts, x);
    }
}

} // verus!
