//! A written document reads back as the value it locates.

use vstd::prelude::*;

use crate::answer::{facts_within, DocumentModel};
use crate::ascii::{COLON, COMMA, LBRACE, LBRACKET, LF, RBRACE, RBRACKET, SLASH, SPACE, STAR, TAB};
use crate::dialect::Dialect;
use crate::emit::{
    closed, colon_bytes, emit_child, emit_children, emit_key, emit_next, emit_order, emit_span, emit_value,
    fact_bytes, flushed, indent_bytes, more, placed_fact, written_document, EmitCtx, Emitted,
};
use crate::encode::{line_break, repeated, EncodeOptions, Indent};
use crate::error::Error;
use crate::facts::FactModel;
use crate::laws::forms::{no_room, read_text, unbounded};
use crate::laws::local::{block_is_local, built_key_reads, copied, cut, items_unfold, members_unfold, merged_is_not_empty, run_is_local, scalar_is_local, settles, text_is_local, value_reads_the_same_alone, value_start};
use crate::laws::locate::{key_is_located, scalar_is_located};
use crate::laws::parse::{key_agrees, parse_agrees_with_strict_skip, scalar_agrees};
use crate::laws::paths::reads_at;
use crate::laws::round_trip::{item_step, member_step};
use crate::lex::skip::{after_colon, next_at, next_at_bounds, NextAt};
use crate::lex::stop_sets::{is_space, run_end, run_end_is, Ident, NdjsonFrame, StopSet, Ws};
use crate::lex::string::opens_string;
use crate::lex::ws::{
    block_close, token_end, trivia_end, trivia_end_bounds, trivia_end_here, trivia_end_settles, trivia_skips_space,
};
use crate::lex::{key_text, key_text_end};
use crate::tape::{built, built_items, built_key, built_members, built_text, merged, Room};
use crate::value::{span_bytes, ByteRange, Json};

verus! {

/// Whether a text is one whole comment; one that runs to the end of its line brings
/// the line break along.
pub open spec fn is_comment(g: Seq<u8>) -> bool {
    &&& g.len() >= 3
    &&& g[0] == SLASH
    &&& g[1] == STAR && block_close(g, 2) == Some(g.len() as int) || g[1] == SLASH && g.last() == LF && run_end::<NdjsonFrame>(
        g,
        2,
    ) == g.len() - 1
}

/// Whether every fact is written as a comment the dialect knows.
pub open spec fn writable_facts(b: Seq<u8>, facts: Seq<FactModel>, dialect: Dialect) -> bool {
    &&& !dialect.comments() ==> facts.len() == 0
    &&& forall|i: int| 0 <= i < facts.len() ==> is_comment(fact_bytes(b, #[trigger] facts[i]))
}

/// Whether `o` begins with `x`.
spec fn begins(o: Seq<u8>, x: Seq<u8>) -> bool {
    &&& x.len() <= o.len()
    &&& forall|i: int| 0 <= i < x.len() ==> #[trigger] x[i] == o[i]
}

proof fn begins_with_part(o: Seq<u8>, x: Seq<u8>, y: Seq<u8>)
    requires
        begins(o, x + y),
    ensures
        begins(o, x),
        x.len() + y.len() <= o.len(),
        copied(y, 0, y.len() as int, o, x.len() as int),
{
    assert forall|i: int| 0 <= i < x.len() implies #[trigger] x[i] == o[i] by {
        assert((x + y)[i] == x[i]);
    }
    assert forall|i: int| 0 <= i < y.len() implies #[trigger] y[i] == o[i + x.len()] by {
        assert((x + y)[i + x.len()] == y[i]);
    }
}

/// Trivia goes on behind a comment.
proof fn comment_is_passed(o: Seq<u8>, x: int, g: Seq<u8>, dialect: Dialect)
    requires
        is_comment(g),
        dialect.comments(),
        copied(g, 0, g.len() as int, o, x),
    ensures
        trivia_end(o, x, dialect) == trivia_end(o, x + g.len(), dialect),
{
    let n = g.len() as int;
    assert(g[0] == o[0 + x] && g[1] == o[1 + x]);
    run_end_is::<Ws>(o, x, x);
    if g[1] == STAR {
        block_is_local(g, 0, n, o, x, 2);
    } else {
        run_is_local::<NdjsonFrame>(g, 0, n, o, x, 2);
        assert(g[n - 1] == o[n - 1 + x]);
        let r = run_end::<Ws>(o, x + n);
        trivia_skips_space(o, x + n - 1, r, dialect);
        trivia_skips_space(o, x + n, r, dialect);
    }
}

/// Trivia goes on behind whitespace.
proof fn blanks_are_passed(o: Seq<u8>, x: int, s: Seq<u8>, dialect: Dialect)
    requires
        copied(s, 0, s.len() as int, o, x),
        forall|i: int| 0 <= i < s.len() ==> is_space(#[trigger] s[i]),
    ensures
        trivia_end(o, x, dialect) == trivia_end(o, x + s.len(), dialect),
    decreases s.len(),
{
    if s.len() > 0 {
        let n = s.len() as int;
        let t = s.drop_last();
        assert forall|i: int| 0 <= i < t.len() implies #[trigger] t[i] == o[i + x] by {
            assert(s[i] == t[i]);
        }
        assert forall|i: int| 0 <= i < t.len() implies is_space(#[trigger] t[i]) by {
            assert(s[i] == t[i]);
        }
        blanks_are_passed(o, x, t, dialect);
        assert(s[n - 1] == o[n - 1 + x]);
        let r = run_end::<Ws>(o, x + n);
        trivia_skips_space(o, x + n - 1, r, dialect);
        trivia_skips_space(o, x + n, r, dialect);
    }
}

proof fn indent_is_blank(ctx: EmitCtx, depth: int)
    ensures
        forall|i: int| 0 <= i < indent_bytes(ctx, depth).len() ==> is_space(#[trigger] indent_bytes(ctx, depth)[i]),
{
    if let Some(indent) = ctx.indent {
        let s = line_break(indent, depth);
        assert forall|i: int| 0 <= i < s.len() implies is_space(#[trigger] s[i]) by {
            if i > 0 {
                match indent {
                    Indent::Spaces(n) => {
                        assert(s[i] == repeated(SPACE, (depth * n) as nat)[i - 1]);
                    },
                    Indent::Tab => {
                        assert(s[i] == repeated(TAB, depth as nat)[i - 1]);
                    },
                }
            }
        }
    }
}

/// Whether the output grew from `st` to `later` by nothing but trivia, as far as a
/// text `o` that begins with it can tell.
spec fn only_trivia(o: Seq<u8>, st: Emitted, later: Emitted, dialect: Dialect) -> bool {
    &&& begins(later.out, st.out)
    &&& begins(o, later.out) ==> begins(o, st.out) && trivia_end(o, st.out.len() as int, dialect) == trivia_end(
        o,
        later.out.len() as int,
        dialect,
    )
    &&& begins(o, later.out) && later.out.len() > st.out.len() ==> token_end(o, st.out.len() as int, dialect)
}

/// Facts are written as trivia.
proof fn flush_is_trivia(b: Seq<u8>, facts: Seq<FactModel>, st: Emitted, upto: int, o: Seq<u8>, dialect: Dialect)
    requires
        writable_facts(b, facts, dialect),
    ensures
        only_trivia(o, st, flushed(b, facts, st, upto), dialect),
    decreases facts.len() - st.next,
{
    if 0 <= st.next < facts.len() && crate::emit::emit_position(facts[st.next]) <= upto {
        let f = facts[st.next];
        if f.source_span is Some && f.source_span == st.last {
            flush_is_trivia(b, facts, Emitted { next: st.next + 1, ..st }, upto, o, dialect);
        } else {
            let g = fact_bytes(b, f);
            let step = Emitted { out: st.out + g, next: st.next + 1, last: f.source_span };
            let later = flushed(b, facts, step, upto);
            flush_is_trivia(b, facts, step, upto, o, dialect);
            begins_with_part(later.out, st.out, g);
            if begins(o, later.out) {
                begins_with_part(o, st.out, g);
                comment_is_passed(o, st.out.len() as int, g, dialect);
                assert(g[0] == o[0 + st.out.len() as int]);
            }
        }
    }
}

/// Whitespace is trivia.
proof fn blanks_are_trivia(st: Emitted, s: Seq<u8>, o: Seq<u8>, dialect: Dialect)
    requires
        forall|i: int| 0 <= i < s.len() ==> is_space(#[trigger] s[i]),
    ensures
        only_trivia(o, st, more(st, s), dialect),
{
    let later = more(st, s);
    assert(begins(st.out + s, st.out + s));
    begins_with_part(later.out, st.out, s);
    if begins(o, later.out) {
        begins_with_part(o, st.out, s);
        blanks_are_passed(o, st.out.len() as int, s, dialect);
        if s.len() > 0 {
            assert(s[0] == o[0 + st.out.len() as int]);
        }
    }
}

proof fn trivia_goes_on(o: Seq<u8>, a: Emitted, b: Emitted, c: Emitted, dialect: Dialect)
    requires
        only_trivia(o, a, b, dialect),
        only_trivia(o, b, c, dialect),
    ensures
        only_trivia(o, a, c, dialect),
{
    assert forall|i: int| 0 <= i < a.out.len() implies #[trigger] a.out[i] == c.out[i] by {
        assert(a.out[i] == b.out[i]);
    }
}

/// One byte more: it stands where the output ended.
proof fn byte_stands(st: Emitted, byte: u8, o: Seq<u8>)
    ensures
        begins(more(st, seq![byte]).out, st.out),
        begins(o, more(st, seq![byte]).out) ==> begins(o, st.out) && st.out.len() < o.len() && o[st.out.len() as int] == byte,
{
    let s = seq![byte];
    assert(begins(st.out + s, st.out + s));
    begins_with_part(st.out + s, st.out, s);
    if begins(o, st.out + s) {
        begins_with_part(o, st.out, s);
        assert(s[0] == o[0 + st.out.len() as int]);
    }
}

proof fn begins_chain(o: Seq<u8>, x: Seq<u8>, y: Seq<u8>)
    requires
        begins(y, x),
        begins(o, y),
    ensures
        begins(o, x),
{
    assert forall|i: int| 0 <= i < x.len() implies #[trigger] x[i] == o[i] by {
        assert(x[i] == y[i]);
        assert(y[i] == o[i]);
    }
}

/// A closer that is written is read as the end of the container.
proof fn closer_is_emitted(b: Seq<u8>, ctx: EmitCtx, st: Emitted, mid: Emitted, closer: u8, first: bool, depth: int, o: Seq<u8>)
    requires
        only_trivia(o, st, mid, ctx.dialect),
        closer == RBRACKET || closer == RBRACE,
    ensures
        begins(closed(ctx, mid, closer, depth).out, st.out),
        closed(ctx, mid, closer, depth).out.len() > st.out.len(),
        begins(o, closed(ctx, mid, closer, depth).out) ==> {
            &&& begins(o, st.out)
            &&& token_end(o, st.out.len() as int, ctx.dialect)
            &&& trivia_end(o, st.out.len() as int, ctx.dialect) == Ok::<int, Error>(
                closed(ctx, mid, closer, depth).out.len() - 1,
            )
            &&& o[closed(ctx, mid, closer, depth).out.len() - 1] == closer
            &&& next_at(o, st.out.len() as int, ctx.dialect, closer, first) == Ok::<NextAt, Error>(
                NextAt::Close(closed(ctx, mid, closer, depth).out.len() as int),
            )
        },
{
    reveal(next_at);
    let line = indent_bytes(ctx, depth);
    let lined = more(mid, line);
    let end = more(lined, seq![closer]);
    assert(end.out =~= closed(ctx, mid, closer, depth).out);
    indent_is_blank(ctx, depth);
    blanks_are_trivia(mid, line, o, ctx.dialect);
    trivia_goes_on(o, st, mid, lined, ctx.dialect);
    byte_stands(lined, closer, o);
    begins_chain(end.out, st.out, lined.out);
    if begins(o, end.out) {
        trivia_end_here(o, lined.out.len() as int, ctx.dialect);
    }
}

/// What `emit_next` writes is read as `next_at` reads its source.
proof fn next_is_emitted(b: Seq<u8>, pos: int, closer: u8, first: bool, ctx: EmitCtx, st: Emitted, depth: int, o: Seq<u8>)
    requires
        0 <= pos <= b.len(),
        writable_facts(b, ctx.facts, ctx.dialect),
        closer == RBRACKET || closer == RBRACE,
    ensures
        next_at(b, pos, ctx.dialect, closer, first) matches Ok(NextAt::Close(e)) ==> (emit_next(
            b,
            pos,
            closer,
            first,
            ctx,
            st,
            depth,
        ) matches Ok((end, p, st1)) && end && p == e && begins(st1.out, st.out) && st1.out.len() > st.out.len() && (begins(
            o,
            st1.out,
        ) ==> (first || token_end(o, st.out.len() as int, ctx.dialect)) && next_at(
            o,
            st.out.len() as int,
            ctx.dialect,
            closer,
            first,
        ) == Ok::<NextAt, Error>(NextAt::Close(st1.out.len() as int)))),
        next_at(b, pos, ctx.dialect, closer, first) matches Ok(NextAt::Item(q)) ==> (emit_next(
            b,
            pos,
            closer,
            first,
            ctx,
            st,
            depth,
        ) matches Ok((end, p, st1)) && !end && p == q && begins(st1.out, st.out) && (begins(o, st1.out) ==> (first || token_end(
            o,
            st.out.len() as int,
            ctx.dialect,
        )) && (trivia_end(o, st1.out.len() as int, ctx.dialect) matches Ok(r) ==> (r < o.len() && o[r] != closer ==> next_at(
            o,
            st.out.len() as int,
            ctx.dialect,
            closer,
            first,
        ) == Ok::<NextAt, Error>(NextAt::Item(r)))))),
{
    reveal(next_at);
    reveal(emit_next);
    let dialect = ctx.dialect;
    if let Ok(p) = trivia_end(b, pos, dialect) {
        trivia_end_bounds(b, pos, dialect);
        let st1 = flushed(b, ctx.facts, st, p);
        flush_is_trivia(b, ctx.facts, st, p, o, dialect);
        if p < b.len() {
            if b[p] == closer {
                closer_is_emitted(b, ctx, st, st1, closer, first, depth, o);
            } else if first {
                indent_is_blank(ctx, depth + 1);
                let lined = more(st1, indent_bytes(ctx, depth + 1));
                blanks_are_trivia(st1, indent_bytes(ctx, depth + 1), o, dialect);
                trivia_goes_on(o, st, st1, lined, dialect);
            } else if b[p] == COMMA {
                comma_is_emitted(b, p, closer, ctx, st, st1, depth, o);
            }
        }
    }
}

proof fn comma_is_emitted(b: Seq<u8>, p: int, closer: u8, ctx: EmitCtx, st: Emitted, st1: Emitted, depth: int, o: Seq<u8>)
    requires
        0 <= p < b.len(),
        writable_facts(b, ctx.facts, ctx.dialect),
        closer == RBRACKET || closer == RBRACE,
        only_trivia(o, st, st1, ctx.dialect),
    ensures
        trivia_end(b, p + 1, ctx.dialect) matches Ok(q) ==> ({
            let st2 = flushed(b, ctx.facts, more(st1, seq![COMMA]), q);
            let last = closed(ctx, st2, closer, depth);
            let lined = more(st2, indent_bytes(ctx, depth + 1));
            &&& begins(last.out, st.out) && last.out.len() > st.out.len()
            &&& begins(lined.out, st.out)
            &&& begins(o, last.out) && ctx.dialect.comments() ==> token_end(o, st.out.len() as int, ctx.dialect) && next_at(
                o,
                st.out.len() as int,
                ctx.dialect,
                closer,
                false,
            ) == Ok::<NextAt, Error>(NextAt::Close(last.out.len() as int))
            &&& begins(o, lined.out) ==> token_end(o, st.out.len() as int, ctx.dialect) && (trivia_end(
                o,
                lined.out.len() as int,
                ctx.dialect,
            ) matches Ok(r) ==> (r < o.len() && o[r] != closer ==> next_at(
                o,
                st.out.len() as int,
                ctx.dialect,
                closer,
                false,
            ) == Ok::<NextAt, Error>(NextAt::Item(r))))
        }),
{
    reveal(next_at);
    let dialect = ctx.dialect;
    if let Ok(q) = trivia_end(b, p + 1, dialect) {
        let comma = more(st1, seq![COMMA]);
        byte_stands(st1, COMMA, o);
        begins_chain(comma.out, st.out, st1.out);
        let st2 = flushed(b, ctx.facts, comma, q);
        flush_is_trivia(b, ctx.facts, comma, q, o, dialect);
        begins_chain(st2.out, st.out, comma.out);
        let last = closed(ctx, st2, closer, depth);
        closer_is_emitted(b, ctx, comma, st2, closer, false, depth, o);
        begins_chain(last.out, st.out, comma.out);
        let lined = more(st2, indent_bytes(ctx, depth + 1));
        indent_is_blank(ctx, depth + 1);
        blanks_are_trivia(st2, indent_bytes(ctx, depth + 1), o, dialect);
        trivia_goes_on(o, comma, st2, lined, dialect);
        begins_chain(lined.out, st.out, comma.out);
        if begins(o, comma.out) {
            trivia_end_here(o, st1.out.len() as int, dialect);
        }
    }
}

/// Whether a value that reads as `j` follows at `x`, behind trivia, and ends at
/// `end`.
spec fn value_follows(o: Seq<u8>, x: int, dialect: Dialect, depth: int, j: Json, end: int) -> bool {
    &&& trivia_end(o, x, dialect) is Ok
    &&& built(o, trivia_end(o, x, dialect)->Ok_0, unbounded(dialect), no_room(), depth) == Ok::<(int, Json, Room), Error>(
        (end, j, no_room()),
    )
}

/// A scalar that is copied is read as it was.
proof fn scalar_is_emitted(b: Seq<u8>, p: int, e: int, j: Json, ctx: EmitCtx, st: Emitted, depth: int, o: Seq<u8>)
    requires
        0 <= p < b.len(),
        writable_facts(b, ctx.facts, ctx.dialect),
        trivia_end(b, p, ctx.dialect) == Ok::<int, Error>(p),
        b[p] != LBRACKET && b[p] != LBRACE,
        built(b, p, unbounded(ctx.dialect), no_room(), depth) == Ok::<(int, Json, Room), Error>((e, j, no_room())),
    ensures
        emit_value(b, p, ctx, st, depth) matches Ok((end, later)) && end == e && begins(later.out, st.out) && (begins(o, later.out)
            && token_end(o, later.out.len() as int, ctx.dialect) ==> value_follows(
            o,
            st.out.len() as int,
            ctx.dialect,
            depth,
            j,
            later.out.len() as int,
        )),
{
    let dialect = ctx.dialect;
    parse_agrees_with_strict_skip(b, p, dialect, depth);
    scalar_agrees(b, p, dialect);
    scalar_is_located(b, p, dialect);
    let st1 = flushed(b, ctx.facts, st, p);
    flush_is_trivia(b, ctx.facts, st, p, o, dialect);
    let text = b.subrange(p, e);
    let later = more(st1, text);
    assert(begins(st1.out + text, st1.out + text));
    begins_with_part(later.out, st1.out, text);
    begins_chain(later.out, st.out, st1.out);
    if begins(o, later.out) && token_end(o, later.out.len() as int, dialect) {
        begins_with_part(o, st1.out, text);
        let at = st1.out.len() as int;
        assert(copied(b, p, e, o, at - p)) by {
            assert forall|i: int| p <= i < e implies #[trigger] b[i] == o[i + (at - p)] by {
                assert(text[i - p] == b[i]);
                assert(text[i - p] == o[i - p + at]);
            }
        }
        scalar_is_local(b, p, e, o, at - p, p, dialect);
        assert(b[p] == o[p + (at - p)]);
        value_start(b, p, dialect, depth);
        trivia_end_here(o, at, dialect);
    }
}

proof fn bare_key_is_copied(b: Seq<u8>, p: int, e: int, o: Seq<u8>, at: int)
    requires
        0 <= p <= e <= b.len(),
        e == run_end::<Ident>(b, p),
        copied(b, p, e, o, at - p),
        at + (e - p) < o.len(),
        o[at + (e - p)] == COLON,
    ensures
        run_end::<Ident>(o, at) == at + (e - p),
        o.subrange(at, at + (e - p)) == b.subrange(p, e),
{
    run_is_local::<Ident>(b, p, e, o, at - p, p);
    assert(o.subrange(at, at + (e - p)) =~= b.subrange(p, e)) by {
        assert forall|i: int| 0 <= i < e - p implies o.subrange(at, at + (e - p))[i] == #[trigger] b.subrange(p, e)[i] by {
            assert(b[p + i] == o[p + i + (at - p)]);
        }
    }
}

/// A key that is copied before a colon is read as it was.
proof fn key_is_copied(b: Seq<u8>, p: int, e: int, key: Seq<u8>, o: Seq<u8>, at: int, dialect: Dialect)
    requires
        0 <= p <= b.len(),
        key_text(b, p, dialect) == Ok::<(int, Seq<u8>), Error>((e, key)),
        copied(b, p, e, o, at - p),
        at + (e - p) < o.len(),
        o[at + (e - p)] == COLON,
    ensures
        key_text(o, at, dialect) == Ok::<(int, Seq<u8>), Error>((at + (e - p), key)),
        p < e,
{
    key_text_end(b, p, dialect);
    assert(b[p] == o[p + (at - p)]);
    if opens_string(b[p], dialect) {
        text_is_local(b, p, e, o, at - p, p, dialect);
    } else {
        bare_key_is_copied(b, p, e, o, at);
    }
}

proof fn colon_is_blank_after(ctx: EmitCtx)
    ensures
        colon_bytes(ctx)[0] == COLON,
        colon_bytes(ctx).len() >= 1,
        forall|i: int| 0 <= i < colon_bytes(ctx).skip(1).len() ==> is_space(#[trigger] colon_bytes(ctx).skip(1)[i]),
{
}

/// Where a key and its colon stand once they are copied.
proof fn key_layout(b: Seq<u8>, p: int, e: int, ctx: EmitCtx, o: Seq<u8>, x: Seq<u8>)
    requires
        0 <= p < e <= b.len(),
        begins(o, x + (b.subrange(p, e) + colon_bytes(ctx))),
    ensures
        copied(b, p, e, o, x.len() - p),
        o[x.len() as int] == b[p],
        x.len() + (e - p) < o.len(),
        o[x.len() + (e - p)] == COLON,
        trivia_end(o, x.len() + (e - p) + 1, ctx.dialect) == trivia_end(
            o,
            (x + (b.subrange(p, e) + colon_bytes(ctx))).len() as int,
            ctx.dialect,
        ),
{
    let text = b.subrange(p, e);
    let colon = colon_bytes(ctx);
    let all = text + colon;
    let at = x.len() as int;
    let n = text.len() as int;
    colon_is_blank_after(ctx);
    begins_with_part(o, x, all);
    assert forall|i: int| p <= i < e implies #[trigger] b[i] == o[i + (at - p)] by {
        assert(all[i - p] == b[i]);
        assert(all[i - p] == o[i - p + at]);
    }
    assert(b[p] == o[p + (at - p)]);
    assert(all[n] == colon[0]);
    assert(all[n] == o[n + at]);
    let blank = colon.skip(1);
    assert(copied(blank, 0, blank.len() as int, o, at + n + 1)) by {
        assert forall|i: int| 0 <= i < blank.len() implies #[trigger] blank[i] == o[i + (at + n + 1)] by {
            assert(all[n + 1 + i] == colon[1 + i]);
            assert(all[n + 1 + i] == o[n + 1 + i + at]);
        }
    }
    blanks_are_passed(o, at + n + 1, blank, ctx.dialect);
}

/// A key and its colon are read where they are copied to.
proof fn key_stands(b: Seq<u8>, p: int, e: int, key: Seq<u8>, ctx: EmitCtx, o: Seq<u8>, x: Seq<u8>)
    requires
        0 <= p < e <= b.len(),
        key_text(b, p, ctx.dialect) == Ok::<(int, Seq<u8>), Error>((e, key)),
        begins(o, x + (b.subrange(p, e) + colon_bytes(ctx))),
    ensures
        o[x.len() as int] == b[p],
        key_text(o, x.len() as int, ctx.dialect) == Ok::<(int, Seq<u8>), Error>((x.len() + (e - p), key)),
        after_colon(o, x.len() + (e - p), ctx.dialect) == trivia_end(
            o,
            (x + (b.subrange(p, e) + colon_bytes(ctx))).len() as int,
            ctx.dialect,
        ),
{
    key_layout(b, p, e, ctx, o, x);
    key_is_copied(b, p, e, key, o, x.len() as int, ctx.dialect);
    trivia_end_here(o, x.len() + (e - p), ctx.dialect);
}

proof fn unbounded_key(b: Seq<u8>, p: int, dialect: Dialect)
    ensures
        built_key(b, p, unbounded(dialect), no_room()) == (match key_text(b, p, dialect) {
            Err(error) => Err(error),
            Ok((end, key)) => match after_colon(b, end, dialect) {
                Err(error) => Err(error),
                Ok(v) => Ok((v, key, no_room())),
            },
        }),
{
    reveal(built_key);
}

/// A key that is written leads to the value behind it.
proof fn key_is_emitted(b: Seq<u8>, p: int, v: int, key: Seq<u8>, ctx: EmitCtx, st: Emitted, o: Seq<u8>)
    requires
        0 <= p < b.len(),
        writable_facts(b, ctx.facts, ctx.dialect),
        built_key(b, p, unbounded(ctx.dialect), no_room()) == Ok::<(int, Seq<u8>, Room), Error>((v, key, no_room())),
    ensures
        emit_key(b, p, ctx, st) matches Ok((end, later)) && end == v && begins(later.out, st.out) && later.out.len()
            > st.out.len() && (begins(o, later.out) && trivia_end(o, later.out.len() as int, ctx.dialect) is Ok ==> o[st.out.len() as int]
            == b[p] && built_key(o, st.out.len() as int, unbounded(ctx.dialect), no_room()) == Ok::<
            (int, Seq<u8>, Room),
            Error,
        >((trivia_end(o, later.out.len() as int, ctx.dialect)->Ok_0, key, no_room()))),
{
    reveal(emit_key);
    let dialect = ctx.dialect;
    unbounded_key(b, p, dialect);
    key_text_end(b, p, dialect);
    key_is_located(b, p, dialect);
    let e = key_text(b, p, dialect)->Ok_0.0;
    let text = b.subrange(p, e);
    let colon = colon_bytes(ctx);
    let st1 = more(st, text + colon);
    let c = trivia_end(b, e, dialect)->Ok_0;
    let st2 = flushed(b, ctx.facts, st1, c);
    flush_is_trivia(b, ctx.facts, st1, c, o, dialect);
    let later = flushed(b, ctx.facts, st2, v);
    flush_is_trivia(b, ctx.facts, st2, v, o, dialect);
    trivia_goes_on(o, st1, st2, later, dialect);
    assert(begins(st.out + (text + colon), st.out + (text + colon)));
    begins_with_part(st1.out, st.out, text + colon);
    begins_chain(later.out, st.out, st1.out);
    if begins(o, later.out) && trivia_end(o, later.out.len() as int, dialect) is Ok {
        key_stands(b, p, e, key, ctx, o, st.out);
        unbounded_key(o, st.out.len() as int, dialect);
    }
}

/// The rest of a container does not depend on the trivia before it.
proof fn trivia_before_children(o: Seq<u8>, x: int, y: int, dialect: Dialect, depth: int)
    requires
        0 <= x <= y <= o.len(),
        trivia_end(o, x, dialect) == trivia_end(o, y, dialect),
    ensures
        built_items(o, x, unbounded(dialect), no_room(), depth, Seq::empty()) == built_items(
            o,
            y,
            unbounded(dialect),
            no_room(),
            depth,
            Seq::empty(),
        ),
        built_members(o, x, unbounded(dialect), no_room(), depth, Seq::empty()) == built_members(
            o,
            y,
            unbounded(dialect),
            no_room(),
            depth,
            Seq::empty(),
        ),
{
    reveal(next_at);
    assert(next_at(o, x, dialect, RBRACKET, true) == next_at(o, y, dialect, RBRACKET, true));
    assert(next_at(o, x, dialect, RBRACE, true) == next_at(o, y, dialect, RBRACE, true));
    next_at_bounds(o, y, dialect, RBRACKET, true);
    next_at_bounds(o, y, dialect, RBRACE, true);
    if let Ok(NextAt::Item(p)) = next_at(o, y, dialect, RBRACE, true) {
        key_agrees(o, p, dialect);
    }
}

/// A value that is written reads as it did in the source, before a token boundary.
proof fn value_is_emitted(b: Seq<u8>, p: int, e: int, j: Json, ctx: EmitCtx, st: Emitted, depth: int, o: Seq<u8>)
    requires
        0 <= p < b.len(),
        writable_facts(b, ctx.facts, ctx.dialect),
        trivia_end(b, p, ctx.dialect) == Ok::<int, Error>(p),
        built(b, p, unbounded(ctx.dialect), no_room(), depth) == Ok::<(int, Json, Room), Error>((e, j, no_room())),
    ensures
        emit_value(b, p, ctx, st, depth) matches Ok((end, later)) && end == e && begins(later.out, st.out) && (begins(o, later.out)
            && token_end(o, later.out.len() as int, ctx.dialect) ==> value_follows(
            o,
            st.out.len() as int,
            ctx.dialect,
            depth,
            j,
            later.out.len() as int,
        )),
    decreases b.len() - p, 1nat,
{
    if b[p] == LBRACKET {
        array_is_emitted(b, p, e, j, ctx, st, depth, o);
    } else if b[p] == LBRACE {
        object_is_emitted(b, p, e, j, ctx, st, depth, o);
    } else {
        scalar_is_emitted(b, p, e, j, ctx, st, depth, o);
    }
}

proof fn array_is_emitted(b: Seq<u8>, p: int, e: int, j: Json, ctx: EmitCtx, st: Emitted, depth: int, o: Seq<u8>)
    requires
        0 <= p < b.len(),
        b[p] == LBRACKET,
        writable_facts(b, ctx.facts, ctx.dialect),
        trivia_end(b, p, ctx.dialect) == Ok::<int, Error>(p),
        built(b, p, unbounded(ctx.dialect), no_room(), depth) == Ok::<(int, Json, Room), Error>((e, j, no_room())),
    ensures
        emit_value(b, p, ctx, st, depth) matches Ok((end, later)) && end == e && begins(later.out, st.out) && (begins(o, later.out)
            ==> value_follows(o, st.out.len() as int, ctx.dialect, depth, j, later.out.len() as int)),
    decreases b.len() - p, 0nat,
{
    reveal(next_at);
    let dialect = ctx.dialect;
    let st0 = flushed(b, ctx.facts, st, p);
    flush_is_trivia(b, ctx.facts, st, p, o, dialect);
    let opened = more(st0, seq![b[p]]);
    byte_stands(st0, b[p], o);
    begins_chain(opened.out, st.out, st0.out);
    trivia_end_bounds(b, p + 1, dialect);
    let q = trivia_end(b, p + 1, dialect)->Ok_0;
    let st1 = flushed(b, ctx.facts, opened, q);
    flush_is_trivia(b, ctx.facts, opened, q, o, dialect);
    begins_chain(st1.out, st.out, opened.out);
    let read = j->Array_0;
    if q < b.len() && b[q] == RBRACKET {
        let later = more(st1, seq![RBRACKET]);
        byte_stands(st1, RBRACKET, o);
        begins_chain(later.out, st.out, st1.out);
        if begins(o, later.out) {
            trivia_end_here(o, st1.out.len() as int, dialect);
            trivia_end_here(o, st0.out.len() as int, dialect);
            assert(next_at(o, opened.out.len() as int, dialect, RBRACKET, true) == Ok::<NextAt, Error>(
                NextAt::Close(later.out.len() as int),
            ));
        }
    } else {
        trivia_end_settles(b, p + 1, dialect);
        trivia_before_children(b, p + 1, q, dialect, depth + 1);
        items_are_emitted(b, q, e, Seq::empty(), read, ctx, st1, depth, o);
        let later = emit_children(b, q, RBRACKET, true, ctx, st1, depth)->Ok_0.1;
        begins_chain(later.out, st.out, st1.out);
        begins_chain(later.out, st0.out, st1.out);
        if begins(o, later.out) {
            begins_chain(o, st1.out, later.out);
            trivia_end_here(o, st0.out.len() as int, dialect);
            trivia_before_children(o, opened.out.len() as int, st1.out.len() as int, dialect, depth + 1);
        }
    }
}

/// Items that follow each other in a text are read one after the other.
proof fn item_follows(o: Seq<u8>, x: int, x1: int, x2: int, item: Json, dialect: Dialect, depth: int, done: Seq<Json>)
    requires
        0 <= x <= x1 <= o.len(),
        trivia_end(o, x1, dialect) matches Ok(r) ==> (r < o.len() && o[r] != RBRACKET ==> next_at(
            o,
            x,
            dialect,
            RBRACKET,
            done.len() == 0,
        ) == Ok::<NextAt, Error>(NextAt::Item(r))),
        value_follows(o, x1, dialect, depth, item, x2),
    ensures
        built_items(o, x, unbounded(dialect), no_room(), depth, done) == built_items(
            o,
            x2,
            unbounded(dialect),
            no_room(),
            depth,
            done.push(item),
        ),
{
    let r = trivia_end(o, x1, dialect)->Ok_0;
    trivia_end_bounds(o, x1, dialect);
    value_start(o, r, dialect, depth);
    parse_agrees_with_strict_skip(o, r, dialect, depth);
    item_step(o, x, r, x2, item, dialect, depth, done);
}

proof fn items_are_emitted(
    b: Seq<u8>,
    pos: int,
    e: int,
    done: Seq<Json>,
    read: Seq<Json>,
    ctx: EmitCtx,
    st: Emitted,
    depth: int,
    o: Seq<u8>,
)
    requires
        0 <= pos <= b.len(),
        writable_facts(b, ctx.facts, ctx.dialect),
        built_items(b, pos, unbounded(ctx.dialect), no_room(), depth + 1, done) == Ok::<(int, Seq<Json>, Room), Error>(
            (e, read, no_room()),
        ),
    ensures
        emit_children(b, pos, RBRACKET, done.len() == 0, ctx, st, depth) matches Ok((end, later)) && end == e && begins(
            later.out,
            st.out,
        ) && later.out.len() > st.out.len() && (begins(o, later.out) ==> (done.len() == 0 || token_end(
            o,
            st.out.len() as int,
            ctx.dialect,
        )) && built_items(o, st.out.len() as int, unbounded(ctx.dialect), no_room(), depth + 1, done) == Ok::<
            (int, Seq<Json>, Room),
            Error,
        >((later.out.len() as int, read, no_room()))),
    decreases b.len() - pos, 2nat,
{
    let dialect = ctx.dialect;
    let first = done.len() == 0;
    next_is_emitted(b, pos, RBRACKET, first, ctx, st, depth, o);
    items_unfold(b, pos, dialect, depth + 1, done);
    if let Ok(NextAt::Item(p)) = next_at(b, pos, dialect, RBRACKET, first) {
        let st1 = emit_next(b, pos, RBRACKET, first, ctx, st, depth)->Ok_0.2;
        let (m, item, _) = built(b, p, unbounded(dialect), no_room(), depth + 1)->Ok_0;
        value_is_emitted(b, p, m, item, ctx, st1, depth + 1, o);
        let st2 = emit_value(b, p, ctx, st1, depth + 1)->Ok_0.1;
        items_are_emitted(b, m, e, done.push(item), read, ctx, st2, depth, o);
        let later = emit_children(b, m, RBRACKET, false, ctx, st2, depth)->Ok_0.1;
        begins_chain(st2.out, st.out, st1.out);
        begins_chain(later.out, st.out, st2.out);
        assert(emit_child(b, p, RBRACKET, ctx, st1, depth) == emit_value(b, p, ctx, st1, depth + 1));
        assert(emit_children(b, pos, RBRACKET, first, ctx, st, depth) == Ok::<(int, Emitted), Error>((e, later)));
        if begins(o, later.out) {
            begins_chain(o, st2.out, later.out);
            begins_chain(o, st1.out, st2.out);
            item_follows(
                o,
                st.out.len() as int,
                st1.out.len() as int,
                st2.out.len() as int,
                item,
                dialect,
                depth + 1,
                done,
            );
        }
    }
}

proof fn object_is_emitted(b: Seq<u8>, p: int, e: int, j: Json, ctx: EmitCtx, st: Emitted, depth: int, o: Seq<u8>)
    requires
        0 <= p < b.len(),
        b[p] == LBRACE,
        writable_facts(b, ctx.facts, ctx.dialect),
        trivia_end(b, p, ctx.dialect) == Ok::<int, Error>(p),
        built(b, p, unbounded(ctx.dialect), no_room(), depth) == Ok::<(int, Json, Room), Error>((e, j, no_room())),
    ensures
        emit_value(b, p, ctx, st, depth) matches Ok((end, later)) && end == e && begins(later.out, st.out) && (begins(o, later.out)
            ==> value_follows(o, st.out.len() as int, ctx.dialect, depth, j, later.out.len() as int)),
    decreases b.len() - p, 0nat,
{
    reveal(next_at);
    let dialect = ctx.dialect;
    let st0 = flushed(b, ctx.facts, st, p);
    flush_is_trivia(b, ctx.facts, st, p, o, dialect);
    let opened = more(st0, seq![b[p]]);
    byte_stands(st0, b[p], o);
    begins_chain(opened.out, st.out, st0.out);
    trivia_end_bounds(b, p + 1, dialect);
    let q = trivia_end(b, p + 1, dialect)->Ok_0;
    let st1 = flushed(b, ctx.facts, opened, q);
    flush_is_trivia(b, ctx.facts, opened, q, o, dialect);
    begins_chain(st1.out, st.out, opened.out);
    let read = j->Object_0;
    if q < b.len() && b[q] == RBRACE {
        let later = more(st1, seq![RBRACE]);
        byte_stands(st1, RBRACE, o);
        begins_chain(later.out, st.out, st1.out);
        if begins(o, later.out) {
            trivia_end_here(o, st1.out.len() as int, dialect);
            trivia_end_here(o, st0.out.len() as int, dialect);
            assert(next_at(o, opened.out.len() as int, dialect, RBRACE, true) == Ok::<NextAt, Error>(
                NextAt::Close(later.out.len() as int),
            ));
        }
    } else {
        trivia_end_settles(b, p + 1, dialect);
        trivia_before_children(b, p + 1, q, dialect, depth + 1);
        members_are_emitted(b, q, e, Seq::empty(), read, ctx, st1, depth, o);
        let later = emit_children(b, q, RBRACE, true, ctx, st1, depth)->Ok_0.1;
        begins_chain(later.out, st.out, st1.out);
        begins_chain(later.out, st0.out, st1.out);
        if begins(o, later.out) {
            begins_chain(o, st1.out, later.out);
            trivia_end_here(o, st0.out.len() as int, dialect);
            trivia_before_children(o, opened.out.len() as int, st1.out.len() as int, dialect, depth + 1);
        }
    }
}

/// Members that follow each other in a text are read one after the other.
proof fn member_follows(
    o: Seq<u8>,
    x: int,
    x1: int,
    xk: int,
    x2: int,
    key: Seq<u8>,
    value: Json,
    dialect: Dialect,
    depth: int,
    done: Seq<(Seq<u8>, Json)>,
)
    requires
        0 <= x <= x1 < xk <= o.len(),
        !is_space(o[x1]) && o[x1] != SLASH && o[x1] != RBRACE,
        trivia_end(o, x1, dialect) matches Ok(r) ==> (r < o.len() && o[r] != RBRACE ==> next_at(
            o,
            x,
            dialect,
            RBRACE,
            done.len() == 0,
        ) == Ok::<NextAt, Error>(NextAt::Item(r))),
        trivia_end(o, xk, dialect) is Ok ==> built_key(o, x1, unbounded(dialect), no_room()) == Ok::<
            (int, Seq<u8>, Room),
            Error,
        >((trivia_end(o, xk, dialect)->Ok_0, key, no_room())),
        value_follows(o, xk, dialect, depth, value, x2),
    ensures
        built_members(o, x, unbounded(dialect), no_room(), depth, done) == built_members(
            o,
            x2,
            unbounded(dialect),
            no_room(),
            depth,
            merged(done, key, value),
        ),
{
    let r = trivia_end(o, xk, dialect)->Ok_0;
    trivia_end_bounds(o, xk, dialect);
    trivia_end_here(o, x1, dialect);
    parse_agrees_with_strict_skip(o, r, dialect, depth);
    member_step(o, x, x1, r, x2, key, value, dialect, depth, done);
}

proof fn members_are_emitted(
    b: Seq<u8>,
    pos: int,
    e: int,
    done: Seq<(Seq<u8>, Json)>,
    read: Seq<(Seq<u8>, Json)>,
    ctx: EmitCtx,
    st: Emitted,
    depth: int,
    o: Seq<u8>,
)
    requires
        0 <= pos <= b.len(),
        writable_facts(b, ctx.facts, ctx.dialect),
        built_members(b, pos, unbounded(ctx.dialect), no_room(), depth + 1, done) == Ok::<
            (int, Seq<(Seq<u8>, Json)>, Room),
            Error,
        >((e, read, no_room())),
    ensures
        emit_children(b, pos, RBRACE, done.len() == 0, ctx, st, depth) matches Ok((end, later)) && end == e && begins(
            later.out,
            st.out,
        ) && later.out.len() > st.out.len() && (begins(o, later.out) ==> (done.len() == 0 || token_end(
            o,
            st.out.len() as int,
            ctx.dialect,
        )) && built_members(o, st.out.len() as int, unbounded(ctx.dialect), no_room(), depth + 1, done) == Ok::<
            (int, Seq<(Seq<u8>, Json)>, Room),
            Error,
        >((later.out.len() as int, read, no_room()))),
    decreases b.len() - pos, 2nat,
{
    let dialect = ctx.dialect;
    let first = done.len() == 0;
    next_is_emitted(b, pos, RBRACE, first, ctx, st, depth, o);
    members_unfold(b, pos, dialect, depth + 1, done);
    if let Ok(NextAt::Item(p)) = next_at(b, pos, dialect, RBRACE, first) {
        let st1 = emit_next(b, pos, RBRACE, first, ctx, st, depth)->Ok_0.2;
        let (v, key, _) = built_key(b, p, unbounded(dialect), no_room())->Ok_0;
        built_key_reads(b, p, dialect);
        key_is_emitted(b, p, v, key, ctx, st1, o);
        let stk = emit_key(b, p, ctx, st1)->Ok_0.1;
        let (m, x, _) = built(b, v, unbounded(dialect), no_room(), depth + 1)->Ok_0;
        value_is_emitted(b, v, m, x, ctx, stk, depth + 1, o);
        let st2 = emit_value(b, v, ctx, stk, depth + 1)->Ok_0.1;
        merged_is_not_empty(done, key, x);
        members_are_emitted(b, m, e, merged(done, key, x), read, ctx, st2, depth, o);
        let later = emit_children(b, m, RBRACE, false, ctx, st2, depth)->Ok_0.1;
        begins_chain(stk.out, st.out, st1.out);
        begins_chain(st2.out, st.out, stk.out);
        begins_chain(later.out, st.out, st2.out);
        assert(emit_child(b, p, RBRACE, ctx, st1, depth) == emit_value(b, v, ctx, stk, depth + 1));
        assert(emit_children(b, pos, RBRACE, first, ctx, st, depth) == Ok::<(int, Emitted), Error>((e, later)));
        if begins(o, later.out) {
            begins_chain(o, st2.out, later.out);
            begins_chain(o, stk.out, st2.out);
            begins_chain(o, st1.out, stk.out);
            member_follows(
                o,
                st.out.len() as int,
                st1.out.len() as int,
                stk.out.len() as int,
                st2.out.len() as int,
                key,
                x,
                dialect,
                depth + 1,
                done,
            );
        }
    }
}

proof fn placed_fact_is_writable(b: Seq<u8>, sorted: Seq<FactModel>, f: FactModel, dialect: Dialect)
    requires
        writable_facts(b, sorted, dialect),
        dialect.comments(),
        is_comment(fact_bytes(b, f)),
    ensures
        writable_facts(b, placed_fact(sorted, f), dialect),
    decreases sorted.len(),
{
    if sorted.len() > 0 && crate::emit::emit_position(sorted.last()) > crate::emit::emit_position(f) {
        let rest = sorted.drop_last();
        assert forall|i: int| 0 <= i < rest.len() implies is_comment(fact_bytes(b, #[trigger] rest[i])) by {
            assert(rest[i] == sorted[i]);
        }
        placed_fact_is_writable(b, rest, f, dialect);
        assert(sorted.last() == sorted[sorted.len() - 1]);
    }
}

/// Choosing and ordering facts leaves them writable.
pub(crate) proof fn chosen_facts_are_writable(b: Seq<u8>, facts: Seq<FactModel>, from: int, to: int, dialect: Dialect)
    requires
        writable_facts(b, facts, dialect),
    ensures
        writable_facts(b, facts_within(facts, from, to), dialect),
        writable_facts(b, emit_order(facts), dialect),
    decreases facts.len(),
{
    if facts.len() > 0 {
        let rest = facts.drop_last();
        assert forall|i: int| 0 <= i < rest.len() implies is_comment(fact_bytes(b, #[trigger] rest[i])) by {
            assert(rest[i] == facts[i]);
        }
        chosen_facts_are_writable(b, rest, from, to, dialect);
        assert(facts.last() == facts[facts.len() - 1]);
        placed_fact_is_writable(b, emit_order(rest), facts.last(), dialect);
    }
}

proof fn span_is_emitted(b: Seq<u8>, s: ByteRange, j: Json, indent: Option<Indent>, facts: Seq<FactModel>, dialect: Dialect)
    requires
        reads_at(b, s, j, dialect),
        writable_facts(b, facts, dialect),
    ensures
        emit_span(b, s.start as int, s.end as int, indent, dialect, facts) matches Ok(text) && read_text(text, dialect) == Ok::<
            Json,
            Error,
        >(j),
{
    reveal(emit_span);
    reveal(settles);
    let from = s.start as int;
    let to = s.end as int;
    chosen_facts_are_writable(b, facts, from, to, dialect);
    chosen_facts_are_writable(b, facts_within(facts, from, to), from, to, dialect);
    let ctx = EmitCtx { indent, dialect, facts: emit_order(facts_within(facts, from, to)) };
    let start = Emitted { out: Seq::empty(), next: 0, last: None };
    value_start(b, from, dialect, 0);
    trivia_end_here(b, from, dialect);
    trivia_end_bounds(b, to, dialect);
    let st0 = flushed(b, ctx.facts, start, from);
    value_is_emitted(b, from, to, j, ctx, st0, 0, Seq::empty());
    let st1 = emit_value(b, from, ctx, st0, 0)->Ok_0.1;
    let o = flushed(b, ctx.facts, st1, to).out;
    flush_is_trivia(b, ctx.facts, start, from, o, dialect);
    value_is_emitted(b, from, to, j, ctx, st0, 0, o);
    flush_is_trivia(b, ctx.facts, st1, to, o, dialect);
    assert(begins(o, o));
    begins_chain(o, st0.out, st1.out);
    trivia_end_here(o, o.len() as int, dialect);
    reveal(built_text);
}

/// A written document reads back as the value it locates, compact or pretty, with
/// its comments or verbatim.
pub proof fn written_document_reads_back(d: DocumentModel, opts: EncodeOptions, j: Json)
    requires
        d.grammar == Some(opts.dialect.tag_code()),
        reads_at(d.source, d.root, j, opts.dialect),
        writable_facts(d.source, d.facts, opts.dialect),
    ensures
        written_document(d, opts) matches Ok(text) && read_text(text, opts.dialect) == Ok::<Json, Error>(j),
{
    reveal(written_document);
    if opts.verbatim && !opts.pretty {
        value_reads_the_same_alone(d.source, d.root.start as int, opts.dialect);
        assert(span_bytes(d.source, d.root) == cut(d.source, d.root.start as int, d.root.end as int));
    } else {
        let indent = if opts.pretty {
            Some(opts.indent)
        } else {
            None
        };
        span_is_emitted(d.source, d.root, j, indent, d.facts, opts.dialect);
    }
}

} // verus!
