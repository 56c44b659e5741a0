//! Token-copy encoding of a validated document, and the encode entries.

use vstd::prelude::*;

use crate::answer::{facts_within, within, Document, DocumentModel};
use crate::ascii::{COLON, COMMA, LBRACE, LBRACKET, LF, RBRACE, RBRACKET, RECORD, SLASH, SPACE};
use crate::dialect::Dialect;
use crate::encode::{
    append, line_break, newline_indent, write_value, writes_as, written, EncodeOptions, Indent, ItemFraming,
};
use crate::error::{at, Error, ErrorKind};
use crate::facts::{facts_model, Fact, FactModel, FactRole};
use crate::lex::skip::{scalar, skip_scalar, uncommaed, unclosed, Check, MAX_NESTING};
use crate::lex::ws::{skip_trivia, trivia_end};
use crate::lex::{key_end, skip_key};
use crate::text::text_bytes;
use crate::value::{json, span_bytes, well_formed, ByteRange, Value};

verus! {

/// Where a canonical walk emits a fact.
pub open spec fn emit_position(f: FactModel) -> usize {
    match f.source_span {
        Some(s) => s.end,
        None => match f.role {
            FactRole::CommentFoot => f.owner.end,
            _ => f.owner.start,
        },
    }
}

/// A fact put after the last fact that is emitted no later.
pub open spec fn placed_fact(sorted: Seq<FactModel>, f: FactModel) -> Seq<FactModel>
    decreases sorted.len(),
{
    if sorted.len() == 0 || emit_position(sorted.last()) <= emit_position(f) {
        sorted.push(f)
    } else {
        placed_fact(sorted.drop_last(), f).push(sorted.last())
    }
}

/// Facts in the order they are emitted; facts of one position keep their order.
pub open spec fn emit_order(facts: Seq<FactModel>) -> Seq<FactModel>
    decreases facts.len(),
{
    if facts.len() == 0 {
        Seq::empty()
    } else {
        placed_fact(emit_order(facts.drop_last()), facts.last())
    }
}

/// How a document is emitted: the indent when pretty, the grammar, and the
/// facts in emit order.
pub struct EmitCtx {
    /// Pretty indent.
    pub indent: Option<Indent>,
    /// Grammar.
    pub dialect: Dialect,
    /// Facts in emit order.
    pub facts: Seq<FactModel>,
}

/// What was emitted so far.
pub struct Emitted {
    /// Bytes.
    pub out: Seq<u8>,
    /// Next fact.
    pub next: int,
    /// Glyph of the last fact written.
    pub last: Option<ByteRange>,
}

/// More bytes emitted.
pub open spec fn more(st: Emitted, bytes: Seq<u8>) -> Emitted {
    Emitted { out: st.out + bytes, ..st }
}

/// Whether a line comment starts at `pos`.
pub open spec fn line_comment_at(b: Seq<u8>, pos: int) -> bool {
    pos + 1 < b.len() && b[pos] == SLASH && b[pos + 1] == SLASH
}

/// How a fact is written: its authored glyph, or a line comment. A line comment
/// needs a terminator before the next token.
pub open spec fn fact_bytes(b: Seq<u8>, f: FactModel) -> Seq<u8> {
    match f.source_span {
        Some(s) => span_bytes(b, s) + (if line_comment_at(b, s.start as int) {
            seq![LF]
        } else {
            Seq::empty()
        }),
        None => seq![SLASH, SLASH] + f.text + seq![LF],
    }
}

/// Every pending fact at or before `upto` written; one glyph is written once.
pub open spec fn flushed(b: Seq<u8>, facts: Seq<FactModel>, st: Emitted, upto: int) -> Emitted
    decreases facts.len() - st.next,
{
    if 0 <= st.next < facts.len() && emit_position(facts[st.next]) <= upto {
        let f = facts[st.next];
        if f.source_span is Some && f.source_span == st.last {
            flushed(b, facts, Emitted { next: st.next + 1, ..st }, upto)
        } else {
            flushed(
                b,
                facts,
                Emitted { out: st.out + fact_bytes(b, f), next: st.next + 1, last: f.source_span },
                upto,
            )
        }
    } else {
        st
    }
}

/// The indent of `depth` levels when pretty.
pub open spec fn indent_bytes(ctx: EmitCtx, depth: int) -> Seq<u8> {
    match ctx.indent {
        Some(indent) => line_break(indent, depth),
        None => Seq::empty(),
    }
}

/// The colon after a key.
pub open spec fn colon_bytes(ctx: EmitCtx) -> Seq<u8> {
    match ctx.indent {
        Some(_) => seq![COLON, SPACE],
        None => seq![COLON],
    }
}

/// The value past the trivia at `pos`, copied token by token: where it ends and
/// what was emitted.
pub open spec fn emit_value(b: Seq<u8>, pos: int, ctx: EmitCtx, st: Emitted, depth: int) -> Result<(int, Emitted), Error>
    decreases b.len() - pos, 3nat,
{
    match trivia_end(b, pos, ctx.dialect) {
        Err(error) => Err(error),
        Ok(p) => {
            let st1 = flushed(b, ctx.facts, st, p);
            if !(pos <= p < b.len()) {
                Err(at(ErrorKind::ExpectedValue, p))
            } else if b[p] == LBRACKET {
                emit_container(b, p, RBRACKET, ctx, st1, depth)
            } else if b[p] == LBRACE {
                emit_container(b, p, RBRACE, ctx, st1, depth)
            } else {
                match scalar(b, p, Check::Locate, ctx.dialect) {
                    Err(error) => Err(error),
                    Ok(e) => Ok((e, more(st1, b.subrange(p, e)))),
                }
            }
        },
    }
}

/// The container at `pos`.
pub open spec fn emit_container(b: Seq<u8>, pos: int, closer: u8, ctx: EmitCtx, st: Emitted, depth: int) -> Result<
    (int, Emitted),
    Error,
>
    decreases b.len() - pos, 2nat,
{
    if depth >= MAX_NESTING || pos >= b.len() {
        Err(at(ErrorKind::Limit, pos))
    } else {
        let opened = more(st, seq![b[pos]]);
        match trivia_end(b, pos + 1, ctx.dialect) {
            Err(error) => Err(error),
            Ok(p) => {
                let st1 = flushed(b, ctx.facts, opened, p);
                if p < b.len() && b[p] == closer {
                    Ok((p + 1, more(st1, seq![closer])))
                } else if pos < p <= b.len() {
                    emit_children(b, p, closer, true, ctx, st1, depth)
                } else {
                    Err(at(unclosed(closer), p))
                }
            },
        }
    }
}

/// The closer of a container, on its own line when pretty.
pub open spec fn closed(ctx: EmitCtx, st: Emitted, closer: u8, depth: int) -> Emitted {
    more(st, indent_bytes(ctx, depth) + seq![closer])
}

/// The children of a container from `pos` to its closer.
pub open spec fn emit_children(
    b: Seq<u8>,
    pos: int,
    closer: u8,
    first: bool,
    ctx: EmitCtx,
    st: Emitted,
    depth: int,
) -> Result<(int, Emitted), Error>
    decreases b.len() - pos, 5nat,
{
    match emit_next(b, pos, closer, first, ctx, st, depth) {
        Err(error) => Err(error),
        Ok((true, p, st1)) => Ok((p, st1)),
        Ok((false, p, st1)) => if pos <= p <= b.len() {
            match emit_child(b, p, closer, ctx, st1, depth) {
                Err(error) => Err(error),
                Ok((e, st2)) => if p < e <= b.len() {
                    emit_children(b, e, closer, false, ctx, st2, depth)
                } else {
                    Ok((e, st2))
                },
            }
        } else {
            Ok((p, st1))
        },
    }
}

/// What comes next inside a container: its closer, or a child to emit. The
/// separator is copied as it is met.
#[verifier::opaque]
pub open spec fn emit_next(b: Seq<u8>, pos: int, closer: u8, first: bool, ctx: EmitCtx, st: Emitted, depth: int) -> Result<
    (bool, int, Emitted),
    Error,
> {
    match trivia_end(b, pos, ctx.dialect) {
        Err(error) => Err(error),
        Ok(p) => {
            let st1 = flushed(b, ctx.facts, st, p);
            if p >= b.len() {
                Err(at(unclosed(closer), p))
            } else if b[p] == closer {
                Ok((true, p + 1, closed(ctx, st1, closer, depth)))
            } else if first {
                Ok((false, p, more(st1, indent_bytes(ctx, depth + 1))))
            } else if b[p] != COMMA {
                Err(at(uncommaed(closer), p))
            } else {
                match trivia_end(b, p + 1, ctx.dialect) {
                    Err(error) => Err(error),
                    Ok(q) => {
                        let st2 = flushed(b, ctx.facts, more(st1, seq![COMMA]), q);
                        if q < b.len() && b[q] == closer {
                            if ctx.dialect.comments() {
                                Ok((true, q + 1, closed(ctx, st2, closer, depth)))
                            } else {
                                Err(at(ErrorKind::TrailingComma, q))
                            }
                        } else {
                            Ok((false, q, more(st2, indent_bytes(ctx, depth + 1))))
                        }
                    },
                }
            }
        },
    }
}

/// One child of a container: an element, or a member's key and value.
pub open spec fn emit_child(b: Seq<u8>, p: int, closer: u8, ctx: EmitCtx, st: Emitted, depth: int) -> Result<
    (int, Emitted),
    Error,
>
    decreases b.len() - p, 4nat,
{
    if closer == RBRACE {
        match emit_key(b, p, ctx, st) {
            Err(error) => Err(error),
            Ok((v, st1)) => if p < v <= b.len() {
                emit_value(b, v, ctx, st1, depth + 1)
            } else {
                Err(at(ErrorKind::ExpectedValue, v))
            },
        }
    } else {
        emit_value(b, p, ctx, st, depth + 1)
    }
}

/// A member's key and colon.
#[verifier::opaque]
pub open spec fn emit_key(b: Seq<u8>, p: int, ctx: EmitCtx, st: Emitted) -> Result<(int, Emitted), Error> {
    match key_end(b, p, Check::Locate, ctx.dialect) {
        Err(error) => Err(error),
        Ok(e) => {
            let st1 = more(st, b.subrange(p, e) + colon_bytes(ctx));
            match trivia_end(b, e, ctx.dialect) {
                Err(error) => Err(error),
                Ok(c) => {
                    let st2 = flushed(b, ctx.facts, st1, c);
                    if c < b.len() && b[c] == COLON {
                        match trivia_end(b, c + 1, ctx.dialect) {
                            Err(error) => Err(error),
                            Ok(v) => Ok((v, flushed(b, ctx.facts, st2, v))),
                        }
                    } else {
                        Err(at(ErrorKind::ExpectedColon, c))
                    }
                },
            }
        },
    }
}

/// The value in `[from, to)` and the facts attached inside it.
#[verifier::opaque]
pub open spec fn emit_span(b: Seq<u8>, from: int, to: int, indent: Option<Indent>, dialect: Dialect, facts: Seq<FactModel>) -> Result<
    Seq<u8>,
    Error,
> {
    let ctx = EmitCtx { indent, dialect, facts: emit_order(facts_within(facts, from, to)) };
    let start = Emitted { out: Seq::empty(), next: 0, last: None };
    if from > b.len() {
        Err(at(ErrorKind::ExpectedValue, from))
    } else {
        match trivia_end(b, from, dialect) {
            Err(error) => Err(error),
            Ok(pos) => match emit_value(b, pos, ctx, flushed(b, ctx.facts, start, pos), 0) {
                Err(error) => Err(error),
                Ok((end, st)) => match trivia_end(b, end, dialect) {
                    Err(error) => Err(error),
                    Ok(tail) => if tail < to {
                        Err(at(ErrorKind::TrailingContent, tail))
                    } else {
                        Ok(
                            flushed(
                                b,
                                ctx.facts,
                                st,
                                if tail < to {
                                    tail
                                } else {
                                    to
                                },
                            ).out,
                        )
                    },
                },
            },
        }
    }
}

/// The bytes a document is written as. Only a fully validated document is
/// written, and only under its own grammar when its bytes are copied.
#[verifier::opaque]
pub open spec fn written_document(d: DocumentModel, opts: EncodeOptions) -> Result<Seq<u8>, Error> {
    if d.grammar is None {
        Err(at(ErrorKind::NotFullyValidated, 0))
    } else if opts.verbatim && !opts.pretty {
        if d.grammar != Some(opts.dialect.tag_code()) {
            Err(at(ErrorKind::DialectMismatch, 0))
        } else {
            Ok(span_bytes(d.source, d.root))
        }
    } else {
        emit_span(
            d.source,
            d.root.start as int,
            d.root.end as int,
            if opts.pretty {
                Some(opts.indent)
            } else {
                None
            },
            opts.dialect,
            d.facts,
        )
    }
}

/// What a write consumes.
#[derive(Clone, Copy, Debug)]
#[non_exhaustive]
pub enum Source<'a, 'src> {
    /// Owned mutable tree: a canonical walk.
    Value(&'a Value),
    /// A [`Document`]. Refused unless fully validated (the write gate). A
    /// byte-preserving write requires the document grammar to match the
    /// options' dialect.
    Document(&'a Document<'src>),
}

/// The bytes a source is written as, without framing.
pub open spec fn written_source(source: Source<'_, '_>, opts: EncodeOptions) -> Result<Seq<u8>, Error> {
    match source {
        Source::Value(value) => written(json(*value), opts, 0),
        Source::Document(document) => written_document(document@, opts),
    }
}

/// The bytes an item is written as: a record prefix, the item, a terminator.
pub open spec fn framed(item: Result<Seq<u8>, Error>, framing: ItemFraming) -> Result<Seq<u8>, Error> {
    match item {
        Err(error) => Err(error),
        Ok(text) => Ok(
            match framing {
                ItemFraming::Unframed => text,
                ItemFraming::NdjsonLf => text + seq![LF],
                ItemFraming::JsonSeq => seq![RECORD] + text + seq![LF],
            },
        ),
    }
}

/// The facts of an emit order.
pub open spec fn facts_at(facts: Seq<Fact>, order: Seq<usize>) -> Seq<FactModel> {
    Seq::new(order.len(), |i: int| facts[order[i] as int]@)
}

fn position(fact: &Fact) -> (r: usize)
    ensures
        r == emit_position(fact@),
{
    match fact.source_span {
        Some(s) => s.end,
        None => match fact.role {
            FactRole::CommentFoot => fact.owner.end,
            _ => fact.owner.start,
        },
    }
}

proof fn placed_fact_is_insert(sorted: Seq<FactModel>, f: FactModel, j: int)
    requires
        0 <= j <= sorted.len(),
        j > 0 ==> emit_position(sorted[j - 1]) <= emit_position(f),
        forall|k: int| j <= k < sorted.len() ==> emit_position(#[trigger] sorted[k]) > emit_position(f),
    ensures
        placed_fact(sorted, f) == sorted.insert(j, f),
    decreases sorted.len(),
{
    if j == sorted.len() {
        assert(sorted.push(f) =~= sorted.insert(j, f));
        if sorted.len() > 0 {
            assert(sorted.last() == sorted[j - 1]);
        }
    } else {
        assert(sorted.last() == sorted[sorted.len() - 1]);
        placed_fact_is_insert(sorted.drop_last(), f, j);
        assert(sorted.drop_last().insert(j, f).push(sorted.last()) =~= sorted.insert(j, f));
    }
}

/// Positions of the facts inside `[from, to)`, in emit order.
fn order_facts(facts: &Vec<Fact>, from: usize, to: usize) -> (r: Vec<usize>)
    ensures
        facts_at(facts@, r@) == emit_order(facts_within(facts_model(facts@), from as int, to as int)),
        forall|k: int| 0 <= k < r@.len() ==> #[trigger] r@[k] < facts@.len(),
{
    let ghost model = facts_model(facts@);
    let mut order: Vec<usize> = Vec::new();
    let mut i: usize = 0;
    while i < facts.len()
        invariant
            i <= facts@.len(),
            model == facts_model(facts@),
            facts_at(facts@, order@) == emit_order(facts_within(model.take(i as int), from as int, to as int)),
            forall|k: int| 0 <= k < order@.len() ==> #[trigger] order@[k] < facts@.len(),
        decreases facts@.len() - i,
    {
        let ghost next = model.take(i + 1);
        proof {
            assert(next.drop_last() =~= model.take(i as int));
            assert(next.last() == facts@[i as int]@);
        }
        if within(&facts[i], from, to) {
            let ghost before = facts_at(facts@, order@);
            let at_position: usize = position(&facts[i]);
            let mut j: usize = order.len();
            while j > 0 && position(&facts[order[j - 1]]) > at_position
                invariant
                    j <= order@.len(),
                    i < facts@.len(),
                    before == facts_at(facts@, order@),
                    at_position == emit_position(facts@[i as int]@),
                    forall|k: int| 0 <= k < order@.len() ==> #[trigger] order@[k] < facts@.len(),
                    forall|k: int| j <= k < before.len() ==> emit_position(#[trigger] before[k]) > at_position,
                decreases j,
            {
                proof {
                    assert(before[j - 1] == facts@[order@[j - 1] as int]@);
                }
                j -= 1;
            }
            proof {
                if j > 0 {
                    assert(before[j - 1] == facts@[order@[j - 1] as int]@);
                }
                placed_fact_is_insert(before, facts@[i as int]@, j as int);
                let ghost kept = facts_within(model.take(i as int), from as int, to as int);
                assert(kept.push(next.last()).drop_last() =~= kept);
            }
            let ghost old_order = order@;
            order.insert(j, i);
            proof {
                assert(order@ =~= old_order.insert(j as int, i));
                assert(facts_at(facts@, order@) =~= before.insert(j as int, facts@[i as int]@));
            }
        }
        i += 1;
    }
    proof {
        assert(model.take(i as int) =~= model);
    }
    order
}

/// A canonical walk over one document: what was emitted and which facts are
/// still pending.
struct Emitter<'a> {
    bytes: &'a [u8],
    facts: &'a Vec<Fact>,
    order: Vec<usize>,
    opts: EncodeOptions,
    out: Vec<u8>,
    next: usize,
    last: Option<ByteRange>,
}

impl<'a> Emitter<'a> {
    spec fn ctx(self) -> EmitCtx {
        EmitCtx {
            indent: if self.opts.pretty {
                Some(self.opts.indent)
            } else {
                None
            },
            dialect: self.opts.dialect,
            facts: facts_at(self.facts@, self.order@),
        }
    }

    spec fn state(self) -> Emitted {
        Emitted { out: self.out@, next: self.next as int, last: self.last }
    }

    spec fn wf(self) -> bool {
        &&& forall|k: int| 0 <= k < self.order@.len() ==> #[trigger] self.order@[k] < self.facts@.len()
        &&& self.next <= self.order@.len()
    }

    /// The same walk, later.
    spec fn continues(self, before: Self) -> bool {
        &&& self.wf()
        &&& self.bytes == before.bytes
        &&& self.ctx() == before.ctx()
        &&& self.opts == before.opts
    }

    fn push(&mut self, byte: u8)
        requires
            old(self).wf(),
        ensures
            final(self).continues(*old(self)),
            final(self).state() == more(old(self).state(), seq![byte]),
    {
        self.out.push(byte);
        proof {
            assert(self.out@ =~= old(self).out@ + seq![byte]);
        }
    }

    fn copy(&mut self, from: usize, to: usize)
        requires
            old(self).wf(),
            from <= to <= old(self).bytes@.len(),
        ensures
            final(self).continues(*old(self)),
            final(self).state() == more(old(self).state(), old(self).bytes@.subrange(from as int, to as int)),
    {
        append(&mut self.out, vstd::slice::slice_subrange(self.bytes, from, to));
    }

    fn indent(&mut self, depth: usize)
        requires
            old(self).wf(),
            depth <= MAX_NESTING,
        ensures
            final(self).continues(*old(self)),
            final(self).state() == more(old(self).state(), indent_bytes(old(self).ctx(), depth as int)),
    {
        if self.opts.pretty {
            newline_indent(&mut self.out, self.opts, depth);
        }
        proof {
            if !self.opts.pretty {
                assert(self.out@ =~= old(self).out@ + Seq::<u8>::empty());
            }
        }
    }

    fn close(&mut self, closer: u8, depth: usize)
        requires
            old(self).wf(),
            depth <= MAX_NESTING,
        ensures
            final(self).continues(*old(self)),
            final(self).state() == closed(old(self).ctx(), old(self).state(), closer, depth as int),
    {
        self.indent(depth);
        self.push(closer);
        proof {
            let ghost line = indent_bytes(old(self).ctx(), depth as int);
            assert((old(self).out@ + line) + seq![closer] =~= old(self).out@ + (line + seq![closer]));
        }
    }

    /// Write one fact.
    fn write(&mut self, index: usize)
        requires
            old(self).wf(),
            index < old(self).facts@.len(),
        ensures
            final(self).continues(*old(self)),
            final(self).state() == more(old(self).state(), fact_bytes(old(self).bytes@, old(self).facts@[index as int]@)),
            final(self).facts == old(self).facts,
            final(self).order == old(self).order,
    {
        let fact: &Fact = &self.facts[index];
        let ghost before = self.out@;
        match fact.source_span {
            Some(span) => {
                let len: usize = self.bytes.len();
                if span.start <= span.end && span.end <= len {
                    append(&mut self.out, vstd::slice::slice_subrange(self.bytes, span.start, span.end));
                }
                let ghost glyph = span_bytes(self.bytes@, span);
                proof {
                    assert(self.out@ =~= before + glyph);
                }
                if span.start < len && len - span.start >= 2 && self.bytes[span.start] == SLASH && self.bytes[span.start
                    + 1] == SLASH {
                    self.out.push(LF);
                    proof {
                        assert(self.out@ =~= before + (glyph + seq![LF]));
                    }
                } else {
                    proof {
                        assert(self.out@ =~= before + (glyph + Seq::<u8>::empty()));
                    }
                }
            },
            None => {
                self.out.push(SLASH);
                self.out.push(SLASH);
                let text = text_bytes(&fact.text);
                append(&mut self.out, text);
                self.out.push(LF);
                proof {
                    assert(self.out@ =~= before + (seq![SLASH, SLASH] + fact@.text + seq![LF]));
                }
            },
        }
    }

    /// Write every pending fact at or before `upto`.
    fn flush(&mut self, upto: usize)
        requires
            old(self).wf(),
        ensures
            final(self).continues(*old(self)),
            final(self).state() == flushed(old(self).bytes@, old(self).ctx().facts, old(self).state(), upto as int),
    {
        let ghost start = *self;
        let ghost whole = flushed(self.bytes@, self.ctx().facts, self.state(), upto as int);
        while self.next < self.order.len()
            invariant
                self.continues(start),
                self.facts == start.facts,
                self.order == start.order,
                whole == flushed(start.bytes@, start.ctx().facts, self.state(), upto as int),
            ensures
                self.continues(start),
                self.state() == whole,
            decreases self.order@.len() - self.next,
        {
            let index: usize = self.order[self.next];
            let fact: &Fact = &self.facts[index];
            proof {
                assert(self.ctx().facts[self.next as int] == fact@);
            }
            if position(fact) > upto {
                break;
            }
            let glyph: Option<ByteRange> = fact.source_span;
            self.next += 1;
            if glyph.is_some() && same_span(glyph, self.last) {
                continue;
            }
            self.last = glyph;
            self.write(index);
        }
    }
}

fn same_span(a: Option<ByteRange>, b: Option<ByteRange>) -> (r: bool)
    ensures
        r == (a == b),
{
    match (a, b) {
        (None, None) => true,
        (Some(x), Some(y)) => x.start == y.start && x.end == y.end,
        _ => false,
    }
}

/// Whether a walk step came out as named: where it ended and what it emitted.
spec fn emits_as(r: Result<usize, Error>, after: Emitted, named: Result<(int, Emitted), Error>) -> bool {
    match named {
        Ok((end, st)) => r is Ok && r->Ok_0 == end && after == st,
        Err(error) => r == Err::<usize, Error>(error),
    }
}

impl<'a> Emitter<'a> {
    fn emit(&mut self, pos: usize, depth: usize) -> (r: Result<usize, Error>)
        requires
            old(self).wf(),
            pos <= old(self).bytes@.len(),
            depth <= MAX_NESTING,
        ensures
            final(self).continues(*old(self)),
            emits_as(
                r,
                final(self).state(),
                emit_value(old(self).bytes@, pos as int, old(self).ctx(), old(self).state(), depth as int),
            ),
            r matches Ok(e) ==> pos < e <= old(self).bytes@.len(),
        decreases old(self).bytes@.len() - pos, 3nat,
    {
        let p: usize = skip_trivia(self.bytes, pos, self.opts.dialect)?;
        self.flush(p);
        if p >= self.bytes.len() {
            return Err(Error::new(ErrorKind::ExpectedValue, p));
        }
        let byte: u8 = self.bytes[p];
        if byte == LBRACKET {
            self.emit_container(p, RBRACKET, depth)
        } else if byte == LBRACE {
            self.emit_container(p, RBRACE, depth)
        } else {
            let e: usize = skip_scalar(self.bytes, p, Check::Locate, self.opts.dialect)?;
            self.copy(p, e);
            Ok(e)
        }
    }

    /// An array or an object.
    fn emit_container(&mut self, pos: usize, closer: u8, depth: usize) -> (r: Result<usize, Error>)
        requires
            old(self).wf(),
            pos < old(self).bytes@.len(),
            depth <= MAX_NESTING,
            closer == RBRACKET || closer == RBRACE,
        ensures
            final(self).continues(*old(self)),
            emits_as(
                r,
                final(self).state(),
                emit_container(old(self).bytes@, pos as int, closer, old(self).ctx(), old(self).state(), depth as int),
            ),
            r matches Ok(e) ==> pos < e <= old(self).bytes@.len(),
        decreases old(self).bytes@.len() - pos, 2nat,
    {
        if depth >= MAX_NESTING as usize {
            return Err(Error::new(ErrorKind::Limit, pos));
        }
        let len: usize = self.bytes.len();
        self.push(self.bytes[pos]);
        let p: usize = skip_trivia(self.bytes, pos + 1, self.opts.dialect)?;
        self.flush(p);
        if p < len && self.bytes[p] == closer {
            self.push(closer);
            return Ok(p + 1);
        }
        self.emit_children(p, closer, depth)
    }

    /// The children of a container, and its closer.
    fn emit_children(&mut self, pos: usize, closer: u8, depth: usize) -> (r: Result<usize, Error>)
        requires
            old(self).wf(),
            pos <= old(self).bytes@.len(),
            depth < MAX_NESTING,
            closer == RBRACKET || closer == RBRACE,
        ensures
            final(self).continues(*old(self)),
            emits_as(
                r,
                final(self).state(),
                emit_children(old(self).bytes@, pos as int, closer, true, old(self).ctx(), old(self).state(), depth as int),
            ),
            r matches Ok(e) ==> pos < e <= old(self).bytes@.len(),
        decreases old(self).bytes@.len() - pos, 5nat,
    {
        let ghost start = *self;
        let ghost whole = emit_children(
            self.bytes@,
            pos as int,
            closer,
            true,
            self.ctx(),
            self.state(),
            depth as int,
        );
        let mut cursor: usize = pos;
        let mut first: bool = true;
        loop
            invariant
                self.continues(start),
                start == *old(self),
                whole == emit_children(
                    start.bytes@,
                    pos as int,
                    closer,
                    true,
                    start.ctx(),
                    start.state(),
                    depth as int,
                ),
                pos <= cursor <= start.bytes@.len(),
                depth < MAX_NESTING,
                closer == RBRACKET || closer == RBRACE,
                whole == emit_children(
                    start.bytes@,
                    cursor as int,
                    closer,
                    first,
                    start.ctx(),
                    self.state(),
                    depth as int,
                ),
            decreases start.bytes@.len() - cursor,
        {
            match self.step(cursor, closer, first, depth)? {
                (true, p) => {
                    return Ok(p);
                },
                (false, p) => {
                    cursor = self.emit_child(p, closer, depth)?;
                },
            }
            first = false;
        }
    }

    /// Whether the container closes next, and where that or the next child is.
    fn step(&mut self, pos: usize, closer: u8, first: bool, depth: usize) -> (r: Result<(bool, usize), Error>)
        requires
            old(self).wf(),
            pos <= old(self).bytes@.len(),
            depth < MAX_NESTING,
            closer == RBRACKET || closer == RBRACE,
        ensures
            final(self).continues(*old(self)),
            match emit_next(
                old(self).bytes@,
                pos as int,
                closer,
                first,
                old(self).ctx(),
                old(self).state(),
                depth as int,
            ) {
                Ok((done, p, st)) => r is Ok && r->Ok_0 == (done, p as usize) && r->Ok_0.1 == p && final(self).state()
                    == st,
                Err(error) => r == Err::<(bool, usize), Error>(error),
            },
            r matches Ok((done, p)) ==> pos <= p <= old(self).bytes@.len() && (done ==> pos < p),
    {
        proof {
            reveal(emit_next);
        }
        let len: usize = self.bytes.len();
        let p: usize = skip_trivia(self.bytes, pos, self.opts.dialect)?;
        self.flush(p);
        if p >= len {
            return Err(
                Error::new(
                    if closer == RBRACE {
                        ErrorKind::ExpectedKey
                    } else {
                        ErrorKind::ExpectedCommaArray
                    },
                    p,
                ),
            );
        }
        if self.bytes[p] == closer {
            self.close(closer, depth);
            return Ok((true, p + 1));
        }
        if first {
            self.indent(depth + 1);
            return Ok((false, p));
        }
        if self.bytes[p] != COMMA {
            return Err(
                Error::new(
                    if closer == RBRACE {
                        ErrorKind::ExpectedCommaObject
                    } else {
                        ErrorKind::ExpectedCommaArray
                    },
                    p,
                ),
            );
        }
        self.push(COMMA);
        let q: usize = skip_trivia(self.bytes, p + 1, self.opts.dialect)?;
        self.flush(q);
        if q < len && self.bytes[q] == closer {
            if self.opts.dialect.trailing_commas() {
                self.close(closer, depth);
                return Ok((true, q + 1));
            }
            return Err(Error::new(ErrorKind::TrailingComma, q));
        }
        self.indent(depth + 1);
        Ok((false, q))
    }

    /// An element, or a member.
    fn emit_child(&mut self, pos: usize, closer: u8, depth: usize) -> (r: Result<usize, Error>)
        requires
            old(self).wf(),
            pos <= old(self).bytes@.len(),
            depth < MAX_NESTING,
        ensures
            final(self).continues(*old(self)),
            emits_as(
                r,
                final(self).state(),
                emit_child(old(self).bytes@, pos as int, closer, old(self).ctx(), old(self).state(), depth as int),
            ),
            r matches Ok(e) ==> pos < e <= old(self).bytes@.len(),
        decreases old(self).bytes@.len() - pos, 4nat,
    {
        if closer == RBRACE {
            let v: usize = self.emit_key(pos)?;
            self.emit(v, depth + 1)
        } else {
            self.emit(pos, depth + 1)
        }
    }

    /// A member's key and colon; where its value is.
    fn emit_key(&mut self, pos: usize) -> (r: Result<usize, Error>)
        requires
            old(self).wf(),
            pos <= old(self).bytes@.len(),
        ensures
            final(self).continues(*old(self)),
            emits_as(r, final(self).state(), emit_key(old(self).bytes@, pos as int, old(self).ctx(), old(self).state())),
            r matches Ok(v) ==> pos < v <= old(self).bytes@.len(),
    {
        proof {
            reveal(emit_key);
        }
        let len: usize = self.bytes.len();
        let e: usize = skip_key(self.bytes, pos, Check::Locate, self.opts.dialect)?;
        self.copy(pos, e);
        self.push(COLON);
        if self.opts.pretty {
            self.push(SPACE);
        }
        proof {
            let ghost key = self.bytes@.subrange(pos as int, e as int);
            assert(self.out@ =~= old(self).out@ + (key + colon_bytes(self.ctx())));
        }
        let c: usize = skip_trivia(self.bytes, e, self.opts.dialect)?;
        self.flush(c);
        if c >= len || self.bytes[c] != COLON {
            return Err(Error::new(ErrorKind::ExpectedColon, c));
        }
        let v: usize = skip_trivia(self.bytes, c + 1, self.opts.dialect)?;
        self.flush(v);
        Ok(v)
    }
}

/// Emit the value of a document and the facts attached inside it.
fn emit_document(doc: &Document<'_>, opts: EncodeOptions, out: &mut Vec<u8>) -> (r: Result<(), Error>)
    ensures
        writes_as(
            r,
            old(out)@,
            final(out)@,
            emit_span(
                doc@.source,
                doc@.root.start as int,
                doc@.root.end as int,
                if opts.pretty {
                    Some(opts.indent)
                } else {
                    None
                },
                opts.dialect,
                doc@.facts,
            ),
        ),
{
    proof {
        reveal(emit_span);
        assert(out@.take(out@.len() as int) =~= out@);
    }
    let bytes = doc.source();
    let root: ByteRange = doc.root();
    let facts = doc.facts();
    if root.start > bytes.len() {
        return Err(Error::new(ErrorKind::ExpectedValue, root.start));
    }
    let order = order_facts(facts, root.start, root.end);
    let mut emitter = Emitter { bytes, facts, order, opts, out: Vec::new(), next: 0, last: None };
    proof {
        assert(emitter.out@ =~= Seq::<u8>::empty());
    }
    let pos: usize = skip_trivia(bytes, root.start, opts.dialect)?;
    emitter.flush(pos);
    let end: usize = emitter.emit(pos, 0)?;
    let tail: usize = skip_trivia(bytes, end, opts.dialect)?;
    if tail < root.end {
        return Err(Error::new(ErrorKind::TrailingContent, tail));
    }
    emitter.flush(root.end);
    append(out, emitter.out.as_slice());
    Ok(())
}

fn write_document(doc: &Document<'_>, opts: EncodeOptions, out: &mut Vec<u8>) -> (r: Result<(), Error>)
    ensures
        writes_as(r, old(out)@, final(out)@, written_document(doc@, opts)),
{
    proof {
        reveal(written_document);
        assert(out@.take(out@.len() as int) =~= out@);
    }
    let grammar = match doc.grammar() {
        None => {
            return Err(Error::new(ErrorKind::NotFullyValidated, 0));
        },
        Some(grammar) => grammar,
    };
    if opts.verbatim && !opts.pretty {
        // Copying under another grammar could emit spellings the requested
        // grammar does not admit.
        if grammar.code != opts.dialect.grammar_tag().code {
            return Err(Error::new(ErrorKind::DialectMismatch, 0));
        }
        let bytes = doc.source();
        let root: ByteRange = doc.root();
        if root.start <= root.end && root.end <= bytes.len() {
            append(out, vstd::slice::slice_subrange(bytes, root.start, root.end));
        }
        proof {
            assert(out@ =~= old(out)@ + span_bytes(doc@.source, doc@.root));
        }
        Ok(())
    } else {
        emit_document(doc, opts, out)
    }
}

/// Encode one value or document under `opts` into `out`. A document is copied
/// when `opts.verbatim`.
///
/// # Errors
///
/// `Infinity` / `-Infinity` / `NaN` outside JSON5, a document that was not
/// fully validated, or a byte-preserving write whose document was validated
/// under another dialect. What `out` held stays; some of the item may follow it.
pub fn encode(source: Source<'_, '_>, opts: &EncodeOptions, out: &mut Vec<u8>) -> (r: Result<(), Error>)
    ensures
        writes_as(r, old(out)@, final(out)@, framed(written_source(source, *opts), opts.framing)),
        r is Ok && source is Value ==> well_formed(json(*source->Value_0)),
{
    let framed_record: bool = matches!(opts.framing, ItemFraming::JsonSeq);
    if framed_record {
        out.push(RECORD);
    }
    let ghost before = out@;
    let written_item = match source {
        Source::Value(value) => write_value(value, *opts, out, 0),
        Source::Document(document) => write_document(document, *opts, out),
    };
    match written_item {
        Err(error) => {
            proof {
                assert(out@.take(old(out)@.len() as int) =~= before.take(old(out)@.len() as int));
                assert(before.take(old(out)@.len() as int) =~= old(out)@);
            }
            return Err(error);
        },
        Ok(()) => {},
    }
    if !matches!(opts.framing, ItemFraming::Unframed) {
        out.push(LF);
    }
    proof {
        assert(out@ =~= old(out)@ + framed(written_source(source, *opts), opts.framing)->Ok_0);
    }
    Ok(())
}

/// Encode one value under `opts` into fresh bytes.
///
/// # Errors
///
/// `Infinity` / `-Infinity` / `NaN` outside JSON5, or nesting past
/// [`MAX_NESTING`](crate::lex::skip::MAX_NESTING).
pub fn encode_value(value: &Value, opts: &EncodeOptions) -> (r: Result<Vec<u8>, Error>)
    ensures
        match framed(written(json(*value), *opts, 0), opts.framing) {
            Ok(text) => r matches Ok(bytes) && bytes@ == text,
            Err(error) => r == Err::<Vec<u8>, Error>(error),
        },
        r is Ok ==> well_formed(json(*value)),
{
    let mut out: Vec<u8> = Vec::new();
    let ghost start = out@;
    match encode(Source::Value(value), opts, &mut out) {
        Err(error) => Err(error),
        Ok(()) => {
            proof {
                assert(start + framed(written(json(*value), *opts, 0), opts.framing)->Ok_0 =~= framed(
                    written(json(*value), *opts, 0),
                    opts.framing,
                )->Ok_0);
            }
            Ok(out)
        },
    }
}

/// Encode one document under `opts` into fresh bytes.
///
/// # Errors
///
/// Same as [`encode`].
pub fn encode_document(doc: &Document<'_>, opts: &EncodeOptions) -> (r: Result<Vec<u8>, Error>)
    ensures
        match framed(written_document(doc@, *opts), opts.framing) {
            Ok(text) => r matches Ok(bytes) && bytes@ == text,
            Err(error) => r == Err::<Vec<u8>, Error>(error),
        },
{
    let mut out: Vec<u8> = Vec::new();
    let ghost start = out@;
    match encode(Source::Document(doc), opts, &mut out) {
        Err(error) => Err(error),
        Ok(()) => {
            proof {
                assert(start + framed(written_document(doc@, *opts), opts.framing)->Ok_0 =~= framed(
                    written_document(doc@, *opts),
                    opts.framing,
                )->Ok_0);
            }
            Ok(out)
        },
    }
}

/// The write gate: a document that was not fully validated is never written,
/// and one whose bytes are copied was validated under the grammar asked for.
pub proof fn only_validated_documents_are_written(d: DocumentModel, opts: EncodeOptions)
    requires
        written_document(d, opts) is Ok,
    ensures
        d.grammar is Some,
        opts.verbatim && !opts.pretty ==> d.grammar == Some(opts.dialect.tag_code()) && written_document(d, opts)
            == Ok::<Seq<u8>, Error>(span_bytes(d.source, d.root)),
{
    reveal(written_document);
}

} // verus!
