//! Comment facts: role, owner, and optional glyph span for each comment.
//!
//! One linear walk assigns roles and owners. A malformed region stops
//! collection; the validating walk owns error reporting.

use vstd::prelude::*;

use crate::ascii::{COLON, COMMA, CR, LBRACE, LBRACKET, RBRACE, RBRACKET, SLASH, SPACE, TAB};
use crate::dialect::Dialect;
use crate::lex::skip::{skip_present, starts_literal, starts_number, value_end, Check, Ctx, MAX_NESTING};
use crate::lex::stop_sets::{find_stop, run_end, run_end_facts, CommentStart, StopSet, Ws};
use crate::lex::string::opens_string;
use crate::lex::ws::{comment_end, comment_end_bounds, skip_comment, spans_of};
use crate::lex::{key_end, key_end_bounds, skip_key};
use crate::text::{bytes_of, lossy_bytes, text_lossy};
use crate::value::{span, ByteRange};

verus! {

/// How a comment attaches to its owner.
#[derive(Clone, Copy, Debug, PartialEq, Eq, Structural)]
pub enum FactRole {
    /// Before the owner, or inside it after its last child.
    CommentLead,
    /// Inside an owner that has no child.
    CommentInline,
    /// After the owner on its line.
    CommentFoot,
}

/// One comment: its role, its text, where it is written, and what it belongs to.
#[derive(Debug, PartialEq, Eq)]
pub struct Fact {
    /// Attachment role.
    pub role: FactRole,
    /// Comment text without its delimiters.
    pub text: String,
    /// Span of the authored comment, when it was kept.
    pub source_span: Option<ByteRange>,
    /// Span of the value the comment belongs to.
    pub owner: ByteRange,
}

/// [`Fact`] over sequences.
pub struct FactModel {
    /// Attachment role.
    pub role: FactRole,
    /// UTF-8 bytes of the comment text.
    pub text: Seq<u8>,
    /// Span of the authored comment, when it was kept.
    pub source_span: Option<ByteRange>,
    /// Span of the value the comment belongs to.
    pub owner: ByteRange,
}

impl View for Fact {
    type V = FactModel;

    open spec fn view(&self) -> FactModel {
        FactModel {
            role: self.role,
            text: bytes_of(self.text),
            source_span: self.source_span,
            owner: self.owner,
        }
    }
}

/// What several facts are.
pub open spec fn facts_model(facts: Seq<Fact>) -> Seq<FactModel> {
    facts.map_values(|f: Fact| f@)
}

impl Fact {
    /// A fact with the same parts.
    pub fn copied(&self) -> (r: Fact)
        ensures
            r@ == self@,
    {
        Fact { role: self.role, text: self.text.clone(), source_span: self.source_span, owner: self.owner }
    }
}

/// A copy of several facts.
pub fn copy_facts(facts: &Vec<Fact>) -> (r: Vec<Fact>)
    ensures
        facts_model(r@) == facts_model(facts@),
{
    let mut out: Vec<Fact> = Vec::new();
    let mut i: usize = 0;
    while i < facts.len()
        invariant
            i <= facts@.len(),
            out@.len() == i,
            forall|k: int| 0 <= k < i ==> (#[trigger] out@[k])@ == facts@[k]@,
        decreases facts@.len() - i,
    {
        out.push(facts[i].copied());
        i = i + 1;
    }
    assert(facts_model(out@) =~= facts_model(facts@));
    out
}

/// The end of whitespace from `pos`, not past `end`.
pub open spec fn space_end(b: Seq<u8>, pos: int, end: int) -> int {
    let e = run_end::<Ws>(b, pos);
    if e > end {
        end
    } else {
        e
    }
}

/// Whitespace and comments from `pos` up to `end`: where they stop, and the
/// comment spans. `None` when a comment does not close by `end`.
pub open spec fn trivia_read(b: Seq<u8>, pos: int, end: int) -> Option<(int, Seq<(int, int)>)>
    decreases b.len() - pos,
{
    if !(0 <= pos <= end <= b.len()) {
        Some((pos, Seq::empty()))
    } else {
        let p = space_end(b, pos, end);
        if p >= end || b[p] != SLASH {
            Some((p, Seq::empty()))
        } else {
            match comment_end(b, p) {
                Err(_) => None,
                Ok(close) => if close > end {
                    None
                } else if pos < close {
                    match trivia_read(b, close, end) {
                        None => None,
                        Some((next, more)) => Some((next, seq![(p, close)] + more)),
                    }
                } else {
                    None
                },
            }
        }
    }
}

/// Trivia that reads comes to a position at or after `pos`.
pub proof fn trivia_read_bounds(b: Seq<u8>, pos: int, end: int)
    requires
        0 <= pos <= end <= b.len(),
    ensures
        trivia_read(b, pos, end) matches Some((next, comments)) ==> pos <= next <= end,
    decreases b.len() - pos,
{
    run_end_facts::<Ws>(b, pos);
    let p = space_end(b, pos, end);
    if p < end && b[p] == SLASH {
        comment_end_bounds(b, p);
        if let Ok(close) = comment_end(b, p) {
            if close <= end {
                trivia_read_bounds(b, close, end);
            }
        }
    }
}

/// Comment text without its delimiters.
pub open spec fn comment_text(b: Seq<u8>, start: int, end: int) -> Seq<u8> {
    let to = if start + 1 < b.len() && b[start + 1] == SLASH {
        end
    } else {
        end - 2
    };
    if start + 2 <= to <= b.len() {
        lossy_bytes(b.subrange(start + 2, to))
    } else {
        lossy_bytes(Seq::empty())
    }
}

/// Whether only blanks and a separator sit between a value and a comment on the
/// value's line.
pub open spec fn same_line(b: Seq<u8>, value_end: int, comment_start: int) -> bool {
    &&& value_end <= comment_start <= b.len()
    &&& forall|i: int|
        value_end <= i < comment_start ==> (#[trigger] b[i] == SPACE || b[i] == TAB || b[i] == CR || b[i] == COMMA)
}

/// One comment's fact.
pub open spec fn fact(b: Seq<u8>, role: FactRole, comment: (int, int), owner: ByteRange, retain: bool) -> FactModel {
    FactModel {
        role,
        text: comment_text(b, comment.0, comment.1),
        source_span: if retain {
            Some(span(comment.0, comment.1))
        } else {
            None
        },
        owner,
    }
}

/// The facts of one comment between `previous` and `next`: a same-line comment
/// is a foot of `previous`, and a comment before `next` is a lead of `next`.
pub open spec fn gap_fact(b: Seq<u8>, comment: (int, int), previous: Option<ByteRange>, next: ByteRange, retain: bool) -> Seq<
    FactModel,
> {
    (if previous is Some && same_line(b, previous->0.end as int, comment.0) {
        seq![fact(b, FactRole::CommentFoot, comment, previous->0, retain)]
    } else {
        Seq::empty()
    }) + seq![fact(b, FactRole::CommentLead, comment, next, retain)]
}

/// The facts of the comments between `previous` and `next`.
pub open spec fn gap_facts(
    b: Seq<u8>,
    comments: Seq<(int, int)>,
    previous: Option<ByteRange>,
    next: ByteRange,
    retain: bool,
) -> Seq<FactModel>
    decreases comments.len(),
{
    if comments.len() == 0 {
        Seq::empty()
    } else {
        gap_facts(b, comments.drop_last(), previous, next, retain) + gap_fact(b, comments.last(), previous, next, retain)
    }
}

/// The role of a comment before a container's closer.
pub open spec fn trailer_role(previous: Option<ByteRange>) -> FactRole {
    if previous is None {
        FactRole::CommentInline
    } else {
        FactRole::CommentLead
    }
}

/// The facts of the comments before a container's closer.
pub open spec fn trailer_facts(
    b: Seq<u8>,
    comments: Seq<(int, int)>,
    previous: Option<ByteRange>,
    container: ByteRange,
    retain: bool,
) -> Seq<FactModel> {
    comments.map_values(|c: (int, int)| fact(b, trailer_role(previous), c, container, retain))
}

/// The skip context facts locate values under.
pub open spec fn fact_ctx(dialect: Dialect) -> Ctx {
    Ctx { check: Check::Locate, max: MAX_NESTING, dialect }
}

/// End of the value at `start`; one byte when it does not locate.
pub open spec fn located_or_byte(b: Seq<u8>, start: int, dialect: Dialect) -> int {
    match value_end(b, start, fact_ctx(dialect), 0) {
        Ok(e) => e,
        Err(_) => start + 1,
    }
}

/// Whether a comment could start inside `[from, to)`.
pub open spec fn has_slash(b: Seq<u8>, from: int, to: int) -> bool {
    run_end::<CommentStart>(b, from) < to
}

/// Where an object member's value starts, and the comments up to it.
pub open spec fn value_after_key(b: Seq<u8>, key: int, dialect: Dialect) -> Option<(int, Seq<(int, int)>)> {
    match key_end(b, key, Check::Locate, dialect) {
        Err(_) => None,
        Ok(end) => match trivia_read(b, end, b.len() as int) {
            None => None,
            Some((colon, before)) => if colon < b.len() && b[colon] == COLON {
                match trivia_read(b, colon + 1, b.len() as int) {
                    None => None,
                    Some((next, after)) => Some((next, before + after)),
                }
            } else {
                None
            },
        },
    }
}

/// The end of the value at `next` and the facts inside it. A container whose
/// bytes hold no comment start is not descended.
pub open spec fn value_facts(b: Seq<u8>, next: int, dialect: Dialect, retain: bool) -> (int, Seq<FactModel>)
    decreases b.len() - next, 0nat,
{
    let end = located_or_byte(b, next, dialect);
    if 0 <= next < b.len() && (b[next] == LBRACKET || b[next] == LBRACE) && has_slash(b, next, end) {
        container_facts(
            b,
            next,
            if b[next] == LBRACKET {
                RBRACKET
            } else {
                RBRACE
            },
            next + 1,
            None,
            Seq::empty(),
            dialect,
            retain,
        )
    } else {
        (end, Seq::empty())
    }
}

/// Where the next item of a container starts, and the comments up to it: past a
/// separator, and past the key of an object member.
pub open spec fn next_child(b: Seq<u8>, pos: int, closer: u8, dialect: Dialect) -> Option<(int, Seq<(int, int)>)> {
    match trivia_read(b, pos, b.len() as int) {
        None => None,
        Some((p, before)) => {
            let past = if p < b.len() && b[p] == COMMA {
                match trivia_read(b, p + 1, b.len() as int) {
                    None => None,
                    Some((q, after)) => Some((q, before + after)),
                }
            } else {
                Some((p, before))
            };
            match past {
                None => None,
                Some((q, comments)) => if q < b.len() && b[q] == closer {
                    Some((q, comments))
                } else if closer == RBRACE {
                    match value_after_key(b, q, dialect) {
                        None => None,
                        Some((v, more)) => Some((v, comments + more)),
                    }
                } else {
                    Some((q, comments))
                },
            }
        },
    }
}

/// Whether the next item of a container is its closer.
pub open spec fn closes_next(b: Seq<u8>, pos: int, closer: u8) -> bool {
    match trivia_read(b, pos, b.len() as int) {
        None => false,
        Some((p, before)) => if p < b.len() && b[p] == COMMA {
            match trivia_read(b, p + 1, b.len() as int) {
                None => false,
                Some((q, after)) => q < b.len() && b[q] == closer,
            }
        } else {
            p < b.len() && b[p] == closer
        },
    }
}

/// The container at `start` from `pos` on: its end, and the facts in it after
/// those already found.
pub open spec fn container_facts(
    b: Seq<u8>,
    start: int,
    closer: u8,
    pos: int,
    previous: Option<ByteRange>,
    found: Seq<FactModel>,
    dialect: Dialect,
    retain: bool,
) -> (int, Seq<FactModel>)
    decreases b.len() - pos, 1nat,
{
    match next_child(b, pos, closer, dialect) {
        None => (b.len() as int, found),
        Some((next, comments)) => if closes_next(b, pos, closer) {
            (next + 1, found + trailer_facts(b, comments, previous, span(start, next + 1), retain))
        } else if !(pos <= next < b.len()) {
            (b.len() as int, found)
        } else {
            let (end, inner) = value_facts(b, next, dialect, retain);
            let value = span(next, end);
            if next < end <= b.len() {
                container_facts(
                    b,
                    start,
                    closer,
                    end,
                    Some(value),
                    found + gap_facts(b, comments, previous, value, retain) + inner,
                    dialect,
                    retain,
                )
            } else {
                (b.len() as int, found)
            }
        },
    }
}

/// Whether a value can start with `byte`.
pub open spec fn starts_value(byte: u8, dialect: Dialect) -> bool {
    starts_literal(byte) || starts_number(byte, dialect) || opens_string(byte, dialect) || byte == LBRACKET || byte
        == LBRACE
}

/// The facts of the top-level values from `pos` to `to`, after those already
/// found. `root` is the first value.
pub open spec fn top_facts(
    b: Seq<u8>,
    from: int,
    to: int,
    pos: int,
    previous: Option<ByteRange>,
    root: Option<ByteRange>,
    found: Seq<FactModel>,
    dialect: Dialect,
    retain: bool,
) -> Seq<FactModel>
    decreases b.len() - pos,
{
    match trivia_read(b, pos, to) {
        None => found,
        Some((next, comments)) => if !(pos <= next < to && to <= b.len()) || !starts_value(b[next], dialect) {
            found + trailer_facts(
                b,
                comments,
                previous,
                match root {
                    Some(r) => r,
                    None => span(from, to),
                },
                retain,
            )
        } else {
            let (end, inner) = value_facts(b, next, dialect, retain);
            let value = span(next, end);
            if next < end <= b.len() {
                top_facts(
                    b,
                    from,
                    to,
                    end,
                    Some(value),
                    Some(
                        match root {
                            Some(r) => r,
                            None => value,
                        },
                    ),
                    found + gap_facts(b, comments, previous, value, retain) + inner,
                    dialect,
                    retain,
                )
            } else {
                found
            }
        },
    }
}

/// The facts of the comments in `[from, to)`.
pub open spec fn collected(b: Seq<u8>, from: int, to: int, dialect: Dialect, retain: bool) -> Seq<FactModel> {
    let end = if to > b.len() {
        b.len() as int
    } else {
        to
    };
    if !dialect.comments() || from >= end || !has_slash(b, from, end) {
        Seq::empty()
    } else {
        top_facts(b, from, end, from, None, None, Seq::empty(), dialect, retain)
    }
}

/// Read whitespace and comments from `pos`, collecting comment spans in `out`.
/// `None` on a malformed comment or one past `end`.
fn read_trivia(bytes: &[u8], pos: usize, end: usize, out: &mut Vec<(usize, usize)>) -> (r: Option<usize>)
    requires
        end <= bytes@.len(),
    ensures
        match trivia_read(bytes@, pos as int, end as int) {
            None => r is None,
            Some((next, comments)) => r matches Some(n) && n == next && spans_of(final(out)@) == spans_of(old(out)@)
                + comments,
        },
        pos <= end ==> (r matches Some(n) ==> pos <= n <= end),
        comments_inside(old(out)@, bytes@.len() as int) ==> comments_inside(final(out)@, bytes@.len() as int),
{
    let ghost before = spans_of(out@);
    if pos > end {
        assert(before + Seq::<(int, int)>::empty() =~= before);
        return Some(pos);
    }
    proof {
        trivia_read_bounds(bytes@, pos as int, end as int);
    }
    let ghost whole = trivia_read(bytes@, pos as int, end as int);
    let mut cursor: usize = pos;
    let ghost mut noted = Seq::<(int, int)>::empty();
    proof {
        if let Some((next, more)) = whole {
            assert(noted + more =~= more);
        }
        assert(before + noted =~= before);
    }
    loop
        invariant
            pos <= cursor <= end <= bytes@.len(),
            whole == trivia_read(bytes@, pos as int, end as int),
            match trivia_read(bytes@, cursor as int, end as int) {
                None => whole is None,
                Some((next, more)) => whole == Some((next, noted + more)),
            },
            spans_of(out@) == before + noted,
            before == spans_of(old(out)@),
            whole matches Some((next, comments)) ==> pos <= next <= end,
            comments_inside(old(out)@, bytes@.len() as int) ==> comments_inside(out@, bytes@.len() as int),
        decreases end - cursor,
    {
        proof {
            run_end_facts::<Ws>(bytes@, cursor as int);
        }
        let ghost at_cursor = cursor as int;
        let stop: usize = find_stop::<Ws>(bytes, cursor);
        let p: usize = if stop > end {
            end
        } else {
            stop
        };
        if p >= end || bytes[p] != SLASH {
            assert(noted + Seq::<(int, int)>::empty() =~= noted);
            return Some(p);
        }
        let close: usize = match skip_comment(bytes, p) {
            Ok(close) => close,
            Err(_) => return None,
        };
        if close > end {
            return None;
        }
        let ghost prior = out@;
        out.push((p, close));
        proof {
            assert(spans_of(out@) =~= spans_of(prior).push((p as int, close as int)));
            assert(before + noted.push((p as int, close as int)) =~= (before + noted).push((p as int, close as int)));
            if let Some((next, more)) = trivia_read(bytes@, close as int, end as int) {
                assert(noted + (seq![(p as int, close as int)] + more) =~= noted.push((p as int, close as int)) + more);
            }
            noted = noted.push((p as int, close as int));
        }
        cursor = close;
    }
}

/// Comment body without its `//` or `/* */` delimiters.
fn comment_body(bytes: &[u8], start: usize, end: usize) -> (r: String)
    requires
        start < bytes@.len(),
        end <= bytes@.len(),
    ensures
        bytes_of(r) == comment_text(bytes@, start as int, end as int),
{
    let len: usize = bytes.len();
    let line: bool = start + 1 < len && bytes[start + 1] == SLASH;
    let to: usize = if line {
        end
    } else {
        end.saturating_sub(2)
    };
    if to >= 2 && start <= to - 2 {
        text_lossy(vstd::slice::slice_subrange(bytes, start + 2, to))
    } else {
        let empty: [u8; 0] = [];
        assert(empty@ =~= Seq::empty());
        text_lossy(&empty)
    }
}

/// Whether only blanks and a separator sit between `value_end` and
/// `comment_start` on the same line.
pub fn same_line_after(bytes: &[u8], value_end: usize, comment_start: usize) -> (r: bool)
    ensures
        r == same_line(bytes@, value_end as int, comment_start as int),
{
    if value_end > comment_start || comment_start > bytes.len() {
        return false;
    }
    let mut i: usize = value_end;
    while i < comment_start
        invariant
            value_end <= i <= comment_start <= bytes@.len(),
            forall|k: int|
                value_end <= k < i ==> (#[trigger] bytes@[k] == SPACE || bytes@[k] == TAB || bytes@[k] == CR || bytes@[k]
                    == COMMA),
        decreases comment_start - i,
    {
        let byte: u8 = bytes[i];
        if !(byte == SPACE || byte == TAB || byte == CR || byte == COMMA) {
            return false;
        }
        i = i + 1;
    }
    true
}

/// Push one comment fact.
fn emit_fact(out: &mut Vec<Fact>, bytes: &[u8], role: FactRole, comment: (usize, usize), owner: ByteRange, retain: bool)
    requires
        comment.0 < bytes@.len(),
        comment.1 <= bytes@.len(),
    ensures
        facts_model(final(out)@) == facts_model(old(out)@).push(
            fact(bytes@, role, (comment.0 as int, comment.1 as int), owner, retain),
        ),
{
    let ghost before = out@;
    let text: String = comment_body(bytes, comment.0, comment.1);
    let source_span: Option<ByteRange> = if retain {
        Some(ByteRange { start: comment.0, end: comment.1 })
    } else {
        None
    };
    let f: Fact = Fact { role, text, source_span, owner };
    out.push(f);
    assert(facts_model(out@) =~= facts_model(before).push(f@));
}

/// Comments of a source: each starts inside it and ends in it.
spec fn comments_inside(comments: Seq<(usize, usize)>, len: int) -> bool {
    forall|i: int| 0 <= i < comments.len() ==> (#[trigger] comments[i]).0 < comments[i].1 <= len
}

/// Emit the comments between `previous` and `next`.
fn emit_gap(
    out: &mut Vec<Fact>,
    bytes: &[u8],
    comments: &Vec<(usize, usize)>,
    previous: Option<ByteRange>,
    next: ByteRange,
    retain: bool,
)
    requires
        comments_inside(comments@, bytes@.len() as int),
    ensures
        facts_model(final(out)@) == facts_model(old(out)@) + gap_facts(
            bytes@,
            spans_of(comments@),
            previous,
            next,
            retain,
        ),
{
    let ghost before = facts_model(out@);
    let ghost spans = spans_of(comments@);
    let mut i: usize = 0;
    proof {
        assert(spans.take(0).len() == 0);
        assert(before + gap_facts(bytes@, spans.take(0), previous, next, retain) =~= before);
    }
    while i < comments.len()
        invariant
            i <= comments@.len(),
            spans == spans_of(comments@),
            comments_inside(comments@, bytes@.len() as int),
            facts_model(out@) == before + gap_facts(bytes@, spans.take(i as int), previous, next, retain),
        decreases comments@.len() - i,
    {
        let comment: (usize, usize) = comments[i];
        let ghost c = (comment.0 as int, comment.1 as int);
        proof {
            let t = spans.take(i + 1);
            assert(t.drop_last() =~= spans.take(i as int));
            assert(t.last() == c);
        }
        let ghost done = facts_model(out@);
        if let Some(value) = previous {
            if same_line_after(bytes, value.end, comment.0) {
                emit_fact(out, bytes, FactRole::CommentFoot, comment, value, retain);
            }
        }
        emit_fact(out, bytes, FactRole::CommentLead, comment, next, retain);
        proof {
            assert(facts_model(out@) =~= done + gap_fact(bytes@, c, previous, next, retain));
            assert(facts_model(out@) =~= before + gap_facts(bytes@, spans.take(i + 1), previous, next, retain));
        }
        i = i + 1;
    }
    assert(spans.take(i as int) =~= spans);
}

/// Emit a trailer owned by `container`.
fn emit_trailer(
    out: &mut Vec<Fact>,
    bytes: &[u8],
    comments: &Vec<(usize, usize)>,
    previous: Option<ByteRange>,
    container: ByteRange,
    retain: bool,
)
    requires
        comments_inside(comments@, bytes@.len() as int),
    ensures
        facts_model(final(out)@) == facts_model(old(out)@) + trailer_facts(
            bytes@,
            spans_of(comments@),
            previous,
            container,
            retain,
        ),
{
    let ghost before = facts_model(out@);
    let ghost all = trailer_facts(bytes@, spans_of(comments@), previous, container, retain);
    let role: FactRole = if previous.is_none() {
        FactRole::CommentInline
    } else {
        FactRole::CommentLead
    };
    let mut i: usize = 0;
    assert(before + all.take(0) =~= before);
    while i < comments.len()
        invariant
            i <= comments@.len(),
            all == trailer_facts(bytes@, spans_of(comments@), previous, container, retain),
            role == trailer_role(previous),
            comments_inside(comments@, bytes@.len() as int),
            facts_model(out@) == before + all.take(i as int),
        decreases comments@.len() - i,
    {
        emit_fact(out, bytes, role, comments[i], container, retain);
        i = i + 1;
        assert(facts_model(out@) =~= before + all.take(i as int)) by {
            assert(all.take(i as int) =~= all.take(i - 1).push(all[i - 1]));
        }
    }
    assert(all.take(i as int) =~= all);
}

/// Collects the facts of one source.
struct Collector<'a> {
    bytes: &'a [u8],
    dialect: Dialect,
    retain: bool,
}

impl<'a> Collector<'a> {
    fn locate(&self, start: usize) -> (r: usize)
        requires
            start < self.bytes@.len(),
        ensures
            r == located_or_byte(self.bytes@, start as int, self.dialect),
            start < r <= self.bytes@.len(),
    {
        let len: usize = self.bytes.len();
        match skip_present(self.bytes, start, Check::Locate, MAX_NESTING, self.dialect) {
            Ok(end) => end,
            Err(_) => start + 1,
        }
    }

    /// Where a member's value starts, adding the comments up to it.
    fn object_value(&self, key: usize, comments: &mut Vec<(usize, usize)>) -> (r: Option<usize>)
        requires
            key <= self.bytes@.len(),
            comments_inside(old(comments)@, self.bytes@.len() as int),
        ensures
            match value_after_key(self.bytes@, key as int, self.dialect) {
                None => r is None,
                Some((next, more)) => r matches Some(n) && n == next && spans_of(final(comments)@) == spans_of(
                    old(comments)@,
                ) + more,
            },
            r matches Some(n) ==> key < n <= self.bytes@.len(),
            comments_inside(final(comments)@, self.bytes@.len() as int),
    {
        let len: usize = self.bytes.len();
        let ghost before = spans_of(comments@);
        proof {
            key_end_bounds(self.bytes@, key as int, Check::Locate, self.dialect);
        }
        let end: usize = match skip_key(self.bytes, key, Check::Locate, self.dialect) {
            Ok(end) => end,
            Err(_) => return None,
        };
        let colon: usize = match read_trivia(self.bytes, end, len, comments) {
            Some(p) => p,
            None => return None,
        };
        if colon >= len || self.bytes[colon] != COLON {
            return None;
        }
        let ghost first = trivia_read(self.bytes@, end as int, len as int)->Some_0.1;
        let r: Option<usize> = read_trivia(self.bytes, colon + 1, len, comments);
        proof {
            if let Some((next, more)) = trivia_read(self.bytes@, colon + 1, len as int) {
                assert((before + first) + more =~= before + (first + more));
            }
        }
        r
    }

    /// Where the next item of a container starts, adding the comments up to it,
    /// and whether it is the closer.
    fn next(&self, pos: usize, closer: u8, comments: &mut Vec<(usize, usize)>) -> (r: Option<(usize, bool)>)
        requires
            pos <= self.bytes@.len(),
            old(comments)@.len() == 0,
        ensures
            match next_child(self.bytes@, pos as int, closer, self.dialect) {
                None => r is None,
                Some((next, all)) => r matches Some((n, closes)) && n == next && closes == closes_next(
                    self.bytes@,
                    pos as int,
                    closer,
                ) && spans_of(final(comments)@) == all,
            },
            r matches Some((n, closes)) ==> pos <= n <= self.bytes@.len() && (closes ==> n < self.bytes@.len()),
            comments_inside(final(comments)@, self.bytes@.len() as int),
    {
        let len: usize = self.bytes.len();
        let ghost b = self.bytes@;
        assert(spans_of(comments@) =~= Seq::empty());
        let p: usize = match read_trivia(self.bytes, pos, len, comments) {
            Some(p) => p,
            None => return None,
        };
        let ghost before = trivia_read(b, pos as int, len as int)->Some_0.1;
        assert(spans_of(comments@) =~= before);
        let mut q: usize = p;
        if p < len && self.bytes[p] == COMMA {
            match read_trivia(self.bytes, p + 1, len, comments) {
                Some(past) => {
                    q = past;
                },
                None => return None,
            }
        }
        if q < len && self.bytes[q] == closer {
            return Some((q, true));
        }
        if closer == RBRACE {
            match self.object_value(q, comments) {
                Some(v) => Some((v, false)),
                None => None,
            }
        } else {
            Some((q, false))
        }
    }

    /// The end of the value at `next`, with its inner facts appended to `out`.
    fn value(&self, next: usize, out: &mut Vec<Fact>) -> (r: usize)
        requires
            next < self.bytes@.len(),
        ensures
            r == value_facts(self.bytes@, next as int, self.dialect, self.retain).0,
            facts_model(final(out)@) == facts_model(old(out)@) + value_facts(
                self.bytes@,
                next as int,
                self.dialect,
                self.retain,
            ).1,
            next < r <= self.bytes@.len(),
        decreases self.bytes@.len() - next, 0nat,
    {
        let end: usize = self.locate(next);
        let byte: u8 = self.bytes[next];
        if (byte == LBRACKET || byte == LBRACE) && find_stop::<CommentStart>(self.bytes, next) < end {
            let closer: u8 = if byte == LBRACKET {
                RBRACKET
            } else {
                RBRACE
            };
            let mut inner: Vec<Fact> = Vec::new();
            let r: usize = self.container(next, closer, &mut inner);
            let ghost before = out@;
            let ghost added = inner@;
            out.append(&mut inner);
            assert(facts_model(out@) =~= facts_model(before) + facts_model(added));
            r
        } else {
            assert(facts_model(out@) + Seq::<FactModel>::empty() =~= facts_model(out@));
            end
        }
    }

    /// The container at `start`, with its facts put in `out`.
    fn container(&self, start: usize, closer: u8, out: &mut Vec<Fact>) -> (r: usize)
        requires
            start < self.bytes@.len(),
            old(out)@.len() == 0,
        ensures
            r == container_facts(
                self.bytes@,
                start as int,
                closer,
                start + 1,
                None,
                Seq::empty(),
                self.dialect,
                self.retain,
            ).0,
            facts_model(final(out)@) == container_facts(
                self.bytes@,
                start as int,
                closer,
                start + 1,
                None,
                Seq::empty(),
                self.dialect,
                self.retain,
            ).1,
            start < r <= self.bytes@.len(),
        decreases self.bytes@.len() - start - 1, 2nat,
    {
        let len: usize = self.bytes.len();
        let ghost b = self.bytes@;
        let ghost whole = container_facts(
            b,
            start as int,
            closer,
            start + 1,
            None,
            Seq::empty(),
            self.dialect,
            self.retain,
        );
        let mut pos: usize = start + 1;
        let mut previous: Option<ByteRange> = None;
        assert(facts_model(out@) =~= Seq::empty());
        loop
            invariant
                start < pos <= len,
                len == b.len(),
                b == self.bytes@,
                whole == container_facts(
                    b,
                    start as int,
                    closer,
                    start + 1,
                    None,
                    Seq::empty(),
                    self.dialect,
                    self.retain,
                ),
                whole == container_facts(
                    b,
                    start as int,
                    closer,
                    pos as int,
                    previous,
                    facts_model(out@),
                    self.dialect,
                    self.retain,
                ),
            decreases len - pos,
        {
            let mut comments: Vec<(usize, usize)> = Vec::new();
            let (next, closes) = match self.next(pos, closer, &mut comments) {
                Some(step) => step,
                None => return len,
            };
            if closes {
                let container: ByteRange = ByteRange { start, end: next + 1 };
                emit_trailer(out, self.bytes, &comments, previous, container, self.retain);
                return next + 1;
            }
            if next >= len {
                return len;
            }
            let ghost before = facts_model(out@);
            let mut inner: Vec<Fact> = Vec::new();
            assert(facts_model(inner@) =~= Seq::empty());
            let end: usize = self.value(next, &mut inner);
            let value: ByteRange = ByteRange { start: next, end };
            emit_gap(out, self.bytes, &comments, previous, value, self.retain);
            let ghost with_gap = out@;
            let ghost added = inner@;
            out.append(&mut inner);
            proof {
                assert(facts_model(added) =~= value_facts(b, next as int, self.dialect, self.retain).1);
                assert(facts_model(out@) =~= facts_model(with_gap) + facts_model(added));
            }
            previous = Some(value);
            pos = end;
        }
    }

    /// The facts of the top-level values in `[from, to)`.
    fn run(&self, from: usize, to: usize, out: &mut Vec<Fact>)
        requires
            from < to <= self.bytes@.len(),
            old(out)@.len() == 0,
        ensures
            facts_model(final(out)@) == top_facts(
                self.bytes@,
                from as int,
                to as int,
                from as int,
                None,
                None,
                Seq::empty(),
                self.dialect,
                self.retain,
            ),
    {
        let len: usize = self.bytes.len();
        let ghost b = self.bytes@;
        let ghost whole = top_facts(
            b,
            from as int,
            to as int,
            from as int,
            None,
            None,
            Seq::empty(),
            self.dialect,
            self.retain,
        );
        let mut pos: usize = from;
        let mut previous: Option<ByteRange> = None;
        let mut root: Option<ByteRange> = None;
        let json5: bool = self.dialect.json5();
        assert(facts_model(out@) =~= Seq::empty());
        loop
            invariant
                from <= pos <= len,
                from < to <= len,
                len == b.len(),
                b == self.bytes@,
                json5 == (self.dialect == Dialect::Json5),
                whole == top_facts(
                    b,
                    from as int,
                    to as int,
                    from as int,
                    None,
                    None,
                    Seq::empty(),
                    self.dialect,
                    self.retain,
                ),
                whole == top_facts(
                    b,
                    from as int,
                    to as int,
                    pos as int,
                    previous,
                    root,
                    facts_model(out@),
                    self.dialect,
                    self.retain,
                ),
            decreases len - pos,
        {
            let mut comments: Vec<(usize, usize)> = Vec::new();
            assert(spans_of(comments@) =~= Seq::empty());
            let next: usize = match read_trivia(self.bytes, pos, to, &mut comments) {
                Some(next) => next,
                None => return,
            };
            proof {
                let all = trivia_read(b, pos as int, to as int)->Some_0.1;
                assert(spans_of(comments@) =~= all);
            }
            let is_value: bool = next < to && self.starts(next);
            if !is_value {
                let container: ByteRange = match root {
                    Some(r) => r,
                    None => ByteRange { start: from, end: to },
                };
                emit_trailer(out, self.bytes, &comments, previous, container, self.retain);
                return;
            }
            let mut inner: Vec<Fact> = Vec::new();
            assert(facts_model(inner@) =~= Seq::empty());
            let end: usize = self.value(next, &mut inner);
            let value: ByteRange = ByteRange { start: next, end };
            emit_gap(out, self.bytes, &comments, previous, value, self.retain);
            let ghost with_gap = out@;
            let ghost added = inner@;
            out.append(&mut inner);
            proof {
                assert(facts_model(added) =~= value_facts(b, next as int, self.dialect, self.retain).1);
                assert(facts_model(out@) =~= facts_model(with_gap) + facts_model(added));
            }
            if root.is_none() {
                root = Some(value);
            }
            previous = Some(value);
            pos = end;
        }
    }

    fn starts(&self, next: usize) -> (r: bool)
        requires
            next < self.bytes@.len(),
        ensures
            r == starts_value(self.bytes@[next as int], self.dialect),
    {
        crate::walk::node::value_kind(self.bytes[next], self.dialect).is_some()
    }
}

/// Collect comment facts over `[from, to)`, in authored order. `retain` records
/// the authored comment span.
#[must_use]
pub fn collect(bytes: &[u8], from: usize, to: usize, dialect: Dialect, retain: bool) -> (r: Vec<Fact>)
    ensures
        facts_model(r@) == collected(bytes@, from as int, to as int, dialect, retain),
{
    let mut out: Vec<Fact> = Vec::new();
    assert(facts_model(out@) =~= Seq::empty());
    if !dialect.has_comments() {
        return out;
    }
    let end: usize = if to > bytes.len() {
        bytes.len()
    } else {
        to
    };
    if from >= end || find_stop::<CommentStart>(bytes, from) >= end {
        return out;
    }
    let collector: Collector<'_> = Collector { bytes, dialect, retain };
    collector.run(from, end, &mut out);
    out
}

/// Without comments in the grammar there are no facts.
pub proof fn rfc_has_no_facts(b: Seq<u8>, from: int, to: int, retain: bool)
    ensures
        collected(b, from, to, Dialect::Rfc8259, retain) == Seq::<FactModel>::empty(),
{
}

} // verus!
