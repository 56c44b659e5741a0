//! Trivia: RFC 8259 whitespace plus optional JSONC / JSON5 comments.

use vstd::prelude::*;

use super::stop_sets::{find_stop, is_space, run_end, run_end_facts, run_end_is, NdjsonFrame, Star, StopSet, Ws};
use crate::ascii::{COLON, COMMA, CR, LBRACE, LBRACKET, LF, RBRACE, RBRACKET, SLASH, SPACE, STAR, TAB};
use crate::dialect::Dialect;
use crate::error::{at, Error, ErrorKind};

verus! {

/// Whether an executable cursor result is the one a grammar function names.
pub open spec fn ends_as(r: Result<usize, Error>, end: Result<int, Error>) -> bool {
    match end {
        Ok(e) => r is Ok && r->Ok_0 == e,
        Err(error) => r == Err::<usize, Error>(error),
    }
}

/// The position after the first `*/` at or after `pos`, when there is one.
pub open spec fn block_close(b: Seq<u8>, pos: int) -> Option<int>
    decreases b.len() - pos,
{
    if 0 <= pos && pos + 1 < b.len() {
        if b[pos] == STAR && b[pos + 1] == SLASH {
            Some(pos + 2)
        } else {
            block_close(b, pos + 1)
        }
    } else {
        None
    }
}

/// End of the comment whose `/` is at `start`.
pub open spec fn comment_end(b: Seq<u8>, start: int) -> Result<int, Error> {
    if start + 1 < b.len() && b[start + 1] == SLASH {
        Ok(run_end::<NdjsonFrame>(b, start + 2))
    } else if start + 1 < b.len() && b[start + 1] == STAR {
        match block_close(b, start + 2) {
            Some(end) => Ok(end),
            None => Err(at(ErrorKind::UnterminatedComment, start)),
        }
    } else {
        Err(at(ErrorKind::InvalidComment, start))
    }
}

/// End of the trivia at `pos`: whitespace, and comments when `dialect` has them.
pub open spec fn trivia_end(b: Seq<u8>, pos: int, dialect: Dialect) -> Result<int, Error>
    decreases b.len() - pos,
{
    let p = run_end::<Ws>(b, pos);
    if dialect.comments() && pos <= p < b.len() && b[p] == SLASH {
        match comment_end(b, p) {
            Ok(e) => if p < e <= b.len() {
                trivia_end(b, e, dialect)
            } else {
                Ok(e)
            },
            Err(error) => Err(error),
        }
    } else {
        Ok(p)
    }
}

/// The comment spans inside the trivia at `pos`, in source order, up to the
/// first one that does not close.
pub open spec fn trivia_comments(b: Seq<u8>, pos: int) -> Seq<(int, int)>
    decreases b.len() - pos,
{
    let p = run_end::<Ws>(b, pos);
    if pos <= p < b.len() && b[p] == SLASH {
        match comment_end(b, p) {
            Ok(e) => if p < e <= b.len() {
                seq![(p, e)] + trivia_comments(b, e)
            } else {
                Seq::empty()
            },
            Err(_) => Seq::empty(),
        }
    } else {
        Seq::empty()
    }
}

/// Whether `pos` is a token boundary.
pub open spec fn token_end(b: Seq<u8>, pos: int, dialect: Dialect) -> bool {
    pos >= b.len() || is_space(b[pos]) || b[pos] == COMMA || b[pos] == RBRACKET || b[pos] == RBRACE || b[pos]
        == COLON || b[pos] == LBRACE || b[pos] == LBRACKET || (dialect.comments() && b[pos] == SLASH)
}

/// A block comment closes inside the input.
pub proof fn block_close_bounds(b: Seq<u8>, pos: int)
    ensures
        block_close(b, pos) matches Some(e) ==> pos + 2 <= e <= b.len(),
    decreases b.len() - pos,
{
    if 0 <= pos && pos + 1 < b.len() && !(b[pos] == STAR && b[pos + 1] == SLASH) {
        block_close_bounds(b, pos + 1);
    }
}

/// A block comment does not close where no `*` stands.
proof fn block_close_skips(b: Seq<u8>, pos: int, to: int)
    requires
        0 <= pos <= to <= b.len(),
        forall|i: int| pos <= i < to ==> #[trigger] b[i] != STAR,
    ensures
        block_close(b, pos) == block_close(b, to),
    decreases to - pos,
{
    if pos < to {
        block_close_skips(b, pos + 1, to);
    }
}

/// A comment ends past its `/`, inside the input.
pub proof fn comment_end_bounds(b: Seq<u8>, start: int)
    requires
        0 <= start < b.len(),
    ensures
        comment_end(b, start) matches Ok(e) ==> start + 2 <= e <= b.len(),
{
    block_close_bounds(b, start + 2);
    if start + 2 <= b.len() {
        run_end_facts::<NdjsonFrame>(b, start + 2);
    }
}

/// Trivia ends at or after `pos`, inside the input, at a byte that starts no trivia.
pub proof fn trivia_end_bounds(b: Seq<u8>, pos: int, dialect: Dialect)
    requires
        0 <= pos <= b.len(),
    ensures
        trivia_end(b, pos, dialect) matches Ok(e) ==> pos <= e <= b.len() && (e < b.len() ==> !is_space(b[e]) && !(
        dialect.comments() && b[e] == SLASH)),
    decreases b.len() - pos,
{
    run_end_facts::<Ws>(b, pos);
    let p = run_end::<Ws>(b, pos);
    if dialect.comments() && p < b.len() && b[p] == SLASH {
        comment_end_bounds(b, p);
        if let Ok(e) = comment_end(b, p) {
            trivia_end_bounds(b, e, dialect);
        }
    }
}

/// Where no trivia starts, trivia is empty.
pub proof fn trivia_end_here(b: Seq<u8>, pos: int, dialect: Dialect)
    requires
        0 <= pos <= b.len(),
        pos < b.len() ==> !is_space(b[pos]) && !(dialect.comments() && b[pos] == SLASH),
    ensures
        trivia_end(b, pos, dialect) == Ok::<int, Error>(pos),
{
    run_end_is::<Ws>(b, pos, pos);
}

/// Skipping trivia twice is skipping it once.
pub proof fn trivia_end_settles(b: Seq<u8>, pos: int, dialect: Dialect)
    requires
        0 <= pos <= b.len(),
    ensures
        trivia_end(b, pos, dialect) matches Ok(e) ==> trivia_end(b, e, dialect) == Ok::<int, Error>(e),
{
    trivia_end_bounds(b, pos, dialect);
    if let Ok(e) = trivia_end(b, pos, dialect) {
        trivia_end_here(b, e, dialect);
    }
}

pub(crate) fn is_ws(byte: u8) -> (r: bool)
    ensures
        r == is_space(byte),
{
    byte == SPACE || byte == TAB || byte == LF || byte == CR
}

/// Compact punctuation peeks and returns `pos` without a whitespace scan.
#[must_use]
pub fn skip_ws(bytes: &[u8], pos: usize) -> (r: usize)
    requires
        pos <= bytes@.len(),
    ensures
        r == run_end::<Ws>(bytes@, pos as int),
        pos <= r <= bytes@.len(),
{
    if pos < bytes.len() {
        if !is_ws(bytes[pos]) {
            pos
        } else {
            find_stop::<Ws>(bytes, pos)
        }
    } else {
        pos
    }
}

/// Skip whitespace and, when `dialect` has comments, comment trivia.
/// A byte-order mark is not trivia; callers strip an initial one.
pub fn skip_trivia(bytes: &[u8], pos: usize, dialect: Dialect) -> (r: Result<usize, Error>)
    requires
        pos <= bytes@.len(),
    ensures
        ends_as(r, trivia_end(bytes@, pos as int, dialect)),
        r matches Ok(e) ==> pos <= e <= bytes@.len(),
{
    let mut cursor: usize = skip_ws(bytes, pos);
    proof {
        run_end_facts::<Ws>(bytes@, pos as int);
    }
    if !dialect.has_comments() {
        return Ok(cursor);
    }
    loop
        invariant
            pos <= cursor <= bytes@.len(),
            dialect.comments(),
            trivia_end(bytes@, pos as int, dialect) == trivia_end(bytes@, cursor as int, dialect),
            cursor < bytes@.len() ==> !is_space(bytes@[cursor as int]),
        decreases bytes@.len() - cursor,
    {
        proof {
            run_end_is::<Ws>(bytes@, cursor as int, cursor as int);
        }
        if cursor < bytes.len() && bytes[cursor] == SLASH {
            proof {
                comment_end_bounds(bytes@, cursor as int);
            }
            let ghost before = cursor;
            let after: usize = skip_comment(bytes, cursor)?;
            cursor = skip_ws(bytes, after);
            proof {
                run_end_facts::<Ws>(bytes@, after as int);
                run_end_is::<Ws>(bytes@, cursor as int, cursor as int);
                assert(trivia_end(bytes@, before as int, dialect) == trivia_end(bytes@, after as int, dialect));
                trivia_skips_space(bytes@, after as int, cursor as int, dialect);
            }
        } else {
            return Ok(cursor);
        }
    }
}

/// Trivia from `pos` ends where trivia past its leading whitespace ends.
pub proof fn trivia_skips_space(b: Seq<u8>, pos: int, p: int, dialect: Dialect)
    requires
        0 <= pos <= b.len(),
        p == run_end::<Ws>(b, pos),
    ensures
        trivia_end(b, pos, dialect) == trivia_end(b, p, dialect),
{
    run_end_facts::<Ws>(b, pos);
    run_end_is::<Ws>(b, p, p);
}

/// [`skip_trivia`] that also collects each comment span as it is classified, so
/// a recording walk classifies trivia once.
pub fn skip_trivia_spans(bytes: &[u8], pos: usize, dialect: Dialect, comments: &mut Vec<(usize, usize)>) -> (r: Result<
    usize,
    Error,
>)
    requires
        pos <= bytes@.len(),
    ensures
        ends_as(r, trivia_end(bytes@, pos as int, dialect)),
        r matches Ok(e) ==> pos <= e <= bytes@.len(),
        r is Ok ==> spans_of(final(comments)@) == spans_of(old(comments)@) + (if dialect.comments() {
            trivia_comments(bytes@, pos as int)
        } else {
            Seq::empty()
        }),
{
    let mut cursor: usize = skip_ws(bytes, pos);
    proof {
        run_end_facts::<Ws>(bytes@, pos as int);
    }
    if !dialect.has_comments() {
        assert(spans_of(comments@) + Seq::empty() =~= spans_of(comments@));
        return Ok(cursor);
    }
    let ghost whole = spans_of(comments@) + trivia_comments(bytes@, pos as int);
    proof {
        run_end_is::<Ws>(bytes@, cursor as int, cursor as int);
    }
    loop
        invariant
            pos <= cursor <= bytes@.len(),
            dialect.comments(),
            trivia_end(bytes@, pos as int, dialect) == trivia_end(bytes@, cursor as int, dialect),
            cursor < bytes@.len() ==> !is_space(bytes@[cursor as int]),
            whole == spans_of(comments@) + trivia_comments(bytes@, cursor as int),
            whole == spans_of(old(comments)@) + trivia_comments(bytes@, pos as int),
        decreases bytes@.len() - cursor,
    {
        proof {
            run_end_is::<Ws>(bytes@, cursor as int, cursor as int);
        }
        if cursor < bytes.len() && bytes[cursor] == SLASH {
            proof {
                comment_end_bounds(bytes@, cursor as int);
            }
            let start: usize = cursor;
            let after: usize = skip_comment(bytes, cursor)?;
            let ghost noted = comments@;
            comments.push((start, after));
            cursor = skip_ws(bytes, after);
            proof {
                run_end_facts::<Ws>(bytes@, after as int);
                run_end_is::<Ws>(bytes@, cursor as int, cursor as int);
                assert(spans_of(comments@) =~= spans_of(noted) + seq![(start as int, after as int)]);
                assert(trivia_comments(bytes@, start as int) == seq![(start as int, after as int)]
                    + trivia_comments(bytes@, after as int));
                assert(trivia_comments(bytes@, after as int) == trivia_comments(bytes@, cursor as int));
                trivia_skips_space(bytes@, after as int, cursor as int, dialect);
                assert(whole =~= spans_of(comments@) + trivia_comments(bytes@, cursor as int));
            }
        } else {
            assert(whole =~= spans_of(comments@));
            return Ok(cursor);
        }
    }
}

/// Comment spans as mathematical positions.
pub open spec fn spans_of(s: Seq<(usize, usize)>) -> Seq<(int, int)> {
    s.map_values(|p: (usize, usize)| (p.0 as int, p.1 as int))
}

/// End of the comment starting at `start` (a `/`).
pub fn skip_comment(bytes: &[u8], start: usize) -> (r: Result<usize, Error>)
    requires
        start < bytes@.len(),
    ensures
        ends_as(r, comment_end(bytes@, start as int)),
        r matches Ok(e) ==> start + 2 <= e <= bytes@.len(),
{
    proof {
        comment_end_bounds(bytes@, start as int);
    }
    let len: usize = bytes.len();
    if start + 1 < len && bytes[start + 1] == SLASH {
        Ok(find_stop::<NdjsonFrame>(bytes, start + 2))
    } else if start + 1 < len && bytes[start + 1] == STAR {
        let mut cursor: usize = start + 2;
        while cursor < bytes.len() - 1
            invariant_except_break
                start + 2 <= cursor <= bytes@.len(),
                start + 1 < bytes@.len(),
                block_close(bytes@, start + 2) == block_close(bytes@, cursor as int),
            invariant
                bytes@[start + 1] == STAR,
                start + 1 < bytes@.len(),
            ensures
                block_close(bytes@, start + 2) is None,
            decreases bytes@.len() - cursor,
        {
            let ghost before = cursor;
            cursor = find_stop::<Star>(bytes, cursor);
            proof {
                run_end_facts::<Star>(bytes@, before as int);
                block_close_skips(bytes@, before as int, cursor as int);
            }
            if cursor >= bytes.len() - 1 {
                break;
            }
            if bytes[cursor + 1] == SLASH {
                return Ok(cursor + 2);
            }
            cursor = cursor + 1;
        }
        Err(Error::new(ErrorKind::UnterminatedComment, start))
    } else {
        Err(Error::new(ErrorKind::InvalidComment, start))
    }
}

/// Whether `pos` is a token boundary (end of input, whitespace, structural
/// punctuation, or a comment start when `dialect` has comments).
#[must_use]
pub fn is_token_end(bytes: &[u8], pos: usize, dialect: Dialect) -> (r: bool)
    ensures
        r == token_end(bytes@, pos as int, dialect),
{
    if pos >= bytes.len() {
        return true;
    }
    let byte: u8 = bytes[pos];
    is_ws(byte) || byte == COMMA || byte == RBRACKET || byte == RBRACE || byte == COLON || byte == LBRACE || byte
        == LBRACKET || (dialect.has_comments() && byte == SLASH)
}

} // verus!
