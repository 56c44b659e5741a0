//! The one skip engine: locate a whole value without building it.
//!
//! Every atom routes to the scalar lexer. Nesting past the bound is refused.

use vstd::prelude::*;

use super::number::{
    lex_number, located_number_end, located_number_end_bounds, number_end, number_end_bounds, skip_number_locate,
    spells,
};
use super::stop_sets::{find_stop, is_digit, run_end, Ws};
use super::string::{opens_string, plain_is_text, plain_key, skip_string, skip_string_locate};
use super::ws::{ends_as, is_token_end, skip_trivia, token_end, trivia_end, trivia_end_bounds};
use super::{key_end, key_end_bounds, skip_key, string_end, string_end_bounds};
use crate::ascii::{
    APOSTROPHE, COLON, COMMA, DOT, LBRACE, LBRACKET, MINUS, NINE, PLUS, QUOTE, RBRACE, RBRACKET, ZERO,
};
use crate::dialect::Dialect;
use crate::error::{at, Error, ErrorKind};

verus! {

/// Container nesting bound (root is depth 0). Deeper input is refused as
/// `nesting`. A request overrides it.
pub const MAX_NESTING: u32 = 256;

/// Value-check dial on the skip walk.
#[derive(Clone, Copy, Debug, PartialEq, Eq, Structural)]
pub enum Check {
    /// Structure only.
    Locate,
    /// Grammar value checks.
    Values,
}

/// What a skip reads under: the check, the nesting bound and the grammar.
#[derive(Clone, Copy, Debug, PartialEq, Eq, Structural)]
pub struct Ctx {
    /// Value check.
    pub check: Check,
    /// Nesting bound.
    pub max: u32,
    /// Grammar.
    pub dialect: Dialect,
}

/// What comes next inside a container.
#[derive(Clone, Copy, Debug, PartialEq, Eq, Structural)]
pub enum Next {
    /// The container closed; the position after its closer.
    Close(usize),
    /// An element, or a member's key, starts here.
    Item(usize),
}

/// [`Next`] over mathematical positions.
pub enum NextAt {
    /// The container closed; the position after its closer.
    Close(int),
    /// An element, or a member's key, starts here.
    Item(int),
}

/// The refusal of a container that ends before its closer.
pub open spec fn unclosed(closer: u8) -> ErrorKind {
    if closer == RBRACE {
        ErrorKind::ExpectedKey
    } else {
        ErrorKind::ExpectedCommaArray
    }
}

/// The refusal of two items without a comma between them.
pub open spec fn uncommaed(closer: u8) -> ErrorKind {
    if closer == RBRACE {
        ErrorKind::ExpectedCommaObject
    } else {
        ErrorKind::ExpectedCommaArray
    }
}

/// What comes next inside a container from `pos`: the separator law every
/// container shares. `first` is whether no item came before.
#[verifier::opaque]
pub open spec fn next_at(b: Seq<u8>, pos: int, dialect: Dialect, closer: u8, first: bool) -> Result<NextAt, Error> {
    match trivia_end(b, pos, dialect) {
        Err(error) => Err(error),
        Ok(p) => if p >= b.len() {
            Err(at(unclosed(closer), p))
        } else if b[p] == closer {
            Ok(NextAt::Close(p + 1))
        } else if first {
            Ok(NextAt::Item(p))
        } else if b[p] != COMMA {
            Err(at(uncommaed(closer), p))
        } else {
            match trivia_end(b, p + 1, dialect) {
                Err(error) => Err(error),
                Ok(q) => if q < b.len() && b[q] == closer {
                    if dialect.comments() {
                        Ok(NextAt::Close(q + 1))
                    } else {
                        Err(at(ErrorKind::TrailingComma, q))
                    }
                } else {
                    Ok(NextAt::Item(q))
                },
            }
        },
    }
}

/// Where the value of a member whose key token ends at `end` starts.
pub open spec fn after_colon(b: Seq<u8>, end: int, dialect: Dialect) -> Result<int, Error> {
    match trivia_end(b, end, dialect) {
        Err(error) => Err(error),
        Ok(p) => if p < b.len() && b[p] == COLON {
            trivia_end(b, p + 1, dialect)
        } else {
            Err(at(ErrorKind::ExpectedColon, p))
        },
    }
}

/// Where the value of the member at `pos` starts.
#[verifier::opaque]
pub open spec fn member_value_at(b: Seq<u8>, pos: int, check: Check, dialect: Dialect) -> Result<int, Error> {
    match key_end(b, pos, check, dialect) {
        Err(error) => Err(error),
        Ok(end) => after_colon(b, end, dialect),
    }
}

/// `t`, `f` or `n`.
pub open spec fn starts_literal(byte: u8) -> bool {
    byte == 0x74 || byte == 0x66 || byte == 0x6e
}

/// Whether `byte` starts a number under `dialect`.
pub open spec fn starts_number(byte: u8, dialect: Dialect) -> bool {
    byte == MINUS || is_digit(byte) || (dialect == Dialect::Json5 && (byte == PLUS || byte == DOT || byte == 0x49
        || byte == 0x4e))
}

/// The literal spelling that starts with `byte`.
pub open spec fn literal_text(byte: u8) -> Seq<u8> {
    if byte == 0x74 {
        seq![0x74u8, 0x72, 0x75, 0x65]
    } else if byte == 0x66 {
        seq![0x66u8, 0x61, 0x6c, 0x73, 0x65]
    } else {
        seq![0x6eu8, 0x75, 0x6c, 0x6c]
    }
}

/// End of the literal `text` at `start`. A literal the input cuts short is
/// refused at the input's end.
pub open spec fn spelling_end(b: Seq<u8>, start: int, text: Seq<u8>, dialect: Dialect) -> Result<int, Error> {
    let e = start + text.len();
    if e <= b.len() && b.subrange(start, e) == text {
        if token_end(b, e, dialect) {
            Ok(e)
        } else {
            Err(at(ErrorKind::InvalidLiteral, e))
        }
    } else if b.len() < e && b.skip(start) == text.take(b.len() - start) {
        Err(at(ErrorKind::InvalidLiteral, b.len() as int))
    } else {
        Err(at(ErrorKind::InvalidLiteral, start))
    }
}

/// End of the number at `pos`, located or checked.
pub open spec fn number_end_under(b: Seq<u8>, pos: int, check: Check, dialect: Dialect) -> Result<int, Error> {
    match check {
        Check::Locate => located_number_end(b, pos, dialect),
        Check::Values => number_end(b, pos, dialect),
    }
}

/// One scalar node that ends where `end` says.
pub open spec fn one_node(end: Result<int, Error>) -> Result<(int, nat), Error> {
    match end {
        Ok(e) => Ok((e, 1)),
        Err(error) => Err(error),
    }
}

/// The scalar at `pos`; anything else is refused.
pub open spec fn scalar(b: Seq<u8>, pos: int, check: Check, dialect: Dialect) -> Result<int, Error> {
    if pos >= b.len() {
        Err(at(ErrorKind::ExpectedValue, pos))
    } else if opens_string(b[pos], dialect) {
        string_end(b, pos, check, dialect)
    } else if starts_number(b[pos], dialect) {
        number_end_under(b, pos, check, dialect)
    } else if starts_literal(b[pos]) {
        spelling_end(b, pos, literal_text(b[pos]), dialect)
    } else {
        Err(at(ErrorKind::ExpectedValue, pos))
    }
}

/// The value whose first byte is at `pos`: where it ends, and how many nodes it
/// holds (itself and its descendants).
pub open spec fn value(b: Seq<u8>, pos: int, ctx: Ctx, depth: int) -> Result<(int, nat), Error>
    decreases b.len() - pos, 0nat,
{
    if 0 <= pos < b.len() && b[pos] == LBRACKET {
        if depth >= ctx.max {
            Err(at(ErrorKind::Limit, pos))
        } else {
            counted_in(items(b, pos + 1, ctx, depth + 1, true))
        }
    } else if 0 <= pos < b.len() && b[pos] == LBRACE {
        if depth >= ctx.max {
            Err(at(ErrorKind::Limit, pos))
        } else {
            counted_in(members(b, pos + 1, ctx, depth + 1, true))
        }
    } else {
        one_node(scalar(b, pos, ctx.check, ctx.dialect))
    }
}

/// A container is one node more than its children.
pub open spec fn counted_in(children: Result<(int, nat), Error>) -> Result<(int, nat), Error> {
    match children {
        Ok((e, n)) => Ok((e, n + 1)),
        Err(error) => Err(error),
    }
}

/// `n` nodes in front of the nodes counted later.
pub open spec fn and_count(n: nat, later: Result<(int, nat), Error>) -> Result<(int, nat), Error> {
    match later {
        Ok((e, m)) => Ok((e, n + m)),
        Err(error) => Err(error),
    }
}

/// The array elements from `pos` to the closing `]`.
pub open spec fn items(b: Seq<u8>, pos: int, ctx: Ctx, depth: int, first: bool) -> Result<(int, nat), Error>
    decreases b.len() - pos, 1nat,
{
    match next_at(b, pos, ctx.dialect, RBRACKET, first) {
        Err(error) => Err(error),
        Ok(NextAt::Close(e)) => Ok((e, 0)),
        Ok(NextAt::Item(p)) => if pos <= p <= b.len() {
            match value(b, p, ctx, depth) {
                Err(error) => Err(error),
                Ok((e, n)) => if p < e <= b.len() {
                    and_count(n, items(b, e, ctx, depth, false))
                } else {
                    Ok((e, n))
                },
            }
        } else {
            Ok((p, 0))
        },
    }
}

/// The object members from `pos` to the closing `}`.
pub open spec fn members(b: Seq<u8>, pos: int, ctx: Ctx, depth: int, first: bool) -> Result<(int, nat), Error>
    decreases b.len() - pos, 1nat,
{
    match next_at(b, pos, ctx.dialect, RBRACE, first) {
        Err(error) => Err(error),
        Ok(NextAt::Close(e)) => Ok((e, 0)),
        Ok(NextAt::Item(p)) => match member_value_at(b, p, ctx.check, ctx.dialect) {
            Err(error) => Err(error),
            Ok(v) => if pos <= p < v <= b.len() {
                match value(b, v, ctx, depth) {
                    Err(error) => Err(error),
                    Ok((e, n)) => if v < e <= b.len() {
                        and_count(n, members(b, e, ctx, depth, false))
                    } else {
                        Ok((e, n))
                    },
                }
            } else {
                Ok((v, 0))
            },
        },
    }
}

/// Where a skipped value ends.
pub open spec fn end_at(r: Result<(int, nat), Error>) -> Result<int, Error> {
    match r {
        Ok((e, _)) => Ok(e),
        Err(error) => Err(error),
    }
}

/// Where the value at `pos` ends.
pub open spec fn value_end(b: Seq<u8>, pos: int, ctx: Ctx, depth: int) -> Result<int, Error> {
    end_at(value(b, pos, ctx, depth))
}

/// The value past the trivia at `pos`.
pub open spec fn value_past_trivia(b: Seq<u8>, pos: int, ctx: Ctx, depth: int) -> Result<(int, nat), Error> {
    match trivia_end(b, pos, ctx.dialect) {
        Err(error) => Err(error),
        Ok(p) => value(b, p, ctx, depth),
    }
}

/// The separator law moves forward, inside the input.
pub proof fn next_at_bounds(b: Seq<u8>, pos: int, dialect: Dialect, closer: u8, first: bool)
    requires
        0 <= pos <= b.len(),
    ensures
        match next_at(b, pos, dialect, closer, first) {
            Ok(NextAt::Close(e)) => pos < e <= b.len() && b[e - 1] == closer,
            Ok(NextAt::Item(p)) => pos <= p <= b.len() && (first ==> p < b.len()) && (!first ==> pos < p) && (p
                < b.len() ==> b[p] != closer),
            Err(_) => true,
        },
{
    reveal(next_at);
    trivia_end_bounds(b, pos, dialect);
    if let Ok(p) = trivia_end(b, pos, dialect) {
        if p < b.len() {
            trivia_end_bounds(b, p + 1, dialect);
        }
    }
}

/// A member's value starts past its key, inside the input.
pub proof fn member_value_at_bounds(b: Seq<u8>, pos: int, check: Check, dialect: Dialect)
    requires
        0 <= pos <= b.len(),
    ensures
        member_value_at(b, pos, check, dialect) matches Ok(v) ==> pos + 1 < v <= b.len(),
{
    reveal(member_value_at);
    key_end_bounds(b, pos, check, dialect);
    if let Ok(end) = key_end(b, pos, check, dialect) {
        trivia_end_bounds(b, end, dialect);
        if let Ok(p) = trivia_end(b, end, dialect) {
            if p < b.len() {
                trivia_end_bounds(b, p + 1, dialect);
            }
        }
    }
}

/// A scalar ends past its start, inside the input.
pub proof fn scalar_bounds(b: Seq<u8>, pos: int, check: Check, dialect: Dialect)
    requires
        0 <= pos <= b.len(),
    ensures
        scalar(b, pos, check, dialect) matches Ok(e) ==> pos < e <= b.len(),
{
    if pos < b.len() {
        string_end_bounds(b, pos, check, dialect);
        number_end_bounds(b, pos, dialect);
        located_number_end_bounds(b, pos, dialect);
    }
}

/// A value ends past its start, inside the input, and holds no more nodes than bytes.
pub proof fn value_bounds(b: Seq<u8>, pos: int, ctx: Ctx, depth: int)
    requires
        0 <= pos <= b.len(),
    ensures
        value(b, pos, ctx, depth) matches Ok((e, n)) ==> pos < e <= b.len() && 1 <= n <= e - pos,
    decreases b.len() - pos, 0nat,
{
    if pos < b.len() && b[pos] == LBRACKET && depth < ctx.max {
        items_bounds(b, pos + 1, ctx, depth + 1, true);
    } else if pos < b.len() && b[pos] == LBRACE && depth < ctx.max {
        members_bounds(b, pos + 1, ctx, depth + 1, true);
    } else {
        scalar_bounds(b, pos, ctx.check, ctx.dialect);
    }
}

/// Array elements end past their start, inside the input.
pub proof fn items_bounds(b: Seq<u8>, pos: int, ctx: Ctx, depth: int, first: bool)
    requires
        0 <= pos <= b.len(),
    ensures
        items(b, pos, ctx, depth, first) matches Ok((e, n)) ==> pos < e <= b.len() && n < e - pos,
    decreases b.len() - pos, 1nat,
{
    next_at_bounds(b, pos, ctx.dialect, RBRACKET, first);
    if let Ok(NextAt::Item(p)) = next_at(b, pos, ctx.dialect, RBRACKET, first) {
        value_bounds(b, p, ctx, depth);
        if let Ok((e, n)) = value(b, p, ctx, depth) {
            items_bounds(b, e, ctx, depth, false);
        }
    }
}

/// Object members end past their start, inside the input.
pub proof fn members_bounds(b: Seq<u8>, pos: int, ctx: Ctx, depth: int, first: bool)
    requires
        0 <= pos <= b.len(),
    ensures
        members(b, pos, ctx, depth, first) matches Ok((e, n)) ==> pos < e <= b.len() && n < e - pos,
    decreases b.len() - pos, 1nat,
{
    next_at_bounds(b, pos, ctx.dialect, RBRACE, first);
    if let Ok(NextAt::Item(p)) = next_at(b, pos, ctx.dialect, RBRACE, first) {
        member_value_at_bounds(b, p, ctx.check, ctx.dialect);
        if let Ok(v) = member_value_at(b, p, ctx.check, ctx.dialect) {
            value_bounds(b, v, ctx, depth);
            if let Ok((e, n)) = value(b, v, ctx, depth) {
                members_bounds(b, e, ctx, depth, false);
            }
        }
    }
}

/// Longest RFC whitespace run from `pos`. Every RFC whitespace byte is at most
/// a space, so one compare is the whole dense case.
pub fn ws_rfc(bytes: &[u8], pos: usize) -> (r: usize)
    requires
        pos <= bytes@.len(),
    ensures
        r == run_end::<Ws>(bytes@, pos as int),
        ends_as(Ok(r), trivia_end(bytes@, pos as int, Dialect::Rfc8259)),
        pos <= r <= bytes@.len(),
{
    if pos < bytes.len() && bytes[pos] > 0x20 {
        return pos;
    }
    find_stop::<Ws>(bytes, pos)
}

/// Whether an executable step result is the one the separator law names.
pub open spec fn steps_as(r: Result<Next, Error>, named: Result<NextAt, Error>) -> bool {
    match named {
        Ok(NextAt::Close(e)) => r matches Ok(Next::Close(x)) && x == e,
        Ok(NextAt::Item(p)) => r matches Ok(Next::Item(x)) && x == p,
        Err(error) => r == Err::<Next, Error>(error),
    }
}

/// Step to what comes next inside a container.
pub fn next_item(bytes: &[u8], pos: usize, dialect: Dialect, closer: u8, first: bool) -> (r: Result<Next, Error>)
    requires
        pos <= bytes@.len(),
        closer == RBRACE || closer == RBRACKET,
    ensures
        steps_as(r, next_at(bytes@, pos as int, dialect, closer, first)),
        match r {
            Ok(Next::Close(e)) => pos < e <= bytes@.len() && bytes@[e - 1] == closer,
            Ok(Next::Item(p)) => pos <= p <= bytes@.len() && (first ==> p < bytes@.len()) && (!first ==> pos < p),
            Err(_) => true,
        },
{
    proof {
        reveal(next_at);
        next_at_bounds(bytes@, pos as int, dialect, closer, first);
    }
    let len: usize = bytes.len();
    let p: usize = skip_trivia(bytes, pos, dialect)?;
    if p >= len {
        return Err(
            Error::new(
                if closer == RBRACE {
                    ErrorKind::ExpectedKey
                } else {
                    ErrorKind::ExpectedCommaArray
                },
                p,
            ),
        );
    }
    let byte: u8 = bytes[p];
    if byte == closer {
        return Ok(Next::Close(p + 1));
    }
    if first {
        return Ok(Next::Item(p));
    }
    if byte != COMMA {
        return Err(
            Error::new(
                if closer == RBRACE {
                    ErrorKind::ExpectedCommaObject
                } else {
                    ErrorKind::ExpectedCommaArray
                },
                p,
            ),
        );
    }
    let q: usize = skip_trivia(bytes, p + 1, dialect)?;
    if q < len && bytes[q] == closer {
        if dialect.trailing_commas() {
            return Ok(Next::Close(q + 1));
        }
        return Err(Error::new(ErrorKind::TrailingComma, q));
    }
    Ok(Next::Item(q))
}

/// Step past the `:` after a key token that ends at `end`.
pub fn skip_colon(bytes: &[u8], end: usize, dialect: Dialect) -> (r: Result<usize, Error>)
    requires
        end <= bytes@.len(),
    ensures
        ends_as(r, after_colon(bytes@, end as int, dialect)),
        r matches Ok(v) ==> end < v <= bytes@.len(),
{
    let len: usize = bytes.len();
    let p: usize = skip_trivia(bytes, end, dialect)?;
    if p >= len || bytes[p] != COLON {
        return Err(Error::new(ErrorKind::ExpectedColon, p));
    }
    skip_trivia(bytes, p + 1, dialect)
}

/// Member head: a plain double-quoted key with the `:` adjacent is one
/// `plain_key` run plus post-colon trivia; otherwise the general key path.
pub fn skip_member(bytes: &[u8], pos: usize, check: Check, dialect: Dialect) -> (r: Result<usize, Error>)
    requires
        pos <= bytes@.len(),
    ensures
        ends_as(r, member_value_at(bytes@, pos as int, check, dialect)),
        r matches Ok(v) ==> pos + 1 < v <= bytes@.len(),
{
    let len: usize = bytes.len();
    proof {
        reveal(member_value_at);
        member_value_at_bounds(bytes@, pos as int, check, dialect);
    }
    if pos < len && bytes[pos] == QUOTE {
        if let Some(end) = plain_key(bytes, pos) {
            proof {
                plain_is_text(bytes@, pos as int, dialect);
            }
            if end < len && bytes[end] == COLON {
                proof {
                    super::ws::trivia_end_here(bytes@, end as int, dialect);
                }
                return skip_trivia(bytes, end + 1, dialect);
            }
        }
    }
    let end: usize = skip_key(bytes, pos, check, dialect)?;
    skip_colon(bytes, end, dialect)
}

/// End of a literal spelling at `start`.
pub fn skip_literal_spelling(bytes: &[u8], start: usize, spelling: &[u8], dialect: Dialect) -> (r: Result<usize, Error>)
    requires
        start < bytes@.len(),
        spelling@.len() > 0,
    ensures
        ends_as(r, spelling_end(bytes@, start as int, spelling@, dialect)),
        r matches Ok(e) ==> start < e <= bytes@.len(),
{
    let len: usize = bytes.len();
    if !spells(bytes, start, spelling) {
        if len - start < spelling.len() && starts_with_tail(bytes, start, spelling) {
            return Err(Error::new(ErrorKind::InvalidLiteral, len));
        }
        return Err(Error::new(ErrorKind::InvalidLiteral, start));
    }
    assert(start + spelling@.len() <= len);
    let end: usize = start + spelling.len();
    if is_token_end(bytes, end, dialect) {
        Ok(end)
    } else {
        Err(Error::new(ErrorKind::InvalidLiteral, end))
    }
}

/// Whether `text` starts with the bytes from `start` on.
fn starts_with_tail(bytes: &[u8], start: usize, text: &[u8]) -> (r: bool)
    requires
        start <= bytes@.len(),
        bytes@.len() - start <= text@.len(),
    ensures
        r == (bytes@.skip(start as int) == text@.take(bytes@.len() - start)),
{
    let len: usize = bytes.len();
    let mut i: usize = start;
    while i < len
        invariant
            start <= i <= len,
            len == bytes@.len(),
            len - start <= text@.len(),
            forall|k: int| start <= k < i ==> #[trigger] bytes@[k] == text@[k - start],
        decreases len - i,
    {
        if bytes[i] != text[i - start] {
            assert(bytes@.skip(start as int)[i - start] != text@.take(len - start)[i - start]);
            return false;
        }
        i = i + 1;
    }
    proof {
        let a = bytes@.skip(start as int);
        let t = text@.take(len - start);
        assert forall|k: int| 0 <= k < a.len() implies a[k] == t[k] by {
            assert(bytes@[k + start] == text@[k]);
        }
        assert(a =~= t);
    }
    true
}

/// Skip the literal at `start`, which begins with `t`, `f` or `n`.
fn skip_literal_at(bytes: &[u8], start: usize, dialect: Dialect) -> (r: Result<usize, Error>)
    requires
        start < bytes@.len(),
        starts_literal(bytes@[start as int]),
    ensures
        ends_as(r, spelling_end(bytes@, start as int, literal_text(bytes@[start as int]), dialect)),
{
    let byte: u8 = bytes[start];
    if byte == 0x74 {
        let word: [u8; 4] = [0x74, 0x72, 0x75, 0x65];
        assert(word@ =~= literal_text(byte));
        skip_literal_spelling(bytes, start, &word, dialect)
    } else if byte == 0x66 {
        let word: [u8; 5] = [0x66, 0x61, 0x6c, 0x73, 0x65];
        assert(word@ =~= literal_text(byte));
        skip_literal_spelling(bytes, start, &word, dialect)
    } else {
        let word: [u8; 4] = [0x6e, 0x75, 0x6c, 0x6c];
        assert(word@ =~= literal_text(byte));
        skip_literal_spelling(bytes, start, &word, dialect)
    }
}

fn skip_string_checked(bytes: &[u8], start: usize, check: Check, dialect: Dialect) -> (r: Result<usize, Error>)
    requires
        start < bytes@.len(),
        opens_string(bytes@[start as int], dialect),
    ensures
        ends_as(r, string_end(bytes@, start as int, check, dialect)),
{
    match check {
        Check::Locate => skip_string_locate(bytes, start, dialect),
        Check::Values => skip_string(bytes, start, dialect),
    }
}

fn skip_number_checked(bytes: &[u8], start: usize, check: Check, dialect: Dialect) -> (r: Result<usize, Error>)
    requires
        start < bytes@.len(),
    ensures
        ends_as(r, number_end_under(bytes@, start as int, check, dialect)),
{
    match check {
        Check::Locate => skip_number_locate(bytes, start, dialect),
        Check::Values => lex_number(bytes, start, dialect),
    }
}

/// Skip the scalar at `start`; a container is refused.
pub fn skip_scalar(bytes: &[u8], start: usize, check: Check, dialect: Dialect) -> (r: Result<usize, Error>)
    requires
        start <= bytes@.len(),
    ensures
        ends_as(r, scalar(bytes@, start as int, check, dialect)),
        r matches Ok(e) ==> start < e <= bytes@.len(),
{
    proof {
        scalar_bounds(bytes@, start as int, check, dialect);
    }
    if start >= bytes.len() {
        return Err(Error::new(ErrorKind::ExpectedValue, start));
    }
    let byte: u8 = bytes[start];
    let json5: bool = dialect.json5();
    if byte == QUOTE || (byte == APOSTROPHE && json5) {
        skip_string_checked(bytes, start, check, dialect)
    } else if byte == MINUS || (ZERO <= byte && byte <= NINE) || (json5 && (byte == PLUS || byte == DOT || byte == 0x49
        || byte == 0x4e)) {
        skip_number_checked(bytes, start, check, dialect)
    } else if byte == 0x74 || byte == 0x66 || byte == 0x6e {
        skip_literal_at(bytes, start, dialect)
    } else {
        Err(Error::new(ErrorKind::ExpectedValue, start))
    }
}

/// Whether a counting skip did what the grammar names.
pub open spec fn counts_as(r: Result<usize, Error>, before: u64, after: u64, named: Result<(int, nat), Error>) -> bool {
    match named {
        Ok((e, n)) => r is Ok && r->Ok_0 == e && after == before + n,
        Err(error) => r == Err::<usize, Error>(error),
    }
}

fn enter_depth(depth: u32, offset: usize, max: u32) -> (r: Result<u32, Error>)
    ensures
        match r {
            Ok(d) => depth < max && d == depth + 1,
            Err(error) => depth >= max && error == at(ErrorKind::Limit, offset as int),
        },
{
    if depth >= max {
        return Err(Error::new(ErrorKind::Limit, offset));
    }
    Ok(depth + 1)
}

/// Skip the value whose first byte is at `pos`, counting its nodes.
fn present(bytes: &[u8], pos: usize, ctx: Ctx, count: &mut u64, depth: u32) -> (r: Result<usize, Error>)
    requires
        pos <= bytes@.len(),
        *old(count) + (bytes@.len() - pos) <= u64::MAX,
    ensures
        counts_as(r, *old(count), *final(count), value(bytes@, pos as int, ctx, depth as int)),
        r matches Ok(e) ==> pos < e <= bytes@.len() && *final(count) - *old(count) <= e - pos,
    decreases bytes@.len() - pos, 0nat,
{
    proof {
        value_bounds(bytes@, pos as int, ctx, depth as int);
    }
    if pos < bytes.len() && bytes[pos] == LBRACKET {
        let end: usize = skip_array(bytes, pos, ctx, count, depth)?;
        *count = *count + 1;
        Ok(end)
    } else if pos < bytes.len() && bytes[pos] == LBRACE {
        let end: usize = skip_object(bytes, pos, ctx, count, depth)?;
        *count = *count + 1;
        Ok(end)
    } else {
        let end: usize = skip_scalar(bytes, pos, ctx.check, ctx.dialect)?;
        *count = *count + 1;
        Ok(end)
    }
}

/// Skip `{` … `}`.
fn skip_object(bytes: &[u8], pos: usize, ctx: Ctx, count: &mut u64, depth: u32) -> (r: Result<usize, Error>)
    requires
        pos < bytes@.len(),
        *old(count) + (bytes@.len() - pos - 1) <= u64::MAX,
    ensures
        depth >= ctx.max ==> r == Err::<usize, Error>(at(ErrorKind::Limit, pos as int)),
        depth < ctx.max ==> counts_as(
            r,
            *old(count),
            *final(count),
            members(bytes@, pos + 1, ctx, depth + 1, true),
        ),
        r matches Ok(e) ==> pos + 1 < e <= bytes@.len() && *final(count) - *old(count) < e - pos - 1,
    decreases bytes@.len() - pos - 1, 2nat,
{
    let child_depth: u32 = enter_depth(depth, pos, ctx.max)?;
    let len: usize = bytes.len();
    let mut cursor: usize = pos + 1;
    let mut first: bool = true;
    let ghost whole = members(bytes@, pos + 1, ctx, depth + 1, true);
    proof {
        members_bounds(bytes@, pos + 1, ctx, depth + 1, true);
        assert(whole == and_count(0, whole));
    }
    loop
        invariant
            pos < cursor <= len,
            len == bytes@.len(),
            child_depth == depth + 1,
            depth < ctx.max,
            *old(count) <= *count,
            *count - *old(count) <= cursor - pos - 1,
            *old(count) + (bytes@.len() - pos - 1) <= u64::MAX,
            whole == members(bytes@, pos + 1, ctx, depth + 1, true),
            whole == and_count(
                (*count - *old(count)) as nat,
                members(bytes@, cursor as int, ctx, child_depth as int, first),
            ),
            whole matches Ok((e, n)) ==> pos + 1 < e <= bytes@.len() && n < e - pos - 1,
        decreases len - cursor,
    {
        match next_item(bytes, cursor, ctx.dialect, RBRACE, first)? {
            Next::Close(end) => {
                return Ok(end);
            },
            Next::Item(p) => {
                let start: usize = skip_member(bytes, p, ctx.check, ctx.dialect)?;
                proof {
                    value_bounds(bytes@, start as int, ctx, child_depth as int);
                }
                cursor = present(bytes, start, ctx, count, child_depth)?;
                first = false;
            },
        }
    }
}

/// Skip `[` … `]`.
fn skip_array(bytes: &[u8], pos: usize, ctx: Ctx, count: &mut u64, depth: u32) -> (r: Result<usize, Error>)
    requires
        pos < bytes@.len(),
        *old(count) + (bytes@.len() - pos - 1) <= u64::MAX,
    ensures
        depth >= ctx.max ==> r == Err::<usize, Error>(at(ErrorKind::Limit, pos as int)),
        depth < ctx.max ==> counts_as(
            r,
            *old(count),
            *final(count),
            items(bytes@, pos + 1, ctx, depth + 1, true),
        ),
        r matches Ok(e) ==> pos + 1 < e <= bytes@.len() && *final(count) - *old(count) < e - pos - 1,
    decreases bytes@.len() - pos - 1, 2nat,
{
    let child_depth: u32 = enter_depth(depth, pos, ctx.max)?;
    let len: usize = bytes.len();
    let mut cursor: usize = pos + 1;
    let mut first: bool = true;
    let ghost whole = items(bytes@, pos + 1, ctx, depth + 1, true);
    proof {
        items_bounds(bytes@, pos + 1, ctx, depth + 1, true);
        assert(whole == and_count(0, whole));
    }
    loop
        invariant
            pos < cursor <= len,
            len == bytes@.len(),
            child_depth == depth + 1,
            depth < ctx.max,
            *old(count) <= *count,
            *count - *old(count) <= cursor - pos - 1,
            *old(count) + (bytes@.len() - pos - 1) <= u64::MAX,
            whole == items(bytes@, pos + 1, ctx, depth + 1, true),
            whole == and_count(
                (*count - *old(count)) as nat,
                items(bytes@, cursor as int, ctx, child_depth as int, first),
            ),
            whole matches Ok((e, n)) ==> pos + 1 < e <= bytes@.len() && n < e - pos - 1,
        decreases len - cursor,
    {
        match next_item(bytes, cursor, ctx.dialect, RBRACKET, first)? {
            Next::Close(end) => {
                return Ok(end);
            },
            Next::Item(p) => {
                proof {
                    value_bounds(bytes@, p as int, ctx, child_depth as int);
                }
                cursor = present(bytes, p, ctx, count, child_depth)?;
                first = false;
            },
        }
    }
}

/// Skip a value whose first token byte is at `pos`.
pub fn skip_present(bytes: &[u8], pos: usize, check: Check, max: u32, dialect: Dialect) -> (r: Result<usize, Error>)
    requires
        pos <= bytes@.len(),
    ensures
        ends_as(r, value_end(bytes@, pos as int, (Ctx { check, max, dialect }), 0)),
        r matches Ok(e) ==> pos < e <= bytes@.len(),
{
    skip_present_at(bytes, pos, Ctx { check, max, dialect }, 0)
}

/// [`skip_present`] continuing from an already-entered nesting depth.
pub fn skip_present_at(bytes: &[u8], pos: usize, ctx: Ctx, depth: u32) -> (r: Result<usize, Error>)
    requires
        pos <= bytes@.len(),
    ensures
        ends_as(r, value_end(bytes@, pos as int, ctx, depth as int)),
        r matches Ok(e) ==> pos < e <= bytes@.len(),
{
    let len: usize = bytes.len();
    let mut count: u64 = 0;
    present(bytes, pos, ctx, &mut count, depth)
}

/// Skip one value starting at `pos`, past its leading trivia.
pub fn skip_value(bytes: &[u8], pos: usize, check: Check, max: u32, dialect: Dialect) -> (r: Result<usize, Error>)
    requires
        pos <= bytes@.len(),
    ensures
        ends_as(r, end_at(value_past_trivia(bytes@, pos as int, (Ctx { check, max, dialect }), 0))),
        r matches Ok(e) ==> pos < e <= bytes@.len(),
{
    skip_value_at(bytes, pos, Ctx { check, max, dialect }, 0)
}

/// [`skip_value`] continuing from an already-entered nesting depth.
pub fn skip_value_at(bytes: &[u8], pos: usize, ctx: Ctx, depth: u32) -> (r: Result<usize, Error>)
    requires
        pos <= bytes@.len(),
    ensures
        ends_as(r, end_at(value_past_trivia(bytes@, pos as int, ctx, depth as int))),
        r matches Ok(e) ==> pos < e <= bytes@.len(),
{
    let start: usize = skip_trivia(bytes, pos, ctx.dialect)?;
    skip_present_at(bytes, start, ctx, depth)
}

/// Skip one value and count preorder nodes (self and descendants).
pub fn skip_value_counting(bytes: &[u8], pos: usize, ctx: Ctx) -> (r: Result<(usize, u64), Error>)
    requires
        pos <= bytes@.len(),
    ensures
        match value_past_trivia(bytes@, pos as int, ctx, 0) {
            Ok((e, n)) => r matches Ok((end, count)) && end == e && count == n && pos < e <= bytes@.len(),
            Err(error) => r == Err::<(usize, u64), Error>(error),
        },
{
    let start: usize = skip_trivia(bytes, pos, ctx.dialect)?;
    let len: usize = bytes.len();
    let mut count: u64 = 0;
    let end: usize = present(bytes, start, ctx, &mut count, 0)?;
    Ok((end, count))
}

} // verus!
