//! The members of a container with the glue an edit splices around.

use vstd::prelude::*;

use crate::ascii::{COMMA, CR, LBRACE, LBRACKET, RBRACE, RBRACKET, SLASH, SPACE, TAB};
use crate::dialect::Dialect;
use crate::edit::comments::{before_ws, skip_ws_back};
use crate::error::{at, Error, ErrorKind};
use crate::lex::skip::{
    after_colon, end_at, skip_colon, skip_value, value_past_trivia, Check, Ctx, MAX_NESTING,
};
use crate::lex::ws::{comment_end, skip_comment, skip_trivia, trivia_end, trivia_end_bounds};
use crate::lex::{key_text, key_text_end, read_key_into};
use crate::value::ByteRange;

verus! {

/// Which container a span opens.
#[derive(Clone, Copy, Debug, PartialEq, Eq, Structural)]
pub enum ContainerKind {
    /// An object.
    Object,
    /// An array.
    Array,
}

/// The container that opens past the trivia at `start`.
pub open spec fn container_at(b: Seq<u8>, start: int, dialect: Dialect) -> Result<Option<ContainerKind>, Error> {
    match trivia_end(b, start, dialect) {
        Err(error) => Err(error),
        Ok(open) => Ok(
            if open < b.len() && b[open] == LBRACE {
                Some(ContainerKind::Object)
            } else if open < b.len() && b[open] == LBRACKET {
                Some(ContainerKind::Array)
            } else {
                None
            },
        ),
    }
}

/// Which container `parent` opens.
pub fn container_kind(src: &[u8], parent: ByteRange, dialect: Dialect) -> (r: Result<Option<ContainerKind>, Error>)
    requires
        parent.start <= src@.len(),
    ensures
        r == container_at(src@, parent.start as int, dialect),
{
    let open: usize = skip_trivia(src, parent.start, dialect)?;
    Ok(
        if open < src.len() && src[open] == LBRACE {
            Some(ContainerKind::Object)
        } else if open < src.len() && src[open] == LBRACKET {
            Some(ContainerKind::Array)
        } else {
            None
        },
    )
}

/// One member or element of a container.
#[derive(Debug)]
pub struct Member {
    /// Decoded object key; `None` for an array element.
    pub key: Option<Vec<u8>>,
    /// Leading trivia start: just after the opener or the previous comma.
    pub start: usize,
    /// Object key token.
    pub key_start: usize,
    /// Past the object key token.
    pub key_end: usize,
    /// The value.
    pub value_start: usize,
    /// Past the value.
    pub value_end: usize,
    /// Past a same-line comment after the value, when one follows.
    pub end: usize,
}

/// [`Member`] over byte sequences.
pub struct MemberModel {
    /// Decoded object key.
    pub key: Option<Seq<u8>>,
    /// Leading trivia start.
    pub start: int,
    /// Object key token.
    pub key_start: int,
    /// Past the object key token.
    pub key_end: int,
    /// The value.
    pub value_start: int,
    /// Past the value.
    pub value_end: int,
    /// Past a same-line comment after the value.
    pub end: int,
}

impl View for Member {
    type V = MemberModel;

    open spec fn view(&self) -> MemberModel {
        MemberModel {
            key: match self.key {
                Some(key) => Some(key@),
                None => None,
            },
            start: self.start as int,
            key_start: self.key_start as int,
            key_end: self.key_end as int,
            value_start: self.value_start as int,
            value_end: self.value_end as int,
            end: self.end as int,
        }
    }
}

/// Members over byte sequences.
pub open spec fn members_model(members: Seq<Member>) -> Seq<MemberModel> {
    members.map_values(|m: Member| m@)
}

/// Past the blanks at `pos` that stay on its line.
pub open spec fn line_blanks_end(b: Seq<u8>, pos: int) -> int
    decreases b.len() - pos,
{
    if pos < b.len() && (b[pos] == SPACE || b[pos] == TAB || b[pos] == CR) {
        line_blanks_end(b, pos + 1)
    } else {
        pos
    }
}

/// Past a comment on the same line as the value ending at `pos`; `pos` when
/// there is none.
pub open spec fn inline_end(b: Seq<u8>, pos: int, dialect: Dialect) -> Result<int, Error> {
    let c = line_blanks_end(b, pos);
    if dialect.comments() && c < b.len() && b[c] == SLASH {
        comment_end(b, c)
    } else {
        Ok(pos)
    }
}

/// Past a comment on the same line as the value ending at `pos`, if any.
fn take_inline_comment(src: &[u8], pos: usize, dialect: Dialect) -> (r: Result<usize, Error>)
    requires
        pos <= src@.len(),
    ensures
        match inline_end(src@, pos as int, dialect) {
            Ok(e) => r is Ok && r->Ok_0 == e && pos <= e <= src@.len(),
            Err(error) => r == Err::<usize, Error>(error),
        },
{
    if !dialect.has_comments() {
        return Ok(pos);
    }
    let mut cursor: usize = pos;
    while cursor < src.len() && (src[cursor] == SPACE || src[cursor] == TAB || src[cursor] == CR)
        invariant
            pos <= cursor <= src@.len(),
            line_blanks_end(src@, cursor as int) == line_blanks_end(src@, pos as int),
        decreases src@.len() - cursor,
    {
        cursor += 1;
    }
    if cursor >= src.len() || src[cursor] != SLASH {
        return Ok(pos);
    }
    skip_comment(src, cursor)
}

/// The member whose token starts at `p`, after glue from `start`.
#[verifier::opaque]
pub open spec fn member_at(b: Seq<u8>, start: int, p: int, kind: ContainerKind, dialect: Dialect) -> Result<MemberModel, Error> {
    match (if kind is Object {
        match key_text(b, p, dialect) {
            Err(error) => Err(error),
            Ok((e, key)) => match after_colon(b, e, dialect) {
                Err(error) => Err(error),
                Ok(v) => Ok((Some(key), e, v)),
            },
        }
    } else {
        Ok((None, p, p))
    }) {
        Err(error) => Err(error),
        Ok((key, key_end, v)) => match end_at(
            value_past_trivia(b, v, Ctx { check: Check::Values, max: MAX_NESTING, dialect }, 0),
        ) {
            Err(error) => Err(error),
            Ok(value_end) => match inline_end(b, value_end, dialect) {
                Err(error) => Err(error),
                Ok(end) => Ok(MemberModel { key, start, key_start: p, key_end, value_start: v, value_end, end }),
            },
        },
    }
}

/// Past the trivia at `pos` and the comma after it, when there is one.
pub open spec fn past_comma(b: Seq<u8>, pos: int, dialect: Dialect) -> Result<int, Error> {
    match trivia_end(b, pos, dialect) {
        Err(error) => Err(error),
        Ok(p) => Ok(
            if p < b.len() && b[p] == COMMA {
                p + 1
            } else {
                p
            },
        ),
    }
}

/// The members of a container from `pos`, after `done`: to its closer, or to
/// the end of the container's span.
pub open spec fn members_from(
    b: Seq<u8>,
    pos: int,
    limit: int,
    kind: ContainerKind,
    dialect: Dialect,
    done: Seq<MemberModel>,
) -> Result<Seq<MemberModel>, Error>
    decreases b.len() - pos,
{
    match trivia_end(b, pos, dialect) {
        Err(error) => Err(error),
        Ok(p) => if p >= limit || p >= b.len() || b[p] == (if kind is Object {
            RBRACE
        } else {
            RBRACKET
        }) {
            Ok(done)
        } else if b[p] == COMMA {
            if pos <= p {
                members_from(b, p + 1, limit, kind, dialect, done)
            } else {
                Ok(done)
            }
        } else {
            match member_at(b, pos, p, kind, dialect) {
                Err(error) => Err(error),
                Ok(m) => match past_comma(b, m.end, dialect) {
                    Err(error) => Err(error),
                    Ok(next) => if pos < next <= b.len() {
                        members_from(b, next, limit, kind, dialect, done.push(m))
                    } else {
                        Ok(done.push(m))
                    },
                },
            }
        },
    }
}

/// The members of the container `parent` opens.
pub open spec fn members_of(b: Seq<u8>, parent: ByteRange, dialect: Dialect) -> Result<Seq<MemberModel>, Error> {
    match container_at(b, parent.start as int, dialect) {
        Err(error) => Err(error),
        Ok(None) => Err(at(ErrorKind::EditUnplaceable, parent.start as int)),
        Ok(Some(kind)) => members_from(b, parent.start + 1, parent.end as int, kind, dialect, Seq::empty()),
    }
}

/// Whether a member's parts lie in order inside the source.
pub open spec fn member_within(m: MemberModel, len: int) -> bool {
    &&& 0 <= m.start <= m.key_start <= m.key_end <= m.value_start < m.value_end <= m.end <= len
}

fn take_member(src: &[u8], start: usize, p: usize, kind: ContainerKind, dialect: Dialect) -> (r: Result<Member, Error>)
    requires
        start <= p < src@.len(),
    ensures
        match member_at(src@, start as int, p as int, kind, dialect) {
            Ok(m) => r matches Ok(member) && member@ == m && member_within(m, src@.len() as int),
            Err(error) => r is Err && r->Err_0 == error,
        },
{
    proof {
        reveal(member_at);
        key_text_end(src@, p as int, dialect);
    }
    let mut key: Option<Vec<u8>> = None;
    let mut key_end: usize = p;
    let mut value_start: usize = p;
    if matches!(kind, ContainerKind::Object) {
        let mut text: Vec<u8> = Vec::new();
        key_end = read_key_into(src, p, &mut text, dialect)?;
        value_start = skip_colon(src, key_end, dialect)?;
        key = Some(text);
    }
    let value_end: usize = skip_value(src, value_start, Check::Values, MAX_NESTING, dialect)?;
    let end: usize = take_inline_comment(src, value_end, dialect)?;
    Ok(Member { key, start, key_start: p, key_end, value_start, value_end, end })
}

/// Collect one parent's members in a single pass.
pub fn collect_members(src: &[u8], parent: ByteRange, dialect: Dialect) -> (r: Result<Vec<Member>, Error>)
    requires
        parent.start <= src@.len(),
    ensures
        match members_of(src@, parent, dialect) {
            Ok(members) => r matches Ok(v) && members_model(v@) == members && forall|i: int|
                0 <= i < v@.len() ==> member_within((#[trigger] v@[i])@, src@.len() as int),
            Err(error) => r is Err && r->Err_0 == error,
        },
{
    let len: usize = src.len();
    proof {
        trivia_end_bounds(src@, parent.start as int, dialect);
    }
    let kind = match container_kind(src, parent, dialect)? {
        Some(kind) => kind,
        None => {
            return Err(Error::new(ErrorKind::EditUnplaceable, parent.start));
        },
    };
    let closer: u8 = if matches!(kind, ContainerKind::Object) {
        RBRACE
    } else {
        RBRACKET
    };
    proof {
        assert(parent.start < len);
    }
    let mut pos: usize = parent.start + 1;
    let mut members: Vec<Member> = Vec::new();
    let ghost whole = members_of(src@, parent, dialect);
    proof {
        assert(members_model(members@) =~= Seq::<MemberModel>::empty());
    }
    loop
        invariant
            pos <= len,
            len == src@.len(),
            closer == (if kind is Object {
                RBRACE
            } else {
                RBRACKET
            }),
            whole == members_of(src@, parent, dialect),
            whole == members_from(src@, pos as int, parent.end as int, kind, dialect, members_model(members@)),
            forall|i: int| 0 <= i < members@.len() ==> member_within((#[trigger] members@[i])@, len as int),
        decreases len - pos,
    {
        let p: usize = skip_trivia(src, pos, dialect)?;
        if p >= parent.end || p >= len || src[p] == closer {
            return Ok(members);
        }
        if src[p] == COMMA {
            pos = p + 1;
        } else {
            let member = take_member(src, pos, p, kind, dialect)?;
            let ghost taken = member@;
            proof {
                assert(member_at(src@, pos as int, p as int, kind, dialect) == Ok::<MemberModel, Error>(taken));
                assert(member_within(taken, len as int));
                assert(taken.start == pos) by {
                    reveal(member_at);
                }
            }
            let after: usize = skip_trivia(src, member.end, dialect)?;
            let ghost done = members@;
            members.push(member);
            proof {
                assert(members_model(members@) =~= members_model(done).push(taken));
            }
            pos = if after < len && src[after] == COMMA {
                after + 1
            } else {
                after
            };
        }
    }
}

/// The last member with a key.
pub open spec fn last_with_key(members: Seq<MemberModel>, key: Seq<u8>) -> Option<MemberModel>
    decreases members.len(),
{
    if members.len() == 0 {
        None
    } else if members.last().key == Some(key) {
        Some(members.last())
    } else {
        last_with_key(members.drop_last(), key)
    }
}

/// Whether a member has the key.
pub fn has_key(member: &Member, key: &[u8]) -> (r: bool)
    ensures
        r == (member@.key == Some(key@)),
{
    match &member.key {
        Some(own) => crate::text::same_bytes(own.as_slice(), key),
        None => false,
    }
}

/// Position of the last member with a key.
pub fn find_member(members: &Vec<Member>, key: &[u8]) -> (r: Option<usize>)
    ensures
        match last_with_key(members_model(members@), key@) {
            Some(m) => r matches Some(i) && i < members@.len() && members@[i as int]@ == m,
            None => r is None,
        },
{
    let ghost model = members_model(members@);
    let mut i: usize = members.len();
    proof {
        assert(model.take(i as int) =~= model);
    }
    while i > 0
        invariant
            i <= members@.len(),
            model == members_model(members@),
            last_with_key(model, key@) == last_with_key(model.take(i as int), key@),
        decreases i,
    {
        proof {
            assert(model.take(i as int).last() == members@[i - 1]@);
            assert(model.take(i as int).drop_last() =~= model.take(i - 1));
        }
        if has_key(&members[i - 1], key) {
            return Some(i - 1);
        }
        i -= 1;
    }
    None
}

/// A removed span widened over its separator: the comma before it, else the
/// comma after it.
pub open spec fn with_comma(b: Seq<u8>, from: int, to: int, dialect: Dialect) -> (int, int) {
    let k = before_ws(b, from);
    if 0 < k && b[k - 1] == COMMA {
        (k - 1, to)
    } else {
        match trivia_end(b, to, dialect) {
            Ok(after) => if after < b.len() && b[after] == COMMA {
                (from, after + 1)
            } else {
                (from, to)
            },
            Err(_) => (from, to),
        }
    }
}

/// `span` with the separator that goes when it is removed.
pub fn comma_span(src: &[u8], span: ByteRange, dialect: Dialect) -> (r: (usize, usize))
    requires
        span.start <= src@.len(),
        span.end <= src@.len(),
    ensures
        (r.0 as int, r.1 as int) == with_comma(src@, span.start as int, span.end as int, dialect),
        r.0 <= span.start,
        span.end <= r.1 <= src@.len(),
{
    let k: usize = skip_ws_back(src, span.start);
    if k > 0 && src[k - 1] == COMMA {
        return (k - 1, span.end);
    }
    match skip_trivia(src, span.end, dialect) {
        Ok(after) => {
            if after < src.len() && src[after] == COMMA {
                return (span.start, after + 1);
            }
        },
        Err(_) => {},
    }
    (span.start, span.end)
}

/// The slot an insert index names among `len` items; a negative index counts
/// from the end.
pub open spec fn insert_slot(len: int, index: int) -> Option<int> {
    if 0 <= index <= len {
        Some(index)
    } else if index < 0 && len + index >= 0 {
        Some(len + index)
    } else {
        None
    }
}

/// The slot an insert index names.
pub fn insert_index(len: usize, index: i64) -> (r: Result<usize, Error>)
    ensures
        match insert_slot(len as int, index as int) {
            Some(slot) => r is Ok && r->Ok_0 == slot && slot <= len,
            None => r == Err::<usize, Error>(at(ErrorKind::EditUnplaceable, 0)),
        },
{
    let slot: i128 = if index >= 0 {
        index as i128
    } else {
        len as i128 + index as i128
    };
    if 0 <= slot && slot <= len as i128 {
        Ok(slot as usize)
    } else {
        Err(Error::new(ErrorKind::EditUnplaceable, 0))
    }
}

} // verus!
