//! Where each edit splices the source.

use vstd::prelude::*;

use crate::ascii::{COLON, COMMA, LBRACE, LBRACKET, RBRACE, RBRACKET};
use crate::demand::{step_model, steps_model, Step, StepModel};
use crate::dialect::Dialect;
use crate::edit::members::{
    collect_members, comma_span, container_at, container_kind, find_member, insert_index, insert_slot, last_with_key,
    member_within, members_model, members_of, with_comma, ContainerKind, Member, MemberModel,
};
use crate::edit::request::{Edit, EditModel};
use crate::edit::splice::{Splice, SpliceModel};
use crate::emit::encode_value;
use crate::encode::{append, write_string, written, written_string, EncodeOptions, Indent, ItemFraming};
use crate::error::{at, Error, ErrorKind};
use crate::lex::ws::{skip_trivia, trivia_end};
use crate::text::{bytes_of, text_bytes};
use crate::value::{json, resolve_index, resolved, ByteRange, Json, Value};

verus! {

/// Compact writing under a dialect.
pub open spec fn compact_under(dialect: Dialect) -> EncodeOptions {
    EncodeOptions {
        pretty: false,
        indent: Indent::Spaces(2),
        framing: ItemFraming::Unframed,
        verbatim: true,
        dialect,
        sort_keys: false,
        ascii: false,
    }
}

/// The bytes a value is spliced in as.
pub open spec fn replacement(value: Json, dialect: Dialect) -> Result<Seq<u8>, Error> {
    written(value, compact_under(dialect), 0)
}

pub(crate) fn encoded(value: &Value, dialect: Dialect) -> (r: Result<Vec<u8>, Error>)
    ensures
        match replacement(json(*value), dialect) {
            Ok(bytes) => r matches Ok(v) && v@ == bytes,
            Err(error) => r == Err::<Vec<u8>, Error>(error),
        },
{
    encode_value(value, &EncodeOptions::compact().with_dialect(dialect))
}

/// A splice that writes no comment.
pub open spec fn plain_splice(index: int, from: int, to: int, bytes: Seq<u8>) -> SpliceModel {
    SpliceModel { index, from, to, bytes, fact: None }
}

fn plain(index: usize, from: usize, to: usize, bytes: Vec<u8>) -> (r: Splice)
    ensures
        r@ == plain_splice(index as int, from as int, to as int, bytes@),
{
    Splice { index, from, to, bytes, fact: None }
}

/// The refusal of an edit that has no place in the source.
pub open spec fn unplaceable(offset: int) -> Error {
    at(ErrorKind::EditUnplaceable, offset)
}

/// Splices over byte sequences, as a result.
pub open spec fn plans_as(r: Result<Vec<Splice>, Error>, named: Result<Seq<SpliceModel>, Error>) -> bool {
    match named {
        Ok(splices) => r is Ok && crate::edit::splice::splices_model(r->Ok_0@) == splices,
        Err(error) => r is Err && r->Err_0 == error,
    }
}

fn one(s: Splice) -> (r: Vec<Splice>)
    ensures
        crate::edit::splice::splices_model(r@) == seq![s@],
{
    let mut out: Vec<Splice> = Vec::new();
    let ghost model = s@;
    out.push(s);
    proof {
        assert(crate::edit::splice::splices_model(out@) =~= seq![model]);
    }
    out
}

fn none() -> (r: Vec<Splice>)
    ensures
        crate::edit::splice::splices_model(r@) == Seq::<SpliceModel>::empty(),
{
    let out: Vec<Splice> = Vec::new();
    proof {
        assert(crate::edit::splice::splices_model(out@) =~= Seq::<SpliceModel>::empty());
    }
    out
}

/// The member or element a step names.
pub open spec fn target_of(members: Seq<MemberModel>, step: StepModel) -> Option<MemberModel> {
    match step {
        StepModel::Key(name) => last_with_key(members, name),
        StepModel::Index(index) => match resolved(members.len() as int, index as int) {
            Some(i) => Some(members[i]),
            None => None,
        },
    }
}

/// Whether a step can name a slot of a container.
pub open spec fn step_fits(kind: Option<ContainerKind>, step: StepModel) -> bool {
    match (kind, step) {
        (Some(ContainerKind::Object), StepModel::Key(_)) => true,
        (Some(ContainerKind::Array), StepModel::Index(_)) => true,
        _ => false,
    }
}

/// The splice that removes the slot a path names; none when there is nothing
/// to remove.
pub open spec fn planned_delete(
    src: Seq<u8>,
    index: int,
    path: Seq<StepModel>,
    span: Option<ByteRange>,
    dialect: Dialect,
) -> Result<Seq<SpliceModel>, Error> {
    if path.len() == 0 {
        Err(at(ErrorKind::DeleteRoot, 0))
    } else {
        match span {
            None => Ok(Seq::empty()),
            Some(parent) => match container_at(src, parent.start as int, dialect) {
                Err(error) => Err(error),
                Ok(kind) => if !step_fits(kind, path.last()) {
                    Ok(Seq::empty())
                } else {
                    match members_of(src, parent, dialect) {
                        Err(error) => Err(error),
                        Ok(members) => match target_of(members, path.last()) {
                            None => Ok(Seq::empty()),
                            Some(m) => {
                                let cut = with_comma(src, m.start, m.end, dialect);
                                Ok(seq![plain_splice(index, cut.0, cut.1, Seq::empty())])
                            },
                        },
                    }
                },
            },
        }
    }
}

/// Remove the member or element `path` names. An absent target is a no-op; a
/// step that names the wrong container kind for its parent is one too.
fn plan_delete(src: &[u8], index: usize, path: &Vec<Step>, span: Option<ByteRange>, dialect: Dialect) -> (r: Result<
    Vec<Splice>,
    Error,
>)
    requires
        span matches Some(s) ==> s.start <= src@.len(),
    ensures
        plans_as(r, planned_delete(src@, index as int, steps_model(path@), span, dialect)),
{
    let n: usize = path.len();
    if n == 0 {
        return Err(Error::new(ErrorKind::DeleteRoot, 0));
    }
    let parent = match span {
        Some(parent) => parent,
        None => {
            return Ok(none());
        },
    };
    let last: &Step = &path[n - 1];
    proof {
        assert(steps_model(path@).last() == step_model(*last));
    }
    let kind = container_kind(src, parent, dialect)?;
    let fits: bool = match (kind, last) {
        (Some(ContainerKind::Object), Step::Key(_)) => true,
        (Some(ContainerKind::Array), Step::Index(_)) => true,
        _ => false,
    };
    if !fits {
        return Ok(none());
    }
    let members = collect_members(src, parent, dialect)?;
    let target: Option<usize> = match last {
        Step::Key(name) => find_member(&members, text_bytes(name)),
        Step::Index(i) => resolve_index(members.len(), *i),
    };
    match target {
        None => Ok(none()),
        Some(i) => {
            let m: &Member = &members[i];
            proof {
                assert(member_within(m@, src@.len() as int));
                assert(members_model(members@)[i as int] == m@);
            }
            let (from, to) = comma_span(src, ByteRange { start: m.start, end: m.end }, dialect);
            Ok(one(plain(index, from, to, Vec::new())))
        },
    }
}

/// Whether some member has a key.
pub open spec fn any_with_key(members: Seq<MemberModel>, key: Seq<u8>) -> bool {
    last_with_key(members, key) is Some
}

/// The splices that rewrite a member's key and value, keeping the colon and
/// whitespace between them. Renaming onto another member's key has no place: it
/// would leave two members with the same key.
pub open spec fn planned_rename(
    src: Seq<u8>,
    index: int,
    path: Seq<StepModel>,
    key: Seq<u8>,
    value: Json,
    span: Option<ByteRange>,
    dialect: Dialect,
) -> Result<Seq<SpliceModel>, Error> {
    if path.len() == 0 || !(path.last() is Key) {
        Err(at(ErrorKind::ReplaceNeedsMember, 0))
    } else {
        match span {
            None => Err(unplaceable(0)),
            Some(parent) => match members_of(src, parent, dialect) {
                Err(error) => Err(error),
                Ok(members) => match last_with_key(members, path.last()->Key_0) {
                    None => Err(unplaceable(parent.start as int)),
                    Some(m) => if path.last()->Key_0 != key && any_with_key(members, key) {
                        Err(unplaceable(parent.start as int))
                    } else {
                        match replacement(value, dialect) {
                            Err(error) => Err(error),
                            Ok(bytes) => Ok(
                                seq![
                                    plain_splice(index, m.key_start, m.key_end, written_string(key, false)),
                                    plain_splice(index, m.value_start, m.value_end, bytes),
                                ],
                            ),
                        }
                    },
                },
            },
        }
    }
}

/// Rewrite the member `path` names as `key` + `value`, keeping the colon and
/// whitespace.
fn plan_replace_member(
    src: &[u8],
    index: usize,
    path: &Vec<Step>,
    key: &String,
    value: &Value,
    span: Option<ByteRange>,
    dialect: Dialect,
) -> (r: Result<Vec<Splice>, Error>)
    requires
        span matches Some(s) ==> s.start <= src@.len(),
    ensures
        plans_as(
            r,
            planned_rename(src@, index as int, steps_model(path@), bytes_of(*key), json(*value), span, dialect),
        ),
{
    let n: usize = path.len();
    if n == 0 {
        return Err(Error::new(ErrorKind::ReplaceNeedsMember, 0));
    }
    proof {
        assert(steps_model(path@).last() == step_model(path@[n - 1]));
    }
    let name: &String = match &path[n - 1] {
        Step::Key(name) => name,
        Step::Index(_) => {
            return Err(Error::new(ErrorKind::ReplaceNeedsMember, 0));
        },
    };
    let parent = match span {
        Some(parent) => parent,
        None => {
            return Err(Error::new(ErrorKind::EditUnplaceable, 0));
        },
    };
    let members = collect_members(src, parent, dialect)?;
    let at_member: usize = match find_member(&members, text_bytes(name)) {
        Some(i) => i,
        None => {
            return Err(Error::new(ErrorKind::EditUnplaceable, parent.start));
        },
    };
    if !crate::text::same_bytes(text_bytes(name), text_bytes(key)) && find_member(&members, text_bytes(key)).is_some() {
        return Err(Error::new(ErrorKind::EditUnplaceable, parent.start));
    }
    let m: &Member = &members[at_member];
    let mut new_key: Vec<u8> = Vec::new();
    let ghost start = new_key@;
    write_string(key.as_str(), false, &mut new_key);
    proof {
        assert(new_key@ =~= written_string(bytes_of(*key), false));
    }
    let new_value = encoded(value, dialect)?;
    let mut out: Vec<Splice> = Vec::new();
    let first = plain(index, m.key_start, m.key_end, new_key);
    let second = plain(index, m.value_start, m.value_end, new_value);
    let ghost pair = seq![first@, second@];
    out.push(first);
    out.push(second);
    proof {
        assert(crate::edit::splice::splices_model(out@) =~= pair);
    }
    Ok(out)
}

/// The splice that empties the container at a span.
pub open spec fn planned_clear(src: Seq<u8>, index: int, span: Option<ByteRange>, dialect: Dialect) -> Result<
    Seq<SpliceModel>,
    Error,
> {
    match span {
        None => Err(unplaceable(0)),
        Some(s) => match trivia_end(src, s.start as int, dialect) {
            Err(error) => Err(error),
            Ok(open) => if open < src.len() && src[open] == LBRACE {
                Ok(seq![plain_splice(index, s.start as int, s.end as int, seq![LBRACE, RBRACE])])
            } else if open < src.len() && src[open] == LBRACKET {
                Ok(seq![plain_splice(index, s.start as int, s.end as int, seq![LBRACKET, RBRACKET])])
            } else {
                Err(unplaceable(open))
            },
        },
    }
}

/// Replace the container at `span` with an empty one of the same kind.
fn plan_clear(src: &[u8], index: usize, span: Option<ByteRange>, dialect: Dialect) -> (r: Result<Vec<Splice>, Error>)
    requires
        span matches Some(s) ==> s.start <= src@.len(),
    ensures
        plans_as(r, planned_clear(src@, index as int, span, dialect)),
{
    let s = match span {
        Some(s) => s,
        None => {
            return Err(Error::new(ErrorKind::EditUnplaceable, 0));
        },
    };
    let open: usize = skip_trivia(src, s.start, dialect)?;
    if open >= src.len() || (src[open] != LBRACE && src[open] != LBRACKET) {
        return Err(Error::new(ErrorKind::EditUnplaceable, open));
    }
    let closer: u8 = if src[open] == LBRACE {
        RBRACE
    } else {
        RBRACKET
    };
    let mut bytes: Vec<u8> = Vec::new();
    bytes.push(src[open]);
    bytes.push(closer);
    proof {
        assert(bytes@ =~= seq![src@[open as int], closer]);
    }
    Ok(one(plain(index, s.start, s.end, bytes)))
}

/// The splice that puts a piece behind the last member; glue before the closer,
/// a trailing comma included, goes.
pub open spec fn appended(index: int, parent: ByteRange, members: Seq<MemberModel>, piece: Seq<u8>) -> SpliceModel {
    plain_splice(
        index,
        if members.len() == 0 {
            parent.start + 1
        } else {
            members.last().end
        },
        if parent.end == 0 {
            0
        } else {
            parent.end - 1
        },
        if members.len() == 0 {
            piece
        } else {
            seq![COMMA] + piece
        },
    )
}

/// Splice a fresh member into a container; a non-empty one drops its trailing
/// glue (and any trailing comma) before its closer.
fn append_member(index: usize, parent: ByteRange, members: &Vec<Member>, piece: &[u8]) -> (r: Splice)
    requires
        parent.start < usize::MAX,
    ensures
        r@ == appended(index as int, parent, members_model(members@), piece@),
{
    let n: usize = members.len();
    let to: usize = if parent.end == 0 {
        0
    } else {
        parent.end - 1
    };
    let mut bytes: Vec<u8> = Vec::new();
    let from: usize = if n == 0 {
        parent.start + 1
    } else {
        proof {
            assert(members_model(members@).last() == members@[n - 1]@);
        }
        bytes.push(COMMA);
        members[n - 1].end
    };
    append(&mut bytes, piece);
    proof {
        assert(bytes@ =~= (if n == 0 {
            piece@
        } else {
            seq![COMMA] + piece@
        }));
    }
    plain(index, from, to, bytes)
}

/// The splice that fills the slot a path names. A key that already exists gets
/// its value replaced; a new key or index appends or lands in place with its
/// separating comma.
pub open spec fn planned_insert(
    src: Seq<u8>,
    index: int,
    path: Seq<StepModel>,
    value: Json,
    span: Option<ByteRange>,
    dialect: Dialect,
) -> Result<Seq<SpliceModel>, Error> {
    match span {
        None => Err(unplaceable(0)),
        Some(parent) => if path.len() == 0 {
            Err(at(ErrorKind::InsertRoot, 0))
        } else {
            match container_at(src, parent.start as int, dialect) {
                Err(error) => Err(error),
                Ok(None) => Err(unplaceable(parent.start as int)),
                Ok(Some(kind)) => match replacement(value, dialect) {
                    Err(error) => Err(error),
                    Ok(bytes) => match members_of(src, parent, dialect) {
                        Err(error) => Err(error),
                        Ok(members) => if !step_fits(Some(kind), path.last()) {
                            Err(unplaceable(parent.start as int))
                        } else {
                            filled_slot(index, parent, members, path.last(), bytes)
                        },
                    },
                },
            }
        },
    }
}

/// The splice that fills a slot among `members`.
pub open spec fn filled_slot(
    index: int,
    parent: ByteRange,
    members: Seq<MemberModel>,
    step: StepModel,
    bytes: Seq<u8>,
) -> Result<Seq<SpliceModel>, Error> {
    match step {
        StepModel::Key(name) => match last_with_key(members, name) {
            Some(m) => Ok(seq![plain_splice(index, m.value_start, m.value_end, bytes)]),
            None => Ok(seq![appended(index, parent, members, written_string(name, false) + seq![COLON] + bytes)]),
        },
        StepModel::Index(i) => match insert_slot(members.len() as int, i as int) {
            None => Err(unplaceable(0)),
            Some(slot) => if members.len() == 0 {
                Ok(seq![plain_splice(index, parent.start + 1, parent.start + 1, bytes)])
            } else if slot >= members.len() {
                Ok(seq![appended(index, parent, members, bytes)])
            } else {
                Ok(seq![plain_splice(index, members[slot].start, members[slot].start, bytes + seq![COMMA])])
            },
        },
    }
}

/// Insert `value` at `path`.
fn plan_insert(src: &[u8], index: usize, path: &Vec<Step>, value: &Value, span: Option<ByteRange>, dialect: Dialect) -> (r: Result<
    Vec<Splice>,
    Error,
>)
    requires
        span matches Some(s) ==> s.start <= src@.len(),
    ensures
        plans_as(r, planned_insert(src@, index as int, steps_model(path@), json(*value), span, dialect)),
{
    let parent = match span {
        Some(parent) => parent,
        None => {
            return Err(Error::new(ErrorKind::EditUnplaceable, 0));
        },
    };
    let n: usize = path.len();
    if n == 0 {
        return Err(Error::new(ErrorKind::InsertRoot, 0));
    }
    let last: &Step = &path[n - 1];
    proof {
        assert(steps_model(path@).last() == step_model(*last));
    }
    let len: usize = src.len();
    let kind = match container_kind(src, parent, dialect)? {
        Some(kind) => kind,
        None => {
            return Err(Error::new(ErrorKind::EditUnplaceable, parent.start));
        },
    };
    proof {
        crate::lex::ws::trivia_end_bounds(src@, parent.start as int, dialect);
        assert(parent.start < len);
    }
    let bytes = encoded(value, dialect)?;
    let members = collect_members(src, parent, dialect)?;
    match (last, kind) {
        (Step::Key(name), ContainerKind::Object) => {
            match find_member(&members, text_bytes(name)) {
                Some(i) => {
                    let m: &Member = &members[i];
                    Ok(one(plain(index, m.value_start, m.value_end, bytes)))
                },
                None => {
                    let mut piece: Vec<u8> = Vec::new();
                    write_string(name.as_str(), false, &mut piece);
                    piece.push(COLON);
                    append(&mut piece, bytes.as_slice());
                    proof {
                        assert(piece@ =~= written_string(bytes_of(*name), false) + seq![COLON] + bytes@);
                    }
                    Ok(one(append_member(index, parent, &members, piece.as_slice())))
                },
            }
        },
        (Step::Index(i), ContainerKind::Array) => {
            let slot: usize = insert_index(members.len(), *i)?;
            if members.len() == 0 {
                return Ok(one(plain(index, parent.start + 1, parent.start + 1, bytes)));
            }
            if slot >= members.len() {
                return Ok(one(append_member(index, parent, &members, bytes.as_slice())));
            }
            let mut piece = bytes;
            let ghost before = piece@;
            piece.push(COMMA);
            proof {
                assert(piece@ =~= before + seq![COMMA]);
                assert(members_model(members@)[slot as int] == members@[slot as int]@);
            }
            Ok(one(plain(index, members[slot].start, members[slot].start, piece)))
        },
        _ => Err(Error::new(ErrorKind::EditUnplaceable, parent.start)),
    }
}


/// The splices of one edit that writes no comment.
pub open spec fn planned_splice(src: Seq<u8>, index: int, e: EditModel, span: Option<ByteRange>, dialect: Dialect) -> Result<
    Seq<SpliceModel>,
    Error,
> {
    match e {
        EditModel::Assign(_, value) => match span {
            None => Err(unplaceable(0)),
            Some(s) => match replacement(value, dialect) {
                Err(error) => Err(error),
                Ok(bytes) => Ok(seq![plain_splice(index, s.start as int, s.end as int, bytes)]),
            },
        },
        EditModel::Delete(path) => planned_delete(src, index, path, span, dialect),
        EditModel::ReplaceMember(path, key, value) => planned_rename(src, index, path, key, value, span, dialect),
        EditModel::Clear(_) => planned_clear(src, index, span, dialect),
        EditModel::Insert(path, value) => planned_insert(src, index, path, value, span, dialect),
        EditModel::Fact(_, _) => Ok(Seq::empty()),
    }
}

/// Plan one edit that writes no comment.
pub(crate) fn plan_splice(src: &[u8], index: usize, edit: &Edit, span: Option<ByteRange>, dialect: Dialect) -> (r: Result<
    Vec<Splice>,
    Error,
>)
    requires
        span matches Some(s) ==> s.start <= src@.len(),
    ensures
        plans_as(r, planned_splice(src@, index as int, edit@, span, dialect)),
{
    match edit {
        Edit::Assign { value, .. } => match span {
            Some(s) => {
                let bytes = encoded(value, dialect)?;
                Ok(one(plain(index, s.start, s.end, bytes)))
            },
            None => Err(Error::new(ErrorKind::EditUnplaceable, 0)),
        },
        Edit::Delete { path } => plan_delete(src, index, path, span, dialect),
        Edit::ReplaceMember { path, key, value } => plan_replace_member(src, index, path, key, value, span, dialect),
        Edit::Clear { .. } => plan_clear(src, index, span, dialect),
        Edit::Insert { path, value } => plan_insert(src, index, path, value, span, dialect),
        Edit::Fact { .. } => Ok(none()),
    }
}

} // verus!
