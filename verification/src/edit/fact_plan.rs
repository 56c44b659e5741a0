//! Where a comment write splices the source.

use vstd::prelude::*;

use crate::ascii::LF;
use crate::dialect::Dialect;
use crate::edit::comments::{
    canonical_comment, canonical_lines, comment_glyph, foot_comment, foot_lines, glyph_end, glyph_start, inline_comment,
    inline_lines, inline_mark, lead_at, member_insert_at, reshaped, same_place_comment,
};
use crate::edit::plan::unplaceable;
use crate::edit::request::{FactOp, FactOpModel};
use crate::edit::splice::{splices_model, NewFact, NewFactModel, Splice, SpliceModel};
use crate::error::{at, Error, ErrorKind};
use crate::facts::{facts_model, Fact, FactModel, FactRole};
use crate::text::{bytes_of, text_bytes};
use crate::value::{span_bytes, ByteRange};

verus! {

/// A comment of `bytes` over `[from, to)` that says `text` about `owner`.
pub open spec fn comment_splice(
    index: int,
    from: int,
    to: int,
    bytes: Seq<u8>,
    role: FactRole,
    text: Seq<u8>,
    owner: ByteRange,
) -> SpliceModel {
    SpliceModel {
        index,
        from,
        to,
        bytes,
        fact: Some(NewFactModel { role, text, owner, glyph_start: glyph_start(bytes), glyph_end: glyph_end(bytes) }),
    }
}

/// Where a new comment goes and how it is written.
pub open spec fn new_comment(src: Seq<u8>, role: FactRole, text: Seq<u8>, owner: ByteRange, dialect: Dialect) -> (
    int,
    Seq<u8>,
) {
    match role {
        FactRole::CommentLead => (lead_at(src, owner.start as int, dialect), canonical_lines(text, 0)),
        FactRole::CommentInline => (owner.end as int, inline_lines(text, 0, inline_mark()).push(LF)),
        FactRole::CommentFoot => (owner.end as int, foot_lines(text, 0) + seq![LF]),
    }
}

/// Whether a rewrite of `role` on `owner` is about a fact.
pub open spec fn rewrites(f: FactModel, role: FactRole, owner: ByteRange) -> bool {
    f.role == role && f.owner == owner && f.source_span is Some
}

/// How a comment is written over its authored glyph; empty text removes it.
pub open spec fn rewritten_bytes(src: Seq<u8>, glyph: ByteRange, text: Seq<u8>) -> Seq<u8> {
    if text.len() == 0 {
        Seq::empty()
    } else {
        match reshaped(span_bytes(src, glyph), text) {
            Some(bytes) => bytes,
            None => canonical_lines(text, 0),
        }
    }
}

/// The splice that rewrites a fact's glyph.
pub open spec fn rewrite_splice(src: Seq<u8>, index: int, f: FactModel, text: Seq<u8>) -> SpliceModel {
    let glyph = f.source_span->0;
    let bytes = rewritten_bytes(src, glyph, text);
    if text.len() == 0 {
        SpliceModel { index, from: glyph.start as int, to: glyph.end as int, bytes, fact: None }
    } else {
        comment_splice(index, glyph.start as int, glyph.end as int, bytes, f.role, text, f.owner)
    }
}

/// The splices of a rewrite, and the facts it leaves alone.
pub open spec fn rewritten(
    src: Seq<u8>,
    index: int,
    role: FactRole,
    owner: ByteRange,
    text: Seq<u8>,
    facts: Seq<FactModel>,
) -> (Seq<SpliceModel>, Seq<FactModel>)
    decreases facts.len(),
{
    if facts.len() == 0 {
        (Seq::empty(), Seq::empty())
    } else {
        let before = rewritten(src, index, role, owner, text, facts.drop_last());
        if rewrites(facts.last(), role, owner) {
            (before.0.push(rewrite_splice(src, index, facts.last(), text)), before.1)
        } else {
            (before.0, before.1.push(facts.last()))
        }
    }
}

/// Rewrite or clear the comments of `role` on the node at `span`. A foot fact
/// shares the following node's lead glyph, so it stays.
pub open spec fn planned_rewrite(
    src: Seq<u8>,
    index: int,
    role: FactRole,
    span: Option<ByteRange>,
    text: Option<Seq<u8>>,
    facts: Seq<FactModel>,
) -> Result<(Seq<SpliceModel>, Seq<FactModel>), Error> {
    if role == FactRole::CommentFoot {
        Ok((Seq::empty(), facts))
    } else {
        match span {
            None => Err(unplaceable(0)),
            Some(owner) => {
                let done = rewritten(
                    src,
                    index,
                    role,
                    owner,
                    match text {
                        Some(text) => text,
                        None => Seq::empty(),
                    },
                    facts,
                );
                if done.0.len() == 0 && text is Some {
                    Err(at(ErrorKind::FactIsMissing, owner.start as int))
                } else {
                    Ok(done)
                }
            },
        }
    }
}

/// The splices of a comment write, and the facts it leaves alone. A dialect
/// without comments has no facts, so there every write is a no-op.
pub open spec fn planned_fact(
    src: Seq<u8>,
    index: int,
    op: FactOpModel,
    span: Option<ByteRange>,
    dialect: Dialect,
    facts: Seq<FactModel>,
) -> Result<(Seq<SpliceModel>, Seq<FactModel>), Error> {
    if !dialect.comments() {
        Ok((Seq::empty(), facts))
    } else {
        match op {
            FactOpModel::Insert(role, text) => match span {
                None => Err(unplaceable(0)),
                Some(owner) => if text.len() == 0 {
                    Ok((Seq::empty(), facts))
                } else {
                    let comment = new_comment(src, role, text, owner, dialect);
                    Ok(
                        (
                            seq![comment_splice(index, comment.0, comment.0, comment.1, role, text, owner)],
                            facts,
                        ),
                    )
                },
            },
            FactOpModel::Replace(role, text) => planned_rewrite(src, index, role, span, Some(text), facts),
            FactOpModel::Clear(role) => planned_rewrite(src, index, role, span, None, facts),
        }
    }
}

/// Whether a comment plan came out as named.
pub open spec fn fact_plans_as(
    r: Result<(Vec<Splice>, Vec<Fact>), Error>,
    named: Result<(Seq<SpliceModel>, Seq<FactModel>), Error>,
) -> bool {
    match named {
        Ok((splices, facts)) => r is Ok && splices_model(r->Ok_0.0@) == splices && facts_model(r->Ok_0.1@) == facts,
        Err(error) => r is Err && r->Err_0 == error,
    }
}

fn comment(
    index: usize,
    from: usize,
    to: usize,
    bytes: Vec<u8>,
    role: FactRole,
    text: &String,
    owner: ByteRange,
) -> (r: Splice)
    ensures
        r@ == comment_splice(index as int, from as int, to as int, bytes@, role, bytes_of(*text), owner),
{
    let (start, end) = comment_glyph(bytes.as_slice());
    Splice {
        index,
        from,
        to,
        bytes,
        fact: Some(NewFact { role, text: text.clone(), owner, glyph_start: start, glyph_end: end }),
    }
}

/// Rewrite or clear the comments of `role` on the node at `owner`.
fn rewrite_facts(src: &[u8], index: usize, role: FactRole, owner: ByteRange, text: &String, facts: Vec<Fact>) -> (r: (
    Vec<Splice>,
    Vec<Fact>,
))
    ensures
        splices_model(r.0@) == rewritten(src@, index as int, role, owner, bytes_of(*text), facts_model(facts@)).0,
        facts_model(r.1@) == rewritten(src@, index as int, role, owner, bytes_of(*text), facts_model(facts@)).1,
{
    let ghost model = facts_model(facts@);
    let ghost body = bytes_of(*text);
    let mut splices: Vec<Splice> = Vec::new();
    let mut kept: Vec<Fact> = Vec::new();
    let mut i: usize = 0;
    proof {
        assert(splices_model(splices@) =~= Seq::<SpliceModel>::empty());
        assert(facts_model(kept@) =~= Seq::<FactModel>::empty());
    }
    while i < facts.len()
        invariant
            i <= facts@.len(),
            model == facts_model(facts@),
            body == bytes_of(*text),
            splices_model(splices@) == rewritten(src@, index as int, role, owner, body, model.take(i as int)).0,
            facts_model(kept@) == rewritten(src@, index as int, role, owner, body, model.take(i as int)).1,
        decreases facts@.len() - i,
    {
        let fact: &Fact = &facts[i];
        let ghost done = splices@;
        let ghost rest = kept@;
        proof {
            assert(model.take(i + 1).drop_last() =~= model.take(i as int));
            assert(model.take(i + 1).last() == fact@);
        }
        let matching: bool = fact.role == role && fact.owner == owner;
        match (matching, fact.source_span) {
            (true, Some(glyph)) => {
                let s = rewrite_one(src, index, fact, glyph, text);
                let ghost next = s@;
                splices.push(s);
                proof {
                    assert(splices_model(splices@) =~= splices_model(done).push(next));
                }
            },
            _ => {
                let copy = fact.copied();
                let ghost next = copy@;
                kept.push(copy);
                proof {
                    assert(facts_model(kept@) =~= facts_model(rest).push(next));
                }
            },
        }
        i += 1;
    }
    proof {
        assert(model.take(i as int) =~= model);
    }
    (splices, kept)
}

fn rewrite_one(src: &[u8], index: usize, fact: &Fact, glyph: ByteRange, text: &String) -> (r: Splice)
    requires
        fact.source_span == Some(glyph),
    ensures
        r@ == rewrite_splice(src@, index as int, fact@, bytes_of(*text)),
{
    let body = text_bytes(text);
    if body.len() == 0 {
        let bytes: Vec<u8> = Vec::new();
        proof {
            assert(bytes@ =~= Seq::<u8>::empty());
        }
        return Splice { index, from: glyph.start, to: glyph.end, bytes, fact: None };
    }
    let authored = if glyph.start <= glyph.end && glyph.end <= src.len() {
        vstd::slice::slice_subrange(src, glyph.start, glyph.end)
    } else {
        vstd::slice::slice_subrange(src, 0, 0)
    };
    proof {
        assert(authored@ =~= span_bytes(src@, glyph));
    }
    let bytes = match same_place_comment(authored, text.as_str()) {
        Some(bytes) => bytes,
        None => canonical_comment(text.as_str()),
    };
    comment(index, glyph.start, glyph.end, bytes, fact.role, text, fact.owner)
}

fn plan_fact_rewrite(
    src: &[u8],
    index: usize,
    role: FactRole,
    span: Option<ByteRange>,
    text: Option<&String>,
    facts: Vec<Fact>,
) -> (r: Result<(Vec<Splice>, Vec<Fact>), Error>)
    ensures
        fact_plans_as(
            r,
            planned_rewrite(
                src@,
                index as int,
                role,
                span,
                match text {
                    Some(text) => Some(bytes_of(*text)),
                    None => None,
                },
                facts_model(facts@),
            ),
        ),
{
    if role == FactRole::CommentFoot {
        let splices: Vec<Splice> = Vec::new();
        proof {
            assert(splices_model(splices@) =~= Seq::<SpliceModel>::empty());
        }
        return Ok((splices, facts));
    }
    let owner = match span {
        Some(owner) => owner,
        None => {
            return Err(Error::new(ErrorKind::EditUnplaceable, 0));
        },
    };
    match text {
        Some(text) => {
            let done = rewrite_facts(src, index, role, owner, text, facts);
            if done.0.len() == 0 {
                return Err(Error::new(ErrorKind::FactIsMissing, owner.start));
            }
            Ok(done)
        },
        None => {
            let nothing: String = crate::text::text_from(Vec::new());
            proof {
                assert(bytes_of(nothing) =~= Seq::<u8>::empty());
            }
            Ok(rewrite_facts(src, index, role, owner, &nothing, facts))
        },
    }
}

/// Plan one fact write.
pub(crate) fn plan_fact(
    src: &[u8],
    index: usize,
    op: &FactOp,
    span: Option<ByteRange>,
    dialect: Dialect,
    facts: Vec<Fact>,
) -> (r: Result<(Vec<Splice>, Vec<Fact>), Error>)
    requires
        span matches Some(s) ==> s.start <= src@.len(),
    ensures
        fact_plans_as(r, planned_fact(src@, index as int, op@, span, dialect, facts_model(facts@))),
{
    let mut splices: Vec<Splice> = Vec::new();
    proof {
        assert(splices_model(splices@) =~= Seq::<SpliceModel>::empty());
    }
    if !dialect.has_comments() {
        return Ok((splices, facts));
    }
    match op {
        FactOp::Insert { role, text } => {
            let owner = match span {
                Some(owner) => owner,
                None => {
                    return Err(Error::new(ErrorKind::EditUnplaceable, 0));
                },
            };
            if text_bytes(text).len() == 0 {
                return Ok((splices, facts));
            }
            let (from, bytes) = match role {
                FactRole::CommentLead => (
                    member_insert_at(src, owner.start, dialect),
                    canonical_comment(text.as_str()),
                ),
                FactRole::CommentInline => (owner.end, inline_comment(text.as_str())),
                FactRole::CommentFoot => (owner.end, foot_comment(text.as_str())),
            };
            let s = comment(index, from, from, bytes, *role, text, owner);
            let ghost next = s@;
            splices.push(s);
            proof {
                assert(splices_model(splices@) =~= seq![next]);
            }
            Ok((splices, facts))
        },
        FactOp::Replace { role, text } => plan_fact_rewrite(src, index, *role, span, Some(text), facts),
        FactOp::Clear { role } => plan_fact_rewrite(src, index, *role, span, None, facts),
    }
}

} // verus!
