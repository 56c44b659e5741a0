//! The parts of a walk, one step at a time.
//!
//! Each opaque name stands for the part of a walk that [`crate::walk::model`] defines, and
//! each lemma takes one of them apart.

use vstd::prelude::*;

use crate::ascii::{RBRACE, RBRACKET};
use crate::demand::DemandModel;
use crate::error::{at, Error, ErrorKind};
use crate::lex::key_text;
use crate::lex::skip::{after_colon, next_at, scalar, NextAt};
use crate::lex::ws::trivia_end;
use crate::value::ValueKind;
use crate::walk::marks::MarkModel;
use crate::walk::model::{
    all_rows, array, array_hits, beside, beside_marks, child, element_array, element_env, elements, enters,
    finish_array, finish_object, flat, kept, kind_at, located, member_env, members, next_element, next_member,
    no_cells, node, node_of, object, object_hits, object_rows, one_element, only_located, opened, oracles, passed,
    prefix_window, row_marks, row_object, rows, terminal_marks, wants_whole, ArrayState, Env, MemberState, RowState,
    WalkCtx, Walked,
};
use crate::value::span;

verus! {

/// The walk of a value.
#[verifier::opaque]
pub(crate) open spec fn a_node(
    b: Seq<u8>,
    pos: int,
    hits: Seq<DemandModel>,
    ctx: WalkCtx,
    depth: int,
    env: Env,
) -> Result<Walked, Error> {
    node(b, pos, hits, ctx, depth, env)
}

/// The walk of a value of a known kind.
#[verifier::opaque]
pub(crate) open spec fn a_kind(
    b: Seq<u8>,
    start: int,
    kind: ValueKind,
    hits: Seq<DemandModel>,
    ctx: WalkCtx,
    depth: int,
    env: Env,
) -> Result<Walked, Error> {
    node_of(b, start, kind, hits, ctx, depth, env)
}

/// The walk of a child.
#[verifier::opaque]
pub(crate) open spec fn a_child(
    b: Seq<u8>,
    pos: int,
    reaching: Seq<DemandModel>,
    hits: Seq<DemandModel>,
    ctx: WalkCtx,
    depth: int,
    env: Env,
) -> Result<Walked, Error> {
    child(b, pos, reaching, hits, ctx, depth, env)
}

/// The walk of an array.
#[verifier::opaque]
pub(crate) open spec fn an_array(
    b: Seq<u8>,
    start: int,
    hits: Seq<DemandModel>,
    answered: Seq<MarkModel>,
    ctx: WalkCtx,
    depth: int,
    env: Env,
) -> Result<Walked, Error> {
    array(b, start, hits, answered, ctx, depth, env)
}

/// The walk of an object.
#[verifier::opaque]
pub(crate) open spec fn an_object(
    b: Seq<u8>,
    start: int,
    hits: Seq<DemandModel>,
    answered: Seq<MarkModel>,
    ctx: WalkCtx,
    depth: int,
    env: Env,
) -> Result<Walked, Error> {
    object(b, start, hits, answered, ctx, depth, env)
}

/// The walk of elements.
#[verifier::opaque]
pub(crate) open spec fn some_elements(
    b: Seq<u8>,
    st: ArrayState,
    hits: Seq<DemandModel>,
    ctx: WalkCtx,
    depth: int,
    need: Option<int>,
) -> Result<ArrayState, Error> {
    elements(b, st, hits, ctx, depth, need)
}

/// The walk of members.
#[verifier::opaque]
pub(crate) open spec fn some_members(
    b: Seq<u8>,
    st: MemberState,
    hits: Seq<DemandModel>,
    ctx: WalkCtx,
    depth: int,
    env: Env,
) -> Result<MemberState, Error> {
    members(b, st, hits, ctx, depth, env)
}

/// An array's marks at its end.
#[verifier::opaque]
pub(crate) open spec fn array_end(
    b: Seq<u8>,
    start: int,
    hits: Seq<DemandModel>,
    st: ArrayState,
    ctx: WalkCtx,
    depth: int,
    env: Env,
) -> Result<Seq<MarkModel>, Error> {
    finish_array(b, start, hits, hits.len(), st, ctx, depth, env)
}

/// Whether a value is one piece to its hits.
pub(crate) open spec fn one_piece(hits: Seq<DemandModel>, kind: ValueKind, env: Env) -> bool {
    ||| !enters(hits, kind) && only_located(hits)
    ||| kind == ValueKind::Array && env.element && one_element(hits)
    ||| !(kind == ValueKind::Array || kind == ValueKind::Object)
}

/// The walk of a value that is one piece.
#[verifier::opaque]
pub(crate) open spec fn a_piece(
    b: Seq<u8>,
    start: int,
    kind: ValueKind,
    hits: Seq<DemandModel>,
    answered: Seq<MarkModel>,
    reach: int,
    ctx: WalkCtx,
    depth: int,
) -> Result<Walked, Error> {
    if !enters(hits, kind) && only_located(hits) {
        located(b, start, kind, hits, answered, reach, ctx, depth)
    } else if kind == ValueKind::Array {
        element_array(b, start, hits, ctx, depth)
    } else {
        match scalar(b, start, ctx.demanded(), ctx.dialect) {
            Err(error) => Err(error),
            Ok(e) => Ok(Walked { end: e, stopped: false, marks: terminal_marks(hits, answered, start, e, kind) }),
        }
    }
}

/// The state an element loop starts from.
pub(crate) open spec fn first_element(start: int, hits: Seq<DemandModel>, answered: Seq<MarkModel>) -> ArrayState {
    ArrayState { pos: start + 1, idx: 0, spans: Seq::empty(), marks: opened(hits, answered), stopped: false }
}

/// The state a member loop starts from.
pub(crate) open spec fn first_member(start: int, answered: Seq<MarkModel>) -> MemberState {
    MemberState { pos: start + 1, first: true, marks: answered, members: Seq::empty(), stopped: false }
}

/// How many elements an array walk needs at most.
pub(crate) open spec fn need_of(hits: Seq<DemandModel>, env: Env) -> Option<int> {
    if env.may_stop {
        prefix_window(hits)
    } else {
        None
    }
}

pub(crate) proof fn node_step(
    b: Seq<u8>,
    pos: int,
    hits: Seq<DemandModel>,
    ctx: WalkCtx,
    depth: int,
    env: Env,
)
    ensures
        a_node(b, pos, hits, ctx, depth, env) == (match trivia_end(b, pos, ctx.dialect) {
            Err(error) => Err(error),
            Ok(start) => if !(pos <= start < b.len()) {
                Err(at(ErrorKind::ExpectedValue, start))
            } else if hits.len() == 0 {
                passed(b, start, ctx.unread(), ctx, depth)
            } else {
                match kind_at(b[start], ctx.dialect) {
                    None => Err(at(ErrorKind::ExpectedValue, start)),
                    Some(kind) => a_kind(b, start, kind, flat(hits), ctx, depth, env),
                }
            },
        }),
{
    reveal(a_node);
    reveal(a_kind);
}

pub(crate) proof fn kind_step(
    b: Seq<u8>,
    start: int,
    kind: ValueKind,
    hits: Seq<DemandModel>,
    ctx: WalkCtx,
    depth: int,
    env: Env,
)
    ensures
        a_kind(b, start, kind, hits, ctx, depth, env) == (match oracles(
            b,
            start,
            kind,
            hits,
            hits.len(),
            enters(hits, kind),
            ctx,
            depth,
        ) {
            Err(error) => Err(error),
            Ok((answered, reach)) => if one_piece(hits, kind, env) {
                a_piece(b, start, kind, hits, answered, reach, ctx, depth)
            } else if kind == ValueKind::Array {
                an_array(b, start, beside(hits, env), beside_marks(hits, answered, env), ctx, depth, env)
            } else {
                an_object(b, start, hits, answered, ctx, depth, env)
            },
        }),
{
    reveal(a_kind);
    reveal(a_piece);
    reveal(an_array);
    reveal(an_object);
}

pub(crate) proof fn child_step(
    b: Seq<u8>,
    pos: int,
    reaching: Seq<DemandModel>,
    hits: Seq<DemandModel>,
    ctx: WalkCtx,
    depth: int,
    env: Env,
)
    ensures
        a_child(b, pos, reaching, hits, ctx, depth, env) == (if reaching.len() > 0 {
            a_node(b, pos, reaching, ctx, depth, env)
        } else if wants_whole(hits) {
            passed(b, pos, ctx.demanded(), ctx, depth)
        } else {
            passed(b, pos, ctx.unread(), ctx, depth)
        }),
{
    reveal(a_child);
    reveal(a_node);
}

pub(crate) proof fn array_step(
    b: Seq<u8>,
    start: int,
    hits: Seq<DemandModel>,
    answered: Seq<MarkModel>,
    ctx: WalkCtx,
    depth: int,
    env: Env,
)
    ensures
        an_array(b, start, hits, answered, ctx, depth, env) == (if depth >= ctx.max {
            Err(at(ErrorKind::Limit, start))
        } else if start >= b.len() {
            Err(at(ErrorKind::ExpectedValue, start))
        } else if all_rows(hits) {
            match rows(b, RowState { pos: start + 1, first: true, cells: no_cells(hits.len()) }, hits, ctx, depth + 1) {
                Err(error) => Err(error),
                Ok(st) => Ok(Walked { end: st.pos, stopped: false, marks: row_marks(hits, st.cells) }),
            }
        } else {
            match some_elements(b, first_element(start, hits, answered), hits, ctx, depth + 1, need_of(hits, env)) {
                Err(error) => Err(error),
                Ok(st) => match array_end(b, start, hits, st, ctx, depth, env) {
                    Err(error) => Err(error),
                    Ok(marks) => Ok(Walked { end: st.pos, stopped: st.stopped, marks }),
                },
            }
        }),
{
    reveal(an_array);
    reveal(some_elements);
    reveal(array_end);
}

pub(crate) proof fn object_step(
    b: Seq<u8>,
    start: int,
    hits: Seq<DemandModel>,
    answered: Seq<MarkModel>,
    ctx: WalkCtx,
    depth: int,
    env: Env,
)
    ensures
        an_object(b, start, hits, answered, ctx, depth, env) == (if env.lane && all_rows(hits) {
            match row_object(b, start, hits, ctx, depth) {
                Err(error) => Err(error),
                Ok((e, found)) => Ok(
                    Walked {
                        end: e,
                        stopped: false,
                        marks: row_marks(hits, object_rows(b, hits, found, span(start, e), ctx.dialect)),
                    },
                ),
            }
        } else if depth >= ctx.max {
            Err(at(ErrorKind::Limit, start))
        } else if start >= b.len() {
            Err(at(ErrorKind::ExpectedValue, start))
        } else {
            match some_members(b, first_member(start, answered), hits, ctx, depth + 1, env) {
                Err(error) => Err(error),
                Ok(st) => Ok(
                    Walked {
                        end: st.pos,
                        stopped: st.stopped,
                        marks: finish_object(b, start, hits, st, ctx.dialect),
                    },
                ),
            }
        }),
{
    reveal(an_object);
    reveal(some_members);
}

pub(crate) proof fn elements_step(
    b: Seq<u8>,
    st: ArrayState,
    hits: Seq<DemandModel>,
    ctx: WalkCtx,
    depth: int,
    need: Option<int>,
)
    ensures
        some_elements(b, st, hits, ctx, depth, need) == (if need is Some && st.idx >= need->0 {
            Ok(ArrayState { stopped: true, ..st })
        } else {
            match next_at(b, st.pos, ctx.dialect, RBRACKET, st.idx == 0) {
                Err(error) => Err(error),
                Ok(NextAt::Close(e)) => Ok(ArrayState { pos: e, ..st }),
                Ok(NextAt::Item(p)) => {
                    let opts = array_hits(hits, st.idx);
                    if st.pos <= p <= b.len() {
                        match a_child(b, p, kept(opts), hits, ctx, depth, element_env()) {
                            Err(error) => Err(error),
                            Ok(w) => if p < w.end <= b.len() {
                                some_elements(b, next_element(st, hits, opts, w, p), hits, ctx, depth, need)
                            } else {
                                Ok(st)
                            },
                        }
                    } else {
                        Ok(st)
                    }
                },
            }
        }),
{
    reveal(some_elements);
    reveal(a_child);
}

pub(crate) proof fn members_step(
    b: Seq<u8>,
    st: MemberState,
    hits: Seq<DemandModel>,
    ctx: WalkCtx,
    depth: int,
    env: Env,
)
    ensures
        some_members(b, st, hits, ctx, depth, env) == (if st.stopped {
            Ok(st)
        } else {
            match next_at(b, st.pos, ctx.dialect, RBRACE, st.first) {
                Err(error) => Err(error),
                Ok(NextAt::Close(e)) => Ok(MemberState { pos: e, ..st }),
                Ok(NextAt::Item(p)) => match key_text(b, p, ctx.dialect) {
                    Err(error) => Err(error),
                    Ok((key_end, name)) => match after_colon(b, key_end, ctx.dialect) {
                        Err(error) => Err(error),
                        Ok(v) => {
                            let opts = object_hits(hits, name);
                            if st.pos < v <= b.len() {
                                match a_child(b, v, kept(opts), hits, ctx, depth, member_env(env, opts, hits)) {
                                    Err(error) => Err(error),
                                    Ok(w) => if v < w.end <= b.len() {
                                        some_members(b, next_member(st, hits, opts, name, w, v), hits, ctx, depth, env)
                                    } else {
                                        Ok(st)
                                    },
                                }
                            } else {
                                Ok(st)
                            }
                        },
                    },
                },
            }
        }),
{
    reveal(some_members);
    reveal(a_child);
}

} // verus!
