//! Every walk of a value that does not stop ends where the value does, whatever it is
//! asked for.

use vstd::prelude::*;

use crate::ascii::{LBRACE, LBRACKET, RBRACE, RBRACKET};
use crate::demand::{DemandModel, OracleModel};
use crate::dialect::Dialect;
use crate::error::Error;
use crate::laws::locate::{key_is_located, scalar_is_located, valid_value_is_located};
use crate::laws::paths::skip_at_lower_depth;
use crate::laws::strict::{count_ends_the_array, item_is_settled, member_value_is_settled};
use crate::laws::walks::{
    a_child, a_kind, a_node, a_piece, an_array, an_object, array_end, array_step, child_step, elements_step,
    first_element, first_member, kind_step, members_step, need_of, node_step, object_step, one_piece, some_elements,
    some_members,
};
use crate::lex::skip::{
    after_colon, end_at, items, member_value_at, member_value_at_bounds, next_at, next_at_bounds, scalar,
    scalar_bounds, value, value_bounds, value_end, Check, Ctx, NextAt,
};
use crate::lex::ws::{trivia_end, trivia_end_bounds};
use crate::lex::{key_text, key_text_end};
use crate::value::ValueKind;
use crate::walk::marks::MarkModel;
use crate::walk::model::{
    all_rows, appended, array_hits, beside, beside_marks, element_array, element_env, enters, finish_array, flat,
    kept, kind_at, located, member_env, next_element, next_member, no_cells, object_hits, oracle_mark, oracles,
    row_check, row_element, row_members, row_object, rows, ArrayState, Env, MemberState, RowState, WalkCtx, Walked,
};

verus! {

/// How a value is located for its end alone.
pub open spec fn locating(ctx: WalkCtx) -> Ctx {
    Ctx { check: Check::Locate, max: ctx.max, dialect: ctx.dialect }
}

/// Where the value at `pos` ends, however deep it nests.
#[verifier::opaque]
pub open spec fn reach(b: Seq<u8>, pos: int, ctx: WalkCtx) -> Result<int, Error> {
    value_end(b, pos, locating(ctx), pos - b.len())
}

/// A value that is accepted at some check and depth ends at its reach.
pub(crate) proof fn ends_at_reach(b: Seq<u8>, pos: int, check: Check, ctx: WalkCtx, depth: int)
    requires
        0 <= pos <= b.len(),
        0 <= depth,
    ensures
        value_end(b, pos, ctx.under(check), depth) matches Ok(e) ==> pos < e <= b.len() && reach(b, pos, ctx) == Ok::<
            int,
            Error,
        >(e),
{
    reveal(reach);
    value_bounds(b, pos, ctx.under(check), depth);
    valid_value_is_located(b, pos, ctx.max, ctx.dialect, depth);
    assert(ctx.under(Check::Locate) == locating(ctx));
    skip_at_lower_depth(b, pos, locating(ctx), depth, pos - b.len());
}

/// A reach is an end at any lower depth.
proof fn reach_at(b: Seq<u8>, pos: int, ctx: WalkCtx, depth: int)
    requires
        0 <= pos <= b.len(),
        depth <= pos - b.len(),
    ensures
        reach(b, pos, ctx) matches Ok(e) ==> pos < e <= b.len() && value(b, pos, locating(ctx), depth) is Ok && value(
            b,
            pos,
            locating(ctx),
            depth,
        )->Ok_0.0 == e,
{
    reveal(reach);
    value_bounds(b, pos, locating(ctx), pos - b.len());
    skip_at_lower_depth(b, pos, locating(ctx), pos - b.len(), depth);
}

/// An array whose elements are located to a closer reaches it.
proof fn array_reach(b: Seq<u8>, start: int, ctx: WalkCtx, e: int)
    requires
        0 <= start < b.len(),
        b[start] == LBRACKET,
        end_at(items(b, start + 1, locating(ctx), start + 1 - b.len(), true)) == Ok::<int, Error>(e),
    ensures
        reach(b, start, ctx) == Ok::<int, Error>(e),
{
    reveal(reach);
}

/// An object whose members are located to a closer reaches it.
proof fn object_reach(b: Seq<u8>, start: int, ctx: WalkCtx, e: int)
    requires
        0 <= start < b.len(),
        b[start] == LBRACE,
        end_at(crate::lex::skip::members(b, start + 1, locating(ctx), start + 1 - b.len(), true)) == Ok::<int, Error>(e),
    ensures
        reach(b, start, ctx) == Ok::<int, Error>(e),
{
    reveal(reach);
}

proof fn scalar_reach(b: Seq<u8>, start: int, check: Check, ctx: WalkCtx)
    requires
        0 <= start < b.len(),
        b[start] != LBRACKET,
        b[start] != LBRACE,
    ensures
        scalar(b, start, check, ctx.dialect) matches Ok(e) ==> start < e <= b.len() && reach(b, start, ctx) == Ok::<
            int,
            Error,
        >(e),
{
    reveal(reach);
    scalar_bounds(b, start, check, ctx.dialect);
    scalar_is_located(b, start, ctx.dialect);
}

/// One more element of an array that is located.
proof fn items_reach_on(b: Seq<u8>, pos: int, ctx: WalkCtx, depth: int, first: bool, p: int)
    requires
        0 <= pos <= b.len(),
        depth <= pos - b.len(),
        next_at(b, pos, ctx.dialect, RBRACKET, first) == Ok::<NextAt, Error>(NextAt::Item(p)),
    ensures
        pos <= p <= b.len(),
        reach(b, p, ctx) matches Ok(e) ==> p < e <= b.len() && end_at(items(b, pos, locating(ctx), depth, first)) == end_at(
            items(b, e, locating(ctx), depth, false),
        ),
{
    next_at_bounds(b, pos, ctx.dialect, RBRACKET, first);
    reach_at(b, p, ctx, depth);
}

/// The member at `p`, located.
pub(crate) proof fn member_is_at(b: Seq<u8>, p: int, dialect: Dialect, key_end: int, name: Seq<u8>, v: int)
    requires
        0 <= p <= b.len(),
        key_text(b, p, dialect) == Ok::<(int, Seq<u8>), Error>((key_end, name)),
        after_colon(b, key_end, dialect) == Ok::<int, Error>(v),
    ensures
        member_value_at(b, p, Check::Locate, dialect) == Ok::<int, Error>(v),
        p < v <= b.len(),
        trivia_end(b, v, dialect) == Ok::<int, Error>(v),
{
    reveal(member_value_at);
    key_text_end(b, p, dialect);
    key_is_located(b, p, dialect);
    member_value_at_bounds(b, p, Check::Locate, dialect);
    member_value_is_settled(b, key_end, dialect);
}

/// One more member of an object that is located.
proof fn members_reach_on(
    b: Seq<u8>,
    pos: int,
    ctx: WalkCtx,
    depth: int,
    first: bool,
    p: int,
    key_end: int,
    name: Seq<u8>,
    v: int,
)
    requires
        0 <= pos <= b.len(),
        depth <= pos - b.len(),
        next_at(b, pos, ctx.dialect, RBRACE, first) == Ok::<NextAt, Error>(NextAt::Item(p)),
        key_text(b, p, ctx.dialect) == Ok::<(int, Seq<u8>), Error>((key_end, name)),
        after_colon(b, key_end, ctx.dialect) == Ok::<int, Error>(v),
    ensures
        pos <= p < v <= b.len(),
        trivia_end(b, v, ctx.dialect) == Ok::<int, Error>(v),
        reach(b, v, ctx) matches Ok(e) ==> v < e <= b.len() && end_at(
            crate::lex::skip::members(b, pos, locating(ctx), depth, first),
        ) == end_at(crate::lex::skip::members(b, e, locating(ctx), depth, false)),
{
    next_at_bounds(b, pos, ctx.dialect, RBRACE, first);
    member_is_at(b, p, ctx.dialect, key_end, name, v);
    reach_at(b, v, ctx, depth);
}

/// Whether an accepted walk of the value at `start` has a mark per hit, ends inside the
/// text, and, unless it was stopped, where the value does.
pub open spec fn ends_well(b: Seq<u8>, start: int, n: nat, ctx: WalkCtx, walked: Result<Walked, Error>) -> bool {
    walked matches Ok(w) ==> w.marks.len() == n && start < w.end <= b.len() && (!w.stopped ==> reach(b, start, ctx)
        == Ok::<int, Error>(w.end))
}

proof fn count_reaches(b: Seq<u8>, start: int, ctx: WalkCtx, depth: int)
    requires
        0 <= start < b.len(),
        b[start] == LBRACKET,
        0 <= depth < ctx.max,
    ensures
        crate::walk::model::element_count(b, start + 1, ctx.under(ctx.unread()), depth + 1, 0) matches Ok((e, _)) ==> reach(
            b,
            start,
            ctx,
        ) == Ok::<int, Error>(e),
{
    count_ends_the_array(b, start + 1, ctx.under(ctx.unread()), depth + 1, 0);
    ends_at_reach(b, start, ctx.unread(), ctx, depth);
}

/// Every oracle leaves a mark, and what one located on the way is the value's end.
pub(crate) proof fn oracles_end_well(
    b: Seq<u8>,
    start: int,
    kind: ValueKind,
    hits: Seq<DemandModel>,
    n: nat,
    entering: bool,
    ctx: WalkCtx,
    depth: int,
)
    requires
        0 <= start < b.len(),
        0 <= depth,
        n <= hits.len(),
        kind_at(b[start], ctx.dialect) == Some(kind),
        kind == ValueKind::Object && !entering ==> forall|k: int|
            0 <= k < hits.len() ==> #[trigger] hits[k] != DemandModel::Oracle(OracleModel::Count),
    ensures
        oracles(b, start, kind, hits, n, entering, ctx, depth) matches Ok((marks, r)) ==> marks.len() == n && (r == start
            || reach(b, start, ctx) == Ok::<int, Error>(r)),
    decreases n,
{
    if n > 0 {
        oracles_end_well(b, start, kind, hits, (n - 1) as nat, entering, ctx, depth);
        if let DemandModel::Oracle(o) = hits[n - 1] {
            reveal(oracle_mark);
            ends_at_reach(b, start, ctx.demanded(), ctx, 0);
            if o is Count && kind == ValueKind::Array && depth < ctx.max {
                count_reaches(b, start, ctx, depth);
            }
        }
    }
}

proof fn piece_ends_well(
    b: Seq<u8>,
    start: int,
    kind: ValueKind,
    hits: Seq<DemandModel>,
    answered: Seq<MarkModel>,
    r: int,
    ctx: WalkCtx,
    depth: int,
    env: Env,
)
    requires
        0 <= start < b.len(),
        0 <= depth,
        kind_at(b[start], ctx.dialect) == Some(kind),
        one_piece(hits, kind, env),
        r == start || reach(b, start, ctx) == Ok::<int, Error>(r),
    ensures
        ends_well(b, start, hits.len(), ctx, a_piece(b, start, kind, hits, answered, r, ctx, depth)),
        a_piece(b, start, kind, hits, answered, r, ctx, depth) matches Ok(w) ==> !w.stopped,
{
    reveal(a_piece);
    reveal(located);
    reveal(element_array);
    ends_at_reach(b, start, ctx.demanded(), ctx, depth);
    ends_at_reach(b, start, ctx.unread(), ctx, depth);
    reach_at(b, start, ctx, start - b.len());
    if !(kind == ValueKind::Array || kind == ValueKind::Object) {
        scalar_reach(b, start, ctx.demanded(), ctx);
    }
}

proof fn row_members_end_well(
    b: Seq<u8>,
    pos: int,
    first: bool,
    found: Seq<(Seq<u8>, crate::value::ByteRange)>,
    hits: Seq<DemandModel>,
    ctx: WalkCtx,
    depth: int,
    low: int,
)
    requires
        0 <= pos <= b.len(),
        0 <= depth,
        low <= pos - b.len(),
    ensures
        row_members(b, pos, first, found, hits, ctx, depth) matches Ok((e, _)) ==> pos < e <= b.len() && end_at(
            crate::lex::skip::members(b, pos, locating(ctx), low, first),
        ) == Ok::<int, Error>(e),
    decreases b.len() - pos,
{
    next_at_bounds(b, pos, ctx.dialect, RBRACE, first);
    if let Ok(NextAt::Item(p)) = next_at(b, pos, ctx.dialect, RBRACE, first) {
        if let Ok((key_end, name)) = key_text(b, p, ctx.dialect) {
            if let Ok(v) = after_colon(b, key_end, ctx.dialect) {
                members_reach_on(b, pos, ctx, low, first, p, key_end, name, v);
                ends_at_reach(b, v, row_check(hits, name, ctx), ctx, depth);
                if let Ok(e) = value_end(b, v, ctx.under(row_check(hits, name, ctx)), depth) {
                    let more = if crate::walk::member::wanted(hits, name) {
                        crate::walk::member::inserted(found, name, crate::value::span(v, e))
                    } else {
                        found
                    };
                    row_members_end_well(b, e, false, more, hits, ctx, depth, low);
                }
            }
        }
    }
}

pub(crate) proof fn row_object_ends_well(b: Seq<u8>, start: int, hits: Seq<DemandModel>, ctx: WalkCtx, depth: int)
    requires
        0 <= start < b.len(),
        0 <= depth,
        b[start] == LBRACE,
    ensures
        row_object(b, start, hits, ctx, depth) matches Ok((e, _)) ==> start < e <= b.len() && reach(b, start, ctx) == Ok::<
            int,
            Error,
        >(e),
{
    row_members_end_well(b, start + 1, true, Seq::empty(), hits, ctx, depth + 1, start + 1 - b.len());
    if let Ok((e, _)) = row_object(b, start, hits, ctx, depth) {
        object_reach(b, start, ctx, e);
    }
}

pub(crate) proof fn row_element_ends_well(b: Seq<u8>, p: int, hits: Seq<DemandModel>, ctx: WalkCtx, depth: int)
    requires
        0 <= p <= b.len(),
        0 <= depth,
    ensures
        row_element(b, p, hits, ctx, depth) matches Ok((e, more)) ==> p < e <= b.len() && reach(b, p, ctx) == Ok::<
            int,
            Error,
        >(e) && more.len() == hits.len(),
{
    reveal(row_element);
    if p < b.len() && b[p] == LBRACE {
        row_object_ends_well(b, p, hits, ctx, depth);
    } else {
        ends_at_reach(b, p, ctx.unread(), ctx, depth);
    }
}

proof fn rows_end_well(b: Seq<u8>, st: RowState, hits: Seq<DemandModel>, ctx: WalkCtx, depth: int, low: int)
    requires
        0 <= st.pos <= b.len(),
        0 <= depth,
        low <= st.pos - b.len(),
    ensures
        rows(b, st, hits, ctx, depth) matches Ok(last) ==> st.pos < last.pos <= b.len() && end_at(
            items(b, st.pos, locating(ctx), low, st.first),
        ) == Ok::<int, Error>(last.pos),
    decreases b.len() - st.pos,
{
    next_at_bounds(b, st.pos, ctx.dialect, RBRACKET, st.first);
    if let Ok(NextAt::Item(p)) = next_at(b, st.pos, ctx.dialect, RBRACKET, st.first) {
        items_reach_on(b, st.pos, ctx, low, st.first, p);
        row_element_ends_well(b, p, hits, ctx, depth);
        if let Ok((e, more)) = row_element(b, p, hits, ctx, depth) {
            let next = RowState { pos: e, first: false, cells: appended(st.cells, more) };
            rows_end_well(b, next, hits, ctx, depth, low);
        }
    }
}

proof fn elements_end_well(
    b: Seq<u8>,
    st: ArrayState,
    hits: Seq<DemandModel>,
    ctx: WalkCtx,
    depth: int,
    need: Option<int>,
    low: int,
)
    requires
        0 <= st.pos <= b.len(),
        0 <= st.idx,
        0 <= depth,
        !st.stopped,
        st.marks.len() == hits.len(),
        low <= st.pos - b.len(),
    ensures
        some_elements(b, st, hits, ctx, depth, need) matches Ok(last) ==> st.pos <= last.pos <= b.len() && last.marks.len()
            == hits.len() && (last.stopped ==> need is Some) && (!last.stopped ==> st.pos < last.pos && end_at(
            items(b, st.pos, locating(ctx), low, st.idx == 0),
        ) == Ok::<int, Error>(last.pos)),
    decreases b.len() - st.pos, 8nat, 0nat,
{
    elements_step(b, st, hits, ctx, depth, need);
    next_at_bounds(b, st.pos, ctx.dialect, RBRACKET, st.idx == 0);
    if !(need is Some && st.idx >= need->0) {
        if let Ok(NextAt::Item(p)) = next_at(b, st.pos, ctx.dialect, RBRACKET, st.idx == 0) {
            items_reach_on(b, st.pos, ctx, low, st.idx == 0, p);
            item_is_settled(b, st.pos, ctx.dialect, RBRACKET, st.idx == 0);
            let opts = array_hits(hits, st.idx);
            child_ends_well(b, p, kept(opts), hits, ctx, depth, element_env());
            if let Ok(w) = a_child(b, p, kept(opts), hits, ctx, depth, element_env()) {
                elements_end_well(b, next_element(st, hits, opts, w, p), hits, ctx, depth, need, low);
            }
        }
    }
}

/// The walk of a child ends well; it stops only where it may.
pub(crate) proof fn child_ends_well(
    b: Seq<u8>,
    pos: int,
    reaching: Seq<DemandModel>,
    hits: Seq<DemandModel>,
    ctx: WalkCtx,
    depth: int,
    env: Env,
)
    requires
        0 <= pos <= b.len(),
        0 <= depth,
        trivia_end(b, pos, ctx.dialect) == Ok::<int, Error>(pos),
    ensures
        ends_well(b, pos, reaching.len(), ctx, a_child(b, pos, reaching, hits, ctx, depth, env)),
        a_child(b, pos, reaching, hits, ctx, depth, env) matches Ok(w) ==> (w.stopped ==> env.may_stop && reaching.len() > 0),
    decreases b.len() - pos, 7nat, 0nat,
{
    child_step(b, pos, reaching, hits, ctx, depth, env);
    ends_at_reach(b, pos, ctx.demanded(), ctx, depth);
    ends_at_reach(b, pos, ctx.unread(), ctx, depth);
    if reaching.len() > 0 {
        node_ends_well(b, pos, reaching, ctx, depth, env);
    }
}

proof fn members_end_well(
    b: Seq<u8>,
    st: MemberState,
    hits: Seq<DemandModel>,
    ctx: WalkCtx,
    depth: int,
    env: Env,
    low: int,
)
    requires
        0 <= st.pos <= b.len(),
        0 <= depth,
        !st.stopped,
        st.marks.len() == hits.len(),
        low <= st.pos - b.len(),
    ensures
        some_members(b, st, hits, ctx, depth, env) matches Ok(last) ==> st.pos < last.pos <= b.len() && last.marks.len()
            == hits.len() && (last.stopped ==> env.may_stop) && (!last.stopped ==> end_at(
            crate::lex::skip::members(b, st.pos, locating(ctx), low, st.first),
        ) == Ok::<int, Error>(last.pos)),
    decreases b.len() - st.pos, 8nat, 0nat,
{
    members_step(b, st, hits, ctx, depth, env);
    next_at_bounds(b, st.pos, ctx.dialect, RBRACE, st.first);
    if let Ok(NextAt::Item(p)) = next_at(b, st.pos, ctx.dialect, RBRACE, st.first) {
        if let Ok((key_end, name)) = key_text(b, p, ctx.dialect) {
            if let Ok(v) = after_colon(b, key_end, ctx.dialect) {
                members_reach_on(b, st.pos, ctx, low, st.first, p, key_end, name, v);
                let opts = object_hits(hits, name);
                let inner = member_env(env, opts, hits);
                child_ends_well(b, v, kept(opts), hits, ctx, depth, inner);
                if let Ok(w) = a_child(b, v, kept(opts), hits, ctx, depth, inner) {
                    let next = next_member(st, hits, opts, name, w, v);
                    if w.stopped {
                        members_step(b, next, hits, ctx, depth, env);
                    } else {
                        members_end_well(b, next, hits, ctx, depth, env, low);
                    }
                }
            }
        }
    }
}

proof fn array_end_len(b: Seq<u8>, start: int, hits: Seq<DemandModel>, n: nat, st: ArrayState, ctx: WalkCtx, depth: int, env: Env)
    ensures
        finish_array(b, start, hits, n, st, ctx, depth, env) matches Ok(marks) ==> marks.len() == n,
    decreases n,
{
    if n > 0 {
        array_end_len(b, start, hits, (n - 1) as nat, st, ctx, depth, env);
    }
}

pub(crate) proof fn array_ends_well(
    b: Seq<u8>,
    start: int,
    hits: Seq<DemandModel>,
    answered: Seq<MarkModel>,
    ctx: WalkCtx,
    depth: int,
    env: Env,
)
    requires
        0 <= start < b.len(),
        0 <= depth,
        b[start] == LBRACKET,
    ensures
        ends_well(b, start, hits.len(), ctx, an_array(b, start, hits, answered, ctx, depth, env)),
        an_array(b, start, hits, answered, ctx, depth, env) matches Ok(w) ==> (w.stopped ==> env.may_stop),
    decreases b.len() - start, 4nat, 0nat,
{
    array_step(b, start, hits, answered, ctx, depth, env);
    if an_array(b, start, hits, answered, ctx, depth, env) is Ok {
        if all_rows(hits) {
            let st = RowState { pos: start + 1, first: true, cells: no_cells(hits.len()) };
            rows_end_well(b, st, hits, ctx, depth + 1, start + 1 - b.len());
            array_reach(b, start, ctx, rows(b, st, hits, ctx, depth + 1)->Ok_0.pos);
        } else {
            let first = first_element(start, hits, answered);
            let need = need_of(hits, env);
            elements_end_well(b, first, hits, ctx, depth + 1, need, start + 1 - b.len());
            let st = some_elements(b, first, hits, ctx, depth + 1, need)->Ok_0;
            if !st.stopped {
                array_reach(b, start, ctx, st.pos);
            }
            reveal(array_end);
            array_end_len(b, start, hits, hits.len(), st, ctx, depth, env);
        }
    }
}

pub(crate) proof fn object_ends_well(
    b: Seq<u8>,
    start: int,
    hits: Seq<DemandModel>,
    answered: Seq<MarkModel>,
    ctx: WalkCtx,
    depth: int,
    env: Env,
)
    requires
        0 <= start < b.len(),
        0 <= depth,
        b[start] == LBRACE,
        answered.len() == hits.len(),
    ensures
        ends_well(b, start, hits.len(), ctx, an_object(b, start, hits, answered, ctx, depth, env)),
        an_object(b, start, hits, answered, ctx, depth, env) matches Ok(w) ==> (w.stopped ==> env.may_stop),
    decreases b.len() - start, 4nat, 0nat,
{
    object_step(b, start, hits, answered, ctx, depth, env);
    if an_object(b, start, hits, answered, ctx, depth, env) is Ok {
        if env.lane && all_rows(hits) {
            row_object_ends_well(b, start, hits, ctx, depth);
        } else {
            let first = first_member(start, answered);
            members_end_well(b, first, hits, ctx, depth + 1, env, start + 1 - b.len());
            let st = some_members(b, first, hits, ctx, depth + 1, env)->Ok_0;
            if !st.stopped {
                object_reach(b, start, ctx, st.pos);
            }
        }
    }
}

/// What a container that is entered counts of an object.
proof fn object_counts_enter(hits: Seq<DemandModel>, kind: ValueKind)
    ensures
        kind == ValueKind::Object && !enters(hits, kind) ==> forall|k: int|
            0 <= k < hits.len() ==> #[trigger] hits[k] != DemandModel::Oracle(OracleModel::Count),
{
}

pub(crate) proof fn kind_ends_well(
    b: Seq<u8>,
    start: int,
    kind: ValueKind,
    hits: Seq<DemandModel>,
    ctx: WalkCtx,
    depth: int,
    env: Env,
)
    requires
        0 <= start < b.len(),
        0 <= depth,
        kind_at(b[start], ctx.dialect) == Some(kind),
    ensures
        ends_well(b, start, hits.len(), ctx, a_kind(b, start, kind, hits, ctx, depth, env)),
        a_kind(b, start, kind, hits, ctx, depth, env) matches Ok(w) ==> (w.stopped ==> env.may_stop),
    decreases b.len() - start, 5nat, 0nat,
{
    kind_step(b, start, kind, hits, ctx, depth, env);
    object_counts_enter(hits, kind);
    oracles_end_well(b, start, kind, hits, hits.len(), enters(hits, kind), ctx, depth);
    if let Ok((answered, r)) = oracles(b, start, kind, hits, hits.len(), enters(hits, kind), ctx, depth) {
        if one_piece(hits, kind, env) {
            piece_ends_well(b, start, kind, hits, answered, r, ctx, depth, env);
        } else if kind == ValueKind::Array {
            array_ends_well(b, start, beside(hits, env), beside_marks(hits, answered, env), ctx, depth, env);
        } else {
            object_ends_well(b, start, hits, answered, ctx, depth, env);
        }
    }
}

/// An accepted walk has a mark per hit and ends inside the text; unless it was stopped,
/// which it is only where it may, it ends where the value does, whatever is asked for.
pub(crate) proof fn node_ends_well(b: Seq<u8>, pos: int, hits: Seq<DemandModel>, ctx: WalkCtx, depth: int, env: Env)
    requires
        0 <= pos <= b.len(),
        0 <= depth,
    ensures
        a_node(b, pos, hits, ctx, depth, env) matches Ok(w) ==> (trivia_end(b, pos, ctx.dialect) matches Ok(start) && pos
            <= start < b.len() && ends_well(b, start, hits.len(), ctx, a_node(b, pos, hits, ctx, depth, env))) && (w.stopped
            ==> env.may_stop && hits.len() > 0),
    decreases b.len() - pos, 6nat, 0nat,
{
    node_step(b, pos, hits, ctx, depth, env);
    trivia_end_bounds(b, pos, ctx.dialect);
    if let Ok(start) = trivia_end(b, pos, ctx.dialect) {
        if start < b.len() {
            ends_at_reach(b, start, ctx.unread(), ctx, depth);
            if hits.len() > 0 {
                if let Some(kind) = kind_at(b[start], ctx.dialect) {
                    kind_ends_well(b, start, kind, flat(hits), ctx, depth, env);
                }
            }
        }
    }
}

} // verus!
