//! A path that leads to no row demand answers with no rows.

use vstd::prelude::*;

use crate::ascii::{RBRACE, RBRACKET};
use crate::demand::{flattened, DemandModel, StepModel};
use crate::laws::ends::{child_ends_well, member_is_at};
use crate::laws::paths::kept_at_rank;
use crate::laws::shallow::{array_end_at, first_word, kind_tells, oracles_say, said, shallow};
use crate::laws::strict::item_is_settled;
use crate::laws::walks::{
    a_child, a_kind, a_node, an_array, an_object, array_end, array_step, child_step, elements_step, first_element,
    first_member, kind_step, members_step, need_of, node_step, object_step, one_piece, some_elements, some_members,
};
use crate::lex::key_text;
use crate::lex::skip::{after_colon, next_at, next_at_bounds, NextAt};
use crate::lex::ws::{trivia_end, trivia_end_bounds};
use crate::value::{resolved, ByteRange, ValueKind};
use crate::walk::marks::{row_shape, MarkModel};
use crate::walk::model::{
    after_step, all_rows, array_hits, beside, beside_marks, element_env, enter_array, enter_object, enters, flat,
    flat_row, kept, kind_at, member_env, needs_container, next_element, next_member, node, object_hits, oracle_mark,
    oracles, rank, replay, spans_for, ArrayState, Env, MemberState, WalkCtx,
};

verus! {

/// Whether a demand is for a whole value, for what an oracle tells of it, or for one of
/// these behind paths.
pub open spec fn rowless(h: DemandModel) -> bool
    decreases h,
{
    match h {
        DemandModel::Whole => true,
        DemandModel::Oracle(_) => true,
        DemandModel::Path { steps, nested } => nested matches Some(inner) ==> rowless(*inner),
        _ => false,
    }
}

proof fn flat_is_rowless(h: DemandModel)
    requires
        rowless(h),
    ensures
        rowless(flattened(h)),
        flattened(h) matches DemandModel::Path { steps, .. } ==> steps.len() > 0,
    decreases h,
{
    if let DemandModel::Path { steps, nested } = h {
        if steps.len() == 0 {
            if let Some(inner) = nested {
                flat_is_rowless(*inner);
            }
        }
    }
}

proof fn step_is_rowless(h: DemandModel, name: Seq<u8>, idx: int)
    requires
        rowless(h),
    ensures
        enter_object(h, name) matches Some(d) ==> rowless(d),
        enter_array(h, idx) matches Some(d) ==> rowless(d),
        row_shape(h) is None,
        h matches DemandModel::Path { steps, nested } ==> rowless(after_step(steps, nested)),
{
    reveal_with_fuel(rowless, 2);
}

/// What a rowless demand is told without a walk below is no rows.
proof fn told_no_rows(b: Seq<u8>, start: int, kind: ValueKind, h: DemandModel, entering: bool, ctx: WalkCtx, depth: int, e: int)
    requires
        rowless(h),
        h matches DemandModel::Path { steps, nested } ==> steps.len() > 0 && kind != ValueKind::Array && kind != ValueKind::Object,
        h matches DemandModel::Oracle(o) ==> oracle_mark(b, start, kind, o, entering, ctx, depth) is Ok,
    ensures
        !(said(b, start, kind, h, first_word(b, start, kind, h, false, ctx, depth), e, ctx) is Rows),
{
    reveal(oracle_mark);
}

proof fn members_rowless(b: Seq<u8>, st: MemberState, hits: Seq<DemandModel>, r: int, ctx: WalkCtx, depth: int, env: Env)
    requires
        0 <= r < hits.len(),
        rowless(hits[r]),
        st.marks.len() == hits.len(),
        !(st.marks[r] is Rows),
        0 <= st.pos <= b.len(),
        0 <= depth,
    ensures
        some_members(b, st, hits, ctx, depth, env) matches Ok(last) ==> !(last.marks[r] is Rows),
    decreases b.len() - st.pos, 0nat,
{
    members_step(b, st, hits, ctx, depth, env);
    next_at_bounds(b, st.pos, ctx.dialect, RBRACE, st.first);
    if let Ok(NextAt::Item(p)) = next_at(b, st.pos, ctx.dialect, RBRACE, st.first) {
        if let Ok((key_end, name)) = key_text(b, p, ctx.dialect) {
            if let Ok(v) = after_colon(b, key_end, ctx.dialect) {
                member_is_at(b, p, ctx.dialect, key_end, name, v);
                let opts = object_hits(hits, name);
                let inner = member_env(env, opts, hits);
                child_ends_well(b, v, kept(opts), hits, ctx, depth, inner);
                if let Ok(w) = a_child(b, v, kept(opts), hits, ctx, depth, inner) {
                    if opts[r] is Some {
                        kept_at_rank(opts, r);
                        step_is_rowless(hits[r], name, 0);
                        child_step(b, v, kept(opts), hits, ctx, depth, inner);
                        node_rowless(b, v, kept(opts), rank(opts, r), ctx, depth, inner);
                    }
                    let next = next_member(st, hits, opts, name, w, v);
                    if !st.stopped {
                        members_rowless(b, next, hits, r, ctx, depth, env);
                    }
                }
            }
        }
    }
}

proof fn elements_rowless(b: Seq<u8>, st: ArrayState, hits: Seq<DemandModel>, r: int, ctx: WalkCtx, depth: int, need: Option<int>)
    requires
        0 <= r < hits.len(),
        rowless(hits[r]),
        st.marks.len() == hits.len(),
        !(st.marks[r] is Rows),
        0 <= st.pos <= b.len(),
        0 <= depth,
    ensures
        some_elements(b, st, hits, ctx, depth, need) matches Ok(last) ==> !(last.marks[r] is Rows) && last.marks.len() == hits.len(),
    decreases b.len() - st.pos, 4nat,
{
    elements_step(b, st, hits, ctx, depth, need);
    next_at_bounds(b, st.pos, ctx.dialect, RBRACKET, st.idx == 0);
    if let Ok(NextAt::Item(p)) = next_at(b, st.pos, ctx.dialect, RBRACKET, st.idx == 0) {
        item_is_settled(b, st.pos, ctx.dialect, RBRACKET, st.idx == 0);
        let opts = array_hits(hits, st.idx);
        child_ends_well(b, p, kept(opts), hits, ctx, depth, element_env());
        if let Ok(w) = a_child(b, p, kept(opts), hits, ctx, depth, element_env()) {
            step_is_rowless(hits[r], Seq::empty(), st.idx);
            if opts[r] is Some {
                kept_at_rank(opts, r);
                child_step(b, p, kept(opts), hits, ctx, depth, element_env());
                node_rowless(b, p, kept(opts), rank(opts, r), ctx, depth, element_env());
            }
            elements_rowless(b, next_element(st, hits, opts, w, p), hits, r, ctx, depth, need);
        }
    }
}

proof fn replay_rowless(b: Seq<u8>, start: int, elem: ByteRange, h: DemandModel, ctx: WalkCtx, depth: int, element: bool)
    requires
        0 <= start <= b.len(),
        rowless(h),
        0 <= depth,
    ensures
        replay(b, start, elem, h, ctx, depth, element) matches Ok(mark) ==> !(mark is Rows),
    decreases b.len() - start, 0nat,
{
    if start < elem.start <= b.len() {
        let env = Env { element, may_stop: false, lane: false };
        assert(a_node(b, elem.start as int, seq![h], ctx, depth, env) == node(b, elem.start as int, seq![h], ctx, depth, env)) by {
            reveal(a_node);
        }
        node_rowless(b, elem.start as int, seq![h], 0, ctx, depth, env);
    }
}

proof fn array_rowless(
    b: Seq<u8>,
    start: int,
    hits: Seq<DemandModel>,
    r: int,
    answered: Seq<MarkModel>,
    ctx: WalkCtx,
    depth: int,
    env: Env,
)
    requires
        0 <= r < hits.len(),
        hits[r] is Path,
        rowless(hits[r]),
        answered.len() == hits.len(),
        answered[r] is Missing,
        0 <= start < b.len(),
        0 <= depth,
    ensures
        an_array(b, start, hits, answered, ctx, depth, env) matches Ok(w) ==> !(w.marks[r] is Rows),
    decreases b.len() - start, 1nat,
{
    array_step(b, start, hits, answered, ctx, depth, env);
    if let Ok(w) = an_array(b, start, hits, answered, ctx, depth, env) {
        assert(!all_rows(hits)) by {
            assert(!flat_row(hits[r]));
        }
        step_is_rowless(hits[r], Seq::empty(), 0);
        let first = first_element(start, hits, answered);
        let need = need_of(hits, env);
        elements_rowless(b, first, hits, r, ctx, depth + 1, need);
        reveal(array_end);
        let st = some_elements(b, first, hits, ctx, depth + 1, need)->Ok_0;
        array_end_at(b, start, hits, hits.len(), r, st, ctx, depth, env);
        if let DemandModel::Path { steps, nested } = hits[r] {
            if st.marks[r] is Missing && steps.len() > 0 {
                if let StepModel::Index(i) = steps[0] {
                    if let Some(k) = resolved(st.idx, i as int) {
                        let spans = spans_for(hits[r], st.spans);
                        if k < spans.len() {
                            replay_rowless(b, start, spans[k], after_step(steps, nested), ctx, depth, env.element);
                        }
                    }
                }
            }
        }
    }
}

proof fn object_rowless(
    b: Seq<u8>,
    start: int,
    hits: Seq<DemandModel>,
    r: int,
    answered: Seq<MarkModel>,
    ctx: WalkCtx,
    depth: int,
    env: Env,
)
    requires
        0 <= r < hits.len(),
        hits[r] is Path,
        rowless(hits[r]),
        answered.len() == hits.len(),
        answered[r] is Missing,
        0 <= start < b.len(),
        0 <= depth,
    ensures
        an_object(b, start, hits, answered, ctx, depth, env) matches Ok(w) ==> !(w.marks[r] is Rows),
    decreases b.len() - start, 1nat,
{
    object_step(b, start, hits, answered, ctx, depth, env);
    assert(!all_rows(hits)) by {
        assert(!flat_row(hits[r]));
    }
    members_rowless(b, first_member(start, answered), hits, r, ctx, depth + 1, env);
}

proof fn kind_rowless(b: Seq<u8>, start: int, kind: ValueKind, hits: Seq<DemandModel>, r: int, ctx: WalkCtx, depth: int, env: Env)
    requires
        0 <= r < hits.len(),
        rowless(hits[r]),
        hits[r] matches DemandModel::Path { steps, .. } ==> steps.len() > 0,
        0 <= start < b.len(),
        kind_at(b[start], ctx.dialect) == Some(kind),
        0 <= depth,
    ensures
        a_kind(b, start, kind, hits, ctx, depth, env) matches Ok(w) ==> !(w.marks[r] is Rows),
    decreases b.len() - start, 2nat,
{
    let h = hits[r];
    if let Ok(w) = a_kind(b, start, kind, hits, ctx, depth, env) {
        kind_step(b, start, kind, hits, ctx, depth, env);
        let entering = enters(hits, kind);
        oracles_say(b, start, kind, hits, hits.len(), r, entering, ctx, depth);
        let answered = oracles(b, start, kind, hits, hits.len(), entering, ctx, depth)->Ok_0.0;
        if h is Path && (kind == ValueKind::Array || kind == ValueKind::Object) {
            assert(enters(hits, kind)) by {
                assert(needs_container(hits[r]));
            }
            assert(!one_piece(hits, kind, env)) by {
                assert(hits[r] is Path);
            }
            if kind == ValueKind::Array {
                let here = beside(hits, env);
                assert(here[r] == h);
                array_rowless(b, start, here, r, beside_marks(hits, answered, env), ctx, depth, env);
            } else {
                object_rowless(b, start, hits, r, answered, ctx, depth, env);
            }
        } else {
            assert(shallow(h, kind, env));
            kind_tells(b, start, kind, hits, r, ctx, depth, env);
            told_no_rows(b, start, kind, h, entering, ctx, depth, w.end);
        }
    }
}

/// A walk answers a rowless demand with no rows.
pub(crate) proof fn node_rowless(b: Seq<u8>, pos: int, hits: Seq<DemandModel>, r: int, ctx: WalkCtx, depth: int, env: Env)
    requires
        0 <= r < hits.len(),
        rowless(hits[r]),
        0 <= pos <= b.len(),
        0 <= depth,
    ensures
        a_node(b, pos, hits, ctx, depth, env) matches Ok(w) ==> !(w.marks[r] is Rows),
    decreases b.len() - pos, 3nat,
{
    node_step(b, pos, hits, ctx, depth, env);
    trivia_end_bounds(b, pos, ctx.dialect);
    if let Ok(start) = trivia_end(b, pos, ctx.dialect) {
        if pos <= start < b.len() {
            if let Some(kind) = kind_at(b[start], ctx.dialect) {
                flat_is_rowless(hits[r]);
                assert(flat(hits)[r] == flattened(hits[r]));
                kind_rowless(b, start, kind, flat(hits), r, ctx, depth, env);
            }
        }
    }
}

} // verus!
