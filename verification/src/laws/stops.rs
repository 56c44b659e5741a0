//! An early stop changes no answer.
//!
//! A walk may end before its value does, where nothing that it was asked for can follow.
//! Only bounded windows on one array allow that, and what they answer is what a walk of
//! the whole value answers.

use vstd::prelude::*;

use crate::ascii::{RBRACE, RBRACKET};
use crate::demand::{flattened, DemandModel};
use crate::error::Error;
use crate::laws::alone::{comes_again, nodes_agree};
use crate::laws::ends::node_ends_well;
use crate::laws::walks::{
    a_child, a_kind, a_node, a_piece, an_array, an_object, array_end, array_step, child_step, elements_step, first_element,
    first_member, kind_step, members_step, need_of, node_step, object_step, one_piece, some_elements, some_members,
};
use crate::lex::key_text;
use crate::lex::skip::{after_colon, next_at, NextAt};
use crate::lex::ws::trivia_end;
use crate::value::ValueKind;
use crate::walk::marks::MarkModel;
use crate::walk::model::{
    all_rows, array_hits, array_mark, beside, beside_marks, bounded_end, element_array, element_env, enter_object, enters, finish_array,
    flat, kept, kind_at, located, member_env, next_element, next_member, node, object_hits, oracles, prefix_window, set_aside,
    spans_for, ArrayState, Env, MemberState, WalkCtx, Walked,
};

verus! {

/// The same place without leave to stop.
pub open spec fn going(env: Env) -> Env {
    Env { may_stop: false, ..env }
}

/// Whether a hit asks, behind a path of keys, for a window with a bound.
pub open spec fn leads(h: DemandModel, keys: Seq<Seq<u8>>) -> bool
    decreases keys.len(),
{
    if keys.len() == 0 {
        bounded_end(h) is Some
    } else {
        enter_object(h, keys[0]) matches Some(d) && leads(flattened(d), keys.skip(1))
    }
}

/// Whether every hit asks, behind the same path of keys, for a window with a bound.
pub open spec fn all_lead(hits: Seq<DemandModel>, keys: Seq<Seq<u8>>) -> bool {
    forall|k: int| 0 <= k < hits.len() ==> leads(flattened(#[trigger] hits[k]), keys)
}

spec fn flat_lead(hits: Seq<DemandModel>, keys: Seq<Seq<u8>>) -> bool {
    forall|k: int| 0 <= k < hits.len() ==> leads(#[trigger] hits[k], keys)
}

spec fn some_lead(hits: Seq<DemandModel>) -> bool {
    exists|keys: Seq<Seq<u8>>| flat_lead(hits, keys)
}

/// Whether a walk that was accepted was stopped by windows, or is the full walk.
spec fn runs_as(hits: Seq<DemandModel>, stopping: Result<Walked, Error>, full: Result<Walked, Error>) -> bool {
    stopping matches Ok(w) ==> if w.stopped {
        some_lead(hits)
    } else {
        full == stopping
    }
}

proof fn elements_run_on(b: Seq<u8>, st: ArrayState, hits: Seq<DemandModel>, ctx: WalkCtx, depth: int, need: Option<int>)
    requires
        !st.stopped,
    ensures
        some_elements(b, st, hits, ctx, depth, need) matches Ok(last) ==> if last.stopped {
            need is Some
        } else {
            some_elements(b, st, hits, ctx, depth, None) == Ok::<ArrayState, Error>(last)
        },
    decreases b.len() - st.pos,
{
    elements_step(b, st, hits, ctx, depth, need);
    elements_step(b, st, hits, ctx, depth, None);
    if let Ok(NextAt::Item(p)) = next_at(b, st.pos, ctx.dialect, RBRACKET, st.idx == 0) {
        let opts = array_hits(hits, st.idx);
        if st.pos <= p <= b.len() {
            if let Ok(w) = a_child(b, p, kept(opts), hits, ctx, depth, element_env()) {
                if p < w.end <= b.len() {
                    elements_run_on(b, next_element(st, hits, opts, w, p), hits, ctx, depth, need);
                }
            }
        }
    }
}

/// Finishing an array asks for no leave to stop.
proof fn array_finishes_alike(
    b: Seq<u8>,
    start: int,
    hits: Seq<DemandModel>,
    n: nat,
    st: ArrayState,
    ctx: WalkCtx,
    depth: int,
    env: Env,
)
    ensures
        finish_array(b, start, hits, n, st, ctx, depth, going(env)) == finish_array(b, start, hits, n, st, ctx, depth, env),
    decreases n,
{
    if n > 0 {
        array_finishes_alike(b, start, hits, (n - 1) as nat, st, ctx, depth, env);
        let spans = spans_for(hits[n - 1], st.spans);
        assert(array_mark(b, start, hits[n - 1], st.marks[n - 1], spans, st, ctx, depth, going(env)) == array_mark(
            b,
            start,
            hits[n - 1],
            st.marks[n - 1],
            spans,
            st,
            ctx,
            depth,
            env,
        ));
    }
}

/// Where all windows are bounded, each of them is.
proof fn windows_are_bounded(hits: Seq<DemandModel>)
    requires
        prefix_window(hits) is Some,
    ensures
        flat_lead(hits, Seq::empty()),
    decreases hits.len(),
{
    if hits.len() > 1 {
        windows_are_bounded(hits.drop_last());
    }
    assert forall|k: int| 0 <= k < hits.len() implies leads(#[trigger] hits[k], Seq::empty()) by {
        if k < hits.len() - 1 {
            assert(hits.drop_last()[k] == hits[k]);
        }
    }
}

proof fn array_runs_on(
    b: Seq<u8>,
    start: int,
    hits: Seq<DemandModel>,
    answered: Seq<MarkModel>,
    ctx: WalkCtx,
    depth: int,
    env: Env,
)
    ensures
        runs_as(
            hits,
            an_array(b, start, hits, answered, ctx, depth, env),
            an_array(b, start, hits, answered, ctx, depth, going(env)),
        ),
{
    array_step(b, start, hits, answered, ctx, depth, env);
    array_step(b, start, hits, answered, ctx, depth, going(env));
    if depth < ctx.max && start < b.len() && !all_rows(hits) {
        let first = first_element(start, hits, answered);
        let need = need_of(hits, env);
        elements_run_on(b, first, hits, ctx, depth + 1, need);
        if let Ok(st) = some_elements(b, first, hits, ctx, depth + 1, need) {
            assert(array_end(b, start, hits, st, ctx, depth, going(env)) == array_end(b, start, hits, st, ctx, depth, env)) by {
                reveal(array_end);
                array_finishes_alike(b, start, hits, hits.len(), st, ctx, depth, env);
            }
            if st.stopped {
                windows_are_bounded(hits);
            }
        }
    }
}

/// Where every hit enters a member, each has its own demand on it.
pub(crate) proof fn all_kept(opts: Seq<Option<DemandModel>>)
    ensures
        kept(opts).len() <= opts.len(),
        kept(opts).len() == opts.len() ==> forall|k: int|
            0 <= k < opts.len() ==> (#[trigger] opts[k]) is Some && kept(opts)[k] == opts[k]->0,
    decreases opts.len(),
{
    if opts.len() > 0 {
        let head = opts.drop_last();
        all_kept(head);
        if kept(opts).len() == opts.len() {
            assert forall|k: int| 0 <= k < opts.len() implies (#[trigger] opts[k]) is Some && kept(opts)[k] == opts[k]->0 by {
                if k < opts.len() - 1 {
                    assert(head[k] == opts[k]);
                }
            }
        }
    }
}

/// Windows behind a member that every hit enters are behind its key.
proof fn lead_from_member(hits: Seq<DemandModel>, name: Seq<u8>)
    requires
        kept(object_hits(hits, name)).len() == hits.len(),
        some_lead(flat(kept(object_hits(hits, name)))),
    ensures
        some_lead(hits),
{
    let opts = object_hits(hits, name);
    let below = flat(kept(opts));
    let keys = choose|keys: Seq<Seq<u8>>| flat_lead(below, keys);
    let path = seq![name] + keys;
    all_kept(opts);
    assert forall|k: int| 0 <= k < hits.len() implies leads(#[trigger] hits[k], path) by {
        assert(opts[k] == enter_object(hits[k], name));
        assert(leads(below[k], keys));
        assert(path.skip(1) =~= keys);
    }
    assert(flat_lead(hits, path));
}

proof fn member_runs_on(
    b: Seq<u8>,
    v: int,
    name: Seq<u8>,
    hits: Seq<DemandModel>,
    ctx: WalkCtx,
    depth: int,
    env: Env,
)
    requires
        0 <= v <= b.len(),
        0 <= depth,
    ensures
        ({
            let opts = object_hits(hits, name);
            runs_as(
                hits,
                a_child(b, v, kept(opts), hits, ctx, depth, member_env(env, opts, hits)),
                a_child(b, v, kept(opts), hits, ctx, depth, member_env(going(env), opts, hits)),
            )
        }),
        a_child(b, v, kept(object_hits(hits, name)), hits, ctx, depth, member_env(env, object_hits(hits, name), hits)) matches Ok(
            w,
        ) ==> (w.stopped ==> v < w.end <= b.len()),
    decreases b.len() - v, 4nat,
{
    let opts = object_hits(hits, name);
    let at = member_env(env, opts, hits);
    assert(member_env(going(env), opts, hits) == going(at));
    child_step(b, v, kept(opts), hits, ctx, depth, at);
    child_step(b, v, kept(opts), hits, ctx, depth, going(at));
    a_node_runs_on(b, v, kept(opts), ctx, depth, at);
    node_ends_well(b, v, kept(opts), ctx, depth, at);
    if let Ok(w) = a_child(b, v, kept(opts), hits, ctx, depth, at) {
        if w.stopped {
            lead_from_member(hits, name);
        }
    }
}

proof fn members_run_on(b: Seq<u8>, st: MemberState, hits: Seq<DemandModel>, ctx: WalkCtx, depth: int, env: Env)
    requires
        !st.stopped,
        0 <= st.pos,
        0 <= depth,
    ensures
        some_members(b, st, hits, ctx, depth, env) matches Ok(last) ==> if last.stopped {
            some_lead(hits)
        } else {
            some_members(b, st, hits, ctx, depth, going(env)) == Ok::<MemberState, Error>(last)
        },
    decreases b.len() - st.pos, 0nat,
{
    members_step(b, st, hits, ctx, depth, env);
    members_step(b, st, hits, ctx, depth, going(env));
    if let Ok(NextAt::Item(p)) = next_at(b, st.pos, ctx.dialect, RBRACE, st.first) {
        if let Ok((key_end, name)) = key_text(b, p, ctx.dialect) {
            if let Ok(v) = after_colon(b, key_end, ctx.dialect) {
                if st.pos < v <= b.len() {
                    let opts = object_hits(hits, name);
                    member_runs_on(b, v, name, hits, ctx, depth, env);
                    if let Ok(w) = a_child(b, v, kept(opts), hits, ctx, depth, member_env(env, opts, hits)) {
                        if v < w.end <= b.len() {
                            let next = next_member(st, hits, opts, name, w, v);
                            if w.stopped {
                                members_step(b, next, hits, ctx, depth, env);
                            } else {
                                members_run_on(b, next, hits, ctx, depth, env);
                            }
                        }
                    }
                }
            }
        }
    }
}

proof fn object_runs_on(
    b: Seq<u8>,
    start: int,
    hits: Seq<DemandModel>,
    answered: Seq<MarkModel>,
    ctx: WalkCtx,
    depth: int,
    env: Env,
)
    requires
        0 <= start < b.len(),
        0 <= depth,
    ensures
        runs_as(
            hits,
            an_object(b, start, hits, answered, ctx, depth, env),
            an_object(b, start, hits, answered, ctx, depth, going(env)),
        ),
    decreases b.len() - start, 1nat,
{
    object_step(b, start, hits, answered, ctx, depth, env);
    object_step(b, start, hits, answered, ctx, depth, going(env));
    if start < b.len() {
        members_run_on(b, first_member(start, answered), hits, ctx, depth + 1, env);
    }
}

/// What is set aside is no window.
proof fn lead_beside(hits: Seq<DemandModel>, env: Env, keys: Seq<Seq<u8>>)
    requires
        flat_lead(beside(hits, env), keys),
    ensures
        flat_lead(hits, keys),
{
    assert forall|k: int| 0 <= k < hits.len() implies leads(#[trigger] hits[k], keys) by {
        assert(leads(beside(hits, env)[k], keys));
        assert(beside(hits, env)[k] == set_aside(hits[k], env));
    }
}

/// A value read as one piece is read to its end.
proof fn pieces_are_whole(
    b: Seq<u8>,
    start: int,
    kind: ValueKind,
    hits: Seq<DemandModel>,
    answered: Seq<MarkModel>,
    reach: int,
    ctx: WalkCtx,
    depth: int,
)
    ensures
        a_piece(b, start, kind, hits, answered, reach, ctx, depth) matches Ok(w) ==> !w.stopped,
{
    reveal(a_piece);
    reveal(element_array);
    reveal(located);
}

proof fn kind_runs_on(
    b: Seq<u8>,
    start: int,
    kind: ValueKind,
    hits: Seq<DemandModel>,
    ctx: WalkCtx,
    depth: int,
    env: Env,
)
    requires
        0 <= start < b.len(),
        0 <= depth,
    ensures
        runs_as(
            hits,
            a_kind(b, start, kind, hits, ctx, depth, env),
            a_kind(b, start, kind, hits, ctx, depth, going(env)),
        ),
    decreases b.len() - start, 2nat,
{
    kind_step(b, start, kind, hits, ctx, depth, env);
    kind_step(b, start, kind, hits, ctx, depth, going(env));
    if let Ok((answered, reach)) = oracles(b, start, kind, hits, hits.len(), enters(hits, kind), ctx, depth) {
        if one_piece(hits, kind, env) {
            pieces_are_whole(b, start, kind, hits, answered, reach, ctx, depth);
        } else if kind == ValueKind::Array {
            let others = beside(hits, env);
            let marks = beside_marks(hits, answered, env);
            assert(beside(hits, going(env)) =~= others);
            assert(beside_marks(hits, answered, going(env)) =~= marks);
            array_runs_on(b, start, others, marks, ctx, depth, env);
            if some_lead(others) {
                let keys = choose|keys: Seq<Seq<u8>>| flat_lead(others, keys);
                lead_beside(hits, env, keys);
            }
        } else {
            object_runs_on(b, start, hits, answered, ctx, depth, env);
        }
    }
}

proof fn a_node_runs_on(b: Seq<u8>, pos: int, hits: Seq<DemandModel>, ctx: WalkCtx, depth: int, env: Env)
    requires
        0 <= pos <= b.len(),
        0 <= depth,
    ensures
        runs_as(flat(hits), a_node(b, pos, hits, ctx, depth, env), a_node(b, pos, hits, ctx, depth, going(env))),
    decreases b.len() - pos, 3nat,
{
    node_step(b, pos, hits, ctx, depth, env);
    node_step(b, pos, hits, ctx, depth, going(env));
    if let Ok(start) = trivia_end(b, pos, ctx.dialect) {
        if pos <= start < b.len() && hits.len() > 0 {
            if let Some(kind) = kind_at(b[start], ctx.dialect) {
                kind_runs_on(b, start, kind, flat(hits), ctx, depth, env);
            }
        }
    }
}

/// A walk is stopped only where it may be, and only by demands that all ask, behind one
/// path of keys, for windows with a bound.
pub proof fn only_bounded_windows_stop_a_walk(
    b: Seq<u8>,
    pos: int,
    hits: Seq<DemandModel>,
    ctx: WalkCtx,
    depth: int,
    env: Env,
)
    requires
        0 <= pos <= b.len(),
        0 <= depth,
        node(b, pos, hits, ctx, depth, env) is Ok,
        node(b, pos, hits, ctx, depth, env)->Ok_0.stopped,
    ensures
        env.may_stop,
        exists|keys: Seq<Seq<u8>>| all_lead(hits, keys),
{
    reveal(a_node);
    a_node_runs_on(b, pos, hits, ctx, depth, env);
    node_ends_well(b, pos, hits, ctx, depth, env);
    let keys = choose|keys: Seq<Seq<u8>>| flat_lead(flat(hits), keys);
    assert forall|k: int| 0 <= k < hits.len() implies leads(flattened(#[trigger] hits[k]), keys) by {
        assert(leads(flat(hits)[k], keys));
    }
    assert(all_lead(hits, keys));
}

/// A walk that is not stopped is the walk of the whole value.
pub proof fn a_walk_that_is_not_stopped_is_the_full_walk(
    b: Seq<u8>,
    pos: int,
    hits: Seq<DemandModel>,
    ctx: WalkCtx,
    depth: int,
    env: Env,
)
    requires
        0 <= pos <= b.len(),
        0 <= depth,
        node(b, pos, hits, ctx, depth, env) is Ok,
        !node(b, pos, hits, ctx, depth, env)->Ok_0.stopped,
    ensures
        node(b, pos, hits, ctx, depth, going(env)) == node(b, pos, hits, ctx, depth, env),
{
    reveal(a_node);
    a_node_runs_on(b, pos, hits, ctx, depth, env);
}

/// A walk that may end early answers every demand as the walk of the whole value does, and
/// ends no later; the walk of the whole value is never stopped.
///
/// Left out is a walk that is stopped before a key on the way of a demand comes again.
pub proof fn stopping_early_changes_no_answer(
    b: Seq<u8>,
    pos: int,
    hits: Seq<DemandModel>,
    ctx: WalkCtx,
    depth: int,
    env: Env,
)
    requires
        0 <= pos <= b.len(),
        0 <= depth,
        node(b, pos, hits, ctx, depth, env) is Ok,
        node(b, pos, hits, ctx, depth, going(env)) is Ok,
        node(b, pos, hits, ctx, depth, env)->Ok_0.stopped ==> forall|k: int|
            0 <= k < hits.len() ==> !comes_again(
                b,
                pos,
                #[trigger] hits[k],
                ctx,
                node(b, pos, hits, ctx, depth, env)->Ok_0.end,
                node(b, pos, hits, ctx, depth, going(env))->Ok_0.end,
            ),
    ensures
        node(b, pos, hits, ctx, depth, env)->Ok_0.marks == node(b, pos, hits, ctx, depth, going(env))->Ok_0.marks,
        node(b, pos, hits, ctx, depth, env)->Ok_0.end <= node(b, pos, hits, ctx, depth, going(env))->Ok_0.end,
        !node(b, pos, hits, ctx, depth, going(env))->Ok_0.stopped,
{
    let cut = node(b, pos, hits, ctx, depth, env)->Ok_0;
    let full = node(b, pos, hits, ctx, depth, going(env))->Ok_0;
    assert(a_node(b, pos, hits, ctx, depth, env) == node(b, pos, hits, ctx, depth, env)) by {
        reveal(a_node);
    }
    assert(a_node(b, pos, hits, ctx, depth, going(env)) == node(b, pos, hits, ctx, depth, going(env))) by {
        reveal(a_node);
    }
    a_node_runs_on(b, pos, hits, ctx, depth, env);
    node_ends_well(b, pos, hits, ctx, depth, env);
    node_ends_well(b, pos, hits, ctx, depth, going(env));
    if cut.stopped {
        assert forall|k: int| 0 <= k < hits.len() implies cut.marks[k] == #[trigger] full.marks[k] && cut.end <= full.end by {
            assert(!comes_again(b, pos, hits[k], ctx, cut.end, full.end));
            nodes_agree(b, pos, hits, k, hits, k, ctx, depth, depth, going(env), env);
        }
        if hits.len() > 0 {
            assert(cut.marks[0] == full.marks[0]);
        }
        assert(cut.marks =~= full.marks);
    }
}

} // verus!
