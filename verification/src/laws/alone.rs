//! One pass answers each demand as if it were asked alone.
//!
//! Two walks of one value that share a demand answer it alike: one may ask for more, and
//! the other may stop earlier.

use vstd::prelude::*;

use crate::ascii::{LBRACE, LBRACKET, RBRACE, RBRACKET};
use crate::demand::{flattened, nested_or_whole, DemandModel, StepModel};
use crate::error::Error;
use crate::laws::ends::{child_ends_well, kind_ends_well, member_is_at, node_ends_well, reach};
use crate::laws::paths::kept_at_rank;
use crate::laws::shallow::{
    above_members, array_end_at, array_tells_rows, first_word, kept_fewer, kind_tells, oracles_say, prefix_is_bound, said,
    shallow,
};
use crate::laws::strict::item_is_settled;
use crate::laws::walks::{
    a_child, a_kind, a_node, an_array, an_object, array_end, array_step, child_step, elements_step, first_element,
    first_member, kind_step, members_step, need_of, node_step, object_step, one_piece, some_elements, some_members,
};
use crate::laws::windows::{answers, asked, grew, holds_rows, is_window, same_window, window_grows};
use crate::lex::key_text;
use crate::lex::skip::{after_colon, next_at, next_at_bounds, NextAt};
use crate::lex::ws::{trivia_end, trivia_end_bounds};
use crate::value::{resolved, span, ByteRange, ValueKind};
use crate::walk::marks::{folded, row_fields, row_shape, BatchModel, MarkModel, Shape};
use crate::walk::model::{
    after_step, all_rows, array_hits, array_mark, batch_of, beside, beside_marks, bounded_end, element_env, enter_object, enters,
    flat, flat_row, index_spine, kept, kind_at, member_env, needs_container, next_element, next_member, node, object_hits, oracle_mark, oracles,
    prefix_window, rank, replay, replay_window, slice_replays, spans_for, ArrayState, Env, MemberState, WalkCtx,
    Walked,
};

verus! {

/// Whether a member from `pos` on whose value starts in `[from, to)` is one that a hit
/// enters, or holds such a member for what the hit asks of it.
pub open spec fn entered_again(b: Seq<u8>, pos: int, first: bool, h: DemandModel, ctx: WalkCtx, from: int, to: int) -> bool
    decreases b.len() - pos, 0nat,
{
    match next_at(b, pos, ctx.dialect, RBRACE, first) {
        Ok(NextAt::Item(p)) => match key_text(b, p, ctx.dialect) {
            Ok((key_end, name)) => match after_colon(b, key_end, ctx.dialect) {
                Ok(v) => {
                    ||| enter_object(h, name) matches Some(d) && (from <= v < to || (pos < v <= b.len() && comes_again(
                        b,
                        v,
                        d,
                        ctx,
                        from,
                        to,
                    )))
                    ||| reach(b, v, ctx) matches Ok(e) && pos < e <= b.len() && entered_again(b, e, false, h, ctx, from, to)
                },
                Err(_) => false,
            },
            Err(_) => false,
        },
        _ => false,
    }
}

/// Whether a key on the way of a demand from the value at `pos` comes, with its value, in
/// `[from, to)`.
pub open spec fn comes_again(b: Seq<u8>, pos: int, h: DemandModel, ctx: WalkCtx, from: int, to: int) -> bool
    decreases b.len() - pos, 1nat,
{
    trivia_end(b, pos, ctx.dialect) matches Ok(start) && pos <= start < b.len() && b[start] == LBRACE && entered_again(
        b,
        start + 1,
        true,
        flattened(h),
        ctx,
        from,
        to,
    )
}

/// What does not come again in a source does not come again in a part of it.
proof fn again_shrinks(b: Seq<u8>, pos: int, h: DemandModel, ctx: WalkCtx, from: int, to: int, less: int)
    requires
        less <= to,
        comes_again(b, pos, h, ctx, from, less),
    ensures
        comes_again(b, pos, h, ctx, from, to),
    decreases b.len() - pos, 1nat,
{
    let start = trivia_end(b, pos, ctx.dialect)->Ok_0;
    entered_again_shrinks(b, start + 1, true, flattened(h), ctx, from, to, less);
}

proof fn entered_again_shrinks(
    b: Seq<u8>,
    pos: int,
    first: bool,
    h: DemandModel,
    ctx: WalkCtx,
    from: int,
    to: int,
    less: int,
)
    requires
        less <= to,
        entered_again(b, pos, first, h, ctx, from, less),
    ensures
        entered_again(b, pos, first, h, ctx, from, to),
    decreases b.len() - pos, 0nat,
{
    let p = next_at(b, pos, ctx.dialect, RBRACE, first)->Ok_0->Item_0;
    let (key_end, name) = key_text(b, p, ctx.dialect)->Ok_0;
    let v = after_colon(b, key_end, ctx.dialect)->Ok_0;
    if let Some(d) = enter_object(h, name) {
        if pos < v <= b.len() && comes_again(b, v, d, ctx, from, less) {
            again_shrinks(b, v, d, ctx, from, to, less);
        }
    }
    if let Ok(e) = reach(b, v, ctx) {
        if pos < e <= b.len() && entered_again(b, e, false, h, ctx, from, less) {
            entered_again_shrinks(b, e, false, h, ctx, from, to, less);
        }
    }
}

/// A member loop goes forward.
proof fn members_advance(b: Seq<u8>, st: MemberState, hits: Seq<DemandModel>, ctx: WalkCtx, depth: int, env: Env)
    requires
        0 <= st.pos <= b.len(),
    ensures
        some_members(b, st, hits, ctx, depth, env) matches Ok(last) ==> st.pos <= last.pos,
    decreases b.len() - st.pos,
{
    members_step(b, st, hits, ctx, depth, env);
    next_at_bounds(b, st.pos, ctx.dialect, RBRACE, st.first);
    if let Ok(NextAt::Item(p)) = next_at(b, st.pos, ctx.dialect, RBRACE, st.first) {
        if let Ok((key_end, name)) = key_text(b, p, ctx.dialect) {
            if let Ok(v) = after_colon(b, key_end, ctx.dialect) {
                let opts = object_hits(hits, name);
                if st.pos < v <= b.len() {
                    if let Ok(w) = a_child(b, v, kept(opts), hits, ctx, depth, member_env(env, opts, hits)) {
                        if v < w.end <= b.len() {
                            members_advance(b, next_member(st, hits, opts, name, w, v), hits, ctx, depth, env);
                        }
                    }
                }
            }
        }
    }
}

/// Whether every demand of one list is in another.
pub(crate) open spec fn all_in(some: Seq<DemandModel>, all: Seq<DemandModel>) -> bool {
    forall|k: int| 0 <= k < some.len() ==> all.contains(#[trigger] some[k])
}

/// Whether a walk for `all` stops no earlier than one for `some`: where it may stop, the
/// other may and asks for nothing else.
pub(crate) open spec fn goes_as_far(all: Seq<DemandModel>, env: Env, some: Seq<DemandModel>, other: Env) -> bool {
    &&& env.element == other.element
    &&& env.may_stop ==> other.may_stop && all_in(some, all)
}

/// Whether two walks answer a shared demand alike, and the second ends no later.
pub(crate) open spec fn agree(x: Result<Walked, Error>, i: int, y: Result<Walked, Error>, j: int) -> bool {
    x matches Ok(w) ==> (y matches Ok(v) ==> w.marks[i] == v.marks[j] && (w.stopped ==> v.stopped) && v.end <= w.end)
}

proof fn kept_has(opts: Seq<Option<DemandModel>>, k: int)
    requires
        0 <= k < opts.len(),
        opts[k] is Some,
    ensures
        kept(opts).contains(opts[k]->0),
{
    kept_at_rank(opts, k);
    assert(kept(opts)[rank(opts, k)] == opts[k]->0);
}

proof fn kept_from(opts: Seq<Option<DemandModel>>, r: int) -> (k: int)
    requires
        0 <= r < kept(opts).len(),
    ensures
        0 <= k < opts.len(),
        opts[k] == Some(kept(opts)[r]),
    decreases opts.len(),
{
    let head = opts.drop_last();
    match opts.last() {
        Some(d) => if r == kept(opts).len() - 1 {
            opts.len() - 1
        } else {
            let k = kept_from(head, r);
            assert(head[k] == opts[k]);
            k
        },
        None => {
            let k = kept_from(head, r);
            assert(head[k] == opts[k]);
            k
        },
    }
}

proof fn kept_whole(opts: Seq<Option<DemandModel>>)
    requires
        kept(opts).len() == opts.len(),
    ensures
        forall|k: int| 0 <= k < opts.len() ==> #[trigger] opts[k] is Some,
{
    assert forall|k: int| 0 <= k < opts.len() implies #[trigger] opts[k] is Some by {
        if opts[k] is None {
            kept_fewer(opts, k);
        }
    }
}

proof fn kept_all_of(opts: Seq<Option<DemandModel>>)
    requires
        forall|k: int| 0 <= k < opts.len() ==> #[trigger] opts[k] is Some,
    ensures
        kept(opts).len() == opts.len(),
    decreases opts.len(),
{
    if opts.len() > 0 {
        assert(opts[opts.len() - 1] is Some);
        assert forall|k: int| 0 <= k < opts.drop_last().len() implies #[trigger] opts.drop_last()[k] is Some by {
            assert(opts[k] is Some);
        }
        kept_all_of(opts.drop_last());
    }
}

/// A member's walks go as far as each other as the object's do.
proof fn member_goes_as_far(all: Seq<DemandModel>, env: Env, some: Seq<DemandModel>, other: Env, name: Seq<u8>)
    requires
        goes_as_far(all, env, some, other),
    ensures
        goes_as_far(
            kept(object_hits(all, name)),
            member_env(env, object_hits(all, name), all),
            kept(object_hits(some, name)),
            member_env(other, object_hits(some, name), some),
        ),
{
    let opts = object_hits(all, name);
    let few = object_hits(some, name);
    if member_env(env, opts, all).may_stop {
        kept_whole(opts);
        assert forall|k: int| 0 <= k < few.len() implies #[trigger] few[k] is Some by {
            assert(all.contains(some[k]));
            let m = choose|m: int| 0 <= m < all.len() && all[m] == some[k];
            assert(opts[m] is Some);
            assert(opts[m] == few[k]);
        }
        kept_all_of(few);
        assert forall|r: int| 0 <= r < kept(few).len() implies kept(opts).contains(#[trigger] kept(few)[r]) by {
            let k = kept_from(few, r);
            assert(all.contains(some[k]));
            let m = choose|m: int| 0 <= m < all.len() && all[m] == some[k];
            assert(opts[m] == few[k]);
            kept_has(opts, m);
        }
    }
}

proof fn flat_goes_as_far(all: Seq<DemandModel>, env: Env, some: Seq<DemandModel>, other: Env)
    requires
        goes_as_far(all, env, some, other),
    ensures
        goes_as_far(flat(all), env, flat(some), other),
{
    if env.may_stop {
        assert forall|k: int| 0 <= k < flat(some).len() implies flat(all).contains(#[trigger] flat(some)[k]) by {
            assert(all.contains(some[k]));
            let m = choose|m: int| 0 <= m < all.len() && all[m] == some[k];
            assert(flat(all)[m] == flat(some)[k]);
        }
    }
}

/// Members that a hit does not enter leave its mark as it is, and stop nothing.
proof fn mark_stays(
    b: Seq<u8>,
    st: MemberState,
    hits: Seq<DemandModel>,
    i: int,
    ctx: WalkCtx,
    depth: int,
    env: Env,
    from: int,
)
    requires
        0 <= i < hits.len(),
        0 <= st.pos <= b.len(),
        0 <= depth,
        !st.stopped,
        st.marks.len() == hits.len(),
        from <= st.pos,
        some_members(b, st, hits, ctx, depth, env) matches Ok(last) ==> !entered_again(
            b,
            st.pos,
            st.first,
            hits[i],
            ctx,
            from,
            last.pos,
        ),
    ensures
        some_members(b, st, hits, ctx, depth, env) matches Ok(last) ==> last.marks[i] == st.marks[i] && !last.stopped
            && st.pos <= last.pos,
    decreases b.len() - st.pos,
{
    members_step(b, st, hits, ctx, depth, env);
    next_at_bounds(b, st.pos, ctx.dialect, RBRACE, st.first);
    if let Ok(NextAt::Item(p)) = next_at(b, st.pos, ctx.dialect, RBRACE, st.first) {
        if let Ok((key_end, name)) = key_text(b, p, ctx.dialect) {
            if let Ok(v) = after_colon(b, key_end, ctx.dialect) {
                member_is_at(b, p, ctx.dialect, key_end, name, v);
                let opts = object_hits(hits, name);
                let inner = member_env(env, opts, hits);
                child_ends_well(b, v, kept(opts), hits, ctx, depth, inner);
                if let Ok(w) = a_child(b, v, kept(opts), hits, ctx, depth, inner) {
                    let next = next_member(st, hits, opts, name, w, v);
                    members_advance(b, next, hits, ctx, depth, env);
                    if some_members(b, st, hits, ctx, depth, env) is Ok {
                        assert(opts[i] is None);
                        kept_fewer(opts, i);
                        mark_stays(b, next, hits, i, ctx, depth, env, from);
                    }
                }
            }
        }
    }
}

/// Two walks of members agree on a demand that they share.
proof fn members_agree(
    b: Seq<u8>,
    st: MemberState,
    at: MemberState,
    hits: Seq<DemandModel>,
    i: int,
    some: Seq<DemandModel>,
    j: int,
    ctx: WalkCtx,
    depth: int,
    deep: int,
    env: Env,
    other: Env,
)
    requires
        0 <= i < hits.len(),
        0 <= j < some.len(),
        hits[i] == some[j],
        0 <= st.pos <= b.len(),
        0 <= depth,
        0 <= deep,
        !st.stopped,
        !at.stopped,
        st.pos == at.pos,
        st.first == at.first,
        st.marks.len() == hits.len(),
        at.marks.len() == some.len(),
        st.marks[i] == at.marks[j],
        goes_as_far(hits, env, some, other),
        some_members(b, st, hits, ctx, depth, env) is Ok,
        some_members(b, at, some, ctx, deep, other) is Ok,
        some_members(b, at, some, ctx, deep, other)->Ok_0.stopped ==> !entered_again(
            b,
            st.pos,
            st.first,
            hits[i],
            ctx,
            some_members(b, at, some, ctx, deep, other)->Ok_0.pos,
            some_members(b, st, hits, ctx, depth, env)->Ok_0.pos,
        ),
    ensures
        ({
            let last = some_members(b, st, hits, ctx, depth, env)->Ok_0;
            let done = some_members(b, at, some, ctx, deep, other)->Ok_0;
            last.marks[i] == done.marks[j] && (last.stopped ==> done.stopped) && done.pos <= last.pos
        }),
    decreases b.len() - st.pos, 8nat,
{
    let h = hits[i];
    members_step(b, st, hits, ctx, depth, env);
    members_step(b, at, some, ctx, deep, other);
    next_at_bounds(b, st.pos, ctx.dialect, RBRACE, st.first);
    if let Ok(NextAt::Item(p)) = next_at(b, st.pos, ctx.dialect, RBRACE, st.first) {
        let (key_end, name) = key_text(b, p, ctx.dialect)->Ok_0;
        let v = after_colon(b, key_end, ctx.dialect)->Ok_0;
        member_is_at(b, p, ctx.dialect, key_end, name, v);
        let opts = object_hits(hits, name);
        let few = object_hits(some, name);
        let inner = member_env(env, opts, hits);
        let lone = member_env(other, few, some);
        assert(opts[i] == few[j]);
        child_ends_well(b, v, kept(opts), hits, ctx, depth, inner);
        child_ends_well(b, v, kept(few), some, ctx, deep, lone);
        let w = a_child(b, v, kept(opts), hits, ctx, depth, inner)->Ok_0;
        let x = a_child(b, v, kept(few), some, ctx, deep, lone)->Ok_0;
        let next = next_member(st, hits, opts, name, w, v);
        let then = next_member(at, some, few, name, x, v);
        match opts[i] {
            None => {
                kept_fewer(opts, i);
                kept_fewer(few, j);
                members_agree(b, next, then, hits, i, some, j, ctx, depth, deep, env, other);
            },
            Some(d) => {
                kept_at_rank(opts, i);
                kept_at_rank(few, j);
                member_goes_as_far(hits, env, some, other, name);
                child_step(b, v, kept(opts), hits, ctx, depth, inner);
                child_step(b, v, kept(few), some, ctx, deep, lone);
                if x.stopped {
                    members_step(b, then, some, ctx, deep, other);
                    members_advance(b, next, hits, ctx, depth, env);
                    let last = some_members(b, st, hits, ctx, depth, env)->Ok_0;
                    if comes_again(b, v, d, ctx, x.end, w.end) {
                        again_shrinks(b, v, d, ctx, x.end, last.pos, w.end);
                    }
                }
                nodes_agree(b, v, kept(opts), rank(opts, i), kept(few), rank(few, j), ctx, depth, deep, inner, lone);
                if x.stopped {
                    if w.stopped {
                        members_step(b, next, hits, ctx, depth, env);
                    } else {
                        mark_stays(b, next, hits, i, ctx, depth, env, x.end);
                    }
                } else {
                    members_agree(b, next, then, hits, i, some, j, ctx, depth, deep, env, other);
                }
            },
        }
    }
}

/// Whether a slice keeps the rows of its elements as they come.
spec fn keeps_rows(h: DemandModel) -> bool {
    is_window(h) && !slice_replays(h)
}

/// What an element loop has kept of its elements for a hit.
spec fn keeps(st: ArrayState, i: int, h: DemandModel) -> bool {
    &&& 0 <= st.idx
    &&& st.spans.len() == st.idx
    &&& keeps_rows(h) ==> holds_rows(st.marks[i], h, st.idx)
}

/// Whether an element loop went on from where another ended.
spec fn goes_on(last: ArrayState, i: int, done: ArrayState, j: int, h: DemandModel) -> bool {
    &&& done.idx <= last.idx
    &&& done.pos <= last.pos
    &&& last.spans.take(done.idx) == done.spans
    &&& keeps_rows(h) ==> grew(done.marks[j], last.marks[i])
}

/// What an element answers a window that keeps its rows.
proof fn window_answer(b: Seq<u8>, p: int, reaching: Seq<DemandModel>, r: int, h: DemandModel, ctx: WalkCtx, depth: int)
    requires
        0 <= r < reaching.len(),
        keeps_rows(h),
        flattened(reaching[r]) == asked(h),
        0 <= p <= b.len(),
        trivia_end(b, p, ctx.dialect) == Ok::<int, Error>(p),
        0 <= depth,
    ensures
        a_node(b, p, reaching, ctx, depth, element_env()) matches Ok(w) ==> answers(w.marks[r], asked(h)),
{
    node_step(b, p, reaching, ctx, depth, element_env());
    if let Ok(w) = a_node(b, p, reaching, ctx, depth, element_env()) {
        let kind = kind_at(b[p], ctx.dialect)->0;
        assert(flat(reaching)[r] == asked(h));
        kind_tells(b, p, kind, flat(reaching), r, ctx, depth, element_env());
    }
}

proof fn step_keeps(
    b: Seq<u8>,
    st: ArrayState,
    hits: Seq<DemandModel>,
    i: int,
    ctx: WalkCtx,
    depth: int,
    p: int,
)
    requires
        0 <= i < hits.len(),
        st.marks.len() == hits.len(),
        keeps(st, i, hits[i]),
        0 <= p <= b.len(),
        trivia_end(b, p, ctx.dialect) == Ok::<int, Error>(p),
        0 <= depth,
        a_child(b, p, kept(array_hits(hits, st.idx)), hits, ctx, depth, element_env()) is Ok,
    ensures
        ({
            let opts = array_hits(hits, st.idx);
            let w = a_child(b, p, kept(opts), hits, ctx, depth, element_env())->Ok_0;
            let next = next_element(st, hits, opts, w, p);
            keeps(next, i, hits[i]) && (keeps_rows(hits[i]) ==> grew(st.marks[i], next.marks[i]))
        }),
{
    let h = hits[i];
    let opts = array_hits(hits, st.idx);
    if keeps_rows(h) {
        kept_at_rank(opts, i);
        let r = rank(opts, i);
        child_step(b, p, kept(opts), hits, ctx, depth, element_env());
        window_answer(b, p, kept(opts), r, h, ctx, depth);
        let w = a_child(b, p, kept(opts), hits, ctx, depth, element_env())->Ok_0;
        window_grows(st.marks[i], h, st.idx, w.marks[r], span(p, w.end));
    }
}

proof fn grew_on(x: MarkModel, y: MarkModel, z: MarkModel)
    requires
        grew(x, y),
        grew(y, z),
    ensures
        grew(x, z),
{
    let n = batch_of(x).cells.len() as int;
    let m = batch_of(y).cells.len() as int;
    assert(batch_of(z).cells.take(n) =~= batch_of(z).cells.take(m).take(n));
}

/// An element loop keeps what it had and goes on.
proof fn elements_on(
    b: Seq<u8>,
    st: ArrayState,
    hits: Seq<DemandModel>,
    i: int,
    ctx: WalkCtx,
    depth: int,
    need: Option<int>,
)
    requires
        0 <= i < hits.len(),
        st.marks.len() == hits.len(),
        keeps(st, i, hits[i]),
        !st.stopped,
        0 <= st.pos <= b.len(),
        0 <= depth,
    ensures
        some_elements(b, st, hits, ctx, depth, need) matches Ok(last) ==> keeps(last, i, hits[i]) && goes_on(
            last,
            i,
            st,
            i,
            hits[i],
        ),
    decreases b.len() - st.pos,
{
    let h = hits[i];
    elements_step(b, st, hits, ctx, depth, need);
    next_at_bounds(b, st.pos, ctx.dialect, RBRACKET, st.idx == 0);
    assert(st.spans.take(st.idx) =~= st.spans);
    if keeps_rows(h) {
        let cells = batch_of(st.marks[i]).cells;
        assert(cells.take(cells.len() as int) =~= cells);
    }
    if !(need is Some && st.idx >= need->0) {
        if let Ok(NextAt::Item(p)) = next_at(b, st.pos, ctx.dialect, RBRACKET, st.idx == 0) {
            item_is_settled(b, st.pos, ctx.dialect, RBRACKET, st.idx == 0);
            let opts = array_hits(hits, st.idx);
            child_ends_well(b, p, kept(opts), hits, ctx, depth, element_env());
            if let Ok(w) = a_child(b, p, kept(opts), hits, ctx, depth, element_env()) {
                step_keeps(b, st, hits, i, ctx, depth, p);
                let next = next_element(st, hits, opts, w, p);
                elements_on(b, next, hits, i, ctx, depth, need);
                if let Ok(last) = some_elements(b, next, hits, ctx, depth, need) {
                    assert(last.spans.take(st.idx) =~= last.spans.take(next.idx).take(st.idx));
                    assert(next.spans.take(st.idx) =~= st.spans);
                    if keeps_rows(h) {
                        grew_on(st.marks[i], next.marks[i], last.marks[i]);
                    }
                }
            }
        }
    }
}

/// Two walks of elements agree on a demand that they share, as far as the second goes.
proof fn elements_agree(
    b: Seq<u8>,
    st: ArrayState,
    at: ArrayState,
    hits: Seq<DemandModel>,
    i: int,
    some: Seq<DemandModel>,
    j: int,
    ctx: WalkCtx,
    depth: int,
    deep: int,
    need: Option<int>,
    least: Option<int>,
)
    requires
        0 <= i < hits.len(),
        0 <= j < some.len(),
        hits[i] == some[j],
        0 <= st.pos <= b.len(),
        0 <= depth,
        0 <= deep,
        !st.stopped,
        !at.stopped,
        st.pos == at.pos,
        st.idx == at.idx,
        st.spans == at.spans,
        st.marks.len() == hits.len(),
        at.marks.len() == some.len(),
        st.marks[i] == at.marks[j],
        keeps(st, i, hits[i]),
        need matches Some(n) ==> (least matches Some(m) && m <= n),
        some_elements(b, st, hits, ctx, depth, need) is Ok,
        some_elements(b, at, some, ctx, deep, least) is Ok,
    ensures
        ({
            let last = some_elements(b, st, hits, ctx, depth, need)->Ok_0;
            let done = some_elements(b, at, some, ctx, deep, least)->Ok_0;
            &&& last.stopped ==> done.stopped
            &&& !done.stopped ==> last.pos == done.pos && last.idx == done.idx && last.spans == done.spans && last.marks[i]
                == done.marks[j]
            &&& done.stopped ==> least is Some && done.idx >= least->0 && goes_on(last, i, done, j, hits[i])
            &&& keeps(last, i, hits[i])
            &&& keeps(done, j, hits[i])
        }),
    decreases b.len() - st.pos, 8nat,
{
    let h = hits[i];
    elements_step(b, st, hits, ctx, depth, need);
    elements_step(b, at, some, ctx, deep, least);
    next_at_bounds(b, st.pos, ctx.dialect, RBRACKET, st.idx == 0);
    if least is Some && at.idx >= least->0 {
        elements_on(b, st, hits, i, ctx, depth, need);
    } else if let Ok(NextAt::Item(p)) = next_at(b, st.pos, ctx.dialect, RBRACKET, st.idx == 0) {
        item_is_settled(b, st.pos, ctx.dialect, RBRACKET, st.idx == 0);
        let opts = array_hits(hits, st.idx);
        let few = array_hits(some, st.idx);
        assert(opts[i] == few[j]);
        child_ends_well(b, p, kept(opts), hits, ctx, depth, element_env());
        child_ends_well(b, p, kept(few), some, ctx, deep, element_env());
        let w = a_child(b, p, kept(opts), hits, ctx, depth, element_env())->Ok_0;
        let x = a_child(b, p, kept(few), some, ctx, deep, element_env())->Ok_0;
        if opts[i] is Some {
            kept_at_rank(opts, i);
            kept_at_rank(few, j);
            child_step(b, p, kept(opts), hits, ctx, depth, element_env());
            child_step(b, p, kept(few), some, ctx, deep, element_env());
            nodes_agree(
                b,
                p,
                kept(opts),
                rank(opts, i),
                kept(few),
                rank(few, j),
                ctx,
                depth,
                deep,
                element_env(),
                element_env(),
            );
        }
        step_keeps(b, st, hits, i, ctx, depth, p);
        elements_agree(
            b,
            next_element(st, hits, opts, w, p),
            next_element(at, some, few, x, p),
            hits,
            i,
            some,
            j,
            ctx,
            depth,
            deep,
            need,
            least,
        );
    }
}

/// Whether an element walked again answers alike at two depths.
#[verifier::opaque]
spec fn replays_alike(b: Seq<u8>, start: int, h: DemandModel, ctx: WalkCtx, depth: int, deep: int, element: bool) -> bool {
    forall|elem: ByteRange|
        #![trigger replay(b, start, elem, h, ctx, depth, element)]
        #![trigger replay(b, start, elem, h, ctx, deep, element)]
        replay(b, start, elem, h, ctx, depth, element) matches Ok(x) ==> (replay(b, start, elem, h, ctx, deep, element) matches Ok(
            y,
        ) ==> x == y)
}

proof fn replay_alike(b: Seq<u8>, start: int, elem: ByteRange, h: DemandModel, ctx: WalkCtx, depth: int, deep: int, element: bool)
    requires
        replays_alike(b, start, h, ctx, depth, deep, element),
        replay(b, start, elem, h, ctx, depth, element) is Ok,
        replay(b, start, elem, h, ctx, deep, element) is Ok,
    ensures
        replay(b, start, elem, h, ctx, depth, element) == replay(b, start, elem, h, ctx, deep, element),
{
    reveal(replays_alike);
}

/// A window walked again reads the spans of its elements alone.
proof fn windows_alike(
    b: Seq<u8>,
    start: int,
    one: Seq<ByteRange>,
    other: Seq<ByteRange>,
    k: int,
    to: int,
    h: DemandModel,
    shape: Shape,
    acc: BatchModel,
    ctx: WalkCtx,
    depth: int,
    deep: int,
)
    requires
        0 <= k,
        to <= one.len() <= other.len(),
        other.take(one.len() as int) == one,
        replays_alike(b, start, h, ctx, depth, deep, true),
    ensures
        replay_window(b, start, one, k, to, h, shape, acc, ctx, deep) matches Ok(x) ==> (replay_window(
            b,
            start,
            other,
            k,
            to,
            h,
            shape,
            acc,
            ctx,
            depth,
        ) matches Ok(y) ==> x == y),
    decreases to - k,
{
    if k < to {
        assert(other.take(one.len() as int)[k] == other[k]);
        if let Ok(mark) = replay(b, start, one[k], h, ctx, deep, true) {
            if replay(b, start, one[k], h, ctx, depth, true) is Ok {
                replay_alike(b, start, one[k], h, ctx, depth, deep, true);
            }
            let next = folded(acc, shape, mark, one[k]);
            windows_alike(b, start, one, other, k + 1, to, h, shape, next, ctx, depth, deep);
        }
    }
}

/// A bounded window is the same at an array's end and where a walk may stop.
proof fn window_ends_alike(
    b: Seq<u8>,
    start: int,
    h: DemandModel,
    last: ArrayState,
    i: int,
    done: ArrayState,
    j: int,
    ctx: WalkCtx,
    depth: int,
    deep: int,
    env: Env,
    other: Env,
)
    requires
        bounded_end(h) matches Some(e) && e <= done.idx,
        goes_on(last, i, done, j, h),
        keeps(last, i, h),
        keeps(done, j, h),
        h matches DemandModel::Slice { range, nested } && replays_alike(b, start, nested_or_whole(nested), ctx, depth, deep, true),
    ensures
        array_mark(b, start, h, last.marks[i], spans_for(h, last.spans), last, ctx, depth, env) matches Ok(x) ==> (array_mark(
            b,
            start,
            h,
            done.marks[j],
            spans_for(h, done.spans),
            done,
            ctx,
            deep,
            other,
        ) matches Ok(y) ==> x == y),
{
    if let DemandModel::Slice { range, nested } = h {
        let from = range.from(done.idx);
        let to = range.to(done.idx);
        if slice_replays(h) {
            let shape = row_shape(h)->0;
            let empty = BatchModel { fields: row_fields(shape), cells: Seq::empty() };
            let d = nested_or_whole(nested);
            if from < to {
                assert(range.from(last.idx) == from && range.to(last.idx) == to);
                windows_alike(b, start, done.spans, last.spans, from, to, d, shape, empty, ctx, depth, deep);
            } else {
                assert(range.from(last.idx) >= range.to(last.idx));
            }
        } else {
            assert(is_window(h));
            same_window(h, done.marks[j], last.marks[i], done.idx, last.idx);
        }
    }
}

/// An element walked again answers alike at two depths.
proof fn replays_agree(b: Seq<u8>, start: int, h: DemandModel, ctx: WalkCtx, depth: int, deep: int, element: bool)
    requires
        0 <= start <= b.len(),
        0 <= depth,
        0 <= deep,
    ensures
        replays_alike(b, start, h, ctx, depth, deep, element),
    decreases b.len() - start, 0nat,
{
    reveal(replays_alike);
    let env = Env { element, may_stop: false, lane: false };
    assert forall|elem: ByteRange|
        #![trigger replay(b, start, elem, h, ctx, depth, element)]
        #![trigger replay(b, start, elem, h, ctx, deep, element)]
        (replay(b, start, elem, h, ctx, depth, element) is Ok && replay(b, start, elem, h, ctx, deep, element) is Ok) implies replay(
        b,
        start,
        elem,
        h,
        ctx,
        depth,
        element,
    ) == replay(b, start, elem, h, ctx, deep, element) by {
        if start < elem.start <= b.len() {
            let one = seq![h];
            let p = elem.start as int;
            assert(a_node(b, p, one, ctx, depth, env) == node(b, p, one, ctx, depth, env) && a_node(b, p, one, ctx, deep, env)
                == node(b, p, one, ctx, deep, env)) by {
                reveal(a_node);
            }
            node_ends_well(b, p, one, ctx, deep, env);
            nodes_agree(b, p, one, 0, one, 0, ctx, depth, deep, env, env);
        }
    }
}

/// Two walks of an array agree on a demand that they share and map or lead into it.
proof fn arrays_agree(
    b: Seq<u8>,
    start: int,
    hits: Seq<DemandModel>,
    i: int,
    answered: Seq<MarkModel>,
    some: Seq<DemandModel>,
    j: int,
    replied: Seq<MarkModel>,
    ctx: WalkCtx,
    depth: int,
    deep: int,
    env: Env,
    other: Env,
)
    requires
        0 <= i < hits.len(),
        0 <= j < some.len(),
        hits[i] == some[j],
        answered.len() == hits.len(),
        replied.len() == some.len(),
        answered[i] == replied[j],
        !flat_row(hits[i]),
        0 <= start < b.len(),
        b[start] == LBRACKET,
        0 <= depth,
        0 <= deep,
        goes_as_far(hits, env, some, other),
    ensures
        agree(
            an_array(b, start, hits, answered, ctx, depth, env),
            i,
            an_array(b, start, some, replied, ctx, deep, other),
            j,
        ),
    decreases b.len() - start, 4nat,
{
    let h = hits[i];
    array_step(b, start, hits, answered, ctx, depth, env);
    array_step(b, start, some, replied, ctx, deep, other);
    if an_array(b, start, hits, answered, ctx, depth, env) is Ok && an_array(b, start, some, replied, ctx, deep, other) is Ok {
        let first = first_element(start, hits, answered);
        let lead = first_element(start, some, replied);
        let need = need_of(hits, env);
        let least = need_of(some, other);
        needs_in_order(hits, env, some, other);
        if keeps_rows(h) {
            let u = crate::laws::windows::unit(asked(h)) as int;
            assert(0 * u == 0) by (nonlinear_arith);
        }
        elements_agree(b, first, lead, hits, i, some, j, ctx, depth + 1, deep + 1, need, least);
        let last = some_elements(b, first, hits, ctx, depth + 1, need)->Ok_0;
        let done = some_elements(b, lead, some, ctx, deep + 1, least)->Ok_0;
        reveal(array_end);
        array_end_at(b, start, hits, hits.len(), i, last, ctx, depth, env);
        array_end_at(b, start, some, some.len(), j, done, ctx, deep, other);
        assert forall|d: DemandModel, element: bool| #[trigger] replays_alike(b, start, d, ctx, depth, deep, element) by {
            replays_agree(b, start, d, ctx, depth, deep, element);
        }
        if done.stopped {
            prefix_is_bound(some);
            assert(bounded_end(some[j]) is Some);
            if let DemandModel::Slice { range, nested } = h {
                assert(replays_alike(b, start, nested_or_whole(nested), ctx, depth, deep, true));
            }
            window_ends_alike(b, start, h, last, i, done, j, ctx, depth, deep, env, other);
        } else {
            marks_alike(b, start, h, last, i, done, j, ctx, depth, deep, env, other);
        }
    }
}

/// A row demand behind an index is answered alike at two depths.
proof fn spines_alike(
    b: Seq<u8>,
    start: int,
    path: Seq<StepModel>,
    inner: DemandModel,
    mark: MarkModel,
    spans: Seq<ByteRange>,
    len: int,
    ctx: WalkCtx,
    depth: int,
    deep: int,
    env: Env,
    other: Env,
)
    requires
        env.element == other.element,
        replays_alike(b, start, inner, ctx, depth, deep, true),
        replays_alike(b, start, inner, ctx, depth, deep, env.element),
    ensures
        index_spine(b, start, path, inner, mark, spans, len, ctx, depth, env) matches Ok(x) ==> (index_spine(
            b,
            start,
            path,
            inner,
            mark,
            spans,
            len,
            ctx,
            deep,
            other,
        ) matches Ok(y) ==> x == y),
{
    if let StepModel::Index(i) = path[0] {
        if let Some(k) = resolved(len, i as int) {
            if k < spans.len() {
                let element = path.len() == 1 || env.element;
                if replay(b, start, spans[k], inner, ctx, depth, element) is Ok && replay(b, start, spans[k], inner, ctx, deep, element) is Ok {
                    replay_alike(b, start, spans[k], inner, ctx, depth, deep, element);
                }
            }
        }
    }
}

/// One hit's mark at an array's end reads the array alone.
proof fn marks_alike(
    b: Seq<u8>,
    start: int,
    h: DemandModel,
    last: ArrayState,
    i: int,
    done: ArrayState,
    j: int,
    ctx: WalkCtx,
    depth: int,
    deep: int,
    env: Env,
    other: Env,
)
    requires
        last.pos == done.pos,
        last.idx == done.idx,
        last.spans == done.spans,
        last.spans.len() == last.idx,
        last.marks[i] == done.marks[j],
        env.element == other.element,
        forall|d: DemandModel, element: bool| #[trigger] replays_alike(b, start, d, ctx, depth, deep, element),
    ensures
        array_mark(b, start, h, last.marks[i], spans_for(h, last.spans), last, ctx, depth, env) matches Ok(x) ==> (array_mark(
            b,
            start,
            h,
            done.marks[j],
            spans_for(h, done.spans),
            done,
            ctx,
            deep,
            other,
        ) matches Ok(y) ==> x == y),
{
    let spans = spans_for(h, last.spans);
    let mark = last.marks[i];
    match h {
        DemandModel::Path { steps, nested } => if mark is Missing && steps.len() > 0 {
            if let StepModel::Index(n) = steps[0] {
                if let Some(k) = resolved(last.idx, n as int) {
                    let d = after_step(steps, nested);
                    assert(replays_alike(b, start, d, ctx, depth, deep, env.element));
                    if k < spans.len() && replay(b, start, spans[k], d, ctx, depth, env.element) is Ok && replay(
                        b,
                        start,
                        spans[k],
                        d,
                        ctx,
                        deep,
                        env.element,
                    ) is Ok {
                        replay_alike(b, start, spans[k], d, ctx, depth, deep, env.element);
                    }
                }
            }
        },
        DemandModel::Slice { range, nested } => if slice_replays(h) {
            let d = nested_or_whole(nested);
            assert(replays_alike(b, start, d, ctx, depth, deep, true));
            let shape = row_shape(h)->0;
            let empty = BatchModel { fields: row_fields(shape), cells: Seq::empty() };
            assert(spans == last.spans);
            assert(spans.take(spans.len() as int) =~= spans);
            windows_alike(b, start, spans, spans, range.from(last.idx), range.to(last.idx), d, shape, empty, ctx, depth, deep);
        },
        DemandModel::Project { path, fields } => if path.len() > 0 {
            let inner = DemandModel::Project { path: path.skip(1), fields };
            assert(replays_alike(b, start, inner, ctx, depth, deep, true));
            assert(replays_alike(b, start, inner, ctx, depth, deep, env.element));
            spines_alike(b, start, path, inner, mark, spans, last.idx, ctx, depth, deep, env, other);
        },
        DemandModel::Filter { path, predicate, project } => if path.len() > 0 {
            let inner = DemandModel::Filter { path: path.skip(1), predicate, project };
            assert(replays_alike(b, start, inner, ctx, depth, deep, true));
            assert(replays_alike(b, start, inner, ctx, depth, deep, env.element));
            spines_alike(b, start, path, inner, mark, spans, last.idx, ctx, depth, deep, env, other);
        },
        _ => {},
    }
}

/// Fewer demands need no more elements.
proof fn needs_in_order(hits: Seq<DemandModel>, env: Env, some: Seq<DemandModel>, other: Env)
    requires
        goes_as_far(hits, env, some, other),
        some.len() > 0,
    ensures
        need_of(hits, env) matches Some(n) ==> (need_of(some, other) matches Some(m) && m <= n),
{
    if let Some(n) = need_of(hits, env) {
        prefix_is_bound(hits);
        assert forall|k: int| 0 <= k < some.len() implies (bounded_end(#[trigger] some[k]) matches Some(e) && e <= n) by {
            assert(hits.contains(some[k]));
            let m = choose|m: int| 0 <= m < hits.len() && hits[m] == some[k];
            assert(bounded_end(hits[m]) is Some);
        }
        prefix_at_most(some, n);
    }
}

proof fn prefix_at_most(some: Seq<DemandModel>, n: int)
    requires
        some.len() > 0,
        forall|k: int| 0 <= k < some.len() ==> (bounded_end(#[trigger] some[k]) matches Some(e) && e <= n),
    ensures
        prefix_window(some) matches Some(m) && m <= n,
    decreases some.len(),
{
    assert(bounded_end(some[some.len() - 1]) is Some);
    if some.len() > 1 {
        let head = some.drop_last();
        assert forall|k: int| 0 <= k < head.len() implies (bounded_end(#[trigger] head[k]) matches Some(e) && e <= n) by {
            assert(head[k] == some[k]);
        }
        prefix_at_most(head, n);
    }
}

/// Two walks of an object agree on a demand that they share and that leads into it.
proof fn objects_agree(
    b: Seq<u8>,
    start: int,
    hits: Seq<DemandModel>,
    i: int,
    answered: Seq<MarkModel>,
    some: Seq<DemandModel>,
    j: int,
    replied: Seq<MarkModel>,
    ctx: WalkCtx,
    depth: int,
    deep: int,
    env: Env,
    other: Env,
)
    requires
        0 <= i < hits.len(),
        0 <= j < some.len(),
        hits[i] == some[j],
        answered.len() == hits.len(),
        replied.len() == some.len(),
        answered[i] == replied[j],
        !above_members(hits[i]),
        0 <= start < b.len(),
        b[start] == LBRACE,
        0 <= depth,
        0 <= deep,
        goes_as_far(hits, env, some, other),
        an_object(b, start, hits, answered, ctx, depth, env) matches Ok(y) ==> (an_object(
            b,
            start,
            some,
            replied,
            ctx,
            deep,
            other,
        ) matches Ok(x) ==> (x.stopped ==> !entered_again(b, start + 1, true, hits[i], ctx, x.end, y.end))),
    ensures
        agree(
            an_object(b, start, hits, answered, ctx, depth, env),
            i,
            an_object(b, start, some, replied, ctx, deep, other),
            j,
        ),
    decreases b.len() - start, 4nat,
{
    object_step(b, start, hits, answered, ctx, depth, env);
    object_step(b, start, some, replied, ctx, deep, other);
    if an_object(b, start, hits, answered, ctx, depth, env) is Ok && an_object(b, start, some, replied, ctx, deep, other)
        is Ok {
        assert(!all_rows(hits)) by {
            assert(!flat_row(hits[i]));
        }
        assert(!all_rows(some)) by {
            assert(!flat_row(some[j]));
        }
        members_agree(
            b,
            first_member(start, answered),
            first_member(start, replied),
            hits,
            i,
            some,
            j,
            ctx,
            depth + 1,
            deep + 1,
            env,
            other,
        );
    }
}

/// What an oracle answers before anything is entered rests on the depth for a count of a
/// container alone, which the container answers.
proof fn words_at_any_depth(b: Seq<u8>, start: int, kind: ValueKind, h: DemandModel, ctx: WalkCtx, depth: int, deep: int)
    ensures
        forall|e: int|
            #[trigger] said(b, start, kind, h, first_word(b, start, kind, h, false, ctx, depth), e, ctx) == said(
                b,
                start,
                kind,
                h,
                first_word(b, start, kind, h, false, ctx, deep),
                e,
                ctx,
            ),
{
    reveal(oracle_mark);
}

/// Two walks of a value of a known kind agree on a demand that they share.
proof fn kinds_agree(
    b: Seq<u8>,
    start: int,
    kind: ValueKind,
    hits: Seq<DemandModel>,
    i: int,
    some: Seq<DemandModel>,
    j: int,
    ctx: WalkCtx,
    depth: int,
    deep: int,
    env: Env,
    other: Env,
)
    requires
        0 <= i < hits.len(),
        0 <= j < some.len(),
        hits[i] == some[j],
        hits[i] matches DemandModel::Path { steps, .. } ==> steps.len() > 0,
        0 <= start < b.len(),
        0 <= depth,
        0 <= deep,
        kind_at(b[start], ctx.dialect) == Some(kind),
        goes_as_far(hits, env, some, other),
        a_kind(b, start, kind, hits, ctx, depth, env) matches Ok(y) ==> (a_kind(b, start, kind, some, ctx, deep, other) matches Ok(
            x,
        ) ==> (x.stopped && kind == ValueKind::Object ==> !entered_again(b, start + 1, true, hits[i], ctx, x.end, y.end))),
    ensures
        agree(
            a_kind(b, start, kind, hits, ctx, depth, env),
            i,
            a_kind(b, start, kind, some, ctx, deep, other),
            j,
        ),
    decreases b.len() - start, 5nat,
{
    let h = hits[i];
    if a_kind(b, start, kind, hits, ctx, depth, env) is Ok && a_kind(b, start, kind, some, ctx, deep, other) is Ok {
        kind_ends_well(b, start, kind, hits, ctx, depth, env);
        kind_ends_well(b, start, kind, some, ctx, deep, other);
        if shallow(h, kind, env) {
            kind_tells(b, start, kind, hits, i, ctx, depth, env);
            kind_tells(b, start, kind, some, j, ctx, deep, other);
            words_at_any_depth(b, start, kind, h, ctx, depth, deep);
        } else {
            kind_step(b, start, kind, hits, ctx, depth, env);
            kind_step(b, start, kind, some, ctx, deep, other);
            oracles_say(b, start, kind, hits, hits.len(), i, enters(hits, kind), ctx, depth);
            oracles_say(b, start, kind, some, some.len(), j, enters(some, kind), ctx, deep);
            let answered = oracles(b, start, kind, hits, hits.len(), enters(hits, kind), ctx, depth)->Ok_0.0;
            let replied = oracles(b, start, kind, some, some.len(), enters(some, kind), ctx, deep)->Ok_0.0;
            assert(needs_container(h));
            assert(enters(hits, kind) && enters(some, kind)) by {
                assert(needs_container(hits[i]) && needs_container(some[j]));
            }
            if kind == ValueKind::Array {
                assert(!one_piece(hits, kind, env) && !one_piece(some, kind, other)) by {
                    if env.element {
                        assert(hits[i] is Path || hits[i] is Collection || hits[i] is Slice);
                        assert(some[j] is Path || some[j] is Collection || some[j] is Slice);
                    }
                }
                let here = beside(hits, env);
                let there = beside(some, other);
                let marks = beside_marks(hits, answered, env);
                let replies = beside_marks(some, replied, other);
                beside_goes_as_far(hits, env, some, other);
                if flat_row(h) {
                    array_tells_rows(b, start, here, i, marks, ctx, depth, env);
                    array_tells_rows(b, start, there, j, replies, ctx, deep, other);
                } else {
                    arrays_agree(b, start, here, i, marks, there, j, replies, ctx, depth, deep, env, other);
                }
            } else {
                objects_agree(b, start, hits, i, answered, some, j, replied, ctx, depth, deep, env, other);
            }
        }
    }
}

proof fn beside_goes_as_far(all: Seq<DemandModel>, env: Env, some: Seq<DemandModel>, other: Env)
    requires
        goes_as_far(all, env, some, other),
    ensures
        goes_as_far(beside(all, env), env, beside(some, other), other),
{
    if env.may_stop {
        assert forall|k: int| 0 <= k < beside(some, other).len() implies beside(all, env).contains(
            #[trigger] beside(some, other)[k],
        ) by {
            assert(all.contains(some[k]));
            let m = choose|m: int| 0 <= m < all.len() && all[m] == some[k];
            assert(beside(all, env)[m] == beside(some, other)[k]);
        }
    }
}

proof fn flattened_leads(d: DemandModel)
    ensures
        flattened(d) matches DemandModel::Path { steps, .. } ==> steps.len() > 0,
        flattened(flattened(d)) == flattened(d),
    decreases d,
{
    match d {
        DemandModel::Path { steps, nested } => if steps.len() == 0 {
            if let Some(inner) = nested {
                flattened_leads(*inner);
            }
        },
        _ => {},
    }
}

/// Two walks of a value agree on a demand that they share.
pub(crate) proof fn nodes_agree(
    b: Seq<u8>,
    pos: int,
    hits: Seq<DemandModel>,
    i: int,
    some: Seq<DemandModel>,
    j: int,
    ctx: WalkCtx,
    depth: int,
    deep: int,
    env: Env,
    other: Env,
)
    requires
        0 <= i < hits.len(),
        0 <= j < some.len(),
        hits[i] == some[j],
        0 <= pos <= b.len(),
        0 <= depth,
        0 <= deep,
        goes_as_far(hits, env, some, other),
        a_node(b, pos, hits, ctx, depth, env) matches Ok(y) ==> (a_node(b, pos, some, ctx, deep, other) matches Ok(x) ==> (
        x.stopped ==> !comes_again(b, pos, hits[i], ctx, x.end, y.end))),
    ensures
        agree(a_node(b, pos, hits, ctx, depth, env), i, a_node(b, pos, some, ctx, deep, other), j),
    decreases b.len() - pos, 6nat,
{
    node_step(b, pos, hits, ctx, depth, env);
    node_step(b, pos, some, ctx, deep, other);
    trivia_end_bounds(b, pos, ctx.dialect);
    if a_node(b, pos, hits, ctx, depth, env) is Ok && a_node(b, pos, some, ctx, deep, other) is Ok {
        let start = trivia_end(b, pos, ctx.dialect)->Ok_0;
        let kind = kind_at(b[start], ctx.dialect)->0;
        flat_goes_as_far(hits, env, some, other);
        flattened_leads(hits[i]);
        kinds_agree(b, start, kind, flat(hits), i, flat(some), j, ctx, depth, deep, env, other);
    }
}

} // verus!
