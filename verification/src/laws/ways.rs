//! The array that a plan cuts is the array that a scan reads.

use vstd::prelude::*;

use crate::ascii::{LBRACE, LBRACKET, RBRACE, RBRACKET};
use crate::demand::{flattened, DemandModel, OracleModel, StepModel};
use crate::error::Error;
use crate::laws::ends::{child_ends_well, member_is_at, node_ends_well, reach};
use crate::laws::folds::{array_adds_up, count_is_items, folds, items_from, pieces};
use crate::laws::levels::closes_at;
use crate::laws::places::{keys_read, last_value, place, reach_closes, way, way_ends, way_takes_element, way_takes_last};
use crate::laws::shallow::{array_end_at, kind_tells, oracles_say, prefix_is_bound};
use crate::laws::stops::{all_lead, leads, only_bounded_windows_stop_a_walk};
use crate::laws::strict::item_is_settled;
use crate::laws::walks::{
    a_child, a_kind, a_node, array_end, array_step, child_step, elements_step, first_element, first_member, kind_step,
    members_step, need_of, node_step, object_step, one_piece, some_elements, some_members,
};
use crate::lex::key_text;
use crate::lex::skip::{after_colon, next_at, next_at_bounds, NextAt};
use crate::lex::ws::trivia_end;
use crate::shard::path::{array_path, leads_rows};
use crate::shard::window::{on_array, shard_of, Shard};
use crate::value::ValueKind;
use crate::walk::marks::{row_shape, MarkModel};
use crate::walk::model::{
    all_rows, array_hits, beside, beside_marks, bounded_end, element_env, enter_array, enter_object, enters, flat,
    flat_row, kept, kind_at, member_env, needs_container, next_element, next_member, object_hits, oracles, rank,
    row_mark, takes_row, ArrayState, Env, MemberState, WalkCtx,
};

verus! {

/// Whether a demand is planned over the array that some steps lead to.
pub open spec fn planned(h: DemandModel, rest: Seq<StepModel>) -> bool {
    array_path(h) == Some(rest) && shard_of(h) != Shard::Serial
}

/// Whether demands are planned over one array.
pub open spec fn all_planned(hits: Seq<DemandModel>, rest: Seq<StepModel>) -> bool {
    hits.len() > 0 && forall|k: int| 0 <= k < hits.len() ==> planned(#[trigger] hits[k], rest)
}

/// What the array at `start` answers a demand that is planned over it.
pub open spec fn told(b: Seq<u8>, start: int, d: DemandModel, ctx: WalkCtx) -> MarkModel {
    let all = items_from(b, start + 1, ctx, true);
    if shard_of(d) == Shard::Sum {
        MarkModel::Count(all.len() as int)
    } else {
        row_mark(on_array(d), pieces(b, all, on_array(d), ctx))
    }
}

/// Whether no demand takes the array that its steps come to next for one row.
pub(crate) open spec fn maps_on(hits: Seq<DemandModel>, rest: Seq<StepModel>, env: Env) -> bool {
    env.element && (rest.len() == 0 || rest[0] is Index) ==> forall|k: int|
        0 <= k < hits.len() ==> !takes_row(flattened(#[trigger] hits[k]))
}

/// A demand behind a key.
proof fn planned_key(h: DemandModel, rest: Seq<StepModel>, name: Seq<u8>, key: Seq<u8>)
    requires
        planned(h, rest),
        rest.len() > 0,
        rest[0] == StepModel::Key(name),
    ensures
        flattened(h) == h,
        needs_container(h),
        !flat_row(h),
        (enter_object(h, key) is Some) == (key == name),
        enter_object(h, key) matches Some(d) ==> planned(d, rest.skip(1)) && on_array(d) == on_array(h) && shard_of(d) == shard_of(h),
{
    reveal_with_fuel(flattened, 2);
    let next = rest.skip(1);
    assert(next.len() > 0 ==> next.last() == rest.last());
    assert(leads_rows(rest) ==> leads_rows(next)) by {
        if leads_rows(rest) {
            assert forall|i: int| 0 <= i < next.len() - 1 implies !(#[trigger] next[i] is Index && next[i + 1] is Index) by {
                assert(!(rest[i + 1] is Index && rest[i + 2] is Index));
            }
        }
    }
    if let Some(d) = enter_object(h, key) {
        nested_is_planned(h, rest);
        if next.len() == 0 {
            assert(next =~= Seq::empty());
        }
    }
}

/// What stands behind all the steps of a planned path.
proof fn nested_is_planned(h: DemandModel, rest: Seq<StepModel>)
    requires
        planned(h, rest),
    ensures
        h matches DemandModel::Path { steps, nested } ==> (nested matches Some(inner) && planned(*inner, Seq::empty()) && on_array(
            *inner,
        ) == *inner && shard_of(*inner) == shard_of(h) && flattened(*inner) == *inner),
{
    reveal_with_fuel(flattened, 2);
    if let DemandModel::Path { steps, nested } = h {
        let inner = nested->0;
        match *inner {
            DemandModel::Project { path, fields } => {
                assert(path =~= Seq::empty());
            },
            DemandModel::Filter { path, predicate, project } => {
                assert(path =~= Seq::empty());
            },
            _ => {},
        }
    }
}

/// A demand behind an index.
proof fn planned_index(h: DemandModel, rest: Seq<StepModel>, index: i64, idx: int)
    requires
        planned(h, rest),
        rest.len() > 0,
        rest[0] == StepModel::Index(index),
    ensures
        flattened(h) == h,
        needs_container(h),
        !flat_row(h),
        row_shape(h) is None,
        bounded_end(h) is None,
        (enter_array(h, idx) is Some) == (idx == index),
        enter_array(h, idx) matches Some(d) ==> planned(d, rest.skip(1)) && on_array(d) == on_array(h) && shard_of(d) == shard_of(h),
        enter_array(h, idx) matches Some(d) ==> (rest.len() == 1 || rest[1] is Index ==> !takes_row(flattened(d))),
{
    reveal_with_fuel(flattened, 2);
    let next = rest.skip(1);
    assert(next.len() > 0 ==> next.last() == rest.last());
    assert(leads_rows(rest) ==> leads_rows(next)) by {
        if leads_rows(rest) {
            assert forall|i: int| 0 <= i < next.len() - 1 implies !(#[trigger] next[i] is Index && next[i + 1] is Index) by {
                assert(!(rest[i + 1] is Index && rest[i + 2] is Index));
            }
        }
    }
    if let Some(d) = enter_array(h, idx) {
        nested_is_planned(h, rest);
        if next.len() == 0 {
            assert(next =~= Seq::empty());
            assert(rest.last() == rest[0]);
        } else {
            assert(leads_rows(rest) ==> !(rest[0] is Index && rest[1] is Index));
        }
    }
}

/// A planned demand asks for no window.
proof fn planned_is_no_window(h: DemandModel, rest: Seq<StepModel>, keys: Seq<Seq<u8>>)
    requires
        planned(h, rest),
    ensures
        !leads(flattened(h), keys),
    decreases keys.len(),
{
    reveal_with_fuel(flattened, 2);
    nested_is_planned(h, rest);
    if keys.len() > 0 && rest.len() > 0 {
        if let StepModel::Key(name) = rest[0] {
            planned_key(h, rest, name, keys[0]);
            if let Some(d) = enter_object(h, keys[0]) {
                planned_is_no_window(d, rest.skip(1), keys.skip(1));
            }
        }
    }
}

/// Nothing stops a walk for planned demands.
pub(crate) proof fn planned_goes_on(b: Seq<u8>, pos: int, hits: Seq<DemandModel>, rest: Seq<StepModel>, ctx: WalkCtx, depth: int, env: Env)
    requires
        0 <= pos <= b.len(),
        0 <= depth,
        all_planned(hits, rest),
        a_node(b, pos, hits, ctx, depth, env) is Ok,
    ensures
        !a_node(b, pos, hits, ctx, depth, env)->Ok_0.stopped,
{
    reveal(a_node);
    if a_node(b, pos, hits, ctx, depth, env)->Ok_0.stopped {
        only_bounded_windows_stop_a_walk(b, pos, hits, ctx, depth, env);
        let keys = choose|keys: Seq<Seq<u8>>| all_lead(hits, keys);
        assert(planned(hits[0], rest));
        planned_is_no_window(hits[0], rest, keys);
    }
}

/// Where every hit enters, each keeps its place.
proof fn all_ranked(opts: Seq<Option<DemandModel>>)
    requires
        forall|k: int| 0 <= k < opts.len() ==> (#[trigger] opts[k]) is Some,
    ensures
        kept(opts).len() == opts.len(),
        forall|k: int| 0 <= k < opts.len() ==> (#[trigger] kept(opts)[k]) == opts[k]->0,
        forall|k: int| 0 <= k < opts.len() ==> #[trigger] rank(opts, k) == k,
    decreases opts.len(),
{
    if opts.len() > 0 {
        let head = opts.drop_last();
        assert forall|k: int| 0 <= k < head.len() implies (#[trigger] head[k]) is Some by {
            assert(opts[k] is Some);
        }
        all_ranked(head);
        assert(opts[opts.len() - 1] is Some);
        assert forall|k: int| 0 <= k < opts.len() implies (#[trigger] kept(opts)[k]) == opts[k]->0 by {
            if k < opts.len() - 1 {
                assert(kept(head)[k] == head[k]->0);
            }
        }
        assert forall|k: int| 0 <= k < opts.len() implies #[trigger] rank(opts, k) == k by {
            if k < opts.len() - 1 {
                assert(head.take(k) =~= opts.take(k));
                assert(rank(head, k) == k);
            } else {
                assert(opts.take(k) =~= head);
            }
        }
    }
}

/// Where no hit enters, none is kept.
proof fn none_kept(opts: Seq<Option<DemandModel>>)
    requires
        forall|k: int| 0 <= k < opts.len() ==> (#[trigger] opts[k]) is None,
    ensures
        kept(opts).len() == 0,
    decreases opts.len(),
{
    if opts.len() > 0 {
        assert(opts[opts.len() - 1] is None);
        assert forall|k: int| 0 <= k < opts.drop_last().len() implies (#[trigger] opts.drop_last()[k]) is None by {
            assert(opts[k] is None);
        }
        none_kept(opts.drop_last());
    }
}

/// What is found later takes the place of what was found.
proof fn last_of(b: Seq<u8>, pos: int, first: bool, name: Seq<u8>, found: Option<int>, ctx: WalkCtx)
    ensures
        last_value(b, pos, ctx, first, name, found) == (match last_value(b, pos, ctx, first, name, None) {
            Some(v) => Some(v),
            None => found,
        }),
    decreases b.len() - pos,
{
    if let Ok(NextAt::Item(p)) = next_at(b, pos, ctx.dialect, RBRACE, first) {
        if let Ok((key_end, key)) = key_text(b, p, ctx.dialect) {
            if let Ok(v) = after_colon(b, key_end, ctx.dialect) {
                if let Ok(e) = reach(b, v, ctx) {
                    if pos < e <= b.len() {
                        if key == name {
                            last_of(b, e, false, name, Some(v), ctx);
                        } else {
                            last_of(b, e, false, name, found, ctx);
                        }
                    }
                }
            }
        }
    }
}

/// The place of a member's value that every hit enters.
spec fn below_key(env: Env) -> Env {
    Env { element: false, may_stop: env.may_stop, lane: false }
}

/// A member loop whose hits all enter one name leaves what its last value answers.
proof fn members_take(b: Seq<u8>, st: MemberState, hits: Seq<DemandModel>, name: Seq<u8>, ctx: WalkCtx, depth: int, env: Env)
    requires
        hits.len() > 0,
        forall|k: int, key: Seq<u8>| 0 <= k < hits.len() ==> (#[trigger] enter_object(hits[k], key) is Some) == (key == name),
        st.marks.len() == hits.len(),
        !st.stopped,
        0 <= st.pos <= b.len(),
        0 <= depth,
        some_members(b, st, hits, ctx, depth, env) is Ok,
        !some_members(b, st, hits, ctx, depth, env)->Ok_0.stopped,
    ensures
        keys_read(b, st.pos, ctx, st.first),
        ({
            let last = some_members(b, st, hits, ctx, depth, env)->Ok_0;
            match last_value(b, st.pos, ctx, st.first, name, None) {
                Some(v) => st.pos < v <= b.len() && a_node(b, v, kept(object_hits(hits, name)), ctx, depth, below_key(env)) is Ok && last.marks
                    == a_node(b, v, kept(object_hits(hits, name)), ctx, depth, below_key(env))->Ok_0.marks,
                None => last.marks == st.marks,
            }
        }),
    decreases b.len() - st.pos,
{
    members_step(b, st, hits, ctx, depth, env);
    next_at_bounds(b, st.pos, ctx.dialect, RBRACE, st.first);
    if let Ok(NextAt::Item(p)) = next_at(b, st.pos, ctx.dialect, RBRACE, st.first) {
        let (key_end, key) = key_text(b, p, ctx.dialect)->Ok_0;
        let v = after_colon(b, key_end, ctx.dialect)->Ok_0;
        member_is_at(b, p, ctx.dialect, key_end, key, v);
        let opts = object_hits(hits, key);
        let inner = member_env(env, opts, hits);
        child_ends_well(b, v, kept(opts), hits, ctx, depth, inner);
        let w = a_child(b, v, kept(opts), hits, ctx, depth, inner)->Ok_0;
        let next = next_member(st, hits, opts, key, w, v);
        if w.stopped {
            members_step(b, next, hits, ctx, depth, env);
        }
        assert forall|k: int| 0 <= k < opts.len() implies (#[trigger] opts[k] is Some) == (key == name) by {
            assert(opts[k] == enter_object(hits[k], key));
        }
        members_take(b, next, hits, name, ctx, depth, env);
        if key == name {
            all_ranked(opts);
            child_step(b, v, kept(opts), hits, ctx, depth, inner);
            assert(inner == below_key(env));
            assert(next.marks =~= w.marks);
            last_of(b, w.end, false, name, Some(v), ctx);
        } else {
            none_kept(opts);
            assert(next.marks =~= st.marks);
        }
    }
}

/// An element loop whose hits all enter one index leaves what that element answers.
proof fn elements_take(b: Seq<u8>, st: ArrayState, hits: Seq<DemandModel>, index: int, ctx: WalkCtx, depth: int)
    requires
        hits.len() > 0,
        forall|k: int, idx: int| 0 <= k < hits.len() ==> (#[trigger] enter_array(hits[k], idx) is Some) == (idx == index),
        forall|k: int| 0 <= k < hits.len() ==> row_shape(#[trigger] hits[k]) is None,
        st.marks.len() == hits.len(),
        0 <= st.pos <= b.len(),
        0 <= st.idx,
        0 <= depth,
        some_elements(b, st, hits, ctx, depth, None) is Ok,
    ensures
        ({
            let last = some_elements(b, st, hits, ctx, depth, None)->Ok_0;
            let all = items_from(b, st.pos, ctx, st.idx == 0);
            let inner = kept(array_hits(hits, index));
            if st.idx <= index < st.idx + all.len() {
                &&& st.pos <= all[index - st.idx] < b.len()
                &&& a_node(b, all[index - st.idx], inner, ctx, depth, element_env()) is Ok
                &&& last.marks == a_node(b, all[index - st.idx], inner, ctx, depth, element_env())->Ok_0.marks
            } else {
                last.marks == st.marks
            }
        }),
    decreases b.len() - st.pos,
{
    elements_step(b, st, hits, ctx, depth, None);
    next_at_bounds(b, st.pos, ctx.dialect, RBRACKET, st.idx == 0);
    if let Ok(NextAt::Item(p)) = next_at(b, st.pos, ctx.dialect, RBRACKET, st.idx == 0) {
        item_is_settled(b, st.pos, ctx.dialect, RBRACKET, st.idx == 0);
        let opts = array_hits(hits, st.idx);
        child_ends_well(b, p, kept(opts), hits, ctx, depth, element_env());
        let w = a_child(b, p, kept(opts), hits, ctx, depth, element_env())->Ok_0;
        let next = next_element(st, hits, opts, w, p);
        assert forall|k: int| 0 <= k < opts.len() implies (#[trigger] opts[k] is Some) == (st.idx == index) by {
            assert(opts[k] == enter_array(hits[k], st.idx));
        }
        elements_take(b, next, hits, index, ctx, depth);
        let rest = items_from(b, w.end, ctx, false);
        let all = items_from(b, st.pos, ctx, st.idx == 0);
        assert(all == seq![p] + rest);
        if st.idx == index {
            all_ranked(opts);
            child_step(b, p, kept(opts), hits, ctx, depth, element_env());
            assert forall|k: int| 0 <= k < hits.len() implies next.marks[k] == w.marks[k] by {
                assert(row_shape(hits[k]) is None);
                assert(opts[k] is Some);
            }
            assert(next.marks =~= w.marks);
        } else {
            none_kept(opts);
            assert forall|k: int| 0 <= k < hits.len() implies next.marks[k] == st.marks[k] by {
                assert(row_shape(hits[k]) is None);
                assert(opts[k] is None);
            }
            assert(next.marks =~= st.marks);
            if st.idx < index < st.idx + all.len() {
                assert(all[index - st.idx] == rest[index - next.idx]);
            }
        }
    }
}

/// Whether a walk reads the array at `start`, and answers each planned demand from it.
pub(crate) open spec fn reads_array(b: Seq<u8>, start: int, hits: Seq<DemandModel>, marks: Seq<MarkModel>, ctx: WalkCtx) -> bool {
    &&& 0 <= start < b.len()
    &&& b[start] == LBRACKET
    &&& closes_at(b, start + 1, ctx, true) is Some
    &&& forall|k: int| 0 <= k < hits.len() && folds(#[trigger] hits[k]) ==> marks[k] == told(b, start, hits[k], ctx)
}

/// A demand that is planned over an array, at that array.
proof fn planned_here(h: DemandModel)
    requires
        planned(h, Seq::empty()),
    ensures
        flattened(h) == on_array(h),
        shard_of(h) == Shard::Sum ==> on_array(h) == DemandModel::Oracle(OracleModel::Count),
        on_array(h) is Collection || on_array(h) == DemandModel::Oracle(OracleModel::Count) || flat_row(on_array(h)),
{
    reveal_with_fuel(flattened, 2);
    nested_is_planned(h, Seq::empty());
    match h {
        DemandModel::Project { path, fields } => {
            assert(path =~= Seq::empty());
        },
        DemandModel::Filter { path, predicate, project } => {
            assert(path =~= Seq::empty());
        },
        _ => {},
    }
}

/// What an array answers one demand that is planned over it.
proof fn array_is_told(b: Seq<u8>, start: int, hits: Seq<DemandModel>, k: int, ctx: WalkCtx, depth: int, env: Env)
    requires
        0 <= start < b.len(),
        b[start] == LBRACKET,
        0 <= k < hits.len(),
        folds(hits[k]),
        planned(hits[k], Seq::empty()),
        env.element ==> !takes_row(flattened(hits[k])),
        0 <= depth,
        a_kind(b, start, ValueKind::Array, flat(hits), ctx, depth, env) is Ok,
    ensures
        a_kind(b, start, ValueKind::Array, flat(hits), ctx, depth, env)->Ok_0.marks[k] == told(b, start, hits[k], ctx),
{
    let flats = flat(hits);
    let g = flats[k];
    let kind = ValueKind::Array;
    planned_here(hits[k]);
    assert(kind_at(b[start], ctx.dialect) == Some(kind));
    if g is Oracle {
        kind_tells(b, start, kind, flats, k, ctx, depth, env);
        count_is_items(b, start + 1, ctx, 0);
    } else {
        kind_step(b, start, kind, flats, ctx, depth, env);
        oracles_say(b, start, kind, flats, flats.len(), k, enters(flats, kind), ctx, depth);
        let answered = oracles(b, start, kind, flats, flats.len(), enters(flats, kind), ctx, depth)->Ok_0.0;
        assert(enters(flats, kind)) by {
            assert(needs_container(flats[k]));
        }
        assert(!one_piece(flats, kind, env)) by {
            if env.element {
                assert(flats[k] is Collection);
            }
        }
        let here = beside(flats, env);
        assert(here[k] == g);
        array_adds_up(b, start, here, k, beside_marks(flats, answered, env), ctx, depth, env);
    }
}

/// At the end of its steps a walk reads the array.
proof fn way_end_is_read(b: Seq<u8>, start: int, hits: Seq<DemandModel>, ctx: WalkCtx, depth: int, env: Env)
    requires
        0 <= start < b.len() <= usize::MAX,
        b[start] == LBRACKET,
        trivia_end(b, start, ctx.dialect) == Ok::<int, Error>(start),
        all_planned(hits, Seq::empty()),
        maps_on(hits, Seq::empty(), env),
        0 <= depth,
        a_node(b, start, hits, ctx, depth, env) is Ok,
    ensures
        reads_array(b, start, hits, a_node(b, start, hits, ctx, depth, env)->Ok_0.marks, ctx),
{
    node_step(b, start, hits, ctx, depth, env);
    node_ends_well(b, start, hits, ctx, depth, env);
    planned_goes_on(b, start, hits, Seq::empty(), ctx, depth, env);
    reach_closes(b, start, ctx);
    let w = a_node(b, start, hits, ctx, depth, env)->Ok_0;
    assert forall|k: int| 0 <= k < hits.len() && folds(#[trigger] hits[k]) implies w.marks[k] == told(b, start, hits[k], ctx) by {
        assert(planned(hits[k], Seq::empty()));
        array_is_told(b, start, hits, k, ctx, depth, env);
    }
}

/// What the member of a name answers is what its object answers.
proof fn key_is_read(
    b: Seq<u8>,
    pos: int,
    hits: Seq<DemandModel>,
    rest: Seq<StepModel>,
    name: Seq<u8>,
    ctx: WalkCtx,
    depth: int,
    env: Env,
)
    requires
        0 <= pos < b.len(),
        b[pos] == LBRACE,
        trivia_end(b, pos, ctx.dialect) == Ok::<int, Error>(pos),
        all_planned(hits, rest),
        rest.len() > 0,
        rest[0] == StepModel::Key(name),
        0 <= depth,
        a_node(b, pos, hits, ctx, depth, env) is Ok,
    ensures
        keys_read(b, pos + 1, ctx, true),
        all_planned(kept(object_hits(hits, name)), rest.skip(1)),
        kept(object_hits(hits, name)).len() == hits.len(),
        forall|k: int|
            0 <= k < hits.len() ==> on_array(#[trigger] kept(object_hits(hits, name))[k]) == on_array(hits[k]) && shard_of(
                kept(object_hits(hits, name))[k],
            ) == shard_of(hits[k]),
        last_value(b, pos + 1, ctx, true, name, None) matches Some(v) ==> ({
            let x = a_node(b, v, kept(object_hits(hits, name)), ctx, depth + 1, below_key(env));
            &&& pos < v <= b.len()
            &&& x is Ok
            &&& forall|k: int|
                0 <= k < hits.len() && !(#[trigger] x->Ok_0.marks[k] is Missing) ==> a_node(b, pos, hits, ctx, depth, env)->Ok_0.marks[k]
                    == x->Ok_0.marks[k]
        }),
{
    assert forall|k: int, key: Seq<u8>| 0 <= k < hits.len() implies (#[trigger] enter_object(hits[k], key) is Some) == (key
        == name) by {
        assert(planned(hits[k], rest));
        planned_key(hits[k], rest, name, key);
    }
    let opts = object_hits(hits, name);
    assert forall|k: int| 0 <= k < opts.len() implies (#[trigger] opts[k]) is Some by {
        assert(enter_object(hits[k], name) is Some);
    }
    all_ranked(opts);
    let inner = kept(opts);
    assert forall|k: int| 0 <= k < hits.len() implies planned(#[trigger] inner[k], rest.skip(1)) && on_array(inner[k])
        == on_array(hits[k]) && shard_of(inner[k]) == shard_of(hits[k]) by {
        assert(planned(hits[k], rest));
        planned_key(hits[k], rest, name, name);
    }
    assert(flat(hits) =~= hits) by {
        assert forall|k: int| 0 <= k < hits.len() implies flat(hits)[k] == hits[k] by {
            assert(planned(hits[k], rest));
            planned_key(hits[k], rest, name, name);
        }
    }
    node_step(b, pos, hits, ctx, depth, env);
    planned_goes_on(b, pos, hits, rest, ctx, depth, env);
    let kind = ValueKind::Object;
    assert(kind_at(b[pos], ctx.dialect) == Some(kind));
    kind_step(b, pos, kind, hits, ctx, depth, env);
    assert(planned(hits[0], rest));
    planned_key(hits[0], rest, name, name);
    assert(enters(hits, kind)) by {
        assert(needs_container(hits[0]));
    }
    assert(!all_rows(hits)) by {
        assert(!flat_row(hits[0]));
    }
    oracles_say(b, pos, kind, hits, hits.len(), 0, enters(hits, kind), ctx, depth);
    let answered = oracles(b, pos, kind, hits, hits.len(), enters(hits, kind), ctx, depth)->Ok_0.0;
    object_step(b, pos, hits, answered, ctx, depth, env);
    members_take(b, first_member(pos, answered), hits, name, ctx, depth + 1, env);
    let w = a_node(b, pos, hits, ctx, depth, env)->Ok_0;
    if let Some(v) = last_value(b, pos + 1, ctx, true, name, None) {
        let x = a_node(b, v, inner, ctx, depth + 1, below_key(env))->Ok_0;
        assert forall|k: int| 0 <= k < hits.len() && !(#[trigger] x.marks[k] is Missing) implies w.marks[k] == x.marks[k] by {
            assert(planned(hits[k], rest));
            planned_key(hits[k], rest, name, name);
        }
    }
}

/// What the element of an index answers is what its array answers.
proof fn index_is_read(
    b: Seq<u8>,
    pos: int,
    hits: Seq<DemandModel>,
    rest: Seq<StepModel>,
    index: i64,
    ctx: WalkCtx,
    depth: int,
    env: Env,
)
    requires
        0 <= pos < b.len(),
        b[pos] == LBRACKET,
        trivia_end(b, pos, ctx.dialect) == Ok::<int, Error>(pos),
        all_planned(hits, rest),
        maps_on(hits, rest, env),
        rest.len() > 0,
        rest[0] == StepModel::Index(index),
        0 <= index < items_from(b, pos + 1, ctx, true).len(),
        0 <= depth,
        a_node(b, pos, hits, ctx, depth, env) is Ok,
    ensures
        ({
            let inner = kept(array_hits(hits, index as int));
            let q = items_from(b, pos + 1, ctx, true)[index as int];
            let x = a_node(b, q, inner, ctx, depth + 1, element_env());
            &&& all_planned(inner, rest.skip(1))
            &&& maps_on(inner, rest.skip(1), element_env())
            &&& inner.len() == hits.len()
            &&& forall|k: int|
                0 <= k < hits.len() ==> on_array(#[trigger] inner[k]) == on_array(hits[k]) && shard_of(inner[k]) == shard_of(hits[k])
            &&& pos < q < b.len()
            &&& x is Ok
            &&& forall|k: int|
                0 <= k < hits.len() && !(#[trigger] x->Ok_0.marks[k] is Missing || x->Ok_0.marks[k] is Mismatch) ==> a_node(
                    b,
                    pos,
                    hits,
                    ctx,
                    depth,
                    env,
                )->Ok_0.marks[k] == x->Ok_0.marks[k]
        }),
{
    assert forall|k: int, idx: int| 0 <= k < hits.len() implies (#[trigger] enter_array(hits[k], idx) is Some) == (idx
        == index) by {
        assert(planned(hits[k], rest));
        planned_index(hits[k], rest, index, idx);
    }
    assert forall|k: int| 0 <= k < hits.len() implies row_shape(#[trigger] hits[k]) is None by {
        assert(planned(hits[k], rest));
        planned_index(hits[k], rest, index, index as int);
    }
    let opts = array_hits(hits, index as int);
    assert forall|k: int| 0 <= k < opts.len() implies (#[trigger] opts[k]) is Some by {
        assert(enter_array(hits[k], index as int) is Some);
    }
    all_ranked(opts);
    let inner = kept(opts);
    let next = rest.skip(1);
    assert forall|k: int| 0 <= k < hits.len() implies planned(#[trigger] inner[k], next) && on_array(inner[k]) == on_array(
        hits[k],
    ) && shard_of(inner[k]) == shard_of(hits[k]) && (next.len() == 0 || next[0] is Index ==> !takes_row(flattened(inner[k]))) by {
        assert(planned(hits[k], rest));
        planned_index(hits[k], rest, index, index as int);
    }
    assert(flat(hits) =~= hits) by {
        assert forall|k: int| 0 <= k < hits.len() implies flat(hits)[k] == hits[k] by {
            assert(planned(hits[k], rest));
            planned_index(hits[k], rest, index, index as int);
        }
    }
    node_step(b, pos, hits, ctx, depth, env);
    let kind = ValueKind::Array;
    assert(kind_at(b[pos], ctx.dialect) == Some(kind));
    kind_step(b, pos, kind, hits, ctx, depth, env);
    assert(planned(hits[0], rest));
    planned_index(hits[0], rest, index, index as int);
    assert(enters(hits, kind)) by {
        assert(needs_container(hits[0]));
    }
    assert(!all_rows(hits)) by {
        assert(!flat_row(hits[0]));
    }
    assert forall|k: int| 0 <= k < hits.len() implies !(env.element && takes_row(#[trigger] hits[k])) by {
        assert(planned(hits[k], rest));
        planned_index(hits[k], rest, index, index as int);
        assert(!(env.element && takes_row(flattened(hits[k]))));
    }
    assert(!one_piece(hits, kind, env)) by {
        if env.element {
            assert(!takes_row(hits[0]));
            assert(hits[0] is Path);
        }
    }
    oracles_say(b, pos, kind, hits, hits.len(), 0, enters(hits, kind), ctx, depth);
    let answered = oracles(b, pos, kind, hits, hits.len(), enters(hits, kind), ctx, depth)->Ok_0.0;
    assert(beside(hits, env) =~= hits) by {
        assert forall|k: int| 0 <= k < hits.len() implies beside(hits, env)[k] == hits[k] by {
            assert(!(env.element && takes_row(hits[k])));
        }
    }
    let marks = beside_marks(hits, answered, env);
    array_step(b, pos, hits, marks, ctx, depth, env);
    prefix_is_bound(hits);
    assert(need_of(hits, env) is None) by {
        assert(bounded_end(hits[0]) is None);
    }
    let first = first_element(pos, hits, marks);
    elements_take(b, first, hits, index as int, ctx, depth + 1);
    reveal(array_end);
    let st = some_elements(b, first, hits, ctx, depth + 1, None)->Ok_0;
    let w = a_node(b, pos, hits, ctx, depth, env)->Ok_0;
    let q = items_from(b, pos + 1, ctx, true)[index as int];
    let x = a_node(b, q, inner, ctx, depth + 1, element_env())->Ok_0;
    assert forall|k: int| 0 <= k < hits.len() && !(#[trigger] x.marks[k] is Missing || x.marks[k] is Mismatch) implies w.marks[k]
        == x.marks[k] by {
        array_end_at(b, pos, hits, hits.len(), k, st, ctx, depth, env);
        assert(planned(hits[k], rest));
    }
}

/// A walk for planned demands reads the array that their way leads to, and answers from it.
pub(crate) proof fn way_is_read(
    b: Seq<u8>,
    pos: int,
    hits: Seq<DemandModel>,
    steps: Seq<StepModel>,
    i: int,
    last: bool,
    start: int,
    ctx: WalkCtx,
    depth: int,
    env: Env,
)
    requires
        0 <= pos < b.len() <= usize::MAX,
        0 <= i <= steps.len(),
        trivia_end(b, pos, ctx.dialect) == Ok::<int, Error>(pos),
        all_planned(hits, steps.skip(i)),
        maps_on(hits, steps.skip(i), env),
        way(b, pos, steps, i, last, start, ctx),
        0 <= depth,
        a_node(b, pos, hits, ctx, depth, env) is Ok,
    ensures
        place(b, pos, steps.skip(i), ctx) == Some(start),
        reads_array(b, start, hits, a_node(b, pos, hits, ctx, depth, env)->Ok_0.marks, ctx),
    decreases steps.len() - i,
{
    let rest = steps.skip(i);
    node_ends_well(b, pos, hits, ctx, depth, env);
    planned_goes_on(b, pos, hits, rest, ctx, depth, env);
    if i == steps.len() {
        way_ends(b, pos, steps, last, start, ctx);
        assert(rest =~= Seq::empty());
        way_end_is_read(b, pos, hits, ctx, depth, env);
    } else {
        assert(rest.skip(1) =~= steps.skip(i + 1));
        assert(rest[0] == steps[i]);
        match steps[i] {
            StepModel::Key(name) => {
                if b[pos] == LBRACE {
                    key_is_read(b, pos, hits, rest, name, ctx, depth, env);
                }
                let v = way_takes_last(b, pos, steps, i, last, start, name, ctx);
                let inner = kept(object_hits(hits, name));
                way_is_read(b, v, inner, steps, i + 1, last, start, ctx, depth + 1, below_key(env));
                let x = a_node(b, v, inner, ctx, depth + 1, below_key(env))->Ok_0;
                told_is_shared(b, start, hits, inner, a_node(b, pos, hits, ctx, depth, env)->Ok_0.marks, x.marks, ctx);
            },
            StepModel::Index(index) => {
                let q = way_takes_element(b, pos, steps, i, last, start, index, ctx);
                index_is_read(b, pos, hits, rest, index, ctx, depth, env);
                let inner = kept(array_hits(hits, index as int));
                way_is_read(b, q, inner, steps, i + 1, last, start, ctx, depth + 1, element_env());
                let x = a_node(b, q, inner, ctx, depth + 1, element_env())->Ok_0;
                told_is_shared(b, start, hits, inner, a_node(b, pos, hits, ctx, depth, env)->Ok_0.marks, x.marks, ctx);
            },
        }
    }
}

/// What an array tells the demands behind a step, it tells the demands.
proof fn told_is_shared(
    b: Seq<u8>,
    start: int,
    hits: Seq<DemandModel>,
    inner: Seq<DemandModel>,
    marks: Seq<MarkModel>,
    below: Seq<MarkModel>,
    ctx: WalkCtx,
)
    requires
        inner.len() == hits.len(),
        forall|k: int|
            0 <= k < hits.len() ==> on_array(#[trigger] inner[k]) == on_array(hits[k]) && shard_of(inner[k]) == shard_of(hits[k]),
        reads_array(b, start, inner, below, ctx),
        forall|k: int| 0 <= k < hits.len() && !(#[trigger] below[k] is Missing || below[k] is Mismatch) ==> marks[k] == below[k],
    ensures
        reads_array(b, start, hits, marks, ctx),
{
    assert forall|k: int| 0 <= k < hits.len() && folds(#[trigger] hits[k]) implies marks[k] == told(b, start, hits[k], ctx) by {
        assert(on_array(inner[k]) == on_array(hits[k]) && shard_of(inner[k]) == shard_of(hits[k]));
        assert(folds(inner[k]));
        assert(!(below[k] is Missing || below[k] is Mismatch));
    }
}

} // verus!
