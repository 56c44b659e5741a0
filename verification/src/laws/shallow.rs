//! What a walk answers a hit that needs no walk below its value, or only rows: it is
//! settled by the text and the hit, whatever stands beside it.

use vstd::prelude::*;

use crate::ascii::{LBRACE, LBRACKET, RBRACE, RBRACKET};
use crate::demand::{DemandModel, OracleModel};
use crate::error::Error;
use crate::laws::ends::{
    array_ends_well, child_ends_well, ends_at_reach, kind_ends_well, object_ends_well, reach, row_element_ends_well,
};
use crate::laws::paths::kept_at_rank;
use crate::laws::row_parts::{folds_to, mismatch_folds, object_folds};
use crate::laws::rows::{alike, cells_are_alike};
use crate::laws::strict::item_is_settled;
use crate::laws::walks::{
    a_child, a_kind, a_node, a_piece, an_array, an_object, array_end, array_step, child_step, elements_step,
    first_element, first_member, kind_step, members_step, need_of, node_step, object_step, one_piece, some_elements,
    some_members,
};
use crate::lex::skip::{after_colon, next_at, next_at_bounds, value_end, NextAt};
use crate::lex::ws::trivia_end;
use crate::lex::key_text;
use crate::value::{span, ByteRange, ValueKind};
use crate::walk::marks::{absent_row, folded, row_shape, BatchModel, ColumnCell, MarkModel};
use crate::walk::member::{inserted, last_value_wins, lookup, object_cells, touches, wanted};
use crate::walk::model::{
    all_rows, appended, array_hits, array_mark, batch_of, beside, beside_marks, bounded_end, collects_all,
    element_array, element_count, element_env, enter_object, enters, finish_array, flat, flat_row, keeps_members,
    kept, kept_members, kind_at, located, member_env, next_element, next_member, no_cells, object_hits, object_mark,
    object_rows, only_located, oracle_mark, oracles, prefix_window, rank, row_check, row_element, row_mark, row_marks,
    row_members, row_object, rows, spans_for, takes_row, ArrayState, Env, MemberState, RowState, WalkCtx,
};

verus! {

/// The members from `pos` to the closer, each name with its last value.
pub open spec fn all_members(
    b: Seq<u8>,
    pos: int,
    ctx: WalkCtx,
    first: bool,
    found: Seq<(Seq<u8>, ByteRange)>,
) -> Seq<(Seq<u8>, ByteRange)>
    decreases b.len() - pos,
{
    match next_at(b, pos, ctx.dialect, RBRACE, first) {
        Ok(NextAt::Item(p)) => match key_text(b, p, ctx.dialect) {
            Ok((key_end, name)) => match after_colon(b, key_end, ctx.dialect) {
                Ok(v) => match reach(b, v, ctx) {
                    Ok(e) => if pos < e <= b.len() {
                        all_members(b, e, ctx, false, inserted(found, name, span(v, e)))
                    } else {
                        found
                    },
                    Err(_) => found,
                },
                Err(_) => found,
            },
            Err(_) => found,
        },
        _ => found,
    }
}

/// Number of elements from `pos` to the closer, after `n`.
pub open spec fn count_from(b: Seq<u8>, pos: int, ctx: WalkCtx, n: int) -> int
    decreases b.len() - pos,
{
    match next_at(b, pos, ctx.dialect, RBRACKET, n == 0) {
        Ok(NextAt::Item(p)) => match reach(b, p, ctx) {
            Ok(e) => if pos < e <= b.len() {
                count_from(b, e, ctx, n + 1)
            } else {
                n
            },
            Err(_) => n,
        },
        _ => n,
    }
}

/// The cells that the value at `p` contributes to a flat row demand.
pub open spec fn cells_at(b: Seq<u8>, p: int, h: DemandModel, ctx: WalkCtx) -> Seq<ColumnCell> {
    if p < b.len() && b[p] == LBRACE {
        object_cells(
            b,
            h,
            all_members(b, p + 1, ctx, true, Seq::empty()),
            span(p, reach(b, p, ctx)->Ok_0),
            ctx.dialect,
        )
    } else {
        match h {
            DemandModel::Project { path, fields } => absent_row(fields.len()),
            _ => Seq::empty(),
        }
    }
}

/// The cells of the elements from `pos` to the closer.
pub open spec fn rows_from(b: Seq<u8>, pos: int, ctx: WalkCtx, first: bool, h: DemandModel) -> Seq<ColumnCell>
    decreases b.len() - pos,
{
    match next_at(b, pos, ctx.dialect, RBRACKET, first) {
        Ok(NextAt::Item(p)) => match reach(b, p, ctx) {
            Ok(e) => if pos < e <= b.len() {
                cells_at(b, p, h, ctx) + rows_from(b, e, ctx, false, h)
            } else {
                Seq::empty()
            },
            Err(_) => Seq::empty(),
        },
        _ => Seq::empty(),
    }
}

/// Whether a hit enters no member of an object.
pub open spec fn above_members(h: DemandModel) -> bool {
    match h {
        DemandModel::Path { .. } => false,
        DemandModel::Project { path, .. } => path.len() == 0,
        DemandModel::Filter { path, .. } => path.len() == 0,
        _ => true,
    }
}

/// Whether an oracle reads every member.
pub open spec fn reads_members(h: DemandModel) -> bool {
    h matches DemandModel::Oracle(o) && (o is HasKey || o is MemberNames || o is MemberCount || o is Count)
}

/// Whether the members kept are all that a hit reads of `all`.
spec fn enough(kept_of: Seq<(Seq<u8>, ByteRange)>, all: Seq<(Seq<u8>, ByteRange)>, h: DemandModel) -> bool {
    &&& flat_row(h) ==> alike(kept_of, all, h)
    &&& reads_members(h) ==> kept_of == all
}

proof fn enough_after(
    kept_of: Seq<(Seq<u8>, ByteRange)>,
    all: Seq<(Seq<u8>, ByteRange)>,
    hits: Seq<DemandModel>,
    i: int,
    name: Seq<u8>,
    at: ByteRange,
)
    requires
        0 <= i < hits.len(),
        enough(kept_of, all, hits[i]),
    ensures
        enough(kept_members(hits, kept_of, name, at), inserted(all, name, at), hits[i]),
        enough(
            if wanted(hits, name) {
                inserted(kept_of, name, at)
            } else {
                kept_of
            },
            inserted(all, name, at),
            hits[i],
        ) || !flat_row(hits[i]),
{
    let h = hits[i];
    last_value_wins(kept_of, name, at);
    last_value_wins(all, name, at);
    if flat_row(h) {
        assert(keeps_members(hits));
        if touches(h, name) {
            assert(wanted(hits, name));
        }
        assert forall|other: Seq<u8>| #[trigger] touches(h, other) implies lookup(
            kept_members(hits, kept_of, name, at),
            other,
        ) == lookup(inserted(all, name, at), other) by {
            assert(lookup(kept_of, other) == lookup(all, other));
        }
        assert forall|other: Seq<u8>| #[trigger] touches(h, other) implies lookup(
            if wanted(hits, name) {
                inserted(kept_of, name, at)
            } else {
                kept_of
            },
            other,
        ) == lookup(inserted(all, name, at), other) by {
            assert(lookup(kept_of, other) == lookup(all, other));
        }
    }
    if reads_members(h) {
        assert(keeps_members(hits));
        assert(collects_all(hits));
    }
}

proof fn row_found(
    b: Seq<u8>,
    pos: int,
    first: bool,
    found: Seq<(Seq<u8>, ByteRange)>,
    all: Seq<(Seq<u8>, ByteRange)>,
    hits: Seq<DemandModel>,
    i: int,
    ctx: WalkCtx,
    depth: int,
)
    requires
        0 <= i < hits.len(),
        flat_row(hits[i]),
        0 <= pos <= b.len(),
        0 <= depth,
        enough(found, all, hits[i]),
    ensures
        row_members(b, pos, first, found, hits, ctx, depth) matches Ok((e, out)) ==> enough(
            out,
            all_members(b, pos, ctx, first, all),
            hits[i],
        ),
    decreases b.len() - pos,
{
    next_at_bounds(b, pos, ctx.dialect, RBRACE, first);
    if let Ok(NextAt::Item(p)) = next_at(b, pos, ctx.dialect, RBRACE, first) {
        if let Ok((key_end, name)) = key_text(b, p, ctx.dialect) {
            if let Ok(v) = after_colon(b, key_end, ctx.dialect) {
                crate::laws::ends::member_is_at(b, p, ctx.dialect, key_end, name, v);
                ends_at_reach(b, v, row_check(hits, name, ctx), ctx, depth);
                if let Ok(e) = value_end(b, v, ctx.under(row_check(hits, name, ctx)), depth) {
                    enough_after(found, all, hits, i, name, span(v, e));
                    let more = if wanted(hits, name) {
                        inserted(found, name, span(v, e))
                    } else {
                        found
                    };
                    row_found(b, e, false, more, inserted(all, name, span(v, e)), hits, i, ctx, depth);
                }
            }
        }
    }
}

/// No member is entered for a hit above them.
proof fn not_entered(hits: Seq<DemandModel>, i: int, name: Seq<u8>)
    requires
        0 <= i < hits.len(),
        enter_object(hits[i], name) is None,
    ensures
        object_hits(hits, name)[i] is None,
        kept(object_hits(hits, name)).len() < hits.len(),
{
    let opts = object_hits(hits, name);
    kept_fewer(opts, i);
}

pub(crate) proof fn kept_fewer(opts: Seq<Option<DemandModel>>, i: int)
    requires
        0 <= i < opts.len(),
        opts[i] is None,
    ensures
        kept(opts).len() < opts.len(),
    decreases opts.len(),
{
    let head = opts.drop_last();
    kept_at_most(head);
    if i < opts.len() - 1 {
        assert(head[i] == opts[i]);
        kept_fewer(head, i);
    }
}

pub(crate) proof fn kept_at_most(opts: Seq<Option<DemandModel>>)
    ensures
        kept(opts).len() <= opts.len(),
    decreases opts.len(),
{
    if opts.len() > 0 {
        kept_at_most(opts.drop_last());
    }
}

/// The walk of members for a hit that enters none.
proof fn members_hold(
    b: Seq<u8>,
    st: MemberState,
    all: Seq<(Seq<u8>, ByteRange)>,
    hits: Seq<DemandModel>,
    i: int,
    ctx: WalkCtx,
    depth: int,
    env: Env,
)
    requires
        0 <= i < hits.len(),
        above_members(hits[i]),
        0 <= st.pos <= b.len(),
        0 <= depth,
        !st.stopped,
        st.marks.len() == hits.len(),
        enough(st.members, all, hits[i]),
    ensures
        some_members(b, st, hits, ctx, depth, env) matches Ok(last) ==> !last.stopped && last.marks[i] == st.marks[i]
            && enough(last.members, all_members(b, st.pos, ctx, st.first, all), hits[i]),
    decreases b.len() - st.pos,
{
    members_step(b, st, hits, ctx, depth, env);
    next_at_bounds(b, st.pos, ctx.dialect, RBRACE, st.first);
    if let Ok(NextAt::Item(p)) = next_at(b, st.pos, ctx.dialect, RBRACE, st.first) {
        if let Ok((key_end, name)) = key_text(b, p, ctx.dialect) {
            if let Ok(v) = after_colon(b, key_end, ctx.dialect) {
                crate::laws::ends::member_is_at(b, p, ctx.dialect, key_end, name, v);
                let opts = object_hits(hits, name);
                let inner = member_env(env, opts, hits);
                not_entered(hits, i, name);
                child_ends_well(b, v, kept(opts), hits, ctx, depth, inner);
                if let Ok(w) = a_child(b, v, kept(opts), hits, ctx, depth, inner) {
                    let next = next_member(st, hits, opts, name, w, v);
                    enough_after(st.members, all, hits, i, name, span(v, w.end));
                    members_hold(b, next, inserted(all, name, span(v, w.end)), hits, i, ctx, depth, env);
                }
            }
        }
    }
}

/// An object's end, with every member.
pub open spec fn whole_object(b: Seq<u8>, start: int, e: int, ctx: WalkCtx) -> MemberState {
    MemberState {
        pos: e,
        first: false,
        marks: Seq::empty(),
        members: all_members(b, start + 1, ctx, true, Seq::empty()),
        stopped: false,
    }
}

proof fn enough_is_told(
    b: Seq<u8>,
    start: int,
    h: DemandModel,
    mark: MarkModel,
    st: MemberState,
    e: int,
    ctx: WalkCtx,
)
    requires
        above_members(h),
        st.pos == e,
        enough(st.members, whole_object(b, start, e, ctx).members, h),
    ensures
        object_mark(b, start, h, mark, st, ctx.dialect) == object_mark(
            b,
            start,
            h,
            mark,
            whole_object(b, start, e, ctx),
            ctx.dialect,
        ),
{
    if flat_row(h) {
        cells_are_alike(b, h, st.members, whole_object(b, start, e, ctx).members, span(start, e), ctx.dialect);
    }
}

/// What an object answers a hit that enters none of its members.
proof fn object_tells(
    b: Seq<u8>,
    start: int,
    hits: Seq<DemandModel>,
    i: int,
    answered: Seq<MarkModel>,
    ctx: WalkCtx,
    depth: int,
    env: Env,
)
    requires
        0 <= i < hits.len(),
        answered.len() == hits.len(),
        above_members(hits[i]),
        0 <= start < b.len(),
        b[start] == LBRACE,
        0 <= depth,
    ensures
        an_object(b, start, hits, answered, ctx, depth, env) matches Ok(w) ==> !w.stopped && w.marks.len() == hits.len()
            && w.marks[i] == object_mark(
            b,
            start,
            hits[i],
            answered[i],
            whole_object(b, start, w.end, ctx),
            ctx.dialect,
        ),
{
    object_step(b, start, hits, answered, ctx, depth, env);
    object_ends_well(b, start, hits, answered, ctx, depth, env);
    let h = hits[i];
    let none = Seq::<(Seq<u8>, ByteRange)>::empty();
    if let Ok(w) = an_object(b, start, hits, answered, ctx, depth, env) {
        if env.lane && all_rows(hits) {
            assert(flat_row(h));
            row_found(b, start + 1, true, none, none, hits, i, ctx, depth + 1);
            let (e, found) = row_object(b, start, hits, ctx, depth)->Ok_0;
            cells_are_alike(b, h, found, whole_object(b, start, e, ctx).members, span(start, e), ctx.dialect);
            assert(row_marks(hits, object_rows(b, hits, found, span(start, e), ctx.dialect))[i] == row_mark(
                h,
                object_cells(b, h, found, span(start, e), ctx.dialect),
            ));
        } else {
            let first = first_member(start, answered);
            members_hold(b, first, none, hits, i, ctx, depth + 1, env);
            let st = some_members(b, first, hits, ctx, depth + 1, env)->Ok_0;
            enough_is_told(b, start, h, st.marks[i], st, st.pos, ctx);
        }
    }
}

/// A window that ends a walk bounds every hit, and no less than the hit's own bound.
pub(crate) proof fn prefix_is_bound(hits: Seq<DemandModel>)
    ensures
        prefix_window(hits) matches Some(m) ==> forall|k: int|
            0 <= k < hits.len() ==> (bounded_end(#[trigger] hits[k]) matches Some(e) && e <= m),
    decreases hits.len(),
{
    if hits.len() > 1 {
        prefix_is_bound(hits.drop_last());
        if let Some(m) = prefix_window(hits) {
            assert forall|k: int| 0 <= k < hits.len() implies (bounded_end(#[trigger] hits[k]) matches Some(e) && e <= m) by {
                if k < hits.len() - 1 {
                    assert(hits.drop_last()[k] == hits[k]);
                }
            }
        }
    }
}

/// Elements that are walked to the closer are counted.
pub(crate) proof fn elements_count(
    b: Seq<u8>,
    st: ArrayState,
    hits: Seq<DemandModel>,
    ctx: WalkCtx,
    depth: int,
    need: Option<int>,
)
    requires
        0 <= st.pos <= b.len(),
        0 <= st.idx,
        0 <= depth,
        !st.stopped,
    ensures
        some_elements(b, st, hits, ctx, depth, need) matches Ok(last) ==> (!last.stopped ==> last.idx == count_from(
            b,
            st.pos,
            ctx,
            st.idx,
        )),
    decreases b.len() - st.pos,
{
    elements_step(b, st, hits, ctx, depth, need);
    next_at_bounds(b, st.pos, ctx.dialect, RBRACKET, st.idx == 0);
    if let Ok(NextAt::Item(p)) = next_at(b, st.pos, ctx.dialect, RBRACKET, st.idx == 0) {
        item_is_settled(b, st.pos, ctx.dialect, RBRACKET, st.idx == 0);
        let opts = array_hits(hits, st.idx);
        child_ends_well(b, p, kept(opts), hits, ctx, depth, element_env());
        if let Ok(w) = a_child(b, p, kept(opts), hits, ctx, depth, element_env()) {
            elements_count(b, next_element(st, hits, opts, w, p), hits, ctx, depth, need);
        }
    }
}

/// A count of the elements alone counts the same.
proof fn count_is_told(b: Seq<u8>, pos: int, ctx: WalkCtx, check: crate::lex::skip::Check, depth: int, n: nat)
    requires
        0 <= pos <= b.len(),
        0 <= depth,
    ensures
        element_count(b, pos, ctx.under(check), depth, n) matches Ok((e, m)) ==> m == count_from(b, pos, ctx, n as int),
    decreases b.len() - pos,
{
    next_at_bounds(b, pos, ctx.dialect, RBRACKET, n == 0);
    if let Ok(NextAt::Item(p)) = next_at(b, pos, ctx.dialect, RBRACKET, n == 0) {
        ends_at_reach(b, p, check, ctx, depth);
        if let Ok(e) = value_end(b, p, ctx.under(check), depth) {
            count_is_told(b, e, ctx, check, depth, n + 1);
        }
    }
}

/// Elements leave the mark of a hit that enters none as it is.
proof fn elements_hold(
    b: Seq<u8>,
    st: ArrayState,
    hits: Seq<DemandModel>,
    i: int,
    ctx: WalkCtx,
    depth: int,
    need: Option<int>,
)
    requires
        0 <= i < hits.len(),
        hits[i] is Whole || hits[i] is Oracle,
        0 <= st.pos <= b.len(),
        0 <= depth,
        st.marks.len() == hits.len(),
    ensures
        some_elements(b, st, hits, ctx, depth, need) matches Ok(last) ==> last.marks[i] == st.marks[i],
    decreases b.len() - st.pos,
{
    elements_step(b, st, hits, ctx, depth, need);
    next_at_bounds(b, st.pos, ctx.dialect, RBRACKET, st.idx == 0);
    if let Ok(NextAt::Item(p)) = next_at(b, st.pos, ctx.dialect, RBRACKET, st.idx == 0) {
        let opts = array_hits(hits, st.idx);
        assert(opts[i] is None);
        if let Ok(w) = a_child(b, p, kept(opts), hits, ctx, depth, element_env()) {
            if p < w.end <= b.len() {
                elements_hold(b, next_element(st, hits, opts, w, p), hits, i, ctx, depth, need);
            }
        }
    }
}

/// One hit's mark at an array's end.
pub(crate) proof fn array_end_at(
    b: Seq<u8>,
    start: int,
    hits: Seq<DemandModel>,
    n: nat,
    i: int,
    st: ArrayState,
    ctx: WalkCtx,
    depth: int,
    env: Env,
)
    requires
        0 <= i < n <= hits.len(),
    ensures
        finish_array(b, start, hits, n, st, ctx, depth, env) matches Ok(marks) ==> marks.len() == n && array_mark(
            b,
            start,
            hits[i],
            st.marks[i],
            spans_for(hits[i], st.spans),
            st,
            ctx,
            depth,
            env,
        ) == Ok::<MarkModel, Error>(marks[i]),
    decreases n,
{
    if n > 1 {
        if i < n - 1 {
            array_end_at(b, start, hits, (n - 1) as nat, i, st, ctx, depth, env);
        } else {
            array_end_at(b, start, hits, (n - 1) as nat, 0, st, ctx, depth, env);
        }
    } else {
        assert(finish_array(b, start, hits, 0, st, ctx, depth, env) == Ok::<Seq<MarkModel>, Error>(Seq::empty()));
    }
}

/// What an array answers a hit on the array itself.
spec fn of_array(b: Seq<u8>, start: int, h: DemandModel, mark: MarkModel, e: int, ctx: WalkCtx) -> MarkModel {
    match h {
        DemandModel::Whole => MarkModel::Span(span(start, e)),
        DemandModel::Oracle(OracleModel::Count) => MarkModel::Count(count_from(b, start + 1, ctx, 0)),
        _ => mark,
    }
}

proof fn array_tells(
    b: Seq<u8>,
    start: int,
    hits: Seq<DemandModel>,
    i: int,
    answered: Seq<MarkModel>,
    ctx: WalkCtx,
    depth: int,
    env: Env,
)
    requires
        0 <= i < hits.len(),
        answered.len() == hits.len(),
        hits[i] is Whole || hits[i] is Oracle,
        0 <= start < b.len(),
        b[start] == LBRACKET,
        0 <= depth,
    ensures
        an_array(b, start, hits, answered, ctx, depth, env) matches Ok(w) ==> !w.stopped && w.marks.len() == hits.len()
            && w.marks[i] == of_array(b, start, hits[i], answered[i], w.end, ctx),
{
    array_step(b, start, hits, answered, ctx, depth, env);
    array_ends_well(b, start, hits, answered, ctx, depth, env);
    if let Ok(w) = an_array(b, start, hits, answered, ctx, depth, env) {
        assert(!all_rows(hits)) by {
            assert(!flat_row(hits[i]));
        }
        prefix_is_bound(hits);
        assert(need_of(hits, env) is None) by {
            assert(bounded_end(hits[i]) is None);
        }
        let first = first_element(start, hits, answered);
        elements_count(b, first, hits, ctx, depth + 1, None);
        elements_hold(b, first, hits, i, ctx, depth + 1, None);
        elements_go_on(b, first, hits, ctx, depth + 1);
        reveal(array_end);
        let st = some_elements(b, first, hits, ctx, depth + 1, None)->Ok_0;
        array_end_at(b, start, hits, hits.len(), i, st, ctx, depth, env);
    }
}

/// Without a window nothing stops an element loop.
pub(crate) proof fn elements_go_on(b: Seq<u8>, st: ArrayState, hits: Seq<DemandModel>, ctx: WalkCtx, depth: int)
    requires
        !st.stopped,
    ensures
        some_elements(b, st, hits, ctx, depth, None) matches Ok(last) ==> !last.stopped,
    decreases b.len() - st.pos,
{
    elements_step(b, st, hits, ctx, depth, None);
    if let Ok(NextAt::Item(p)) = next_at(b, st.pos, ctx.dialect, RBRACKET, st.idx == 0) {
        let opts = array_hits(hits, st.idx);
        if st.pos <= p <= b.len() {
            if let Ok(w) = a_child(b, p, kept(opts), hits, ctx, depth, element_env()) {
                if p < w.end <= b.len() {
                    elements_go_on(b, next_element(st, hits, opts, w, p), hits, ctx, depth);
                }
            }
        }
    }
}

/// Whether a hit is answered at its value, without a walk of what is below it for it.
pub open spec fn shallow(h: DemandModel, kind: ValueKind, env: Env) -> bool {
    match kind {
        ValueKind::Array => h is Whole || h is Oracle || (env.element && takes_row(h)),
        ValueKind::Object => above_members(h),
        _ => true,
    }
}

/// What an oracle answers before anything is entered.
pub(crate) open spec fn first_word(b: Seq<u8>, start: int, kind: ValueKind, h: DemandModel, entering: bool, ctx: WalkCtx, depth: int) -> MarkModel {
    match h {
        DemandModel::Oracle(o) => oracle_mark(b, start, kind, o, entering, ctx, depth)->Ok_0.0,
        _ => MarkModel::Missing,
    }
}

pub(crate) proof fn oracles_say(
    b: Seq<u8>,
    start: int,
    kind: ValueKind,
    hits: Seq<DemandModel>,
    n: nat,
    i: int,
    entering: bool,
    ctx: WalkCtx,
    depth: int,
)
    requires
        0 <= i < n <= hits.len(),
    ensures
        oracles(b, start, kind, hits, n, entering, ctx, depth) matches Ok((marks, _)) ==> marks.len() == n && marks[i]
            == first_word(b, start, kind, hits[i], entering, ctx, depth) && (hits[i] matches DemandModel::Oracle(o)
            ==> oracle_mark(b, start, kind, o, entering, ctx, depth) is Ok),
    decreases n,
{
    if n > 1 {
        if i < n - 1 {
            oracles_say(b, start, kind, hits, (n - 1) as nat, i, entering, ctx, depth);
        } else {
            oracles_say(b, start, kind, hits, (n - 1) as nat, 0, entering, ctx, depth);
        }
    } else {
        assert(oracles(b, start, kind, hits, 0, entering, ctx, depth) == Ok::<(Seq<MarkModel>, int), Error>(
            (Seq::empty(), start),
        ));
    }
}

/// What the value at `start` answers a shallow hit.
pub open spec fn said(b: Seq<u8>, start: int, kind: ValueKind, h: DemandModel, mark: MarkModel, e: int, ctx: WalkCtx) -> MarkModel {
    match kind {
        ValueKind::Array => if takes_row(h) {
            MarkModel::Mismatch(ValueKind::Array)
        } else {
            match h {
                DemandModel::Whole => MarkModel::Span(span(start, e)),
                DemandModel::Oracle(OracleModel::Count) => MarkModel::Count(count_from(b, start + 1, ctx, 0)),
                _ => mark,
            }
        },
        ValueKind::Object => object_mark(b, start, h, mark, whole_object(b, start, e, ctx), ctx.dialect),
        _ => match h {
            DemandModel::Whole => MarkModel::Span(span(start, e)),
            DemandModel::Oracle(_) => mark,
            _ => MarkModel::Mismatch(kind),
        },
    }
}

proof fn count_word(b: Seq<u8>, start: int, h: DemandModel, ctx: WalkCtx, depth: int)
    requires
        0 <= start < b.len(),
        0 <= depth,
        h == DemandModel::Oracle(OracleModel::Count),
        oracle_mark(b, start, ValueKind::Array, OracleModel::Count, false, ctx, depth) is Ok,
    ensures
        first_word(b, start, ValueKind::Array, h, false, ctx, depth) == MarkModel::Count(count_from(b, start + 1, ctx, 0)),
{
    reveal(oracle_mark);
    count_is_told(b, start + 1, ctx, ctx.unread(), depth + 1, 0);
}

/// What a value that is one piece answers a shallow hit.
proof fn piece_tells(
    b: Seq<u8>,
    start: int,
    kind: ValueKind,
    hits: Seq<DemandModel>,
    i: int,
    answered: Seq<MarkModel>,
    r: int,
    ctx: WalkCtx,
    depth: int,
    env: Env,
)
    requires
        0 <= i < hits.len(),
        0 <= start < b.len(),
        0 <= depth,
        kind_at(b[start], ctx.dialect) == Some(kind),
        one_piece(hits, kind, env),
        shallow(hits[i], kind, env),
        oracles(b, start, kind, hits, hits.len(), enters(hits, kind), ctx, depth) == Ok::<(Seq<MarkModel>, int), Error>(
            (answered, r),
        ),
    ensures
        a_piece(b, start, kind, hits, answered, r, ctx, depth) matches Ok(w) ==> w.marks.len() == hits.len() && w.marks[i]
            == said(b, start, kind, hits[i], first_word(b, start, kind, hits[i], false, ctx, depth), w.end, ctx),
{
    reveal(a_piece);
    let h = hits[i];
    oracles_say(b, start, kind, hits, hits.len(), i, enters(hits, kind), ctx, depth);
    if !enters(hits, kind) && only_located(hits) {
        reveal(located);
        if h == DemandModel::Oracle(OracleModel::Count) && kind == ValueKind::Array {
            count_word(b, start, h, ctx, depth);
        }
        assert(h is Oracle || h is Whole);
        assert(!crate::walk::model::needs_container(h));
    } else if kind == ValueKind::Array {
        reveal(element_array);
        oracles_say(b, start, kind, hits, hits.len(), i, false, ctx, depth);
        if h == DemandModel::Oracle(OracleModel::Count) && a_piece(b, start, kind, hits, answered, r, ctx, depth) is Ok {
            count_word(b, start, h, ctx, depth);
        }
    } else {
        words_alike(b, start, kind, h, ctx, depth);
    }
}

/// Only a count of a container is left open for the walk inside it.
proof fn words_alike(b: Seq<u8>, start: int, kind: ValueKind, h: DemandModel, ctx: WalkCtx, depth: int)
    requires
        h != DemandModel::Oracle(OracleModel::Count) || !(kind == ValueKind::Array || kind == ValueKind::Object),
    ensures
        first_word(b, start, kind, h, true, ctx, depth) == first_word(b, start, kind, h, false, ctx, depth),
{
    reveal(oracle_mark);
}

/// What a value answers a shallow hit, whatever stands beside it.
pub(crate) proof fn kind_tells(
    b: Seq<u8>,
    start: int,
    kind: ValueKind,
    hits: Seq<DemandModel>,
    i: int,
    ctx: WalkCtx,
    depth: int,
    env: Env,
)
    requires
        0 <= i < hits.len(),
        0 <= start < b.len(),
        0 <= depth,
        kind_at(b[start], ctx.dialect) == Some(kind),
        shallow(hits[i], kind, env),
    ensures
        a_kind(b, start, kind, hits, ctx, depth, env) matches Ok(w) ==> !w.stopped && w.marks.len() == hits.len()
            && w.marks[i] == said(
            b,
            start,
            kind,
            hits[i],
            first_word(b, start, kind, hits[i], false, ctx, depth),
            w.end,
            ctx,
        ),
{
    let h = hits[i];
    kind_step(b, start, kind, hits, ctx, depth, env);
    kind_ends_well(b, start, kind, hits, ctx, depth, env);
    if a_kind(b, start, kind, hits, ctx, depth, env) is Ok {
        let (answered, r) = oracles(b, start, kind, hits, hits.len(), enters(hits, kind), ctx, depth)->Ok_0;
        oracles_say(b, start, kind, hits, hits.len(), i, enters(hits, kind), ctx, depth);
        if h != DemandModel::Oracle(OracleModel::Count) || !(kind == ValueKind::Array || kind == ValueKind::Object) {
            words_alike(b, start, kind, h, ctx, depth);
        }
        if one_piece(hits, kind, env) {
            piece_tells(b, start, kind, hits, i, answered, r, ctx, depth, env);
            piece_goes_on(b, start, kind, hits, answered, r, ctx, depth);
        } else if kind == ValueKind::Array {
            array_tells(b, start, beside(hits, env), i, beside_marks(hits, answered, env), ctx, depth, env);
        } else {
            object_tells(b, start, hits, i, answered, ctx, depth, env);
        }
    }
}

proof fn piece_goes_on(
    b: Seq<u8>,
    start: int,
    kind: ValueKind,
    hits: Seq<DemandModel>,
    answered: Seq<MarkModel>,
    r: int,
    ctx: WalkCtx,
    depth: int,
)
    ensures
        a_piece(b, start, kind, hits, answered, r, ctx, depth) matches Ok(w) ==> !w.stopped,
{
    reveal(a_piece);
    reveal(located);
    reveal(element_array);
}

/// The row of one element of a row loop.
proof fn lane_cells(b: Seq<u8>, p: int, hits: Seq<DemandModel>, i: int, ctx: WalkCtx, depth: int)
    requires
        0 <= i < hits.len(),
        flat_row(hits[i]),
        0 <= p <= b.len(),
        0 <= depth,
    ensures
        row_element(b, p, hits, ctx, depth) matches Ok((e, more)) ==> more.len() == hits.len() && more[i] == cells_at(
            b,
            p,
            hits[i],
            ctx,
        ),
{
    row_element_ends_well(b, p, hits, ctx, depth);
    reveal(row_element);
    let h = hits[i];
    let none = Seq::<(Seq<u8>, ByteRange)>::empty();
    if p < b.len() && b[p] == LBRACE {
        if let Ok((e, found)) = row_object(b, p, hits, ctx, depth) {
            row_found(b, p + 1, true, none, none, hits, i, ctx, depth + 1);
            cells_are_alike(b, h, found, all_members(b, p + 1, ctx, true, none), span(p, e), ctx.dialect);
        }
    }
}

/// The rows of a row loop.
pub(crate) proof fn lane_rows(b: Seq<u8>, st: RowState, hits: Seq<DemandModel>, i: int, ctx: WalkCtx, depth: int)
    requires
        0 <= i < hits.len(),
        flat_row(hits[i]),
        st.cells.len() == hits.len(),
        0 <= st.pos <= b.len(),
        0 <= depth,
    ensures
        rows(b, st, hits, ctx, depth) matches Ok(last) ==> last.cells.len() == hits.len() && last.cells[i] == st.cells[i]
            + rows_from(b, st.pos, ctx, st.first, hits[i]),
    decreases b.len() - st.pos,
{
    next_at_bounds(b, st.pos, ctx.dialect, RBRACKET, st.first);
    assert(st.cells[i] + Seq::<ColumnCell>::empty() =~= st.cells[i]);
    if let Ok(NextAt::Item(p)) = next_at(b, st.pos, ctx.dialect, RBRACKET, st.first) {
        row_element_ends_well(b, p, hits, ctx, depth);
        lane_cells(b, p, hits, i, ctx, depth);
        if let Ok((e, more)) = row_element(b, p, hits, ctx, depth) {
            let next = RowState { pos: e, first: false, cells: appended(st.cells, more) };
            lane_rows(b, next, hits, i, ctx, depth);
            let rest = rows_from(b, e, ctx, false, hits[i]);
            assert((st.cells[i] + more[i]) + rest =~= st.cells[i] + (more[i] + rest));
        }
    }
}

/// What an element answers a flat row demand folds to its cells.
pub(crate) proof fn element_cells(
    b: Seq<u8>,
    p: int,
    reaching: Seq<DemandModel>,
    r: int,
    ctx: WalkCtx,
    depth: int,
    env: Env,
)
    requires
        0 <= r < reaching.len(),
        flat_row(reaching[r]),
        0 <= p <= b.len(),
        trivia_end(b, p, ctx.dialect) == Ok::<int, Error>(p),
        0 <= depth,
        env.element,
    ensures
        a_node(b, p, reaching, ctx, depth, env) matches Ok(w) ==> folds_to(
            w.marks[r],
            reaching[r],
            cells_at(b, p, reaching[r], ctx),
        ),
{
    let h = reaching[r];
    node_step(b, p, reaching, ctx, depth, env);
    if let Ok(w) = a_node(b, p, reaching, ctx, depth, env) {
        let kind = kind_at(b[p], ctx.dialect)->0;
        assert(flat(reaching)[r] == h);
        kind_ends_well(b, p, kind, flat(reaching), ctx, depth, env);
        kind_tells(b, p, kind, flat(reaching), r, ctx, depth, env);
        let cells = cells_at(b, p, h, ctx);
        if kind == ValueKind::Object {
            object_folds(b, h, all_members(b, p + 1, ctx, true, Seq::empty()), span(p, w.end), ctx.dialect);
        } else {
            mismatch_folds(h, kind, cells);
        }
    }
}

/// The rows of an element loop.
proof fn element_rows(
    b: Seq<u8>,
    st: ArrayState,
    hits: Seq<DemandModel>,
    i: int,
    ctx: WalkCtx,
    depth: int,
)
    requires
        0 <= i < hits.len(),
        flat_row(hits[i]),
        st.marks.len() == hits.len(),
        st.marks[i] is Rows,
        0 <= st.pos <= b.len(),
        0 <= st.idx,
        0 <= depth,
    ensures
        some_elements(b, st, hits, ctx, depth, None) matches Ok(last) ==> last.marks[i] == MarkModel::Rows(
            BatchModel {
                fields: batch_of(st.marks[i]).fields,
                cells: batch_of(st.marks[i]).cells + rows_from(b, st.pos, ctx, st.idx == 0, hits[i]),
            },
        ),
    decreases b.len() - st.pos,
{
    let h = hits[i];
    let batch = batch_of(st.marks[i]);
    elements_step(b, st, hits, ctx, depth, None);
    next_at_bounds(b, st.pos, ctx.dialect, RBRACKET, st.idx == 0);
    assert(batch.cells + Seq::<ColumnCell>::empty() =~= batch.cells);
    if let Ok(NextAt::Item(p)) = next_at(b, st.pos, ctx.dialect, RBRACKET, st.idx == 0) {
        item_is_settled(b, st.pos, ctx.dialect, RBRACKET, st.idx == 0);
        let opts = array_hits(hits, st.idx);
        assert(opts[i] == Some(h));
        kept_at_rank(opts, i);
        let r = rank(opts, i);
        child_step(b, p, kept(opts), hits, ctx, depth, element_env());
        child_ends_well(b, p, kept(opts), hits, ctx, depth, element_env());
        element_cells(b, p, kept(opts), r, ctx, depth, element_env());
        if let Ok(w) = a_child(b, p, kept(opts), hits, ctx, depth, element_env()) {
            let next = next_element(st, hits, opts, w, p);
            let cells = cells_at(b, p, h, ctx);
            assert(folded(batch, row_shape(h)->0, w.marks[r], span(p, w.end)) == (BatchModel {
                fields: batch.fields,
                cells: batch.cells + cells,
            }));
            element_rows(b, next, hits, i, ctx, depth);
            let rest = rows_from(b, w.end, ctx, false, h);
            assert((batch.cells + cells) + rest =~= batch.cells + (cells + rest));
        }
    }
}

/// What an array answers a flat row demand that maps it, whatever stands beside it.
pub(crate) proof fn array_tells_rows(
    b: Seq<u8>,
    start: int,
    hits: Seq<DemandModel>,
    i: int,
    answered: Seq<MarkModel>,
    ctx: WalkCtx,
    depth: int,
    env: Env,
)
    requires
        0 <= i < hits.len(),
        answered.len() == hits.len(),
        flat_row(hits[i]),
        0 <= start < b.len(),
        b[start] == LBRACKET,
        0 <= depth,
    ensures
        an_array(b, start, hits, answered, ctx, depth, env) matches Ok(w) ==> !w.stopped && w.marks.len() == hits.len()
            && w.marks[i] == row_mark(hits[i], rows_from(b, start + 1, ctx, true, hits[i])),
{
    let h = hits[i];
    array_step(b, start, hits, answered, ctx, depth, env);
    array_ends_well(b, start, hits, answered, ctx, depth, env);
    let rest = rows_from(b, start + 1, ctx, true, h);
    assert(Seq::<ColumnCell>::empty() + rest =~= rest);
    if let Ok(w) = an_array(b, start, hits, answered, ctx, depth, env) {
        if all_rows(hits) {
            lane_rows(
                b,
                RowState { pos: start + 1, first: true, cells: no_cells(hits.len()) },
                hits,
                i,
                ctx,
                depth + 1,
            );
        } else {
            prefix_is_bound(hits);
            assert(need_of(hits, env) is None) by {
                assert(bounded_end(hits[i]) is None);
            }
            let first = first_element(start, hits, answered);
            element_rows(b, first, hits, i, ctx, depth + 1);
            elements_go_on(b, first, hits, ctx, depth + 1);
            reveal(array_end);
            let st = some_elements(b, first, hits, ctx, depth + 1, None)->Ok_0;
            array_end_at(b, start, hits, hits.len(), i, st, ctx, depth, env);
        }
    }
}

} // verus!
