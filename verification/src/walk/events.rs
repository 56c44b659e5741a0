//! What one walk records: the regions it passes over and its early stop, in walk
//! order.
//!
//! Each function names the events of the part of a walk that its namesake in
//! [`crate::walk::model`] answers, where that part does not refuse.

use vstd::prelude::*;

use crate::ascii::{LBRACE, RBRACE, RBRACKET};
use crate::demand::{nested_or_whole, DemandModel, OracleModel, StepModel};
use crate::lex::key_text;
use crate::lex::skip::{after_colon, next_at, scalar, value, value_end, Check, NextAt};
use crate::lex::ws::trivia_end;
use crate::trace::{level, TraceEvent};
use crate::value::{resolved, ByteRange, ValueKind};
use crate::walk::host::Host;
use crate::walk::marks::MarkModel;
use crate::walk::model::{
    after_step, all_rows, array_hits, beside, beside_marks, child, element_count, element_env, elements, enters, flat, kept,
    kind_at, member_env, members, next_element, next_member, object_hits, one_element, only_located, opened, oracles,
    prefix_window, row_check, row_element, slice_replays, spans_for, wants_whole, ArrayState, Env, MemberState, WalkCtx,
};

verus! {

/// Whether a traced host recorded `events` after what it had recorded before.
pub open spec fn noted(after: Host<'_>, before: Host<'_>, events: Seq<TraceEvent>) -> bool {
    before.trace is Some ==> after.events() == before.events() + events
}

/// Two runs of events, one after the other.
pub proof fn noted_then(
    last: Host<'_>,
    middle: Host<'_>,
    first: Host<'_>,
    earlier: Seq<TraceEvent>,
    later: Seq<TraceEvent>,
)
    requires
        noted(middle, first, earlier),
        noted(last, middle, later),
        (middle.trace is Some) == (first.trace is Some),
    ensures
        noted(last, first, earlier + later),
{
    assert((first.events() + earlier) + later =~= first.events() + (earlier + later));
}

/// A host that recorded nothing.
pub proof fn noted_nothing(last: Host<'_>, first: Host<'_>)
    requires
        last.events() == first.events(),
    ensures
        noted(last, first, Seq::empty()),
{
    assert(first.events() + Seq::<TraceEvent>::empty() =~= first.events());
}

/// Whether a traced host has `rest` left to record of `whole`.
pub open spec fn owed(now: Host<'_>, before: Host<'_>, rest: Seq<TraceEvent>, whole: Seq<TraceEvent>) -> bool {
    before.trace is Some ==> now.events() + rest == before.events() + whole
}

/// Recording the head of what is left leaves the tail.
pub proof fn owed_step(
    next: Host<'_>,
    now: Host<'_>,
    before: Host<'_>,
    head: Seq<TraceEvent>,
    tail: Seq<TraceEvent>,
    whole: Seq<TraceEvent>,
)
    requires
        owed(now, before, head + tail, whole),
        noted(next, now, head),
        (now.trace is Some) == (before.trace is Some),
    ensures
        owed(next, before, tail, whole),
{
    assert((now.events() + head) + tail =~= now.events() + (head + tail));
}

/// With nothing left, everything is recorded.
pub proof fn owed_none(now: Host<'_>, before: Host<'_>, whole: Seq<TraceEvent>)
    requires
        owed(now, before, Seq::empty(), whole),
    ensures
        noted(now, before, whole),
{
    assert(now.events() + Seq::<TraceEvent>::empty() =~= now.events());
}

/// The region from `start` to `end`, passed over under `check`.
pub open spec fn region(start: int, end: int, check: Check) -> Seq<TraceEvent> {
    seq![TraceEvent::Skip { start: start as usize, end: end as usize, check: level(check) }]
}

/// The value at `pos`, passed over under `check`.
pub open spec fn passed_region(b: Seq<u8>, pos: int, check: Check, ctx: WalkCtx, depth: int) -> Seq<TraceEvent> {
    match value_end(b, pos, ctx.under(check), depth) {
        Ok(e) => region(pos, e, check),
        Err(_) => Seq::empty(),
    }
}

/// A counted value is passed over, and nothing else an oracle reads is.
pub open spec fn oracle_regions(
    b: Seq<u8>,
    start: int,
    kind: ValueKind,
    o: OracleModel,
    entering: bool,
    ctx: WalkCtx,
    depth: int,
) -> Seq<TraceEvent> {
    match o {
        OracleModel::Count => if (kind == ValueKind::Array || kind == ValueKind::Object) && !entering {
            match element_count(b, start + 1, ctx.under(ctx.unread()), depth + 1, 0) {
                Ok((e, _)) => region(start, e, ctx.unread()),
                Err(_) => Seq::empty(),
            }
        } else {
            Seq::empty()
        },
        OracleModel::DescendCount => match value(b, start, ctx.under(ctx.demanded()), 0) {
            Ok((e, _)) => region(start, e, ctx.demanded()),
            Err(_) => Seq::empty(),
        },
        _ => Seq::empty(),
    }
}

/// The regions of the first `n` hits' oracles.
pub open spec fn oracles_regions(
    b: Seq<u8>,
    start: int,
    kind: ValueKind,
    hits: Seq<DemandModel>,
    n: nat,
    entering: bool,
    ctx: WalkCtx,
    depth: int,
) -> Seq<TraceEvent>
    decreases n,
{
    if n == 0 {
        Seq::empty()
    } else {
        oracles_regions(b, start, kind, hits, (n - 1) as nat, entering, ctx, depth) + (match hits[n - 1] {
            DemandModel::Oracle(o) => oracle_regions(b, start, kind, o, entering, ctx, depth),
            _ => Seq::empty(),
        })
    }
}

/// Events of the walk of the value at `pos`.
pub open spec fn node_events(
    b: Seq<u8>,
    pos: int,
    hits: Seq<DemandModel>,
    ctx: WalkCtx,
    depth: int,
    env: Env,
) -> Seq<TraceEvent>
    decreases b.len() - pos, 6nat, 0nat,
{
    match trivia_end(b, pos, ctx.dialect) {
        Err(_) => Seq::empty(),
        Ok(start) => if !(pos <= start < b.len()) {
            Seq::empty()
        } else if hits.len() == 0 {
            passed_region(b, start, ctx.unread(), ctx, depth)
        } else {
            match kind_at(b[start], ctx.dialect) {
                None => Seq::empty(),
                Some(kind) => kind_events(b, start, kind, flat(hits), ctx, depth, env),
            }
        },
    }
}

/// Events of the walk of a value of a known kind: its oracles' first.
pub open spec fn kind_events(
    b: Seq<u8>,
    start: int,
    kind: ValueKind,
    hits: Seq<DemandModel>,
    ctx: WalkCtx,
    depth: int,
    env: Env,
) -> Seq<TraceEvent>
    decreases b.len() - start, 5nat, 1nat,
{
    oracles_regions(b, start, kind, hits, hits.len(), enters(hits, kind), ctx, depth) + body_events(
        b,
        start,
        kind,
        hits,
        ctx,
        depth,
        env,
    )
}

/// Events after the oracles'.
pub open spec fn body_events(
    b: Seq<u8>,
    start: int,
    kind: ValueKind,
    hits: Seq<DemandModel>,
    ctx: WalkCtx,
    depth: int,
    env: Env,
) -> Seq<TraceEvent>
    decreases b.len() - start, 5nat, 0nat,
{
    match oracles(b, start, kind, hits, hits.len(), enters(hits, kind), ctx, depth) {
        Err(_) => Seq::empty(),
        Ok((answered, reach)) => if !enters(hits, kind) && only_located(hits) {
            located_region(b, start, hits, reach, ctx, depth)
        } else if kind == ValueKind::Array && env.element && one_element(hits) {
            passed_region(b, start, ctx.demanded(), ctx, depth) + oracles_regions(
                b,
                start,
                ValueKind::Array,
                hits,
                hits.len(),
                false,
                ctx,
                depth,
            )
        } else if kind == ValueKind::Array {
            array_events(b, start, beside(hits, env), beside_marks(hits, answered, env), ctx, depth, env)
        } else if kind == ValueKind::Object {
            object_events(b, start, hits, answered, ctx, depth, env)
        } else {
            match scalar(b, start, ctx.demanded(), ctx.dialect) {
                Err(_) => Seq::empty(),
                Ok(e) => region(start, e, ctx.demanded()),
            }
        },
    }
}

/// A value that is only located is passed over, unless an oracle passed over it
/// under the same check.
pub open spec fn located_region(
    b: Seq<u8>,
    start: int,
    hits: Seq<DemandModel>,
    reach: int,
    ctx: WalkCtx,
    depth: int,
) -> Seq<TraceEvent> {
    let check = if wants_whole(hits) {
        ctx.demanded()
    } else {
        ctx.unread()
    };
    if reach > start && check == ctx.unread() {
        Seq::empty()
    } else {
        passed_region(b, start, check, ctx, depth)
    }
}

/// Events of one child: its walk, or the region passed over.
pub open spec fn child_events(
    b: Seq<u8>,
    pos: int,
    reaching: Seq<DemandModel>,
    hits: Seq<DemandModel>,
    ctx: WalkCtx,
    depth: int,
    env: Env,
) -> Seq<TraceEvent>
    decreases b.len() - pos, 7nat, 0nat,
{
    if reaching.len() > 0 {
        node_events(b, pos, reaching, ctx, depth, env)
    } else if wants_whole(hits) {
        passed_region(b, pos, ctx.demanded(), ctx, depth)
    } else {
        passed_region(b, pos, ctx.unread(), ctx, depth)
    }
}

/// Events of an array's walk: its elements', then those of the elements walked
/// again once the length is known.
pub open spec fn array_events(
    b: Seq<u8>,
    start: int,
    hits: Seq<DemandModel>,
    answered: Seq<MarkModel>,
    ctx: WalkCtx,
    depth: int,
    env: Env,
) -> Seq<TraceEvent>
    decreases b.len() - start, 4nat, 0nat,
{
    if start >= b.len() {
        Seq::empty()
    } else if all_rows(hits) {
        rows_events(b, start + 1, true, hits, ctx, depth + 1)
    } else {
        let prefix = if env.may_stop {
            prefix_window(hits)
        } else {
            None
        };
        let first = ArrayState {
            pos: start + 1,
            idx: 0,
            spans: Seq::empty(),
            marks: opened(hits, answered),
            stopped: false,
        };
        elements_events(b, first, hits, ctx, depth + 1, prefix) + (match elements(
            b,
            first,
            hits,
            ctx,
            depth + 1,
            prefix,
        ) {
            Err(_) => Seq::empty(),
            Ok(st) => finish_array_events(b, start, hits, hits.len(), st, ctx, depth, env),
        })
    }
}

/// Events of the elements from a state on: the stop where the window is full.
pub open spec fn elements_events(
    b: Seq<u8>,
    st: ArrayState,
    hits: Seq<DemandModel>,
    ctx: WalkCtx,
    depth: int,
    prefix: Option<int>,
) -> Seq<TraceEvent>
    decreases b.len() - st.pos, 8nat, 0nat,
{
    if prefix is Some && st.idx >= prefix->0 {
        seq![TraceEvent::Stop { offset: st.pos as usize }]
    } else {
        match next_at(b, st.pos, ctx.dialect, RBRACKET, st.idx == 0) {
            Ok(NextAt::Item(p)) => {
                let opts = array_hits(hits, st.idx);
                if st.pos <= p <= b.len() {
                    match child(b, p, kept(opts), hits, ctx, depth, element_env()) {
                        Err(_) => Seq::empty(),
                        Ok(w) => if p < w.end <= b.len() {
                            child_events(b, p, kept(opts), hits, ctx, depth, element_env()) + elements_events(
                                b,
                                next_element(st, hits, opts, w, p),
                                hits,
                                ctx,
                                depth,
                                prefix,
                            )
                        } else {
                            Seq::empty()
                        },
                    }
                } else {
                    Seq::empty()
                }
            },
            _ => Seq::empty(),
        }
    }
}

/// Events of the first `n` hits' marks at an array's end.
pub open spec fn finish_array_events(
    b: Seq<u8>,
    start: int,
    hits: Seq<DemandModel>,
    n: nat,
    st: ArrayState,
    ctx: WalkCtx,
    depth: int,
    env: Env,
) -> Seq<TraceEvent>
    decreases b.len() - start, 3nat, n,
{
    if n == 0 {
        Seq::empty()
    } else {
        let spans = spans_for(hits[n - 1], st.spans);
        finish_array_events(b, start, hits, (n - 1) as nat, st, ctx, depth, env) + array_mark_events(
            b,
            start,
            hits[n - 1],
            st.marks[n - 1],
            spans,
            st.idx,
            ctx,
            depth,
            env,
        )
    }
}

/// Events of one hit's mark at an array's end: those of what it walks again.
pub open spec fn array_mark_events(
    b: Seq<u8>,
    start: int,
    h: DemandModel,
    mark: MarkModel,
    spans: Seq<ByteRange>,
    len: int,
    ctx: WalkCtx,
    depth: int,
    env: Env,
) -> Seq<TraceEvent>
    decreases b.len() - start, 2nat, 0nat,
{
    match h {
        DemandModel::Path { steps, nested } => if !(mark is Missing) || steps.len() == 0 {
            Seq::empty()
        } else {
            match steps[0] {
                StepModel::Key(_) => Seq::empty(),
                StepModel::Index(i) => match resolved(len, i as int) {
                    Some(k) => if k < spans.len() {
                        replay_events(b, start, spans[k], after_step(steps, nested), ctx, depth, env.element)
                    } else {
                        Seq::empty()
                    },
                    None => Seq::empty(),
                },
            }
        },
        DemandModel::Slice { range, nested } => if slice_replays(h) {
            window_events(b, start, spans, range.from(len), range.to(len), nested_or_whole(nested), ctx, depth)
        } else {
            Seq::empty()
        },
        DemandModel::Project { path, fields } => if path.len() > 0 && (mark is Missing || mark is Mismatch) {
            index_spine_events(
                b,
                start,
                path,
                DemandModel::Project { path: path.skip(1), fields },
                spans,
                len,
                ctx,
                depth,
                env,
            )
        } else {
            Seq::empty()
        },
        DemandModel::Filter { path, predicate, project } => if path.len() > 0 && (mark is Missing
            || mark is Mismatch) {
            index_spine_events(
                b,
                start,
                path,
                DemandModel::Filter { path: path.skip(1), predicate, project },
                spans,
                len,
                ctx,
                depth,
                env,
            )
        } else {
            Seq::empty()
        },
        _ => Seq::empty(),
    }
}

/// Events of the elements from `i` to `to` walked again.
pub open spec fn window_events(
    b: Seq<u8>,
    start: int,
    spans: Seq<ByteRange>,
    i: int,
    to: int,
    h: DemandModel,
    ctx: WalkCtx,
    depth: int,
) -> Seq<TraceEvent>
    decreases b.len() - start, 1nat, to - i,
{
    if 0 <= i < to && i < spans.len() {
        replay_events(b, start, spans[i], h, ctx, depth, true) + window_events(
            b,
            start,
            spans,
            i + 1,
            to,
            h,
            ctx,
            depth,
        )
    } else {
        Seq::empty()
    }
}

/// Events of the element that an index spine walks again.
pub open spec fn index_spine_events(
    b: Seq<u8>,
    start: int,
    path: Seq<StepModel>,
    inner: DemandModel,
    spans: Seq<ByteRange>,
    len: int,
    ctx: WalkCtx,
    depth: int,
    env: Env,
) -> Seq<TraceEvent>
    decreases b.len() - start, 1nat, 0nat,
{
    match path[0] {
        StepModel::Key(_) => Seq::empty(),
        StepModel::Index(i) => match resolved(len, i as int) {
            None => Seq::empty(),
            Some(k) => if k < spans.len() {
                replay_events(b, start, spans[k], inner, ctx, depth, path.len() == 1 || env.element)
            } else {
                Seq::empty()
            },
        },
    }
}

/// Events of a value walked again.
pub open spec fn replay_events(
    b: Seq<u8>,
    start: int,
    elem: ByteRange,
    h: DemandModel,
    ctx: WalkCtx,
    depth: int,
    element: bool,
) -> Seq<TraceEvent>
    decreases b.len() - start, 0nat, 0nat,
{
    if start < elem.start <= b.len() {
        node_events(b, elem.start as int, seq![h], ctx, depth, Env { element, may_stop: false, lane: false })
    } else {
        Seq::empty()
    }
}

/// Events of an object's walk: its members'.
pub open spec fn object_events(
    b: Seq<u8>,
    start: int,
    hits: Seq<DemandModel>,
    answered: Seq<MarkModel>,
    ctx: WalkCtx,
    depth: int,
    env: Env,
) -> Seq<TraceEvent>
    decreases b.len() - start, 4nat, 0nat,
{
    if start >= b.len() {
        Seq::empty()
    } else if env.lane && all_rows(hits) {
        row_members_events(b, start + 1, true, hits, ctx, depth + 1)
    } else {
        let first = MemberState {
            pos: start + 1,
            first: true,
            marks: answered,
            members: Seq::empty(),
            stopped: false,
        };
        members_events(b, first, hits, ctx, depth + 1, env)
    }
}

/// Events of the members from a state on.
pub open spec fn members_events(
    b: Seq<u8>,
    st: MemberState,
    hits: Seq<DemandModel>,
    ctx: WalkCtx,
    depth: int,
    env: Env,
) -> Seq<TraceEvent>
    decreases b.len() - st.pos, 8nat, 0nat,
{
    if st.stopped {
        Seq::empty()
    } else {
        match next_at(b, st.pos, ctx.dialect, RBRACE, st.first) {
            Ok(NextAt::Item(p)) => match key_text(b, p, ctx.dialect) {
                Err(_) => Seq::empty(),
                Ok((key_end, name)) => match after_colon(b, key_end, ctx.dialect) {
                    Err(_) => Seq::empty(),
                    Ok(v) => {
                        let opts = object_hits(hits, name);
                        if st.pos < v <= b.len() {
                            match child(b, v, kept(opts), hits, ctx, depth, member_env(env, opts, hits)) {
                                Err(_) => Seq::empty(),
                                Ok(w) => if v < w.end <= b.len() {
                                    child_events(b, v, kept(opts), hits, ctx, depth, member_env(env, opts, hits))
                                        + members_events(
                                        b,
                                        next_member(st, hits, opts, name, w, v),
                                        hits,
                                        ctx,
                                        depth,
                                        env,
                                    )
                                } else {
                                    Seq::empty()
                                },
                            }
                        } else {
                            Seq::empty()
                        }
                    },
                },
            },
            _ => Seq::empty(),
        }
    }
}

/// Events of the elements from `pos` on, read as rows.
pub open spec fn rows_events(
    b: Seq<u8>,
    pos: int,
    first: bool,
    hits: Seq<DemandModel>,
    ctx: WalkCtx,
    depth: int,
) -> Seq<TraceEvent>
    decreases b.len() - pos,
{
    match next_at(b, pos, ctx.dialect, RBRACKET, first) {
        Ok(NextAt::Item(p)) => match row_element(b, p, hits, ctx, depth) {
            Err(_) => Seq::empty(),
            Ok((e, _)) => if pos <= p < e <= b.len() {
                row_element_events(b, p, hits, ctx, depth) + rows_events(b, e, false, hits, ctx, depth)
            } else {
                Seq::empty()
            },
        },
        _ => Seq::empty(),
    }
}

/// Events of one element read as a row.
pub open spec fn row_element_events(
    b: Seq<u8>,
    p: int,
    hits: Seq<DemandModel>,
    ctx: WalkCtx,
    depth: int,
) -> Seq<TraceEvent> {
    if p < b.len() && b[p] == LBRACE {
        row_members_events(b, p + 1, true, hits, ctx, depth + 1)
    } else {
        passed_region(b, p, ctx.unread(), ctx, depth)
    }
}

/// Events of the members from `pos` on, read as a row: each value is passed over.
pub open spec fn row_members_events(
    b: Seq<u8>,
    pos: int,
    first: bool,
    hits: Seq<DemandModel>,
    ctx: WalkCtx,
    depth: int,
) -> Seq<TraceEvent>
    decreases b.len() - pos,
{
    match next_at(b, pos, ctx.dialect, RBRACE, first) {
        Ok(NextAt::Item(p)) => match key_text(b, p, ctx.dialect) {
            Err(_) => Seq::empty(),
            Ok((key_end, name)) => match after_colon(b, key_end, ctx.dialect) {
                Err(_) => Seq::empty(),
                Ok(v) => match value_end(b, v, ctx.under(row_check(hits, name, ctx)), depth) {
                    Err(_) => Seq::empty(),
                    Ok(e) => if pos < e <= b.len() {
                        region(v, e, row_check(hits, name, ctx)) + row_members_events(b, e, false, hits, ctx, depth)
                    } else {
                        Seq::empty()
                    },
                },
            },
        },
        _ => Seq::empty(),
    }
}

} // verus!
