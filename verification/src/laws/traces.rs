//! A trace is settled by the source and the request.

use vstd::prelude::*;

use crate::answer::AnswerModel;
use crate::ascii::{RBRACE, RBRACKET};
use crate::demand::{nested_or_whole, DemandModel, StepModel};
use crate::error::Error;
use crate::lex::key_text;
use crate::lex::skip::{after_colon, next_at, scalar, Check, NextAt};
use crate::lex::ws::trivia_end;
use crate::framing::text_start;
use crate::scan::{mark_events, root_env, text_walk, traces, walk_events, Ask, JsonInput};
use crate::trace::{stops_in, tallies_join, Trace, TraceEvent};
use crate::value::{resolved, ByteRange, ValueKind};
use crate::walk::events::{
    array_events, array_mark_events, body_events, child_events, elements_events, finish_array_events,
    index_spine_events, members_events, node_events, object_events,
    oracles_regions, passed_region, region, replay_events, row_element_events, row_members_events,
    rows_events, window_events,
};
use crate::walk::marks::{folded, BatchModel, MarkModel, Shape};
use crate::walk::model::{
    after_step, all_rows, array, array_hits, beside, beside_marks, spans_for, array_mark, child, element_env, elements, element_array, enters, finish_array,
    flat, index_spine, kept, kind_at, located, member_env, members, next_element,
    next_member, node, node_of, object, object_hits, one_element, only_located, opened, oracles, prefix_window, replay,
    replay_window, row_check, row_element, slice_replays, ArrayState, Env, MemberState, WalkCtx, Walked,
};

verus! {

/// Two traces of one request on one source record the same events and count the same,
/// polls aside, whether or not a control was polled.
pub proof fn a_trace_repeats(
    one: Trace,
    other: Trace,
    walked: (Seq<TraceEvent>, Seq<TraceEvent>),
    answers: Seq<AnswerModel>,
    controlled: (bool, bool),
)
    requires
        traces(one, walked, answers, true, controlled.0),
        traces(other, walked, answers, true, controlled.1),
    ensures
        one.events@ == other.events@,
        one.counters.demands == other.counters.demands,
        one.counters.answered == other.counters.answered,
        one.counters.skips == other.counters.skips,
        one.counters.skipped_bytes == other.counters.skipped_bytes,
        one.counters.stops == other.counters.stops,
{
}

/// Whether events hold one stop, at `end`, when a walk was stopped, and none otherwise.
pub open spec fn one_stop(events: Seq<TraceEvent>, stopped: bool, end: int) -> bool {
    &&& stops_in(events) == (if stopped {
        1nat
    } else {
        0
    })
    &&& stopped ==> events.contains(TraceEvent::Stop { offset: end as usize })
}

/// Whether an accepted walk is told by its events, and stopped only where it may.
pub open spec fn told(walked: Result<Walked, Error>, events: Seq<TraceEvent>, may_stop: bool) -> bool {
    walked matches Ok(w) ==> one_stop(events, w.stopped, w.end) && (w.stopped ==> may_stop)
}

proof fn nothing_is_quiet()
    ensures
        stops_in(Seq::empty()) == 0,
{
}

proof fn region_is_quiet(start: int, end: int, check: Check)
    ensures
        stops_in(region(start, end, check)) == 0,
{
    let events = region(start, end, check);
    assert(events.drop_last() =~= Seq::empty());
    nothing_is_quiet();
}

proof fn passed_is_quiet(b: Seq<u8>, pos: int, check: Check, ctx: WalkCtx, depth: int)
    ensures
        stops_in(passed_region(b, pos, check, ctx, depth)) == 0,
{
    nothing_is_quiet();
    if let Ok(e) = crate::lex::skip::value_end(b, pos, ctx.under(check), depth) {
        region_is_quiet(pos, e, check);
    }
}

proof fn oracles_are_quiet(
    b: Seq<u8>,
    start: int,
    kind: ValueKind,
    hits: Seq<DemandModel>,
    n: nat,
    entering: bool,
    ctx: WalkCtx,
    depth: int,
)
    ensures
        stops_in(oracles_regions(b, start, kind, hits, n, entering, ctx, depth)) == 0,
    decreases n,
{
    nothing_is_quiet();
    if n > 0 {
        oracles_are_quiet(b, start, kind, hits, (n - 1) as nat, entering, ctx, depth);
        let done = oracles_regions(b, start, kind, hits, (n - 1) as nat, entering, ctx, depth);
        match hits[n - 1] {
            DemandModel::Oracle(o) => {
                oracle_is_quiet(b, start, kind, o, entering, ctx, depth);
                tallies_join(done, crate::walk::events::oracle_regions(b, start, kind, o, entering, ctx, depth));
            },
            _ => {
                tallies_join(done, Seq::empty());
            },
        }
    }
}

proof fn oracle_is_quiet(
    b: Seq<u8>,
    start: int,
    kind: ValueKind,
    o: crate::demand::OracleModel,
    entering: bool,
    ctx: WalkCtx,
    depth: int,
)
    ensures
        stops_in(crate::walk::events::oracle_regions(b, start, kind, o, entering, ctx, depth)) == 0,
{
    nothing_is_quiet();
    assert forall|e: int, check: Check| stops_in(#[trigger] region(start, e, check)) == 0 by {
        region_is_quiet(start, e, check);
    }
}

proof fn row_members_are_quiet(b: Seq<u8>, pos: int, first: bool, hits: Seq<DemandModel>, ctx: WalkCtx, depth: int)
    ensures
        stops_in(row_members_events(b, pos, first, hits, ctx, depth)) == 0,
    decreases b.len() - pos,
{
    nothing_is_quiet();
    if let Ok(NextAt::Item(p)) = next_at(b, pos, ctx.dialect, RBRACE, first) {
        if let Ok((key_end, name)) = key_text(b, p, ctx.dialect) {
            if let Ok(v) = after_colon(b, key_end, ctx.dialect) {
                let check = row_check(hits, name, ctx);
                if let Ok(e) = crate::lex::skip::value_end(b, v, ctx.under(check), depth) {
                    if pos < e <= b.len() {
                        region_is_quiet(v, e, check);
                        row_members_are_quiet(b, e, false, hits, ctx, depth);
                        tallies_join(region(v, e, check), row_members_events(b, e, false, hits, ctx, depth));
                    }
                }
            }
        }
    }
}

proof fn rows_are_quiet(b: Seq<u8>, pos: int, first: bool, hits: Seq<DemandModel>, ctx: WalkCtx, depth: int)
    ensures
        stops_in(rows_events(b, pos, first, hits, ctx, depth)) == 0,
    decreases b.len() - pos,
{
    nothing_is_quiet();
    if let Ok(NextAt::Item(p)) = next_at(b, pos, ctx.dialect, RBRACKET, first) {
        if let Ok((e, _)) = row_element(b, p, hits, ctx, depth) {
            if pos <= p < e <= b.len() {
                row_members_are_quiet(b, p + 1, true, hits, ctx, depth + 1);
                passed_is_quiet(b, p, ctx.unread(), ctx, depth);
                rows_are_quiet(b, e, false, hits, ctx, depth);
                tallies_join(
                    row_element_events(b, p, hits, ctx, depth),
                    rows_events(b, e, false, hits, ctx, depth),
                );
            }
        }
    }
}

/// Quiet events before a walk's tell the same of it.
proof fn quiet_then(quiet: Seq<TraceEvent>, events: Seq<TraceEvent>, stopped: bool, end: int)
    requires
        stops_in(quiet) == 0,
        one_stop(events, stopped, end),
    ensures
        one_stop(quiet + events, stopped, end),
{
    tallies_join(quiet, events);
    if stopped {
        let stop = TraceEvent::Stop { offset: end as usize };
        let i = choose|i: int| 0 <= i < events.len() && events[i] == stop;
        assert((quiet + events)[quiet.len() + i] == stop);
    }
}

/// Quiet events behind a walk's tell the same of it.
proof fn then_quiet(events: Seq<TraceEvent>, quiet: Seq<TraceEvent>, stopped: bool, end: int)
    requires
        stops_in(quiet) == 0,
        one_stop(events, stopped, end),
    ensures
        one_stop(events + quiet, stopped, end),
{
    tallies_join(events, quiet);
    if stopped {
        let stop = TraceEvent::Stop { offset: end as usize };
        let i = choose|i: int| 0 <= i < events.len() && events[i] == stop;
        assert((events + quiet)[i] == stop);
    }
}

proof fn stop_is_one(end: int)
    ensures
        one_stop(seq![TraceEvent::Stop { offset: end as usize }], true, end),
{
    let stop = TraceEvent::Stop { offset: end as usize };
    let events = seq![stop];
    assert(events.drop_last() =~= Seq::empty());
    assert(events[0] == stop);
    nothing_is_quiet();
}

#[verifier::opaque]
spec fn node_walk(
    b: Seq<u8>,
    pos: int,
    hits: Seq<DemandModel>,
    ctx: WalkCtx,
    depth: int,
    env: Env,
) -> Result<Walked, Error> {
    node(b, pos, hits, ctx, depth, env)
}

#[verifier::opaque]
spec fn node_tale(
    b: Seq<u8>,
    pos: int,
    hits: Seq<DemandModel>,
    ctx: WalkCtx,
    depth: int,
    env: Env,
) -> Seq<TraceEvent> {
    node_events(b, pos, hits, ctx, depth, env)
}

#[verifier::opaque]
spec fn child_walk(
    b: Seq<u8>,
    pos: int,
    reaching: Seq<DemandModel>,
    hits: Seq<DemandModel>,
    ctx: WalkCtx,
    depth: int,
    env: Env,
) -> Result<Walked, Error> {
    child(b, pos, reaching, hits, ctx, depth, env)
}

#[verifier::opaque]
spec fn child_tale(
    b: Seq<u8>,
    pos: int,
    reaching: Seq<DemandModel>,
    hits: Seq<DemandModel>,
    ctx: WalkCtx,
    depth: int,
    env: Env,
) -> Seq<TraceEvent> {
    child_events(b, pos, reaching, hits, ctx, depth, env)
}

#[verifier::opaque]
spec fn replay_walk(
    b: Seq<u8>,
    start: int,
    elem: ByteRange,
    h: DemandModel,
    ctx: WalkCtx,
    depth: int,
    element: bool,
) -> Result<MarkModel, Error> {
    replay(b, start, elem, h, ctx, depth, element)
}

#[verifier::opaque]
spec fn replay_tale(
    b: Seq<u8>,
    start: int,
    elem: ByteRange,
    h: DemandModel,
    ctx: WalkCtx,
    depth: int,
    element: bool,
) -> Seq<TraceEvent> {
    replay_events(b, start, elem, h, ctx, depth, element)
}

#[verifier::opaque]
spec fn elements_walk(
    b: Seq<u8>,
    st: ArrayState,
    hits: Seq<DemandModel>,
    ctx: WalkCtx,
    depth: int,
    need: Option<int>,
) -> Result<ArrayState, Error> {
    elements(b, st, hits, ctx, depth, need)
}

#[verifier::opaque]
spec fn elements_tale(
    b: Seq<u8>,
    st: ArrayState,
    hits: Seq<DemandModel>,
    ctx: WalkCtx,
    depth: int,
    need: Option<int>,
) -> Seq<TraceEvent> {
    elements_events(b, st, hits, ctx, depth, need)
}

#[verifier::opaque]
spec fn members_walk(
    b: Seq<u8>,
    st: MemberState,
    hits: Seq<DemandModel>,
    ctx: WalkCtx,
    depth: int,
    env: Env,
) -> Result<MemberState, Error> {
    members(b, st, hits, ctx, depth, env)
}

#[verifier::opaque]
spec fn members_tale(
    b: Seq<u8>,
    st: MemberState,
    hits: Seq<DemandModel>,
    ctx: WalkCtx,
    depth: int,
    env: Env,
) -> Seq<TraceEvent> {
    members_events(b, st, hits, ctx, depth, env)
}

#[verifier::opaque]
spec fn array_end(
    b: Seq<u8>,
    start: int,
    hits: Seq<DemandModel>,
    n: nat,
    st: ArrayState,
    ctx: WalkCtx,
    depth: int,
    env: Env,
) -> Result<Seq<MarkModel>, Error> {
    finish_array(b, start, hits, n, st, ctx, depth, env)
}

#[verifier::opaque]
spec fn array_end_tale(
    b: Seq<u8>,
    start: int,
    hits: Seq<DemandModel>,
    n: nat,
    st: ArrayState,
    ctx: WalkCtx,
    depth: int,
    env: Env,
) -> Seq<TraceEvent> {
    finish_array_events(b, start, hits, n, st, ctx, depth, env)
}

#[verifier::opaque]
spec fn array_hit(
    b: Seq<u8>,
    start: int,
    h: DemandModel,
    mark: MarkModel,
    spans: Seq<ByteRange>,
    st: ArrayState,
    ctx: WalkCtx,
    depth: int,
    env: Env,
) -> Result<MarkModel, Error> {
    array_mark(b, start, h, mark, spans, st, ctx, depth, env)
}

#[verifier::opaque]
spec fn array_hit_tale(
    b: Seq<u8>,
    start: int,
    h: DemandModel,
    mark: MarkModel,
    spans: Seq<ByteRange>,
    st: ArrayState,
    ctx: WalkCtx,
    depth: int,
    env: Env,
) -> Seq<TraceEvent> {
    array_mark_events(b, start, h, mark, spans, st.idx, ctx, depth, env)
}

#[verifier::opaque]
spec fn array_walk(
    b: Seq<u8>,
    start: int,
    hits: Seq<DemandModel>,
    answered: Seq<MarkModel>,
    ctx: WalkCtx,
    depth: int,
    env: Env,
) -> Result<Walked, Error> {
    array(b, start, hits, answered, ctx, depth, env)
}

#[verifier::opaque]
spec fn array_tale(
    b: Seq<u8>,
    start: int,
    hits: Seq<DemandModel>,
    answered: Seq<MarkModel>,
    ctx: WalkCtx,
    depth: int,
    env: Env,
) -> Seq<TraceEvent> {
    array_events(b, start, hits, answered, ctx, depth, env)
}

#[verifier::opaque]
spec fn object_walk(
    b: Seq<u8>,
    start: int,
    hits: Seq<DemandModel>,
    answered: Seq<MarkModel>,
    ctx: WalkCtx,
    depth: int,
    env: Env,
) -> Result<Walked, Error> {
    object(b, start, hits, answered, ctx, depth, env)
}

#[verifier::opaque]
spec fn object_tale(
    b: Seq<u8>,
    start: int,
    hits: Seq<DemandModel>,
    answered: Seq<MarkModel>,
    ctx: WalkCtx,
    depth: int,
    env: Env,
) -> Seq<TraceEvent> {
    object_events(b, start, hits, answered, ctx, depth, env)
}

/// Whether a value is walked again without a stop.
spec fn replays_quietly(b: Seq<u8>, start: int, ctx: WalkCtx, depth: int) -> bool {
    forall|elem: ByteRange, h: DemandModel, element: bool|
        replay_walk(b, start, elem, h, ctx, depth, element) is Ok ==> stops_in(
            #[trigger] replay_tale(b, start, elem, h, ctx, depth, element),
        ) == 0
}

proof fn replay_is_quiet(
    b: Seq<u8>,
    start: int,
    elem: ByteRange,
    h: DemandModel,
    ctx: WalkCtx,
    depth: int,
    element: bool,
)
    ensures
        replay_walk(b, start, elem, h, ctx, depth, element) is Ok ==> stops_in(
            replay_tale(b, start, elem, h, ctx, depth, element),
        ) == 0,
    decreases b.len() - start, 0nat, 0nat,
{
    reveal(replay_walk);
    reveal(replay_tale);
    reveal(node_walk);
    reveal(node_tale);
    nothing_is_quiet();
    if start < elem.start <= b.len() {
        node_is_told(b, elem.start as int, seq![h], ctx, depth, Env { element, may_stop: false, lane: false });
    }
}

proof fn replays_are_quiet(b: Seq<u8>, start: int, ctx: WalkCtx, depth: int)
    ensures
        replays_quietly(b, start, ctx, depth),
    decreases b.len() - start, 0nat, 1nat,
{
    assert forall|elem: ByteRange, h: DemandModel, element: bool|
        replay_walk(b, start, elem, h, ctx, depth, element) is Ok implies stops_in(
        #[trigger] replay_tale(b, start, elem, h, ctx, depth, element),
    ) == 0 by {
        replay_is_quiet(b, start, elem, h, ctx, depth, element);
    }
}

/// A window walked again is quiet.
proof fn window_is_quiet(
    b: Seq<u8>,
    start: int,
    spans: Seq<ByteRange>,
    i: int,
    to: int,
    h: DemandModel,
    shape: Shape,
    acc: BatchModel,
    ctx: WalkCtx,
    depth: int,
)
    requires
        replays_quietly(b, start, ctx, depth),
        replay_window(b, start, spans, i, to, h, shape, acc, ctx, depth) is Ok,
    ensures
        stops_in(window_events(b, start, spans, i, to, h, ctx, depth)) == 0,
    decreases to - i,
{
    nothing_is_quiet();
    if 0 <= i < to && i < spans.len() {
        assert(replay_walk(b, start, spans[i], h, ctx, depth, true) == replay(b, start, spans[i], h, ctx, depth, true)) by {
            reveal(replay_walk);
        }
        assert(replay_tale(b, start, spans[i], h, ctx, depth, true) == replay_events(
            b,
            start,
            spans[i],
            h,
            ctx,
            depth,
            true,
        )) by {
            reveal(replay_tale);
        }
        let mark = replay(b, start, spans[i], h, ctx, depth, true)->Ok_0;
        window_is_quiet(b, start, spans, i + 1, to, h, shape, folded(acc, shape, mark, spans[i]), ctx, depth);
        tallies_join(
            replay_events(b, start, spans[i], h, ctx, depth, true),
            window_events(b, start, spans, i + 1, to, h, ctx, depth),
        );
    }
}

/// Whether events are none, or those of one value walked again.
spec fn retold(events: Seq<TraceEvent>, b: Seq<u8>, start: int, ctx: WalkCtx, depth: int) -> bool {
    events.len() == 0 || exists|elem: ByteRange, h: DemandModel, element: bool|
        replay_walk(b, start, elem, h, ctx, depth, element) is Ok && events == #[trigger] replay_tale(
            b,
            start,
            elem,
            h,
            ctx,
            depth,
            element,
        )
}

proof fn retold_is_quiet(events: Seq<TraceEvent>, b: Seq<u8>, start: int, ctx: WalkCtx, depth: int)
    requires
        replays_quietly(b, start, ctx, depth),
        retold(events, b, start, ctx, depth),
    ensures
        stops_in(events) == 0,
{
    if events.len() == 0 {
        assert(events =~= Seq::empty());
        nothing_is_quiet();
    }
}

#[verifier::opaque]
spec fn index_hit(
    b: Seq<u8>,
    start: int,
    path: Seq<StepModel>,
    inner: DemandModel,
    mark: MarkModel,
    spans: Seq<ByteRange>,
    len: int,
    ctx: WalkCtx,
    depth: int,
    env: Env,
) -> Result<MarkModel, Error> {
    index_spine(b, start, path, inner, mark, spans, len, ctx, depth, env)
}

#[verifier::opaque]
spec fn index_hit_tale(
    b: Seq<u8>,
    start: int,
    path: Seq<StepModel>,
    inner: DemandModel,
    mark: MarkModel,
    spans: Seq<ByteRange>,
    len: int,
    ctx: WalkCtx,
    depth: int,
    env: Env,
) -> Seq<TraceEvent> {
    index_spine_events(b, start, path, inner, spans, len, ctx, depth, env)
}

#[verifier::opaque]
spec fn window_hit(
    b: Seq<u8>,
    start: int,
    spans: Seq<ByteRange>,
    i: int,
    to: int,
    h: DemandModel,
    shape: Shape,
    acc: BatchModel,
    ctx: WalkCtx,
    depth: int,
) -> Result<MarkModel, Error> {
    replay_window(b, start, spans, i, to, h, shape, acc, ctx, depth)
}

#[verifier::opaque]
spec fn window_tale(
    b: Seq<u8>,
    start: int,
    spans: Seq<ByteRange>,
    i: int,
    to: int,
    h: DemandModel,
    ctx: WalkCtx,
    depth: int,
) -> Seq<TraceEvent> {
    window_events(b, start, spans, i, to, h, ctx, depth)
}

proof fn index_hit_is_retold(
    b: Seq<u8>,
    start: int,
    path: Seq<StepModel>,
    inner: DemandModel,
    mark: MarkModel,
    spans: Seq<ByteRange>,
    len: int,
    ctx: WalkCtx,
    depth: int,
    env: Env,
)
    ensures
        index_hit(b, start, path, inner, mark, spans, len, ctx, depth, env) is Ok ==> retold(
            index_hit_tale(b, start, path, inner, mark, spans, len, ctx, depth, env),
            b,
            start,
            ctx,
            depth,
        ),
{
    reveal(index_hit);
    reveal(index_hit_tale);
    if index_spine(b, start, path, inner, mark, spans, len, ctx, depth, env) is Ok {
        if let StepModel::Index(i) = path[0] {
            if let Some(k) = resolved(len, i as int) {
                if k < spans.len() {
                    let element = path.len() == 1 || env.element;
                    assert(replay_walk(b, start, spans[k], inner, ctx, depth, element) is Ok) by {
                        reveal(replay_walk);
                    }
                    assert(replay_tale(b, start, spans[k], inner, ctx, depth, element) == index_hit_tale(
                        b,
                        start,
                        path,
                        inner,
                        mark,
                        spans,
                        len,
                        ctx,
                        depth,
                        env,
                    )) by {
                        reveal(replay_tale);
                    }
                }
            }
        }
    }
}

/// A path's end at an array.
proof fn path_hit_is_retold(
    b: Seq<u8>,
    start: int,
    h: DemandModel,
    mark: MarkModel,
    spans: Seq<ByteRange>,
    st: ArrayState,
    ctx: WalkCtx,
    depth: int,
    env: Env,
)
    requires
        h is Path,
        array_hit(b, start, h, mark, spans, st, ctx, depth, env) is Ok,
    ensures
        retold(array_hit_tale(b, start, h, mark, spans, st, ctx, depth, env), b, start, ctx, depth),
{
    reveal(array_hit);
    reveal(array_hit_tale);
    if let DemandModel::Path { steps, nested } = h {
        if mark is Missing && steps.len() > 0 {
            if let StepModel::Index(i) = steps[0] {
                if let Some(k) = resolved(st.idx, i as int) {
                    if k < spans.len() {
                        let d = after_step(steps, nested);
                        assert(replay_walk(b, start, spans[k], d, ctx, depth, env.element) is Ok) by {
                            reveal(replay_walk);
                        }
                        assert(replay_tale(b, start, spans[k], d, ctx, depth, env.element) == array_hit_tale(
                            b,
                            start,
                            h,
                            mark,
                            spans,
                            st,
                            ctx,
                            depth,
                            env,
                        )) by {
                            reveal(replay_tale);
                        }
                    }
                }
            }
        }
    }
}

/// A row demand's end at an array.
proof fn spine_hit_unfolds(
    b: Seq<u8>,
    start: int,
    h: DemandModel,
    mark: MarkModel,
    spans: Seq<ByteRange>,
    st: ArrayState,
    ctx: WalkCtx,
    depth: int,
    env: Env,
)
    requires
        h is Project || h is Filter,
        array_hit(b, start, h, mark, spans, st, ctx, depth, env) is Ok,
    ensures
        array_hit_tale(b, start, h, mark, spans, st, ctx, depth, env).len() == 0 || exists|path: Seq<StepModel>, inner: DemandModel|
            index_hit(b, start, path, inner, mark, spans, st.idx, ctx, depth, env) is Ok && array_hit_tale(
                b,
                start,
                h,
                mark,
                spans,
                st,
                ctx,
                depth,
                env,
            ) == #[trigger] index_hit_tale(b, start, path, inner, mark, spans, st.idx, ctx, depth, env),
{
    reveal(array_hit);
    reveal(array_hit_tale);
    reveal(index_hit);
    reveal(index_hit_tale);
    match h {
        DemandModel::Project { path, fields } => {
            let inner = DemandModel::Project { path: path.skip(1), fields };
            if path.len() > 0 && (mark is Missing || mark is Mismatch) {
                assert(index_hit(b, start, path, inner, mark, spans, st.idx, ctx, depth, env) is Ok);
                assert(array_hit_tale(b, start, h, mark, spans, st, ctx, depth, env) == index_hit_tale(
                    b,
                    start,
                    path,
                    inner,
                    mark,
                    spans,
                    st.idx,
                    ctx,
                    depth,
                    env,
                ));
            }
        },
        DemandModel::Filter { path, predicate, project } => {
            let inner = DemandModel::Filter { path: path.skip(1), predicate, project };
            if path.len() > 0 && (mark is Missing || mark is Mismatch) {
                assert(index_hit(b, start, path, inner, mark, spans, st.idx, ctx, depth, env) is Ok);
                assert(array_hit_tale(b, start, h, mark, spans, st, ctx, depth, env) == index_hit_tale(
                    b,
                    start,
                    path,
                    inner,
                    mark,
                    spans,
                    st.idx,
                    ctx,
                    depth,
                    env,
                ));
            }
        },
        _ => {},
    }
}

/// A slice's end at an array.
proof fn slice_hit_unfolds(
    b: Seq<u8>,
    start: int,
    h: DemandModel,
    mark: MarkModel,
    spans: Seq<ByteRange>,
    st: ArrayState,
    ctx: WalkCtx,
    depth: int,
    env: Env,
)
    requires
        h is Slice,
        array_hit(b, start, h, mark, spans, st, ctx, depth, env) is Ok,
    ensures
        array_hit_tale(b, start, h, mark, spans, st, ctx, depth, env).len() == 0 || exists|i: int, to: int, d: DemandModel, shape: Shape, acc: BatchModel|
            #[trigger] window_hit(b, start, spans, i, to, d, shape, acc, ctx, depth) is Ok && array_hit_tale(
                b,
                start,
                h,
                mark,
                spans,
                st,
                ctx,
                depth,
                env,
            ) == window_tale(b, start, spans, i, to, d, ctx, depth),
{
    reveal(array_hit);
    reveal(array_hit_tale);
    reveal(window_hit);
    reveal(window_tale);
    if let DemandModel::Slice { range, nested } = h {
        if slice_replays(h) {
            let shape = crate::walk::marks::row_shape(h)->0;
            let empty = BatchModel { fields: crate::walk::marks::row_fields(shape), cells: Seq::empty() };
            let d = nested_or_whole(nested);
            assert(window_hit(b, start, spans, range.from(st.idx), range.to(st.idx), d, shape, empty, ctx, depth) is Ok);
        }
    }
}

/// One hit's end at an array is quiet.
proof fn array_hit_is_quiet(
    b: Seq<u8>,
    start: int,
    h: DemandModel,
    mark: MarkModel,
    spans: Seq<ByteRange>,
    st: ArrayState,
    ctx: WalkCtx,
    depth: int,
    env: Env,
)
    requires
        replays_quietly(b, start, ctx, depth),
    ensures
        array_hit(b, start, h, mark, spans, st, ctx, depth, env) is Ok ==> stops_in(
            array_hit_tale(b, start, h, mark, spans, st, ctx, depth, env),
        ) == 0,
{
    nothing_is_quiet();
    if array_hit(b, start, h, mark, spans, st, ctx, depth, env) is Ok {
        let tale = array_hit_tale(b, start, h, mark, spans, st, ctx, depth, env);
        if tale.len() == 0 {
            assert(tale =~= Seq::empty());
        } else if h is Path {
            path_hit_is_retold(b, start, h, mark, spans, st, ctx, depth, env);
            retold_is_quiet(tale, b, start, ctx, depth);
        } else if h is Project || h is Filter {
            spine_hit_unfolds(b, start, h, mark, spans, st, ctx, depth, env);
            let (path, inner) = choose|path: Seq<StepModel>, inner: DemandModel|
                index_hit(b, start, path, inner, mark, spans, st.idx, ctx, depth, env) is Ok && tale
                    == #[trigger] index_hit_tale(b, start, path, inner, mark, spans, st.idx, ctx, depth, env);
            index_hit_is_retold(b, start, path, inner, mark, spans, st.idx, ctx, depth, env);
            retold_is_quiet(tale, b, start, ctx, depth);
        } else if h is Slice {
            slice_hit_unfolds(b, start, h, mark, spans, st, ctx, depth, env);
            let (i, to, d, shape, acc) = choose|i: int, to: int, d: DemandModel, shape: Shape, acc: BatchModel|
                #[trigger] window_hit(b, start, spans, i, to, d, shape, acc, ctx, depth) is Ok && tale == window_tale(
                    b,
                    start,
                    spans,
                    i,
                    to,
                    d,
                    ctx,
                    depth,
                );
            reveal(window_hit);
            reveal(window_tale);
            window_is_quiet(b, start, spans, i, to, d, shape, acc, ctx, depth);
        } else {
            reveal(array_hit_tale);
        }
    }
}

proof fn array_end_unfolds(
    b: Seq<u8>,
    start: int,
    hits: Seq<DemandModel>,
    n: nat,
    st: ArrayState,
    ctx: WalkCtx,
    depth: int,
    env: Env,
)
    requires
        n > 0,
        array_end(b, start, hits, n, st, ctx, depth, env) is Ok,
    ensures
        ({
            let spans = spans_for(hits[n - 1], st.spans);
            &&& array_end(b, start, hits, (n - 1) as nat, st, ctx, depth, env) is Ok
            &&& array_hit(b, start, hits[n - 1], st.marks[n - 1], spans, st, ctx, depth, env) is Ok
            &&& array_end_tale(b, start, hits, n, st, ctx, depth, env) == array_end_tale(
                b,
                start,
                hits,
                (n - 1) as nat,
                st,
                ctx,
                depth,
                env,
            ) + array_hit_tale(b, start, hits[n - 1], st.marks[n - 1], spans, st, ctx, depth, env)
        }),
{
    reveal(array_end);
    reveal(array_end_tale);
    reveal(array_hit);
    reveal(array_hit_tale);
}

proof fn array_end_is_quiet(
    b: Seq<u8>,
    start: int,
    hits: Seq<DemandModel>,
    n: nat,
    st: ArrayState,
    ctx: WalkCtx,
    depth: int,
    env: Env,
)
    requires
        replays_quietly(b, start, ctx, depth),
    ensures
        array_end(b, start, hits, n, st, ctx, depth, env) is Ok ==> stops_in(
            array_end_tale(b, start, hits, n, st, ctx, depth, env),
        ) == 0,
    decreases n,
{
    nothing_is_quiet();
    if n == 0 {
        reveal(array_end_tale);
    } else if array_end(b, start, hits, n, st, ctx, depth, env) is Ok {
        let spans = spans_for(hits[n - 1], st.spans);
        array_end_unfolds(b, start, hits, n, st, ctx, depth, env);
        array_end_is_quiet(b, start, hits, (n - 1) as nat, st, ctx, depth, env);
        array_hit_is_quiet(b, start, hits[n - 1], st.marks[n - 1], spans, st, ctx, depth, env);
        tallies_join(
            array_end_tale(b, start, hits, (n - 1) as nat, st, ctx, depth, env),
            array_hit_tale(b, start, hits[n - 1], st.marks[n - 1], spans, st, ctx, depth, env),
        );
    }
}

proof fn elements_unfold(
    b: Seq<u8>,
    st: ArrayState,
    hits: Seq<DemandModel>,
    ctx: WalkCtx,
    depth: int,
    need: Option<int>,
)
    ensures
        prefix_reached(st, need) ==> elements_walk(b, st, hits, ctx, depth, need) == Ok::<ArrayState, Error>(
            (ArrayState { stopped: true, ..st }),
        ) && elements_tale(b, st, hits, ctx, depth, need) == seq![TraceEvent::Stop { offset: st.pos as usize }],
        !prefix_reached(st, need) ==> match next_at(b, st.pos, ctx.dialect, RBRACKET, st.idx == 0) {
            Err(_) => elements_walk(b, st, hits, ctx, depth, need) is Err,
            Ok(NextAt::Close(e)) => elements_walk(b, st, hits, ctx, depth, need) == Ok::<ArrayState, Error>(
                (ArrayState { pos: e, ..st }),
            ) && elements_tale(b, st, hits, ctx, depth, need) == Seq::<TraceEvent>::empty(),
            Ok(NextAt::Item(p)) => {
                let opts = array_hits(hits, st.idx);
                if st.pos <= p <= b.len() {
                    match child_walk(b, p, kept(opts), hits, ctx, depth, element_env()) {
                        Err(_) => elements_walk(b, st, hits, ctx, depth, need) is Err,
                        Ok(w) => if p < w.end <= b.len() {
                            let next = next_element(st, hits, opts, w, p);
                            elements_walk(b, st, hits, ctx, depth, need) == elements_walk(b, next, hits, ctx, depth, need)
                                && elements_tale(b, st, hits, ctx, depth, need) == child_tale(
                                b,
                                p,
                                kept(opts),
                                hits,
                                ctx,
                                depth,
                                element_env(),
                            ) + elements_tale(b, next, hits, ctx, depth, need)
                        } else {
                            elements_walk(b, st, hits, ctx, depth, need) == Ok::<ArrayState, Error>(st) && elements_tale(
                                b,
                                st,
                                hits,
                                ctx,
                                depth,
                                need,
                            ) == Seq::<TraceEvent>::empty()
                        },
                    }
                } else {
                    elements_walk(b, st, hits, ctx, depth, need) == Ok::<ArrayState, Error>(st) && elements_tale(
                        b,
                        st,
                        hits,
                        ctx,
                        depth,
                        need,
                    ) == Seq::<TraceEvent>::empty()
                }
            },
        },
{
    reveal(elements_walk);
    reveal(elements_tale);
    reveal(child_walk);
    reveal(child_tale);
}

spec fn prefix_reached(st: ArrayState, need: Option<int>) -> bool {
    need is Some && st.idx >= need->0
}

proof fn elements_are_told(
    b: Seq<u8>,
    st: ArrayState,
    hits: Seq<DemandModel>,
    ctx: WalkCtx,
    depth: int,
    need: Option<int>,
)
    requires
        !st.stopped,
    ensures
        elements_walk(b, st, hits, ctx, depth, need) matches Ok(last) ==> one_stop(
            elements_tale(b, st, hits, ctx, depth, need),
            last.stopped,
            last.pos,
        ) && (last.stopped ==> need is Some),
    decreases b.len() - st.pos, 8nat, 0nat,
{
    nothing_is_quiet();
    elements_unfold(b, st, hits, ctx, depth, need);
    if prefix_reached(st, need) {
        stop_is_one(st.pos);
    } else if let Ok(NextAt::Item(p)) = next_at(b, st.pos, ctx.dialect, RBRACKET, st.idx == 0) {
        let opts = array_hits(hits, st.idx);
        if st.pos <= p <= b.len() {
            child_is_told(b, p, kept(opts), hits, ctx, depth, element_env());
            if let Ok(w) = child_walk(b, p, kept(opts), hits, ctx, depth, element_env()) {
                if p < w.end <= b.len() {
                    let next = next_element(st, hits, opts, w, p);
                    elements_are_told(b, next, hits, ctx, depth, need);
                    if let Ok(last) = elements_walk(b, next, hits, ctx, depth, need) {
                        quiet_then(
                            child_tale(b, p, kept(opts), hits, ctx, depth, element_env()),
                            elements_tale(b, next, hits, ctx, depth, need),
                            last.stopped,
                            last.pos,
                        );
                    }
                }
            }
        }
    }
}

proof fn members_unfold(
    b: Seq<u8>,
    st: MemberState,
    hits: Seq<DemandModel>,
    ctx: WalkCtx,
    depth: int,
    env: Env,
)
    requires
        members_walk(b, st, hits, ctx, depth, env) is Ok,
    ensures
        st.stopped ==> members_walk(b, st, hits, ctx, depth, env) == Ok::<MemberState, Error>(st) && members_tale(
            b,
            st,
            hits,
            ctx,
            depth,
            env,
        ) == Seq::<TraceEvent>::empty(),
        !st.stopped ==> match next_at(b, st.pos, ctx.dialect, RBRACE, st.first) {
            Err(_) => false,
            Ok(NextAt::Close(e)) => members_walk(b, st, hits, ctx, depth, env) == Ok::<MemberState, Error>(
                (MemberState { pos: e, ..st }),
            ) && members_tale(b, st, hits, ctx, depth, env) == Seq::<TraceEvent>::empty(),
            Ok(NextAt::Item(p)) => match key_text(b, p, ctx.dialect) {
                Err(_) => false,
                Ok((key_end, name)) => match after_colon(b, key_end, ctx.dialect) {
                    Err(_) => false,
                    Ok(v) => {
                        let opts = object_hits(hits, name);
                        let inner = member_env(env, opts, hits);
                        if st.pos < v <= b.len() && (child_walk(b, v, kept(opts), hits, ctx, depth, inner) matches Ok(w) && v
                            < w.end <= b.len()) {
                            let w = child_walk(b, v, kept(opts), hits, ctx, depth, inner)->Ok_0;
                            let next = next_member(st, hits, opts, name, w, v);
                            members_walk(b, st, hits, ctx, depth, env) == members_walk(b, next, hits, ctx, depth, env)
                                && members_tale(b, st, hits, ctx, depth, env) == child_tale(
                                b,
                                v,
                                kept(opts),
                                hits,
                                ctx,
                                depth,
                                inner,
                            ) + members_tale(b, next, hits, ctx, depth, env)
                        } else {
                            members_walk(b, st, hits, ctx, depth, env) == Ok::<MemberState, Error>(st) && members_tale(
                                b,
                                st,
                                hits,
                                ctx,
                                depth,
                                env,
                            ) == Seq::<TraceEvent>::empty()
                        }
                    },
                },
            },
        },
{
    reveal(members_walk);
    reveal(members_tale);
    reveal(child_walk);
    reveal(child_tale);
}

proof fn members_are_told(
    b: Seq<u8>,
    st: MemberState,
    hits: Seq<DemandModel>,
    ctx: WalkCtx,
    depth: int,
    env: Env,
)
    requires
        !st.stopped,
    ensures
        members_walk(b, st, hits, ctx, depth, env) matches Ok(last) ==> one_stop(
            members_tale(b, st, hits, ctx, depth, env),
            last.stopped,
            last.pos,
        ) && (last.stopped ==> env.may_stop),
    decreases b.len() - st.pos, 8nat, 0nat,
{
    nothing_is_quiet();
    if members_walk(b, st, hits, ctx, depth, env) is Ok {
        members_unfold(b, st, hits, ctx, depth, env);
        if let Ok(NextAt::Item(p)) = next_at(b, st.pos, ctx.dialect, RBRACE, st.first) {
            if let Ok((key_end, name)) = key_text(b, p, ctx.dialect) {
                if let Ok(v) = after_colon(b, key_end, ctx.dialect) {
                    let opts = object_hits(hits, name);
                    let inner = member_env(env, opts, hits);
                    if st.pos < v <= b.len() {
                        child_is_told(b, v, kept(opts), hits, ctx, depth, inner);
                        if let Ok(w) = child_walk(b, v, kept(opts), hits, ctx, depth, inner) {
                            if v < w.end <= b.len() {
                                let next = next_member(st, hits, opts, name, w, v);
                                let head = child_tale(b, v, kept(opts), hits, ctx, depth, inner);
                                let tail = members_tale(b, next, hits, ctx, depth, env);
                                let last = members_walk(b, next, hits, ctx, depth, env)->Ok_0;
                                if w.stopped {
                                    members_unfold(b, next, hits, ctx, depth, env);
                                    then_quiet(head, tail, true, w.end);
                                } else {
                                    members_are_told(b, next, hits, ctx, depth, env);
                                    quiet_then(head, tail, last.stopped, last.pos);
                                }
                            }
                        }
                    }
                }
            }
        }
    }
}

proof fn child_is_told(
    b: Seq<u8>,
    pos: int,
    reaching: Seq<DemandModel>,
    hits: Seq<DemandModel>,
    ctx: WalkCtx,
    depth: int,
    env: Env,
)
    ensures
        told(
            child_walk(b, pos, reaching, hits, ctx, depth, env),
            child_tale(b, pos, reaching, hits, ctx, depth, env),
            env.may_stop,
        ),
    decreases b.len() - pos, 7nat, 0nat,
{
    passed_is_quiet(b, pos, ctx.demanded(), ctx, depth);
    passed_is_quiet(b, pos, ctx.unread(), ctx, depth);
    child_unfolds(b, pos, reaching, hits, ctx, depth, env);
    if reaching.len() > 0 {
        node_is_told(b, pos, reaching, ctx, depth, env);
    }
}

proof fn child_unfolds(
    b: Seq<u8>,
    pos: int,
    reaching: Seq<DemandModel>,
    hits: Seq<DemandModel>,
    ctx: WalkCtx,
    depth: int,
    env: Env,
)
    ensures
        reaching.len() > 0 ==> child_walk(b, pos, reaching, hits, ctx, depth, env) == node_walk(
            b,
            pos,
            reaching,
            ctx,
            depth,
            env,
        ) && child_tale(b, pos, reaching, hits, ctx, depth, env) == node_tale(b, pos, reaching, ctx, depth, env),
        reaching.len() == 0 ==> (child_walk(b, pos, reaching, hits, ctx, depth, env) matches Ok(w) ==> !w.stopped) && (child_tale(
            b,
            pos,
            reaching,
            hits,
            ctx,
            depth,
            env,
        ) == passed_region(b, pos, ctx.demanded(), ctx, depth) || child_tale(b, pos, reaching, hits, ctx, depth, env)
            == passed_region(b, pos, ctx.unread(), ctx, depth)),
{
    reveal(child_walk);
    reveal(child_tale);
    reveal(node_walk);
    reveal(node_tale);
}

spec fn need_of(hits: Seq<DemandModel>, env: Env) -> Option<int> {
    if env.may_stop {
        prefix_window(hits)
    } else {
        None
    }
}

spec fn first_element(start: int, hits: Seq<DemandModel>, answered: Seq<MarkModel>) -> ArrayState {
    ArrayState { pos: start + 1, idx: 0, spans: Seq::empty(), marks: opened(hits, answered), stopped: false }
}

spec fn first_member(start: int, answered: Seq<MarkModel>) -> MemberState {
    MemberState { pos: start + 1, first: true, marks: answered, members: Seq::empty(), stopped: false }
}

proof fn array_unfolds(
    b: Seq<u8>,
    start: int,
    hits: Seq<DemandModel>,
    answered: Seq<MarkModel>,
    ctx: WalkCtx,
    depth: int,
    env: Env,
)
    requires
        array_walk(b, start, hits, answered, ctx, depth, env) is Ok,
    ensures
        start < b.len(),
        all_rows(hits) ==> !array_walk(b, start, hits, answered, ctx, depth, env)->Ok_0.stopped && array_tale(
            b,
            start,
            hits,
            answered,
            ctx,
            depth,
            env,
        ) == rows_events(b, start + 1, true, hits, ctx, depth + 1),
        !all_rows(hits) ==> ({
            let first = first_element(start, hits, answered);
            let need = need_of(hits, env);
            &&& elements_walk(b, first, hits, ctx, depth + 1, need) matches Ok(st) && array_end(
                b,
                start,
                hits,
                hits.len(),
                st,
                ctx,
                depth,
                env,
            ) is Ok && array_walk(b, start, hits, answered, ctx, depth, env)->Ok_0.end == st.pos && array_walk(
                b,
                start,
                hits,
                answered,
                ctx,
                depth,
                env,
            )->Ok_0.stopped == st.stopped && array_tale(b, start, hits, answered, ctx, depth, env) == elements_tale(
                b,
                first,
                hits,
                ctx,
                depth + 1,
                need,
            ) + array_end_tale(b, start, hits, hits.len(), st, ctx, depth, env)
        }),
{
    reveal(array_walk);
    reveal(array_tale);
    reveal(elements_walk);
    reveal(elements_tale);
    reveal(array_end);
    reveal(array_end_tale);
}

proof fn array_is_told(
    b: Seq<u8>,
    start: int,
    hits: Seq<DemandModel>,
    answered: Seq<MarkModel>,
    ctx: WalkCtx,
    depth: int,
    env: Env,
)
    ensures
        told(
            array_walk(b, start, hits, answered, ctx, depth, env),
            array_tale(b, start, hits, answered, ctx, depth, env),
            env.may_stop,
        ),
    decreases b.len() - start, 4nat, 0nat,
{
    if array_walk(b, start, hits, answered, ctx, depth, env) is Ok {
        array_unfolds(b, start, hits, answered, ctx, depth, env);
        if all_rows(hits) {
            rows_are_quiet(b, start + 1, true, hits, ctx, depth + 1);
        } else {
            let first = first_element(start, hits, answered);
            let need = need_of(hits, env);
            elements_are_told(b, first, hits, ctx, depth + 1, need);
            let st = elements_walk(b, first, hits, ctx, depth + 1, need)->Ok_0;
            replays_are_quiet(b, start, ctx, depth);
            array_end_is_quiet(b, start, hits, hits.len(), st, ctx, depth, env);
            then_quiet(
                elements_tale(b, first, hits, ctx, depth + 1, need),
                array_end_tale(b, start, hits, hits.len(), st, ctx, depth, env),
                st.stopped,
                st.pos,
            );
        }
    }
}

proof fn object_unfolds(
    b: Seq<u8>,
    start: int,
    hits: Seq<DemandModel>,
    answered: Seq<MarkModel>,
    ctx: WalkCtx,
    depth: int,
    env: Env,
)
    requires
        start < b.len(),
        object_walk(b, start, hits, answered, ctx, depth, env) is Ok,
    ensures
        env.lane && all_rows(hits) ==> !object_walk(b, start, hits, answered, ctx, depth, env)->Ok_0.stopped && object_tale(
            b,
            start,
            hits,
            answered,
            ctx,
            depth,
            env,
        ) == row_members_events(b, start + 1, true, hits, ctx, depth + 1),
        !(env.lane && all_rows(hits)) ==> ({
            let first = first_member(start, answered);
            &&& members_walk(b, first, hits, ctx, depth + 1, env) matches Ok(st) && object_walk(b, start, hits, answered, ctx, depth, env)->Ok_0.end == st.pos && object_walk(
                b,
                start,
                hits,
                answered,
                ctx,
                depth,
                env,
            )->Ok_0.stopped == st.stopped && object_tale(b, start, hits, answered, ctx, depth, env) == members_tale(
                b,
                first,
                hits,
                ctx,
                depth + 1,
                env,
            )
        }),
{
    reveal(object_walk);
    reveal(object_tale);
    reveal(members_walk);
    reveal(members_tale);
}

proof fn object_is_told(
    b: Seq<u8>,
    start: int,
    hits: Seq<DemandModel>,
    answered: Seq<MarkModel>,
    ctx: WalkCtx,
    depth: int,
    env: Env,
)
    requires
        start < b.len(),
    ensures
        told(
            object_walk(b, start, hits, answered, ctx, depth, env),
            object_tale(b, start, hits, answered, ctx, depth, env),
            env.may_stop,
        ),
    decreases b.len() - start, 4nat, 0nat,
{
    if object_walk(b, start, hits, answered, ctx, depth, env) is Ok {
        object_unfolds(b, start, hits, answered, ctx, depth, env);
        if env.lane && all_rows(hits) {
            row_members_are_quiet(b, start + 1, true, hits, ctx, depth + 1);
        } else {
            let first = first_member(start, answered);
            members_are_told(b, first, hits, ctx, depth + 1, env);
        }
    }
}

#[verifier::opaque]
spec fn kind_walk(
    b: Seq<u8>,
    start: int,
    kind: ValueKind,
    hits: Seq<DemandModel>,
    ctx: WalkCtx,
    depth: int,
    env: Env,
) -> Result<Walked, Error> {
    node_of(b, start, kind, hits, ctx, depth, env)
}

#[verifier::opaque]
spec fn body_tale(
    b: Seq<u8>,
    start: int,
    kind: ValueKind,
    hits: Seq<DemandModel>,
    ctx: WalkCtx,
    depth: int,
    env: Env,
) -> Seq<TraceEvent> {
    body_events(b, start, kind, hits, ctx, depth, env)
}

/// Whether a value is one piece to its hits.
spec fn one_piece(hits: Seq<DemandModel>, kind: ValueKind, env: Env) -> bool {
    ||| !enters(hits, kind) && only_located(hits)
    ||| kind == ValueKind::Array && env.element && one_element(hits)
    ||| !(kind == ValueKind::Array || kind == ValueKind::Object)
}

proof fn piece_is_told(
    b: Seq<u8>,
    start: int,
    kind: ValueKind,
    hits: Seq<DemandModel>,
    ctx: WalkCtx,
    depth: int,
    env: Env,
)
    requires
        one_piece(hits, kind, env),
    ensures
        told(
            kind_walk(b, start, kind, hits, ctx, depth, env),
            body_tale(b, start, kind, hits, ctx, depth, env),
            env.may_stop,
        ),
{
    reveal(kind_walk);
    reveal(body_tale);
    reveal(located);
    reveal(element_array);
    nothing_is_quiet();
    passed_is_quiet(b, start, ctx.demanded(), ctx, depth);
    passed_is_quiet(b, start, ctx.unread(), ctx, depth);
    oracles_are_quiet(b, start, ValueKind::Array, hits, hits.len(), false, ctx, depth);
    tallies_join(
        passed_region(b, start, ctx.demanded(), ctx, depth),
        oracles_regions(b, start, ValueKind::Array, hits, hits.len(), false, ctx, depth),
    );
    if let Ok(e) = scalar(b, start, ctx.demanded(), ctx.dialect) {
        region_is_quiet(start, e, ctx.demanded());
    }
}

proof fn container_unfolds(
    b: Seq<u8>,
    start: int,
    kind: ValueKind,
    hits: Seq<DemandModel>,
    ctx: WalkCtx,
    depth: int,
    env: Env,
)
    requires
        !one_piece(hits, kind, env),
        kind_walk(b, start, kind, hits, ctx, depth, env) is Ok,
    ensures
        ({
            let answered = oracles(b, start, kind, hits, hits.len(), enters(hits, kind), ctx, depth)->Ok_0.0;
            if kind == ValueKind::Array {
                kind_walk(b, start, kind, hits, ctx, depth, env) == array_walk(
                    b,
                    start,
                    beside(hits, env),
                    beside_marks(hits, answered, env),
                    ctx,
                    depth,
                    env,
                ) && body_tale(b, start, kind, hits, ctx, depth, env) == array_tale(
                    b,
                    start,
                    beside(hits, env),
                    beside_marks(hits, answered, env),
                    ctx,
                    depth,
                    env,
                )
            } else {
                kind_walk(b, start, kind, hits, ctx, depth, env) == object_walk(
                    b,
                    start,
                    hits,
                    answered,
                    ctx,
                    depth,
                    env,
                ) && body_tale(b, start, kind, hits, ctx, depth, env) == object_tale(
                    b,
                    start,
                    hits,
                    answered,
                    ctx,
                    depth,
                    env,
                )
            }
        }),
{
    reveal(kind_walk);
    reveal(body_tale);
    reveal(array_walk);
    reveal(array_tale);
    reveal(object_walk);
    reveal(object_tale);
}

proof fn kind_is_told(
    b: Seq<u8>,
    start: int,
    kind: ValueKind,
    hits: Seq<DemandModel>,
    ctx: WalkCtx,
    depth: int,
    env: Env,
)
    requires
        start < b.len(),
    ensures
        told(
            kind_walk(b, start, kind, hits, ctx, depth, env),
            oracles_regions(b, start, kind, hits, hits.len(), enters(hits, kind), ctx, depth) + body_tale(
                b,
                start,
                kind,
                hits,
                ctx,
                depth,
                env,
            ),
            env.may_stop,
        ),
    decreases b.len() - start, 5nat, 0nat,
{
    if let Ok(w) = kind_walk(b, start, kind, hits, ctx, depth, env) {
        if one_piece(hits, kind, env) {
            piece_is_told(b, start, kind, hits, ctx, depth, env);
        } else {
            container_unfolds(b, start, kind, hits, ctx, depth, env);
            let answered = oracles(b, start, kind, hits, hits.len(), enters(hits, kind), ctx, depth)->Ok_0.0;
            if kind == ValueKind::Array {
                let here = beside(hits, env);
                array_is_told(b, start, here, beside_marks(hits, answered, env), ctx, depth, env);
            } else {
                object_is_told(b, start, hits, answered, ctx, depth, env);
            }
        }
        oracles_are_quiet(b, start, kind, hits, hits.len(), enters(hits, kind), ctx, depth);
        quiet_then(
            oracles_regions(b, start, kind, hits, hits.len(), enters(hits, kind), ctx, depth),
            body_tale(b, start, kind, hits, ctx, depth, env),
            w.stopped,
            w.end,
        );
    }
}

proof fn node_unfolds(
    b: Seq<u8>,
    pos: int,
    hits: Seq<DemandModel>,
    ctx: WalkCtx,
    depth: int,
    env: Env,
)
    requires
        node_walk(b, pos, hits, ctx, depth, env) is Ok,
    ensures
        trivia_end(b, pos, ctx.dialect) matches Ok(start) && pos <= start < b.len() && if hits.len() == 0 {
            !node_walk(b, pos, hits, ctx, depth, env)->Ok_0.stopped && node_tale(b, pos, hits, ctx, depth, env)
                == passed_region(b, start, ctx.unread(), ctx, depth)
        } else {
            kind_at(b[start], ctx.dialect) matches Some(kind) && node_walk(b, pos, hits, ctx, depth, env) == kind_walk(
                b,
                start,
                kind,
                flat(hits),
                ctx,
                depth,
                env,
            ) && node_tale(b, pos, hits, ctx, depth, env) == oracles_regions(
                b,
                start,
                kind,
                flat(hits),
                flat(hits).len(),
                enters(flat(hits), kind),
                ctx,
                depth,
            ) + body_tale(b, start, kind, flat(hits), ctx, depth, env)
        },
{
    reveal(node_walk);
    reveal(node_tale);
    reveal(kind_walk);
    reveal(body_tale);
}

proof fn node_is_told(
    b: Seq<u8>,
    pos: int,
    hits: Seq<DemandModel>,
    ctx: WalkCtx,
    depth: int,
    env: Env,
)
    ensures
        told(node_walk(b, pos, hits, ctx, depth, env), node_tale(b, pos, hits, ctx, depth, env), env.may_stop),
    decreases b.len() - pos, 6nat, 0nat,
{
    if node_walk(b, pos, hits, ctx, depth, env) is Ok {
        node_unfolds(b, pos, hits, ctx, depth, env);
        let start = trivia_end(b, pos, ctx.dialect)->Ok_0;
        if hits.len() == 0 {
            passed_is_quiet(b, start, ctx.unread(), ctx, depth);
        } else {
            kind_is_told(b, start, kind_at(b[start], ctx.dialect)->0, flat(hits), ctx, depth, env);
        }
    }
}

/// An accepted walk records one stop, where it ended, when a bounded window ended it, and
/// none otherwise; only a walk that may stop records one.
pub proof fn a_stop_is_recorded_where_the_walk_ends(
    b: Seq<u8>,
    pos: int,
    hits: Seq<DemandModel>,
    ctx: WalkCtx,
    depth: int,
    env: Env,
)
    ensures
        told(node(b, pos, hits, ctx, depth, env), node_events(b, pos, hits, ctx, depth, env), env.may_stop),
{
    reveal(node_walk);
    reveal(node_tale);
    node_is_told(b, pos, hits, ctx, depth, env);
}

/// Marks are quiet.
proof fn marks_are_quiet(events: Seq<TraceEvent>)
    requires
        forall|i: int| 0 <= i < events.len() ==> #[trigger] events[i] is Mark,
    ensures
        stops_in(events) == 0,
    decreases events.len(),
{
    if events.len() > 0 {
        assert(events[events.len() - 1] is Mark);
        marks_are_quiet(events.drop_last());
    }
}

/// The trace of a text request counts one stop when a bounded window ended the walk, and
/// records it where the walk ended; otherwise it counts none.
pub proof fn a_text_trace_counts_its_stop(b: Seq<u8>, ask: Ask, trace: Trace, answers: Seq<AnswerModel>, controlled: bool)
    requires
        ask.input == JsonInput::Text,
        text_walk(b, ask) is Ok,
        traces(trace, walk_events(b, ask), answers, true, controlled),
    ensures
        trace.counters.stops == (if text_walk(b, ask)->Ok_0.stopped {
            1u64
        } else {
            0
        }),
        one_stop(trace.events@, text_walk(b, ask)->Ok_0.stopped, text_walk(b, ask)->Ok_0.end),
{
    let pos = trivia_end(b, text_start(b), ask.ctx.dialect)->Ok_0;
    let w = text_walk(b, ask)->Ok_0;
    a_stop_is_recorded_where_the_walk_ends(b, pos, ask.demands, ask.ctx, 0, root_env(ask));
    let walked = walk_events(b, ask);
    let marks = mark_events(answers);
    assert forall|i: int| 0 <= i < marks.len() implies #[trigger] marks[i] is Mark by {}
    marks_are_quiet(marks);
    assert(walked.0 + walked.1 =~= walked.0);
    then_quiet(walked.0, marks, w.stopped, w.end);
}

} // verus!
