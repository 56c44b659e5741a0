//! The walk itself: one pass over a value answers every hit on it.

use vstd::prelude::*;

use crate::ascii::{LBRACE, LBRACKET, RBRACE, RBRACKET};
use crate::control::is_stop_of;
use crate::demand::{lenses_model, oracle_model, steps_model, DemandModel, Lens, Oracle, Step, Strictness};
use crate::dialect::Dialect;
use crate::error::{Error, ErrorKind};
use crate::lex::skip::{
    next_item, skip_colon, skip_present_at, skip_scalar, skip_value_counting, value_end, Check, Ctx, Next,
};
use crate::lex::string::parse_string_into;
use crate::lex::ws::{ends_as, skip_trivia, trivia_end, trivia_end_bounds, trivia_end_here};
use crate::lex::{key_text_end, read_key_into};
use crate::text::text_bytes;
use crate::value::{resolve_index, ByteRange, ValueKind};
use crate::trace::TraceEvent;
use crate::walk::events::{
    array_events, array_mark_events, body_events, child_events, elements_events, finish_array_events,
    index_spine_events, kind_events, members_events, node_events, noted,
    noted_nothing, noted_then, object_events, oracle_regions, oracles_regions, owed, owed_none,
    owed_step, passed_region, replay_events, window_events,
};
use crate::walk::hits::{
    element_hits, flat_lenses, kept_step, lens_needs_spans, lens_slice_replays, marks_reached, member_hits, rank_in_range, row_step_into,
    set_rows_aside, step_into, window_prefix, Survey,
};
use crate::walk::host::Host;
use crate::walk::marks::{
    absent_row, marks_model, row_fields, row_shape, shape_of, Batch, BatchModel, ColumnCell, Mark, MarkModel,
    RowShape,
};
use crate::walk::member::{apply_object_row, find_bounds, object_cells, spans_inside, wants_member, Members};
use crate::walk::model::{
    all_rows, appended, array, array_hits, array_mark, child, child_mark, element_array, element_count, element_env, element_marks,
    elements, enters, finish_array, finish_object, flat_index_row, flat_row, index_spine, keeps_spans, kept,
    key_spine, kind_at, located, member_env, member_marks, members, needs_spans, next_element, next_member, no_cells, node, node_of, object, object_hits, object_mark,
    object_rows, only_located, opened, oracle_mark, oracles, prefix_window, rank, replay, replay_window, row_mark,
    rows, spans_for, terminal_marks, wants_whole, ArrayState, Env, MemberState, RowState, WalkCtx, Walked,
};

verus! {

/// What a walk left.
pub struct Walk {
    /// Where the walk ended.
    pub end: usize,
    /// Whether a bounded window ended the whole walk.
    pub stopped: bool,
    /// One mark per hit.
    pub marks: Vec<Mark>,
}

impl Walk {
    /// What this is.
    pub open spec fn model(self) -> Walked {
        Walked { end: self.end as int, stopped: self.stopped, marks: marks_model(self.marks@) }
    }
}

/// Whether the host stopped the walk of a source of `n` bytes.
pub open spec fn host_stopped<T>(r: Result<T, Error>, host: Host<'_>, n: int) -> bool {
    host.control matches Some(control) && (r matches Err(e) && is_stop_of(*control, e, n))
}

/// Whether a walk answered what the model names, or the host stopped it.
pub open spec fn answers_as(r: Result<Walk, Error>, named: Result<Walked, Error>, host: Host<'_>, n: int) -> bool {
    host_stopped(r, host, n) || match named {
        Ok(w) => r matches Ok(x) && x.model() == w,
        Err(error) => r == Err::<Walk, Error>(error),
    }
}

/// Whether one mark is what the model names, or the host stopped the walk.
pub open spec fn marks_as(r: Result<Mark, Error>, named: Result<MarkModel, Error>, host: Host<'_>, n: int) -> bool {
    host_stopped(r, host, n) || match named {
        Ok(m) => r matches Ok(x) && x@ == m,
        Err(error) => r == Err::<Mark, Error>(error),
    }
}

impl WalkCtx {
    /// Check of a region nothing demands.
    pub fn unread_check(self) -> (r: Check)
        ensures
            r == self.unread(),
    {
        match self.strictness {
            Strictness::Strict => Check::Values,
            _ => Check::Locate,
        }
    }

    /// Check of a demanded region.
    pub fn demanded_check(self) -> (r: Check)
        ensures
            r == self.demanded(),
    {
        match self.strictness {
            Strictness::Lazy => Check::Locate,
            _ => Check::Values,
        }
    }

    fn skip_ctx(self, check: Check) -> (r: Ctx)
        ensures
            r == self.under(check),
    {
        Ctx { check, max: self.max, dialect: self.dialect }
    }
}

/// Kind of the value that starts with `byte`.
pub fn value_kind(byte: u8, dialect: Dialect) -> (r: Option<ValueKind>)
    ensures
        r == kind_at(byte, dialect),
{
    let json5: bool = dialect.json5();
    if byte == 0x6e {
        Some(ValueKind::Null)
    } else if byte == 0x74 || byte == 0x66 {
        Some(ValueKind::Bool)
    } else if byte == 0x2d || (0x30 <= byte && byte <= 0x39) || (json5 && (byte == 0x2b || byte == 0x2e || byte == 0x49
        || byte == 0x4e)) {
        Some(ValueKind::Number)
    } else if byte == 0x22 || (byte == 0x27 && json5) {
        Some(ValueKind::String)
    } else if byte == LBRACKET {
        Some(ValueKind::Array)
    } else if byte == LBRACE {
        Some(ValueKind::Object)
    } else {
        None
    }
}

/// Skip the value at `pos` under `check`, noting the region.
fn skip_noted(bytes: &[u8], pos: usize, check: Check, ctx: WalkCtx, depth: u32, host: &mut Host<'_>) -> (r: Result<
    usize,
    Error,
>)
    requires
        pos <= bytes@.len(),
        old(host).wf(),
    ensures
        ends_as(r, value_end(bytes@, pos as int, ctx.under(check), depth as int)),
        r matches Ok(e) ==> pos < e <= bytes@.len(),
        final(host).wf(),
        final(host).same(*old(host)),
        r is Ok ==> noted(*final(host), *old(host), passed_region(bytes@, pos as int, check, ctx, depth as int)),
{
    let end: usize = skip_present_at(bytes, pos, ctx.skip_ctx(check), depth)?;
    host.note_skip(pos, end, check);
    Ok(end)
}

/// Element count of the array at `start`.
fn count_container(bytes: &[u8], start: usize, ctx: Ctx, depth: u32, host: &mut Host<'_>) -> (r: Result<
    (usize, u64),
    Error,
>)
    requires
        start < bytes@.len(),
        depth < ctx.max,
        old(host).wf(),
    ensures
        host_stopped(r, *old(host), bytes@.len() as int) || match element_count(bytes@, start + 1, ctx, depth + 1, 0) {
            Ok((e, n)) => r matches Ok((end, count)) && end == e && count == n && start < end <= bytes@.len(),
            Err(error) => r == Err::<(usize, u64), Error>(error),
        },
        final(host).wf(),
        final(host).same(*old(host)),
        final(host).events() == old(host).events(),
{
    let len: usize = bytes.len();
    let mut pos: usize = start + 1;
    let mut n: u64 = 0;
    loop
        invariant
            start < pos <= len,
            len == bytes@.len(),
            depth < ctx.max,
            n <= pos - start - 1,
            host.wf(),
            host.same(*old(host)),
            host.events() == old(host).events(),
            element_count(bytes@, start + 1, ctx, depth + 1, 0) == element_count(
                bytes@,
                pos as int,
                ctx,
                depth + 1,
                n as nat,
            ),
        decreases len - pos,
    {
        match next_item(bytes, pos, ctx.dialect, RBRACKET, n == 0)? {
            Next::Close(end) => {
                return Ok((end, n));
            },
            Next::Item(p) => {
                host.poll(p)?;
                pos = skip_present_at(bytes, p, ctx, depth + 1)?;
                n = n + 1;
            },
        }
    }
}

/// One oracle's mark at the value at `start`, and the end it located on the way.
fn fill_oracle(
    bytes: &[u8],
    start: usize,
    kind: ValueKind,
    oracle: &Oracle,
    entering: bool,
    ctx: WalkCtx,
    depth: u32,
    host: &mut Host<'_>,
) -> (r: Result<(Mark, Option<usize>), Error>)
    requires
        start < bytes@.len(),
        old(host).wf(),
        kind_at(bytes@[start as int], ctx.dialect) == Some(kind),
    ensures
        host_stopped(r, *old(host), bytes@.len() as int) || match oracle_mark(
            bytes@,
            start as int,
            kind,
            oracle_model(*oracle),
            entering,
            ctx,
            depth as int,
        ) {
            Ok((m, e)) => r matches Ok((mark, end)) && mark@ == m && (match e {
                Some(x) => end matches Some(y) && y == x && start < y <= bytes@.len(),
                None => end is None,
            }),
            Err(error) => r == Err::<(Mark, Option<usize>), Error>(error),
        },
        final(host).wf(),
        final(host).same(*old(host)),
        r is Ok ==> noted(*final(host), *old(host), oracle_regions(
            bytes@,
            start as int,
            kind,
            oracle_model(*oracle),
            entering,
            ctx,
            depth as int,
        )),
{
    proof {
        reveal(oracle_mark);
        noted_nothing(*host, *host);
    }
    match oracle {
        Oracle::Kind => Ok((Mark::Kind(kind), None)),
        Oracle::Count => {
            if kind == ValueKind::Array || kind == ValueKind::Object {
                if entering {
                    return Ok((Mark::Missing, None));
                }
                if depth >= ctx.max {
                    return Err(Error::new(ErrorKind::Limit, start));
                }
                let (end, n) = count_container(bytes, start, ctx.skip_ctx(ctx.unread_check()), depth, host)?;
                host.note_skip(start, end, ctx.unread_check());
                Ok((Mark::Count(n), Some(end)))
            } else {
                Ok((Mark::Mismatch(kind), None))
            }
        },
        Oracle::DescendCount => {
            proof {
                kind_is_no_trivia(bytes@, start as int, ctx.dialect);
            }
            let (end, n) = skip_value_counting(bytes, start, ctx.skip_ctx(ctx.demanded_check()))?;
            host.note_skip(start, end, ctx.demanded_check());
            Ok((Mark::Count(n), Some(end)))
        },
        Oracle::StringByteLength => {
            if kind != ValueKind::String {
                return Ok((Mark::Mismatch(kind), None));
            }
            let mut text: Vec<u8> = Vec::new();
            let _end: usize = parse_string_into(bytes, start, &mut text, ctx.dialect)?;
            Ok((Mark::Length(text.len() as u64), None))
        },
        _ => {
            if kind == ValueKind::Object {
                Ok((Mark::Missing, None))
            } else {
                Ok((Mark::Mismatch(kind), None))
            }
        },
    }
}

/// A byte that starts a value starts no trivia.
proof fn kind_is_no_trivia(b: Seq<u8>, pos: int, dialect: Dialect)
    requires
        0 <= pos < b.len(),
        kind_at(b[pos], dialect) is Some,
    ensures
        trivia_end(b, pos, dialect) == Ok::<int, Error>(pos),
{
    trivia_end_here(b, pos, dialect);
}

/// The oracle marks of a node's hits.
fn fill_oracles(
    bytes: &[u8],
    start: usize,
    kind: ValueKind,
    hits: &[Lens<'_>],
    entering: bool,
    ctx: WalkCtx,
    depth: u32,
    host: &mut Host<'_>,
) -> (r: Result<(Vec<Mark>, usize), Error>)
    requires
        start < bytes@.len(),
        old(host).wf(),
        kind_at(bytes@[start as int], ctx.dialect) == Some(kind),
    ensures
        host_stopped(r, *old(host), bytes@.len() as int) || match oracles(
            bytes@,
            start as int,
            kind,
            lenses_model(hits@),
            hits@.len(),
            entering,
            ctx,
            depth as int,
        ) {
            Ok((m, e)) => r matches Ok((marks, reach)) && marks_model(marks@) == m && reach == e && marks@.len()
                == hits@.len() && start <= reach <= bytes@.len(),
            Err(error) => r == Err::<(Vec<Mark>, usize), Error>(error),
        },
        final(host).wf(),
        final(host).same(*old(host)),
        r is Ok ==> noted(*final(host), *old(host), oracles_regions(
            bytes@,
            start as int,
            kind,
            lenses_model(hits@),
            hits@.len(),
            entering,
            ctx,
            depth as int,
        )),
{
    let ghost model = lenses_model(hits@);
    let mut marks: Vec<Mark> = Vec::new();
    let mut reach: usize = start;
    let mut i: usize = 0;
    assert(marks_model(marks@) =~= Seq::empty());
    proof {
        noted_nothing(*host, *host);
    }
    while i < hits.len()
        invariant
            i <= hits@.len(),
            start < bytes@.len(),
            start <= reach <= bytes@.len(),
            kind_at(bytes@[start as int], ctx.dialect) == Some(kind),
            model == lenses_model(hits@),
            host.wf(),
            host.same(*old(host)),
            noted(
                *host,
                *old(host),
                oracles_regions(bytes@, start as int, kind, model, i as nat, entering, ctx, depth as int),
            ),
            marks@.len() == i,
            oracles(bytes@, start as int, kind, model, i as nat, entering, ctx, depth as int) == Ok::<
                (Seq<MarkModel>, int),
                Error,
            >((marks_model(marks@), reach as int)),
        decreases hits@.len() - i,
    {
        let ghost before = marks@;
        let ghost prior = *host;
        let ghost done = oracles_regions(bytes@, start as int, kind, model, i as nat, entering, ctx, depth as int);
        match hits[i] {
            Lens::Oracle(o) => {
                assert(model[i as int] == DemandModel::Oracle(oracle_model(*o)));
                let filled = fill_oracle(bytes, start, kind, o, entering, ctx, depth, host);
                match filled {
                    Ok((mark, end)) => {
                        marks.push(mark);
                        if let Some(e) = end {
                            reach = e;
                        }
                        proof {
                            assert(marks_model(marks@) =~= marks_model(before).push(mark@));
                            let more = oracle_regions(
                                bytes@,
                                start as int,
                                kind,
                                oracle_model(*o),
                                entering,
                                ctx,
                                depth as int,
                            );
                            noted_then(*host, prior, *old(host), done, more);
                        }
                    },
                    Err(error) => {
                        proof {
                            if !(host.control matches Some(control) && is_stop_of(*control, error, bytes@.len() as int)) {
                                assert(oracles(
                                    bytes@,
                                    start as int,
                                    kind,
                                    model,
                                    (i + 1) as nat,
                                    entering,
                                    ctx,
                                    depth as int,
                                ) is Err);
                                oracles_err(
                                    bytes@,
                                    start as int,
                                    kind,
                                    model,
                                    (i + 1) as nat,
                                    hits@.len(),
                                    entering,
                                    ctx,
                                    depth as int,
                                );
                            }
                        }
                        return Err(error);
                    },
                }
            },
            _ => {
                marks.push(Mark::Missing);
                proof {
                    assert(marks_model(marks@) =~= marks_model(before).push(MarkModel::Missing));
                    noted_nothing(*host, prior);
                    noted_then(*host, prior, *old(host), done, Seq::empty());
                }
            },
        }
        i = i + 1;
    }
    Ok((marks, reach))
}

/// A refusal at one hit's oracle is the refusal of all.
proof fn oracles_err(
    b: Seq<u8>,
    start: int,
    kind: ValueKind,
    hits: Seq<DemandModel>,
    n: nat,
    m: nat,
    entering: bool,
    ctx: WalkCtx,
    depth: int,
)
    requires
        n <= m <= hits.len(),
        oracles(b, start, kind, hits, n, entering, ctx, depth) is Err,
    ensures
        oracles(b, start, kind, hits, m, entering, ctx, depth) == oracles(
            b,
            start,
            kind,
            hits,
            n,
            entering,
            ctx,
            depth,
        ),
    decreases m,
{
    if n < m {
        oracles_err(b, start, kind, hits, n, (m - 1) as nat, entering, ctx, depth);
    }
}

/// The marks of a value that is one span to every hit.
fn finish_terminal(hits: &[Lens<'_>], answered: &mut Vec<Mark>, start: usize, end: usize, kind: ValueKind)
    requires
        old(answered)@.len() == hits@.len(),
    ensures
        final(answered)@.len() == hits@.len(),
        marks_model(final(answered)@) == terminal_marks(
            lenses_model(hits@),
            marks_model(old(answered)@),
            start as int,
            end as int,
            kind,
        ),
{
    let ghost before = marks_model(answered@);
    let ghost model = lenses_model(hits@);
    let ghost done = terminal_marks(model, before, start as int, end as int, kind);
    let mut i: usize = 0;
    while i < hits.len()
        invariant
            i <= hits@.len(),
            answered@.len() == hits@.len(),
            model == lenses_model(hits@),
            done == terminal_marks(model, before, start as int, end as int, kind),
            before.len() == hits@.len(),
            forall|k: int| 0 <= k < i ==> (#[trigger] answered@[k])@ == done[k],
            forall|k: int| i <= k < hits@.len() ==> (#[trigger] answered@[k])@ == before[k],
        decreases hits@.len() - i,
    {
        assert(model[i as int] == hits@[i as int].model());
        match hits[i] {
            Lens::Whole => {
                answered.set(i, Mark::Span(ByteRange { start, end }));
            },
            Lens::Oracle(_) => {},
            _ => {
                answered.set(i, Mark::Mismatch(kind));
            },
        }
        i = i + 1;
    }
    assert(marks_model(answered@) =~= done);
}

/// Whether every row hit's mark is a batch.
spec fn rows_open(hits: Seq<DemandModel>, marks: Seq<MarkModel>) -> bool {
    forall|i: int| 0 <= i < hits.len() && row_shape(#[trigger] hits[i]) is Some ==> marks[i] is Rows
}

/// Open an empty batch for each row hit.
fn open_rows(hits: &[Lens<'_>], marks: &mut Vec<Mark>)
    requires
        old(marks)@.len() == hits@.len(),
    ensures
        final(marks)@.len() == hits@.len(),
        marks_model(final(marks)@) == opened(lenses_model(hits@), marks_model(old(marks)@)),
        rows_open(lenses_model(hits@), marks_model(final(marks)@)),
{
    let ghost before = marks_model(marks@);
    let ghost model = lenses_model(hits@);
    let ghost done = opened(model, before);
    let mut i: usize = 0;
    while i < hits.len()
        invariant
            i <= hits@.len(),
            marks@.len() == hits@.len(),
            model == lenses_model(hits@),
            done == opened(model, before),
            before.len() == hits@.len(),
            forall|k: int| 0 <= k < i ==> (#[trigger] marks@[k])@ == done[k],
            forall|k: int| i <= k < hits@.len() ==> (#[trigger] marks@[k])@ == before[k],
        decreases hits@.len() - i,
    {
        assert(model[i as int] == hits@[i as int].model());
        if let Some(shape) = shape_of(hits[i]) {
            marks.set(i, Mark::Rows(Batch::of(shape)));
        }
        i = i + 1;
    }
    assert(marks_model(marks@) =~= done);
}

/// Fold one element's marks into an array's marks.
fn fold_element(hits: &[Lens<'_>], index: usize, marks: &mut Vec<Mark>, reached: &Vec<bool>, left: Vec<Mark>, elem: ByteRange)
    requires
        old(marks)@.len() == hits@.len(),
        marks_reached(reached@, array_hits(lenses_model(hits@), index as int)),
        left@.len() == kept(array_hits(lenses_model(hits@), index as int)).len(),
        rows_open(lenses_model(hits@), marks_model(old(marks)@)),
    ensures
        final(marks)@.len() == hits@.len(),
        marks_model(final(marks)@) == element_marks(
            lenses_model(hits@),
            marks_model(old(marks)@),
            array_hits(lenses_model(hits@), index as int),
            marks_model(left@),
            elem,
        ),
        rows_open(lenses_model(hits@), marks_model(final(marks)@)),
{
    let ghost model = lenses_model(hits@);
    let ghost opts = array_hits(model, index as int);
    let ghost before = marks_model(marks@);
    let ghost given = marks_model(left@);
    let ghost done = element_marks(model, before, opts, given, elem);
    let mut left: Vec<Mark> = left;
    let mut i: usize = hits.len();
    assert(opts.take(i as int) =~= opts);
    assert(given.take(given.len() as int) =~= given);
    while i > 0
        invariant
            i <= hits@.len(),
            marks@.len() == hits@.len(),
            reached@.len() == hits@.len(),
            model == lenses_model(hits@),
            opts == array_hits(model, index as int),
            marks_reached(reached@, opts),
            before.len() == hits@.len(),
            rows_open(model, before),
            given.len() == kept(opts).len(),
            done == element_marks(model, before, opts, given, elem),
            left@.len() == rank(opts, i as int),
            rank(opts, i as int) <= given.len(),
            marks_model(left@) == given.take(rank(opts, i as int)),
            forall|k: int| i <= k < hits@.len() ==> (#[trigger] marks@[k])@ == done[k],
            forall|k: int| 0 <= k < i ==> (#[trigger] marks@[k])@ == before[k],
        decreases i,
    {
        i = i - 1;
        proof {
            kept_step(opts, i as int);
            if opts[i as int] is Some {
                rank_in_range(opts, i as int);
            }
        }
        let ghost before_left = left@;
        let mark: Mark = if reached[i] {
            match left.pop() {
                Some(mark) => mark,
                None => Mark::Missing,
            }
        } else {
            Mark::Missing
        };
        proof {
            if opts[i as int] is Some {
                assert(mark@ == marks_model(before_left)[rank(opts, i as int)]);
                assert(marks_model(left@) =~= given.take(rank(opts, i as int)));
            }
            assert(mark@ == child_mark(opts, given, i as int));
            assert(model[i as int] == hits@[i as int].model());
        }
        match shape_of(hits[i]) {
            Some(shape) => {
                assert(before[i as int] is Rows);
                let ghost at_i = marks@[i as int]@;
                match &mut marks[i] {
                    Mark::Rows(batch) => batch.fold(shape, mark, elem),
                    _ => {},
                }
                assert(marks@[i as int]@ == done[i as int]);
            },
            None => {
                if reached[i] {
                    marks.set(i, mark);
                }
            },
        }
    }
    assert(marks_model(marks@) =~= done);
}

/// Replace an object's marks by a member's.
fn take_member(hits: &[Lens<'_>], key: &[u8], marks: &mut Vec<Mark>, reached: &Vec<bool>, left: Vec<Mark>)
    requires
        old(marks)@.len() == hits@.len(),
        marks_reached(reached@, object_hits(lenses_model(hits@), key@)),
        left@.len() == kept(object_hits(lenses_model(hits@), key@)).len(),
    ensures
        final(marks)@.len() == hits@.len(),
        marks_model(final(marks)@) == member_marks(
            lenses_model(hits@),
            marks_model(old(marks)@),
            object_hits(lenses_model(hits@), key@),
            marks_model(left@),
        ),
{
    let ghost model = lenses_model(hits@);
    let ghost opts = object_hits(model, key@);
    let ghost before = marks_model(marks@);
    let ghost given = marks_model(left@);
    let ghost done = member_marks(model, before, opts, given);
    let mut left: Vec<Mark> = left;
    let mut i: usize = hits.len();
    assert(opts.take(i as int) =~= opts);
    assert(given.take(given.len() as int) =~= given);
    while i > 0
        invariant
            i <= hits@.len(),
            marks@.len() == hits@.len(),
            reached@.len() == hits@.len(),
            model == lenses_model(hits@),
            opts == object_hits(model, key@),
            marks_reached(reached@, opts),
            before.len() == hits@.len(),
            given.len() == kept(opts).len(),
            done == member_marks(model, before, opts, given),
            left@.len() == rank(opts, i as int),
            rank(opts, i as int) <= given.len(),
            marks_model(left@) == given.take(rank(opts, i as int)),
            forall|k: int| i <= k < hits@.len() ==> (#[trigger] marks@[k])@ == done[k],
            forall|k: int| 0 <= k < i ==> (#[trigger] marks@[k])@ == before[k],
        decreases i,
    {
        i = i - 1;
        proof {
            kept_step(opts, i as int);
            if opts[i as int] is Some {
                rank_in_range(opts, i as int);
            }
        }
        let ghost before_left = left@;
        if reached[i] {
            let mark: Mark = match left.pop() {
                Some(mark) => mark,
                None => Mark::Missing,
            };
            proof {
                assert(mark@ == marks_model(before_left)[rank(opts, i as int)]);
                assert(marks_model(left@) =~= given.take(rank(opts, i as int)));
            }
            marks.set(i, mark);
        }
    }
    assert(marks_model(marks@) =~= done);
}

/// A refusal at one hit is the refusal of the whole finish.
proof fn finish_array_err(
    b: Seq<u8>,
    start: int,
    hits: Seq<DemandModel>,
    n: nat,
    m: nat,
    st: ArrayState,
    ctx: WalkCtx,
    depth: int,
    env: Env,
)
    requires
        n <= m <= hits.len(),
        finish_array(b, start, hits, n, st, ctx, depth, env) is Err,
    ensures
        finish_array(b, start, hits, m, st, ctx, depth, env) == finish_array(b, start, hits, n, st, ctx, depth, env),
    decreases m,
{
    if n < m {
        finish_array_err(b, start, hits, n, (m - 1) as nat, st, ctx, depth, env);
    }
}

/// Spans inside an array that starts at `start`.
pub open spec fn spans_after(spans: Seq<ByteRange>, start: int, len: int) -> bool {
    forall|i: int| 0 <= i < spans.len() ==> start < (#[trigger] spans[i]).start < spans[i].end <= len
}

/// Walk the value past the trivia at `pos` for `hits`.
pub fn walk_node(
    bytes: &[u8],
    pos: usize,
    hits: &[Lens<'_>],
    ctx: WalkCtx,
    depth: u32,
    env: Env,
    host: &mut Host<'_>,
) -> (r: Result<Walk, Error>)
    requires
        pos <= bytes@.len(),
        old(host).wf(),
    ensures
        answers_as(r, node(bytes@, pos as int, lenses_model(hits@), ctx, depth as int, env), *old(host), bytes@.len() as int),
        r matches Ok(w) ==> pos < w.end <= bytes@.len() && w.marks@.len() == hits@.len(),
        final(host).wf(),
        final(host).same(*old(host)),
        r is Ok ==> noted(*final(host), *old(host), node_events(bytes@, pos as int, lenses_model(hits@), ctx, depth as int, env)),
    decreases bytes@.len() - pos, 6nat,
{
    proof {
        trivia_end_bounds(bytes@, pos as int, ctx.dialect);
    }
    let start: usize = skip_trivia(bytes, pos, ctx.dialect)?;
    if start >= bytes.len() {
        return Err(Error::new(ErrorKind::ExpectedValue, start));
    }
    if hits.len() == 0 {
        let end: usize = skip_noted(bytes, start, ctx.unread_check(), ctx, depth, host)?;
        let marks: Vec<Mark> = Vec::new();
        assert(marks_model(marks@) =~= Seq::empty());
        return Ok(Walk { end, stopped: false, marks });
    }
    match value_kind(bytes[start], ctx.dialect) {
        None => Err(Error::new(ErrorKind::ExpectedValue, start)),
        Some(kind) => {
            let here: Vec<Lens<'_>> = flat_lenses(hits);
            walk_kind(bytes, start, kind, here.as_slice(), ctx, depth, env, host)
        },
    }
}

/// Walk the value of a known kind at `start`.
fn walk_kind(
    bytes: &[u8],
    start: usize,
    kind: ValueKind,
    hits: &[Lens<'_>],
    ctx: WalkCtx,
    depth: u32,
    env: Env,
    host: &mut Host<'_>,
) -> (r: Result<Walk, Error>)
    requires
        start < bytes@.len(),
        kind_at(bytes@[start as int], ctx.dialect) == Some(kind),
        old(host).wf(),
    ensures
        answers_as(r, node_of(bytes@, start as int, kind, lenses_model(hits@), ctx, depth as int, env), *old(host), bytes@.len() as int),
        r matches Ok(w) ==> start < w.end <= bytes@.len() && w.marks@.len() == hits@.len(),
        final(host).wf(),
        final(host).same(*old(host)),
        r is Ok ==> noted(*final(host), *old(host), kind_events(bytes@, start as int, kind, lenses_model(hits@), ctx, depth as int, env)),
    decreases bytes@.len() - start, 5nat,
{
    proof {
        reveal(located);
        reveal(element_array);
    }
    let ghost model = lenses_model(hits@);
    let survey: Survey = Survey::of(hits);
    let entering: bool = survey.inside || (kind == ValueKind::Object && survey.counts);
    assert(entering == enters(model, kind));
    let (marks, reach) = fill_oracles(bytes, start, kind, hits, entering, ctx, depth, host)?;
    let mut marks: Vec<Mark> = marks;
    let ghost asked = *host;
    let ghost first = oracles_regions(
        bytes@,
        start as int,
        kind,
        model,
        model.len(),
        entering,
        ctx,
        depth as int,
    );
    let ghost rest = body_events(bytes@, start as int, kind, model, ctx, depth as int, env);
    if !entering && survey.only_located {
        let check: Check = if survey.whole {
            ctx.demanded_check()
        } else {
            ctx.unread_check()
        };
        let end: usize = if reach > start && check == ctx.unread_check() {
            reach
        } else {
            skip_noted(bytes, start, check, ctx, depth, host)?
        };
        finish_terminal(hits, &mut marks, start, end, kind);
        proof {
            if *host == asked {
                noted_nothing(*host, asked);
            }
            noted_then(*host, asked, *old(host), first, rest);
        }
        return Ok(Walk { end, stopped: false, marks });
    }
    if kind == ValueKind::Array {
        if env.element && survey.one_value {
            let end: usize = skip_noted(bytes, start, ctx.demanded_check(), ctx, depth, host)?;
            let ghost passed = *host;
            let (again, _reach) = fill_oracles(bytes, start, kind, hits, false, ctx, depth, host)?;
            let mut again: Vec<Mark> = again;
            finish_terminal(hits, &mut again, start, end, kind);
            proof {
                let whole = passed_region(bytes@, start as int, ctx.demanded(), ctx, depth as int);
                let more = oracles_regions(
                    bytes@,
                    start as int,
                    kind,
                    model,
                    model.len(),
                    false,
                    ctx,
                    depth as int,
                );
                noted_then(*host, passed, asked, whole, more);
                noted_then(*host, asked, *old(host), first, rest);
            }
            return Ok(Walk { end, stopped: false, marks: again });
        }
        let stand_in: Oracle = Oracle::MemberCount;
        let here: Vec<Lens<'_>> = set_rows_aside(hits, &mut marks, env, &stand_in);
        let walked = walk_array(bytes, start, here.as_slice(), marks, ctx, depth, env, host);
        proof {
            if walked is Ok {
                noted_then(*host, asked, *old(host), first, rest);
            }
        }
        return walked;
    }
    if kind == ValueKind::Object {
        let walked = walk_object(bytes, start, hits, marks, ctx, depth, env, host);
        proof {
            if walked is Ok {
                noted_then(*host, asked, *old(host), first, rest);
            }
        }
        return walked;
    }
    let check: Check = ctx.demanded_check();
    let end: usize = skip_scalar(bytes, start, check, ctx.dialect)?;
    host.note_skip(start, end, check);
    finish_terminal(hits, &mut marks, start, end, kind);
    proof {
        noted_then(*host, asked, *old(host), first, rest);
    }
    Ok(Walk { end, stopped: false, marks })
}

/// Walk or skip one child of a container.
fn walk_child(
    bytes: &[u8],
    pos: usize,
    reaching: &[Lens<'_>],
    whole: bool,
    ctx: WalkCtx,
    depth: u32,
    env: Env,
    host: &mut Host<'_>,
    Ghost(hits): Ghost<Seq<DemandModel>>,
) -> (r: Result<Walk, Error>)
    requires
        pos <= bytes@.len(),
        old(host).wf(),
        whole == wants_whole(hits),
    ensures
        answers_as(r, child(bytes@, pos as int, lenses_model(reaching@), hits, ctx, depth as int, env), *old(host), bytes@.len() as int),
        r matches Ok(w) ==> pos < w.end <= bytes@.len() && w.marks@.len() == reaching@.len(),
        final(host).wf(),
        final(host).same(*old(host)),
        r is Ok ==> noted(*final(host), *old(host), child_events(bytes@, pos as int, lenses_model(reaching@), hits, ctx, depth as int, env)),
    decreases bytes@.len() - pos, 7nat,
{
    if reaching.len() > 0 {
        return walk_node(bytes, pos, reaching, ctx, depth, env, host);
    }
    let check: Check = if whole {
        ctx.demanded_check()
    } else {
        ctx.unread_check()
    };
    let end: usize = skip_noted(bytes, pos, check, ctx, depth, host)?;
    let marks: Vec<Mark> = Vec::new();
    assert(marks_model(marks@) =~= Seq::empty());
    Ok(Walk { end, stopped: false, marks })
}

/// Walk the array at `start`.
fn walk_array(
    bytes: &[u8],
    start: usize,
    hits: &[Lens<'_>],
    answered: Vec<Mark>,
    ctx: WalkCtx,
    depth: u32,
    env: Env,
    host: &mut Host<'_>,
) -> (r: Result<Walk, Error>)
    requires
        start < bytes@.len(),
        answered@.len() == hits@.len(),
        old(host).wf(),
    ensures
        answers_as(
            r,
            array(bytes@, start as int, lenses_model(hits@), marks_model(answered@), ctx, depth as int, env),
            *old(host),
            bytes@.len() as int,
        ),
        r matches Ok(w) ==> start < w.end <= bytes@.len() && w.marks@.len() == hits@.len(),
        final(host).wf(),
        final(host).same(*old(host)),
        r is Ok ==> noted(*final(host), *old(host), array_events(bytes@, start as int, lenses_model(hits@), marks_model(answered@), ctx, depth as int, env)),
    decreases bytes@.len() - start, 4nat,
{
    if depth >= ctx.max {
        return Err(Error::new(ErrorKind::Limit, start));
    }
    let ghost model = lenses_model(hits@);
    let survey: Survey = Survey::of(hits);
    if survey.all_rows {
        let (end, batches) = crate::walk::rows::keep_array(bytes, start, hits, ctx, depth + 1, host)?;
        let ghost st = rows(
            bytes@,
            RowState { pos: start + 1, first: true, cells: no_cells(hits@.len()) },
            model,
            ctx,
            depth + 1,
        )->Ok_0;
        let marks: Vec<Mark> = crate::walk::rows::batches_to_marks(batches, Ghost(model), Ghost(st.cells));
        return Ok(Walk { end, stopped: false, marks });
    }
    let prefix: Option<usize> = if env.may_stop {
        window_prefix(hits)
    } else {
        None
    };
    let ghost need = if env.may_stop {
        prefix_window(model)
    } else {
        None
    };
    let mut marks: Vec<Mark> = answered;
    open_rows(hits, &mut marks);
    let ghost first = ArrayState {
        pos: start + 1,
        idx: 0,
        spans: Seq::empty(),
        marks: marks_model(marks@),
        stopped: false,
    };
    let ghost all_events = elements_events(bytes@, first, model, ctx, depth + 1, need);
    let len: usize = bytes.len();
    let mut pos: usize = start + 1;
    let mut idx: usize = 0;
    let mut spans: Vec<ByteRange> = Vec::new();
    let ghost mut all_spans = Seq::<ByteRange>::empty();
    let mut stopped: bool = false;
    loop
        invariant_except_break
            start < pos <= len,
            idx <= pos - start - 1,
            !stopped,
            elements(bytes@, first, model, ctx, depth + 1, need) == elements(
                bytes@,
                (ArrayState {
                    pos: pos as int,
                    idx: idx as int,
                    spans: all_spans,
                    marks: marks_model(marks@),
                    stopped: false,
                }),
                model,
                ctx,
                depth + 1,
                need,
            ),
            owed(
                *host,
                *old(host),
                elements_events(
                    bytes@,
                    (ArrayState {
                        pos: pos as int,
                        idx: idx as int,
                        spans: all_spans,
                        marks: marks_model(marks@),
                        stopped: false,
                    }),
                    model,
                    ctx,
                    depth + 1,
                    need,
                ),
                all_events,
            ),
        invariant
            len == bytes@.len(),
            depth < ctx.max,
            model == lenses_model(hits@),
            survey.of_hits(model),
            marks@.len() == hits@.len(),
            rows_open(model, marks_model(marks@)),
            host.wf(),
            host.same(*old(host)),
            match need {
                Some(n) => prefix matches Some(m) && (m == n || (m == usize::MAX && n >= usize::MAX)),
                None => prefix is None,
            },
            spans@ == (if survey.spans {
                all_spans
            } else {
                Seq::empty()
            }),
            spans_after(all_spans, start as int, len as int),
            array(bytes@, start as int, model, marks_model(answered@), ctx, depth as int, env) == (match elements(
                bytes@,
                first,
                model,
                ctx,
                depth + 1,
                need,
            ) {
                Err(error) => Err(error),
                Ok(st) => match finish_array(bytes@, start as int, model, model.len(), st, ctx, depth as int, env) {
                    Err(error) => Err(error),
                    Ok(marks) => Ok(Walked { end: st.pos, stopped: st.stopped, marks }),
                },
            }),
        ensures
            start < pos <= len,
            noted(*host, *old(host), all_events),
            elements(bytes@, first, model, ctx, depth + 1, need) == Ok::<ArrayState, Error>(
                (ArrayState {
                    pos: pos as int,
                    idx: idx as int,
                    spans: all_spans,
                    marks: marks_model(marks@),
                    stopped,
                }),
            ),
        decreases len - pos,
    {
        let ghost here = ArrayState {
            pos: pos as int,
            idx: idx as int,
            spans: all_spans,
            marks: marks_model(marks@),
            stopped: false,
        };
        let ghost prior = *host;
        if let Some(most) = prefix {
            if idx >= most {
                host.note_stop(pos);
                stopped = true;
                proof {
                    let stop = seq![TraceEvent::Stop { offset: pos }];
                    assert(stop + Seq::<TraceEvent>::empty() =~= stop);
                    owed_step(*host, prior, *old(host), stop, Seq::empty(), all_events);
                    owed_none(*host, *old(host), all_events);
                }
                break;
            }
        }
        host.poll(pos)?;
        match next_item(bytes, pos, ctx.dialect, RBRACKET, idx == 0)? {
            Next::Close(end) => {
                pos = end;
                proof {
                    owed_none(*host, *old(host), all_events);
                }
                break;
            },
            Next::Item(p) => {
                let (reaching, reached) = element_hits(hits, idx);
                let w: Walk = walk_child(
                    bytes,
                    p,
                    reaching.as_slice(),
                    survey.whole,
                    ctx,
                    depth + 1,
                    Env { element: true, may_stop: false, lane: false },
                    host,
                    Ghost(model),
                )?;
                let elem: ByteRange = ByteRange { start: p, end: w.end };
                let ghost walked = w.model();
                fold_element(hits, idx, &mut marks, &reached, w.marks, elem);
                if survey.spans {
                    spans.push(elem);
                }
                proof {
                    all_spans = all_spans.push(elem);
                }
                pos = w.end;
                idx = idx + 1;
                proof {
                    let opts = array_hits(model, here.idx);
                    let head = child_events(bytes@, p as int, kept(opts), model, ctx, depth + 1, element_env());
                    let next = next_element(here, model, opts, walked, p as int);
                    let tail = elements_events(bytes@, next, model, ctx, depth + 1, need);
                    owed_step(*host, prior, *old(host), head, tail, all_events);
                }
            },
        }
    }
    let ghost st = ArrayState {
        pos: pos as int,
        idx: idx as int,
        spans: all_spans,
        marks: marks_model(marks@),
        stopped,
    };
    let ghost prior = *host;
    let marks: Vec<Mark> = finish_array_marks(
        bytes,
        start,
        pos,
        hits,
        marks,
        &spans,
        idx,
        ctx,
        depth,
        env,
        host,
        Ghost(st),
    )?;
    proof {
        let last = finish_array_events(bytes@, start as int, model, model.len(), st, ctx, depth as int, env);
        noted_then(*host, prior, *old(host), all_events, last);
    }
    Ok(Walk { end: pos, stopped, marks })
}

/// The marks of an array's hits once its elements were walked.
fn finish_array_marks(
    bytes: &[u8],
    start: usize,
    end: usize,
    hits: &[Lens<'_>],
    marks: Vec<Mark>,
    spans: &Vec<ByteRange>,
    len: usize,
    ctx: WalkCtx,
    depth: u32,
    env: Env,
    host: &mut Host<'_>,
    Ghost(st): Ghost<ArrayState>,
) -> (r: Result<Vec<Mark>, Error>)
    requires
        start < bytes@.len(),
        st.pos == end,
        st.idx == len,
        st.marks == marks_model(marks@),
        marks@.len() == hits@.len(),
        rows_open(lenses_model(hits@), st.marks),
        spans@ == (if keeps_spans(lenses_model(hits@)) {
            st.spans
        } else {
            Seq::empty()
        }),
        spans_after(spans@, start as int, bytes@.len() as int),
        old(host).wf(),
    ensures
        host_stopped(r, *old(host), bytes@.len() as int) || match finish_array(
            bytes@,
            start as int,
            lenses_model(hits@),
            hits@.len(),
            st,
            ctx,
            depth as int,
            env,
        ) {
            Ok(done) => r matches Ok(out) && marks_model(out@) == done && out@.len() == hits@.len(),
            Err(error) => r == Err::<Vec<Mark>, Error>(error),
        },
        final(host).wf(),
        final(host).same(*old(host)),
        r is Ok ==> noted(*final(host), *old(host), finish_array_events(
            bytes@,
            start as int,
            lenses_model(hits@),
            hits@.len(),
            st,
            ctx,
            depth as int,
            env,
        )),
    decreases bytes@.len() - start, 3nat,
{
    let ghost model = lenses_model(hits@);
    let mut marks: Vec<Mark> = marks;
    let none: Vec<ByteRange> = Vec::new();
    let mut i: usize = 0;
    assert(marks_model(marks@.take(0)) =~= Seq::empty());
    proof {
        noted_nothing(*host, *host);
    }
    while i < hits.len()
        invariant
            i <= hits@.len(),
            start < bytes@.len(),
            st.pos == end,
            st.idx == len,
            model == lenses_model(hits@),
            marks@.len() == hits@.len(),
            st.marks.len() == hits@.len(),
            rows_open(model, st.marks),
            host.wf(),
            host.same(*old(host)),
            noted(
                *host,
                *old(host),
                finish_array_events(bytes@, start as int, model, i as nat, st, ctx, depth as int, env),
            ),
            spans@ == (if keeps_spans(model) {
                st.spans
            } else {
                Seq::empty()
            }),
            spans_after(spans@, start as int, bytes@.len() as int),
            none@.len() == 0,
            forall|k: int| i <= k < hits@.len() ==> (#[trigger] marks@[k])@ == st.marks[k],
            finish_array(bytes@, start as int, model, i as nat, st, ctx, depth as int, env) == Ok::<
                Seq<MarkModel>,
                Error,
            >(marks_model(marks@.take(i as int))),
        decreases hits@.len() - i,
    {
        let mut mark: Mark = Mark::Missing;
        core::mem::swap(&mut mark, &mut marks[i]);
        let ghost before = marks@.take(i as int);
        let ghost prior = *host;
        proof {
            assert(model[i as int] == hits@[i as int].model());
            assert(mark@ == st.marks[i as int]);
            finish_array_step(bytes@, start as int, model, i as nat, st, ctx, depth as int, env);
            assert(marks_model(before) == finish_array(
                bytes@,
                start as int,
                model,
                i as nat,
                st,
                ctx,
                depth as int,
                env,
            )->Ok_0);
        }
        let lens: Lens<'_> = hits[i];
        let given: &Vec<ByteRange> = if lens_needs_spans(lens) {
            spans
        } else {
            &none
        };
        proof {
            if needs_spans(lens.model()) {
                assert(keeps_spans(model)) by {
                    assert(needs_spans(model[i as int]));
                }
            }
            assert(given@ =~= spans_for(lens.model(), st.spans));
        }
        let finished = finish_array_hit(
            bytes,
            start,
            end,
            lens,
            mark,
            given,
            len,
            ctx,
            depth,
            env,
            host,
            Ghost(st),
        );
        match finished {
            Ok(mark) => {
                marks.set(i, mark);
                assert(marks@.take(i + 1) =~= before.push(mark));
                assert(marks_model(marks@.take(i + 1)) =~= marks_model(before).push(mark@));
                proof {
                    let done = finish_array_events(bytes@, start as int, model, i as nat, st, ctx, depth as int, env);
                    let more = array_mark_events(
                        bytes@,
                        start as int,
                        model[i as int],
                        st.marks[i as int],
                        given@,
                        st.idx,
                        ctx,
                        depth as int,
                        env,
                    );
                    noted_then(*host, prior, *old(host), done, more);
                }
            },
            Err(error) => {
                proof {
                    if !host_stopped(finished, *host, bytes@.len() as int) {
                        finish_array_err(
                            bytes@,
                            start as int,
                            model,
                            (i + 1) as nat,
                            model.len(),
                            st,
                            ctx,
                            depth as int,
                            env,
                        );
                    }
                }
                return Err(error);
            },
        }
        i = i + 1;
    }
    assert(marks@.take(i as int) =~= marks@);
    Ok(marks)
}

/// One more hit finishes after the hits before it.
proof fn finish_array_step(
    b: Seq<u8>,
    start: int,
    hits: Seq<DemandModel>,
    i: nat,
    st: ArrayState,
    ctx: WalkCtx,
    depth: int,
    env: Env,
)
    requires
        i < hits.len(),
        finish_array(b, start, hits, i, st, ctx, depth, env) is Ok,
    ensures
        finish_array(b, start, hits, i + 1, st, ctx, depth, env) == (match array_mark(
            b,
            start,
            hits[i as int],
            st.marks[i as int],
            spans_for(hits[i as int], st.spans),
            st,
            ctx,
            depth,
            env,
        ) {
            Err(error) => Err(error),
            Ok(mark) => Ok(finish_array(b, start, hits, i, st, ctx, depth, env)->Ok_0.push(mark)),
        }),
{
}

/// One hit's mark once an array's elements were walked.
fn finish_array_hit(
    bytes: &[u8],
    start: usize,
    end: usize,
    lens: Lens<'_>,
    mark: Mark,
    spans: &Vec<ByteRange>,
    len: usize,
    ctx: WalkCtx,
    depth: u32,
    env: Env,
    host: &mut Host<'_>,
    Ghost(st): Ghost<ArrayState>,
) -> (r: Result<Mark, Error>)
    requires
        start < bytes@.len(),
        st.pos == end,
        st.idx == len,
        spans_after(spans@, start as int, bytes@.len() as int),
        row_shape(lens.model()) is Some ==> mark@ is Rows,
        old(host).wf(),
    ensures
        marks_as(
            r,
            array_mark(bytes@, start as int, lens.model(), mark@, spans@, st, ctx, depth as int, env),
            *old(host),
            bytes@.len() as int,
        ),
        final(host).wf(),
        final(host).same(*old(host)),
        r is Ok ==> noted(*final(host), *old(host), array_mark_events(bytes@, start as int, lens.model(), mark@, spans@, st.idx, ctx, depth as int, env)),
    decreases bytes@.len() - start, 2nat,
{
    proof {
        noted_nothing(*host, *host);
    }
    match lens {
        Lens::Whole => Ok(Mark::Span(ByteRange { start, end })),
        Lens::Path { steps, nested } => {
            assert(steps_model(steps@).len() == steps@.len());
            match mark {
                Mark::Missing => {
                    if steps.len() == 0 {
                        return Ok(Mark::Missing);
                    }
                    match &steps[0] {
                        Step::Key(_) => Ok(Mark::Mismatch(ValueKind::Array)),
                        Step::Index(i) => match resolve_index(len, *i) {
                            Some(k) => {
                                if k < spans.len() {
                                    replay_element(
                                        bytes,
                                        start,
                                        spans[k],
                                        step_into(steps, nested),
                                        ctx,
                                        depth,
                                        env.element,
                                        host,
                                    )
                                } else {
                                    Ok(Mark::Missing)
                                }
                            },
                            None => Ok(Mark::Missing),
                        },
                    }
                },
                other => Ok(other),
            }
        },
        Lens::Collection { keys: _, nested: _ } => Ok(mark),
        Lens::Slice { range, nested } => {
            let (from, to) = range.window(len);
            if lens_slice_replays(lens) {
                match shape_of(lens) {
                    Some(shape) => replay_slice(
                        bytes,
                        start,
                        spans,
                        from,
                        to,
                        Lens::from_nested(nested),
                        shape,
                        ctx,
                        depth,
                        host,
                    ),
                    None => Ok(mark),
                }
            } else {
                match mark {
                    Mark::Rows(batch) => {
                        let mut batch: Batch = batch;
                        batch.retain_rows(from, to);
                        Ok(Mark::Rows(batch))
                    },
                    other => Ok(other),
                }
            }
        },
        Lens::Project { path, fields: _ } => {
            assert(steps_model(path@).len() == path@.len());
            if path.len() > 0 && matches!(mark, Mark::Missing | Mark::Mismatch(_)) {
                finish_index_spine(bytes, start, path, row_step_into(lens), mark, spans, len, ctx, depth, env, host)
            } else {
                Ok(mark)
            }
        },
        Lens::Filter { path, predicate: _, project: _ } => {
            assert(steps_model(path@).len() == path@.len());
            if path.len() > 0 && matches!(mark, Mark::Missing | Mark::Mismatch(_)) {
                finish_index_spine(bytes, start, path, row_step_into(lens), mark, spans, len, ctx, depth, env, host)
            } else {
                Ok(mark)
            }
        },
        Lens::Oracle(o) => match o {
            Oracle::Count => Ok(Mark::Count(len as u64)),
            _ => Ok(mark),
        },
    }
}

/// Walk one element again for one hit.
fn replay_element(
    bytes: &[u8],
    start: usize,
    elem: ByteRange,
    lens: Lens<'_>,
    ctx: WalkCtx,
    depth: u32,
    element: bool,
    host: &mut Host<'_>,
) -> (r: Result<Mark, Error>)
    requires
        start < elem.start <= bytes@.len(),
        old(host).wf(),
    ensures
        marks_as(r, replay(bytes@, start as int, elem, lens.model(), ctx, depth as int, element), *old(host), bytes@.len() as int),
        final(host).wf(),
        final(host).same(*old(host)),
        r is Ok ==> noted(*final(host), *old(host), replay_events(bytes@, start as int, elem, lens.model(), ctx, depth as int, element)),
    decreases bytes@.len() - start, 0nat,
{
    let one: [Lens<'_>; 1] = [lens];
    assert(lenses_model(one@) =~= seq![lens.model()]);
    let w: Walk = walk_node(
        bytes,
        elem.start,
        &one,
        ctx,
        depth,
        Env { element, may_stop: false, lane: false },
        host,
    )?;
    let mut marks: Vec<Mark> = w.marks;
    let ghost given = marks@;
    match marks.pop() {
        Some(mark) => {
            assert(marks_model(given)[0] == mark@);
            Ok(mark)
        },
        None => Ok(Mark::Missing),
    }
}

/// Walk the windowed elements again and fold them into rows.
fn replay_slice(
    bytes: &[u8],
    start: usize,
    spans: &Vec<ByteRange>,
    from: usize,
    to: usize,
    lens: Lens<'_>,
    shape: RowShape<'_>,
    ctx: WalkCtx,
    depth: u32,
    host: &mut Host<'_>,
) -> (r: Result<Mark, Error>)
    requires
        start < bytes@.len(),
        spans_after(spans@, start as int, bytes@.len() as int),
        old(host).wf(),
    ensures
        marks_as(
            r,
            replay_window(
                bytes@,
                start as int,
                spans@,
                from as int,
                to as int,
                lens.model(),
                shape.model(),
                (BatchModel { fields: row_fields(shape.model()), cells: Seq::empty() }),
                ctx,
                depth as int,
            ),
            *old(host),
            bytes@.len() as int,
        ),
        final(host).wf(),
        final(host).same(*old(host)),
        r is Ok ==> noted(*final(host), *old(host), window_events(bytes@, start as int, spans@, from as int, to as int, lens.model(), ctx, depth as int)),
    decreases bytes@.len() - start, 1nat,
{
    let mut acc: Batch = Batch::of(shape);
    let ghost whole = replay_window(
        bytes@,
        start as int,
        spans@,
        from as int,
        to as int,
        lens.model(),
        shape.model(),
        acc@,
        ctx,
        depth as int,
    );
    let ghost all_events = window_events(
        bytes@,
        start as int,
        spans@,
        from as int,
        to as int,
        lens.model(),
        ctx,
        depth as int,
    );
    let mut i: usize = from;
    while i < to && i < spans.len()
        invariant
            from <= i,
            start < bytes@.len(),
            spans_after(spans@, start as int, bytes@.len() as int),
            host.wf(),
            host.same(*old(host)),
            owed(
                *host,
                *old(host),
                window_events(
                    bytes@,
                    start as int,
                    spans@,
                    i as int,
                    to as int,
                    lens.model(),
                    ctx,
                    depth as int,
                ),
                all_events,
            ),
            whole == replay_window(
                bytes@,
                start as int,
                spans@,
                i as int,
                to as int,
                lens.model(),
                shape.model(),
                acc@,
                ctx,
                depth as int,
            ),
            whole == replay_window(
                bytes@,
                start as int,
                spans@,
                from as int,
                to as int,
                lens.model(),
                shape.model(),
                (BatchModel { fields: row_fields(shape.model()), cells: Seq::empty() }),
                ctx,
                depth as int,
            ),
        decreases spans@.len() - i,
    {
        let ghost prior = *host;
        let mark: Mark = replay_element(bytes, start, spans[i], lens, ctx, depth, true, host)?;
        acc.fold(shape, mark, spans[i]);
        i = i + 1;
        proof {
            let head = replay_events(
                bytes@,
                start as int,
                spans@[i - 1],
                lens.model(),
                ctx,
                depth as int,
                true,
            );
            let tail = window_events(
                bytes@,
                start as int,
                spans@,
                i as int,
                to as int,
                lens.model(),
                ctx,
                depth as int,
            );
            owed_step(*host, prior, *old(host), head, tail, all_events);
        }
    }
    proof {
        owed_none(*host, *old(host), all_events);
    }
    Ok(Mark::Rows(acc))
}

/// The answer of a row lens whose path starts at an index the element loop
/// left open.
fn finish_index_spine(
    bytes: &[u8],
    start: usize,
    path: &[Step],
    inner: Lens<'_>,
    mark: Mark,
    spans: &Vec<ByteRange>,
    len: usize,
    ctx: WalkCtx,
    depth: u32,
    env: Env,
    host: &mut Host<'_>,
) -> (r: Result<Mark, Error>)
    requires
        start < bytes@.len(),
        path@.len() > 0,
        spans_after(spans@, start as int, bytes@.len() as int),
        old(host).wf(),
    ensures
        marks_as(
            r,
            index_spine(
                bytes@,
                start as int,
                steps_model(path@),
                inner.model(),
                mark@,
                spans@,
                len as int,
                ctx,
                depth as int,
                env,
            ),
            *old(host),
            bytes@.len() as int,
        ),
        final(host).wf(),
        final(host).same(*old(host)),
        r is Ok ==> noted(*final(host), *old(host), index_spine_events(
            bytes@,
            start as int,
            steps_model(path@),
            inner.model(),
            spans@,
            len as int,
            ctx,
            depth as int,
            env,
        )),
    decreases bytes@.len() - start, 1nat,
{
    proof {
        noted_nothing(*host, *host);
    }
    match &path[0] {
        Step::Key(_) => Ok(Mark::Mismatch(ValueKind::Array)),
        Step::Index(i) => match resolve_index(len, *i) {
            None => Ok(Mark::Missing),
            Some(k) => {
                if path.len() == 1 {
                    let again: Mark = if k < spans.len() {
                        replay_element(bytes, start, spans[k], inner, ctx, depth, true, host)?
                    } else {
                        mark
                    };
                    match again {
                        Mark::Rows(batch) => Ok(Mark::Rows(batch)),
                        _ => Ok(one_row(inner)),
                    }
                } else if k < spans.len() {
                    replay_element(bytes, start, spans[k], inner, ctx, depth, env.element, host)
                } else {
                    Ok(Mark::Missing)
                }
            },
        },
    }
}

/// The one-row answer of a row lens on one selected element.
fn one_row(lens: Lens<'_>) -> (r: Mark)
    ensures
        r@ == flat_index_row(lens.model()),
{
    match lens {
        Lens::Project { path: _, fields } => {
            let mut batch: Batch = Batch::of(RowShape::Projected(fields));
            batch.push_absent(fields.len());
            assert(Seq::<ColumnCell>::empty() + absent_row(fields@.len()) =~= absent_row(fields@.len()));
            Mark::Rows(batch)
        },
        Lens::Filter { path: _, predicate: _, project } => Mark::Rows(Batch::of(RowShape::Filtered(project))),
        _ => Mark::Missing,
    }
}

/// Walk the object at `start`.
fn walk_object(
    bytes: &[u8],
    start: usize,
    hits: &[Lens<'_>],
    answered: Vec<Mark>,
    ctx: WalkCtx,
    depth: u32,
    env: Env,
    host: &mut Host<'_>,
) -> (r: Result<Walk, Error>)
    requires
        start < bytes@.len(),
        answered@.len() == hits@.len(),
        old(host).wf(),
    ensures
        answers_as(
            r,
            object(bytes@, start as int, lenses_model(hits@), marks_model(answered@), ctx, depth as int, env),
            *old(host),
            bytes@.len() as int,
        ),
        r matches Ok(w) ==> start < w.end <= bytes@.len() && w.marks@.len() == hits@.len(),
        final(host).wf(),
        final(host).same(*old(host)),
        r is Ok ==> noted(*final(host), *old(host), object_events(bytes@, start as int, lenses_model(hits@), marks_model(answered@), ctx, depth as int, env)),
    decreases bytes@.len() - start, 4nat,
{
    let ghost model = lenses_model(hits@);
    let survey: Survey = Survey::of(hits);
    if env.lane && survey.all_rows {
        let mut layout: crate::walk::layout::RowLayout = crate::walk::layout::RowLayout::new();
        let (end, found) = crate::walk::rows::keep_object(bytes, start, hits, ctx, depth, &mut layout, host)?;
        let mut batches: Vec<Batch> = crate::walk::rows::open_batches(hits);
        let object_span: ByteRange = ByteRange { start, end };
        crate::walk::rows::push_object(
            hits,
            &mut batches,
            &found,
            bytes,
            object_span,
            ctx.dialect,
            Ghost(no_cells(hits@.len())),
        );
        let ghost cells = object_rows(bytes@, model, found@, object_span, ctx.dialect);
        proof {
            let joined = appended(no_cells(hits@.len()), cells);
            assert forall|i: int| 0 <= i < joined.len() implies #[trigger] joined[i] == cells[i] by {
                assert(Seq::<ColumnCell>::empty() + cells[i] =~= cells[i]);
            }
            assert(joined =~= cells);
        }
        let marks: Vec<Mark> = crate::walk::rows::batches_to_marks(batches, Ghost(model), Ghost(cells));
        return Ok(Walk { end, stopped: false, marks });
    }
    if depth >= ctx.max {
        return Err(Error::new(ErrorKind::Limit, start));
    }
    let ghost first = MemberState {
        pos: start + 1,
        first: true,
        marks: marks_model(answered@),
        members: Seq::empty(),
        stopped: false,
    };
    let ghost all_events = members_events(bytes@, first, model, ctx, depth + 1, env);
    let len: usize = bytes.len();
    let mut marks: Vec<Mark> = answered;
    let mut found: Members = Members::new();
    let mut pos: usize = start + 1;
    let mut seen: bool = false;
    let mut stopped: bool = false;
    loop
        invariant_except_break
            start < pos <= len,
            members(bytes@, first, model, ctx, depth + 1, env) == members(
                bytes@,
                (MemberState {
                    pos: pos as int,
                    first: !seen,
                    marks: marks_model(marks@),
                    members: found@,
                    stopped,
                }),
                model,
                ctx,
                depth + 1,
                env,
            ),
            owed(
                *host,
                *old(host),
                members_events(
                    bytes@,
                    (MemberState {
                        pos: pos as int,
                        first: !seen,
                        marks: marks_model(marks@),
                        members: found@,
                        stopped,
                    }),
                    model,
                    ctx,
                    depth + 1,
                    env,
                ),
                all_events,
            ),
        invariant
            len == bytes@.len(),
            depth < ctx.max,
            model == lenses_model(hits@),
            survey.of_hits(model),
            marks@.len() == hits@.len(),
            host.wf(),
            host.same(*old(host)),
            spans_inside(found@, len as int),
            names_valid(found@),
            object(bytes@, start as int, model, marks_model(answered@), ctx, depth as int, env) == (match members(
                bytes@,
                first,
                model,
                ctx,
                depth + 1,
                env,
            ) {
                Err(error) => Err(error),
                Ok(st) => Ok(
                    Walked {
                        end: st.pos,
                        stopped: st.stopped,
                        marks: finish_object(bytes@, start as int, model, st, ctx.dialect),
                    },
                ),
            }),
        ensures
            start < pos <= len,
            noted(*host, *old(host), all_events),
            members(bytes@, first, model, ctx, depth + 1, env) == Ok::<MemberState, Error>(
                (MemberState {
                    pos: pos as int,
                    first: !seen,
                    marks: marks_model(marks@),
                    members: found@,
                    stopped,
                }),
            ),
        decreases len - pos,
    {
        let ghost here = MemberState {
            pos: pos as int,
            first: !seen,
            marks: marks_model(marks@),
            members: found@,
            stopped,
        };
        let ghost prior = *host;
        if stopped {
            proof {
                owed_none(*host, *old(host), all_events);
            }
            break;
        }
        host.poll(pos)?;
        match next_item(bytes, pos, ctx.dialect, RBRACE, !seen)? {
            Next::Close(end) => {
                pos = end;
                proof {
                    owed_none(*host, *old(host), all_events);
                }
                break;
            },
            Next::Item(p) => {
                proof {
                    key_text_end(bytes@, p as int, ctx.dialect);
                }
                let mut name: Vec<u8> = Vec::new();
                let key_end: usize = read_key_into(bytes, p, &mut name, ctx.dialect)?;
                let v: usize = skip_colon(bytes, key_end, ctx.dialect)?;
                let (reaching, reached) = member_hits(hits, name.as_slice());
                assert(lenses_model(reaching@).len() == reaching@.len());
                let w: Walk = walk_child(
                    bytes,
                    v,
                    reaching.as_slice(),
                    survey.whole,
                    ctx,
                    depth + 1,
                    Env {
                        element: false,
                        may_stop: env.may_stop && reaching.len() == hits.len(),
                        lane: false,
                    },
                    host,
                    Ghost(model),
                )?;
                let ghost walked = w.model();
                let ghost key = name@;
                take_member(hits, name.as_slice(), &mut marks, &reached, w.marks);
                pos = w.end;
                stopped = w.stopped;
                seen = true;
                if survey.members && (survey.collects_all || wants_member(hits, name.as_slice())) {
                    let ghost before = found@;
                    found.insert(name, ByteRange { start: v, end: w.end });
                    proof {
                        find_bounds(before, name@);
                        assert(spans_inside(found@, len as int));
                        assert(names_valid(found@));
                    }
                }
                proof {
                    let opts = object_hits(model, key);
                    let inner = member_env(env, opts, model);
                    let head = child_events(bytes@, v as int, kept(opts), model, ctx, depth + 1, inner);
                    let next = next_member(here, model, opts, key, walked, v as int);
                    let tail = members_events(bytes@, next, model, ctx, depth + 1, env);
                    owed_step(*host, prior, *old(host), head, tail, all_events);
                }
            },
        }
    }
    let ghost st = MemberState {
        pos: pos as int,
        first: !seen,
        marks: marks_model(marks@),
        members: found@,
        stopped,
    };
    finish_object_marks(bytes, start, pos, hits, &mut marks, &found, ctx.dialect, Ghost(st));
    Ok(Walk { end: pos, stopped, marks })
}

/// The marks of an object's hits once its members were walked.
fn finish_object_marks(
    bytes: &[u8],
    start: usize,
    end: usize,
    hits: &[Lens<'_>],
    marks: &mut Vec<Mark>,
    found: &Members,
    dialect: Dialect,
    Ghost(st): Ghost<MemberState>,
)
    requires
        start < bytes@.len(),
        st.pos == end,
        st.marks == marks_model(old(marks)@),
        st.members == found@,
        old(marks)@.len() == hits@.len(),
        spans_inside(found@, bytes@.len() as int),
        names_valid(found@),
    ensures
        final(marks)@.len() == hits@.len(),
        marks_model(final(marks)@) == finish_object(bytes@, start as int, lenses_model(hits@), st, dialect),
{
    let ghost model = lenses_model(hits@);
    let ghost done = finish_object(bytes@, start as int, model, st, dialect);
    let mut i: usize = 0;
    while i < hits.len()
        invariant
            i <= hits@.len(),
            start < bytes@.len(),
            st.pos == end,
            st.members == found@,
            model == lenses_model(hits@),
            done == finish_object(bytes@, start as int, model, st, dialect),
            marks@.len() == hits@.len(),
            st.marks.len() == hits@.len(),
            spans_inside(found@, bytes@.len() as int),
            names_valid(found@),
            forall|k: int| 0 <= k < i ==> (#[trigger] marks@[k])@ == done[k],
            forall|k: int| i <= k < hits@.len() ==> (#[trigger] marks@[k])@ == st.marks[k],
        decreases hits@.len() - i,
    {
        let mut mark: Mark = Mark::Missing;
        core::mem::swap(&mut mark, &mut marks[i]);
        assert(model[i as int] == hits@[i as int].model());
        assert(mark@ == st.marks[i as int]);
        let last: Mark = finish_object_hit(bytes, start, end, hits[i], mark, found, dialect, Ghost(st));
        marks.set(i, last);
        i = i + 1;
    }
    assert(marks_model(marks@) =~= done);
}

/// Names of members are text.
spec fn names_valid(members: Seq<(Seq<u8>, ByteRange)>) -> bool {
    forall|i: int| 0 <= i < members.len() ==> vstd::utf8::valid_utf8((#[trigger] members[i]).0)
}

/// One hit's mark once an object's members were walked.
fn finish_object_hit(
    bytes: &[u8],
    start: usize,
    end: usize,
    lens: Lens<'_>,
    mark: Mark,
    found: &Members,
    dialect: Dialect,
    Ghost(st): Ghost<MemberState>,
) -> (r: Mark)
    requires
        start < bytes@.len(),
        st.pos == end,
        st.members == found@,
        spans_inside(found@, bytes@.len() as int),
        names_valid(found@),
    ensures
        r@ == object_mark(bytes@, start as int, lens.model(), mark@, st, dialect),
{
    match lens {
        Lens::Whole => Mark::Span(ByteRange { start, end }),
        Lens::Path { steps, nested: _ } => keep_or_mismatch(steps, mark),
        Lens::Collection { keys: _, nested: _ } => Mark::Mismatch(ValueKind::Object),
        Lens::Slice { range: _, nested: _ } => Mark::Mismatch(ValueKind::Object),
        Lens::Project { path, fields: _ } => {
            assert(steps_model(path@).len() == path@.len());
            if path.len() == 0 {
                object_row(bytes, lens, found, ByteRange { start, end }, dialect)
            } else {
                keep_or_mismatch(path, mark)
            }
        },
        Lens::Filter { path, predicate: _, project: _ } => {
            assert(steps_model(path@).len() == path@.len());
            if path.len() == 0 {
                object_row(bytes, lens, found, ByteRange { start, end }, dialect)
            } else {
                keep_or_mismatch(path, mark)
            }
        },
        Lens::Oracle(o) => match o {
            Oracle::HasKey { key } => Mark::HasKey(found.get(text_bytes(key)).is_some()),
            Oracle::MemberNames => Mark::Names(found.keys()),
            Oracle::MemberCount => Mark::Count(found.len() as u64),
            Oracle::Count => Mark::Count(found.len() as u64),
            _ => mark,
        },
    }
}

/// A path's mark at an object's end.
fn keep_or_mismatch(path: &[Step], mark: Mark) -> (r: Mark)
    ensures
        r@ == key_spine(steps_model(path@), mark@),
{
    assert(steps_model(path@).len() == path@.len());
    match mark {
        Mark::Missing => {
            if path.len() > 0 && matches!(&path[0], Step::Key(_)) {
                Mark::Missing
            } else {
                Mark::Mismatch(ValueKind::Object)
            }
        },
        other => other,
    }
}

/// The row a lone object contributes to a flat row lens.
fn object_row(bytes: &[u8], lens: Lens<'_>, found: &Members, object: ByteRange, dialect: Dialect) -> (r: Mark)
    requires
        spans_inside(found@, bytes@.len() as int),
        flat_row(lens.model()),
    ensures
        r@ == row_mark(lens.model(), object_cells(bytes@, lens.model(), found@, object, dialect)),
{
    let mut batch: Batch = match shape_of(lens) {
        Some(shape) => Batch::of(shape),
        None => Batch::of(RowShape::Whole),
    };
    apply_object_row(&mut batch, lens, found, bytes, object, dialect);
    proof {
        let cells = object_cells(bytes@, lens.model(), found@, object, dialect);
        assert(Seq::<ColumnCell>::empty() + cells =~= cells);
    }
    Mark::Rows(batch)
}

} // verus!
