//! A scan of one part of a sharded source: a run of values as the body of an array with
//! no brackets, or the records of a stream that begin in the part.

use vstd::prelude::*;

use crate::answer::{answers_model, answers_of, AnswerModel, Binding, Issue, ScanResult};
use crate::ascii::{COMMA, RBRACKET};
use crate::demand::{
    demand_model, demands_model, nested_or_whole, steps_model, Demand, DemandModel, Oracle, OracleModel, Path, Step,
    StepModel, Strictness,
};
use crate::dialect::Dialect;
use crate::error::{at, Error, ErrorKind};
use crate::facts::{collected, FactModel};
use crate::lex::skip::{skip_value, Check};
use crate::lex::ws::{skip_trivia, trivia_end};
use crate::scan::{check_of, collect_facts, errors_of, Ask, ScanRequest};
use crate::shard::frames::{part_frames, part_ranges};
use crate::shard::path::located_end;
use crate::stream::{
    all_missing, final_marks, finish_stream, frames_marks, missing_marks, record_walk, scan_frames, slots_after, walk_record,
    StreamPlan,
};
use crate::text::copy_names;
use crate::value::ByteRange;
use crate::walk::host::Host;
use crate::walk::marks::{marks_model, Mark, MarkModel};
use crate::walk::model::WalkCtx;
use crate::walk::node::host_stopped;

verus! {

/// How the answers of parts fold.
#[derive(Clone, Copy, Debug, PartialEq, Eq, Structural)]
pub enum Shard {
    /// The request is answered by one serial scan.
    Serial,
    /// Rows of the parts follow each other.
    Concat,
    /// Counts of the parts add up.
    Sum,
}

/// How a demand's answers fold over parts of its array.
pub open spec fn shard_of(d: DemandModel) -> Shard {
    match d {
        DemandModel::Oracle(OracleModel::Count) => Shard::Sum,
        DemandModel::Collection { .. } | DemandModel::Project { .. } | DemandModel::Filter { .. } => Shard::Concat,
        DemandModel::Path { nested, .. } => match nested {
            None => Shard::Serial,
            Some(inner) => match *inner {
                DemandModel::Oracle(OracleModel::Count) => Shard::Sum,
                DemandModel::Collection { .. } => Shard::Concat,
                DemandModel::Project { path, .. } => if path.len() == 0 {
                    Shard::Concat
                } else {
                    Shard::Serial
                },
                DemandModel::Filter { path, .. } => if path.len() == 0 {
                    Shard::Concat
                } else {
                    Shard::Serial
                },
                _ => Shard::Serial,
            },
        },
        _ => Shard::Serial,
    }
}

impl Demand {
    /// How this demand's answers fold over parts of its array.
    #[must_use]
    pub fn shard(&self) -> (r: Shard)
        ensures
            r == shard_of(demand_model(*self)),
    {
        match self {
            Demand::Oracle(Oracle::Count) => Shard::Sum,
            Demand::Collection { .. } | Demand::Project { .. } | Demand::Filter { .. } => Shard::Concat,
            Demand::Path { nested, .. } => match nested {
                None => Shard::Serial,
                Some(inner) => inner.shard_nested(),
            },
            _ => Shard::Serial,
        }
    }

    fn shard_nested(&self) -> (r: Shard)
        ensures
            r == shard_of(
                DemandModel::Path { steps: Seq::empty(), nested: Some(Box::new(demand_model(*self))) },
            ),
    {
        match self {
            Demand::Oracle(Oracle::Count) => Shard::Sum,
            Demand::Collection { .. } => Shard::Concat,
            Demand::Project { path, .. } => {
                proof {
                    assert(steps_model(path.steps@).len() == path.steps@.len());
                }
                if path.steps.len() == 0 {
                    Shard::Concat
                } else {
                    Shard::Serial
                }
            },
            Demand::Filter { path, .. } => {
                proof {
                    assert(steps_model(path.steps@).len() == path.steps@.len());
                }
                if path.steps.len() == 0 {
                    Shard::Concat
                } else {
                    Shard::Serial
                }
            },
            _ => Shard::Serial,
        }
    }
}

/// A demand on the array its path leads to.
pub open spec fn on_array(d: DemandModel) -> DemandModel {
    match d {
        DemandModel::Path { nested, .. } => nested_or_whole(nested),
        DemandModel::Project { fields, .. } => DemandModel::Project { path: Seq::empty(), fields },
        DemandModel::Filter { predicate, project, .. } => DemandModel::Filter { path: Seq::empty(), predicate, project },
        _ => d,
    }
}

fn demand_on_array(demand: &Demand) -> (r: Demand)
    ensures
        demand_model(r) == on_array(demand_model(*demand)),
{
    match demand {
        Demand::Path { nested, .. } => match nested {
            Some(inner) => inner.copied(),
            None => Demand::Whole,
        },
        Demand::Project { fields, .. } => {
            let steps: Vec<Step> = Vec::new();
            proof {
                assert(steps_model(steps@) =~= Seq::<StepModel>::empty());
            }
            Demand::Project { path: Path { steps }, fields: copy_names(fields.as_slice()) }
        },
        Demand::Filter { predicate, project, .. } => {
            let steps: Vec<Step> = Vec::new();
            proof {
                assert(steps_model(steps@) =~= Seq::<StepModel>::empty());
            }
            Demand::Filter {
                path: Path { steps },
                predicate: predicate.copied(),
                project: copy_names(project.as_slice()),
            }
        },
        other => other.copied(),
    }
}

/// The demands of the first `n` that are mapped onto each value: all but the
/// counts.
pub open spec fn mapped(demands: Seq<DemandModel>, n: nat) -> Seq<DemandModel>
    decreases n,
{
    if n == 0 || n > demands.len() {
        Seq::empty()
    } else {
        let before = mapped(demands, (n - 1) as nat);
        if shard_of(demands[n - 1]) == Shard::Sum {
            before
        } else {
            before.push(on_array(demands[n - 1]))
        }
    }
}

/// The per-part demand projection, compiled once.
#[derive(Debug)]
pub struct Window {
    sums: Vec<bool>,
    mapped: Vec<Demand>,
}

impl Window {
    /// Whether this is the projection of `demands`.
    pub closed spec fn projects(self, demands: Seq<DemandModel>) -> bool {
        &&& self.sums@.len() == demands.len()
        &&& forall|i: int| 0 <= i < demands.len() ==> #[trigger] self.sums@[i] == (shard_of(demands[i]) == Shard::Sum)
        &&& demands_model(self.mapped@) == mapped(demands, demands.len())
    }

    /// Compile the projection of `demands`.
    pub(crate) fn compile(demands: &[Demand]) -> (r: Self)
        ensures
            r.projects(demands_model(demands@)),
    {
        let ghost model = demands_model(demands@);
        let mut sums: Vec<bool> = Vec::new();
        let mut out: Vec<Demand> = Vec::new();
        let mut i: usize = 0;
        proof {
            assert(demands_model(out@) =~= mapped(model, 0));
        }
        while i < demands.len()
            invariant
                i <= demands@.len(),
                model == demands_model(demands@),
                sums@.len() == i,
                forall|k: int| 0 <= k < i ==> #[trigger] sums@[k] == (shard_of(model[k]) == Shard::Sum),
                demands_model(out@) == mapped(model, i as nat),
            decreases demands@.len() - i,
        {
            proof {
                assert(model[i as int] == demand_model(demands@[i as int]));
            }
            let sum: bool = demands[i].shard() == Shard::Sum;
            sums.push(sum);
            if !sum {
                let ghost before = out@;
                let next = demand_on_array(&demands[i]);
                let ghost added = demand_model(next);
                out.push(next);
                proof {
                    assert(demands_model(out@) =~= demands_model(before).push(added));
                }
            }
            i += 1;
        }
        Window { sums, mapped: out }
    }
}

/// The next value of a window of an array body that ends at `end`; none at its end. A
/// comma stands between values, and a comma before the end separates parts.
#[verifier::opaque]
pub open spec fn window_next(b: Seq<u8>, pos: int, end: int, dialect: Dialect, first: bool) -> Result<
    Option<int>,
    Error,
> {
    match trivia_end(b, pos, dialect) {
        Err(error) => Err(error),
        Ok(p) => if p >= end {
            Ok(None)
        } else if b[p] == RBRACKET {
            Ok(None)
        } else if first {
            Ok(Some(p))
        } else if b[p] != COMMA {
            Err(at(ErrorKind::ExpectedCommaArray, p))
        } else {
            match trivia_end(b, p + 1, dialect) {
                Err(error) => Err(error),
                Ok(q) => if q >= end {
                    Ok(None)
                } else if b[q] == RBRACKET {
                    if dialect.comments() {
                        Ok(None)
                    } else {
                        Err(at(ErrorKind::TrailingComma, q))
                    }
                } else {
                    Ok(Some(q))
                },
            }
        },
    }
}

/// Advance to the next value of a window.
pub fn run_next_value(src: &[u8], pos: usize, end: usize, dialect: Dialect, first: bool) -> (r: Result<
    Option<usize>,
    Error,
>)
    requires
        pos <= src@.len(),
        end <= src@.len(),
    ensures
        match window_next(src@, pos as int, end as int, dialect, first) {
            Ok(Some(p)) => r matches Ok(Some(at_value)) && at_value == p && pos <= p < src@.len(),
            Ok(None) => r matches Ok(None),
            Err(error) => r is Err && r->Err_0 == error,
        },
{
    proof {
        reveal(window_next);
    }
    let p: usize = skip_trivia(src, pos, dialect)?;
    if p >= end {
        return Ok(None);
    }
    if src[p] == RBRACKET {
        return Ok(None);
    }
    if first {
        return Ok(Some(p));
    }
    if src[p] != COMMA {
        return Err(Error::new(ErrorKind::ExpectedCommaArray, p));
    }
    let q: usize = skip_trivia(src, p + 1, dialect)?;
    if q >= end {
        return Ok(None);
    }
    if src[q] == RBRACKET {
        if dialect.trailing_commas() {
            return Ok(None);
        }
        return Err(Error::new(ErrorKind::TrailingComma, q));
    }
    Ok(Some(q))
}

/// How many values a window holds from `pos` on, after `n`.
pub open spec fn counted(
    b: Seq<u8>,
    pos: int,
    end: int,
    ctx: WalkCtx,
    first: bool,
    n: int,
) -> Result<int, Error>
    decreases b.len() - pos,
{
    match window_next(b, pos, end, ctx.dialect, first) {
        Err(error) => Err(error),
        Ok(None) => Ok(n),
        Ok(Some(p)) => match located_end(b, p, ctx.unread(), ctx.max, ctx.dialect) {
            Err(error) => Err(error),
            Ok(e) => if pos < e <= b.len() {
                counted(b, e, end, ctx, false, n + 1)
            } else {
                Ok(n)
            },
        },
    }
}

/// The slots of `demands` after every value from `pos` on, and how many values
/// there were.
pub open spec fn mapped_from(
    b: Seq<u8>,
    pos: int,
    end: int,
    demands: Seq<DemandModel>,
    ctx: WalkCtx,
    first: bool,
    acc: Seq<MarkModel>,
    n: int,
) -> Result<(Seq<MarkModel>, int), Error>
    decreases b.len() - pos,
{
    match window_next(b, pos, end, ctx.dialect, first) {
        Err(error) => Err(error),
        Ok(None) => Ok((acc, n)),
        Ok(Some(p)) => match record_walk(b, p, demands, 0, 0, ctx) {
            Err(error) => Err(error),
            Ok(w) => if pos < w.end <= b.len() {
                mapped_from(
                    b,
                    w.end,
                    end,
                    demands,
                    ctx,
                        false,
                    slots_after(b, p, acc, demands, 0, 0, w, ctx.dialect),
                    n + 1,
                )
            } else {
                Ok((acc, n))
            },
        },
    }
}

/// The marks of the mapped demands over a window.
#[verifier::opaque]
pub open spec fn mapped_marks(b: Seq<u8>, start: int, end: int, demands: Seq<DemandModel>, ctx: WalkCtx) -> Result<
    Seq<MarkModel>,
    Error,
> {
    match mapped_from(b, start, end, demands, ctx, true, all_missing(demands.len()), 0) {
        Err(error) => Err(error),
        Ok((marks, n)) => Ok(final_marks(demands, 0, marks, n)),
    }
}

/// Whether some demand is a count.
pub open spec fn any_sum(demands: Seq<DemandModel>) -> bool {
    exists|i: int| 0 <= i < demands.len() && shard_of(#[trigger] demands[i]) == Shard::Sum
}

/// The window's count in every count's place, and the mapped marks in the
/// others.
pub open spec fn with_counts(demands: Seq<DemandModel>, count: int, marks: Seq<MarkModel>) -> Seq<MarkModel> {
    Seq::new(
        demands.len(),
        |i: int|
            if shard_of(demands[i]) == Shard::Sum {
                MarkModel::Count(count)
            } else {
                marks[mapped(demands, i as nat).len() as int]
            },
    )
}

/// The marks of a request over a window.
pub open spec fn window_marks(b: Seq<u8>, start: int, end: int, demands: Seq<DemandModel>, ctx: WalkCtx) -> Result<
    Seq<MarkModel>,
    Error,
> {
    let rows = mapped(demands, demands.len());
    if any_sum(demands) {
        match counted(b, start, end, ctx, true, 0) {
            Err(error) => Err(error),
            Ok(count) => if rows.len() == 0 {
                Ok(with_counts(demands, count, Seq::empty()))
            } else {
                match mapped_marks(b, start, end, rows, ctx) {
                    Err(error) => Err(error),
                    Ok(marks) => Ok(with_counts(demands, count, marks)),
                }
            },
        }
    } else {
        match mapped_marks(b, start, end, rows, ctx) {
            Err(error) => Err(error),
            Ok(marks) => Ok(with_counts(demands, 0, marks)),
        }
    }
}

/// The facts of a window.
pub open spec fn window_facts(b: Seq<u8>, start: int, end: int, ask: Ask) -> Seq<FactModel> {
    if ask.facts {
        collected(b, start, end, ask.ctx.dialect, ask.ctx.strictness == Strictness::Strict)
    } else {
        Seq::empty()
    }
}

/// The answers of a request over a window.
#[verifier::opaque]
pub open spec fn window_answers(b: Seq<u8>, start: int, end: int, ask: Ask) -> Result<
    Seq<AnswerModel>,
    Error,
> {
    match window_marks(b, start, end, ask.demands, ask.ctx) {
        Err(error) => Err(error),
        Ok(marks) => Ok(
            answers_of(
                b,
                marks,
                ask.ctx.strictness == Strictness::Strict,
                ask.ctx.dialect,
                window_facts(b, start, end, ask),
                false,
            ),
        ),
    }
}

/// Whether a window has a value, so that its scan comes to poll the host.
pub open spec fn has_next(b: Seq<u8>, start: int, end: int, dialect: Dialect) -> bool {
    window_next(b, start, end, dialect, true) matches Ok(Some(_))
}

/// A count demand's per-part count; the check follows request strictness.
fn count_window(src: &[u8], start: usize, end: usize, ctx: WalkCtx, host: &mut Host<'_>) -> (r: Result<
    u64,
    Error,
>)
    requires
        start <= end <= src@.len(),
        old(host).wf(),
    ensures
        (has_next(src@, start as int, end as int, ctx.dialect) && host_stopped(r, *old(host), src@.len() as int)) || match counted(src@, start as int, end as int, ctx, true, 0) {
            Ok(n) => r is Ok && r->Ok_0 == n,
            Err(error) => r == Err::<u64, Error>(error),
        },
        final(host).wf(),
        final(host).same(*old(host)),
{
    let len: usize = src.len();
    let check: Check = check_of(ctx.strictness);
    let ghost whole = counted(src@, start as int, end as int, ctx, true, 0);
    let mut pos: usize = start;
    let mut count: u64 = 0;
    let mut first: bool = true;
    loop
        invariant
            start <= pos <= len,
            end <= len == src@.len(),
            check == ctx.unread(),
            count <= pos,
            host.wf(),
            host.same(*old(host)),
            whole == counted(src@, start as int, end as int, ctx, true, 0),
            whole == counted(src@, pos as int, end as int, ctx, first, count as int),
            first ==> pos == start,
            !first ==> has_next(src@, start as int, end as int, ctx.dialect),
        decreases len - pos,
    {
        let p: usize = match run_next_value(src, pos, end, ctx.dialect, first)? {
            Some(p) => p,
            None => {
                return Ok(count);
            },
        };
        host.poll(p)?;
        let e: usize = skip_value(src, p, check, ctx.max, ctx.dialect)?;
        count += 1;
        pos = e;
        first = false;
    }
}

/// The mapped demands over a window.
fn scan_concat_window(
    src: &[u8],
    start: usize,
    end: usize,
    demands: &[Demand],
    ctx: WalkCtx,
    host: &mut Host<'_>,
) -> (r: Result<Vec<Mark>, Error>)
    requires
        start <= end <= src@.len(),
        old(host).wf(),
    ensures
        (has_next(src@, start as int, end as int, ctx.dialect) && host_stopped(r, *old(host), src@.len() as int)) || match mapped_marks(
            src@,
            start as int,
            end as int,
            demands_model(demands@),
            ctx,
        ) {
            Ok(marks) => r is Ok && marks_model(r->Ok_0@) == marks,
            Err(error) => r is Err && r->Err_0 == error,
        },
        r matches Ok(marks) ==> marks@.len() == demands@.len(),
        final(host).wf(),
        final(host).same(*old(host)),
{
    proof {
        reveal(mapped_marks);
        assert(demands_model(demands@).len() == demands@.len());
    }
    let len: usize = src.len();
    let ghost asked = demands_model(demands@);
    let plan = StreamPlan::compile(demands, 0);
    let mut acc: Vec<Mark> = missing_marks(demands.len());
    let ghost whole = mapped_from(
        src@,
        start as int,
        end as int,
        asked,
        ctx,
        true,
        all_missing(asked.len()),
        0,
    );
    let mut pos: usize = start;
    let mut count: u64 = 0;
    let mut first: bool = true;
    loop
        invariant_except_break
            whole == mapped_from(
                src@,
                pos as int,
                end as int,
                asked,
                ctx,
                first,
                marks_model(acc@),
                count as int,
            ),
        invariant
            start <= pos <= len,
            end <= len == src@.len(),
            count <= pos,
            host.wf(),
            host.same(*old(host)),
            plan.wf(),
            plan.asked() == asked,
            plan.records() == 0,
            asked == demands_model(demands@),
            acc@.len() == asked.len(),
            asked.len() == demands@.len(),
            first ==> pos == start,
            !first ==> has_next(src@, start as int, end as int, ctx.dialect),
            whole == mapped_from(
                src@,
                start as int,
                end as int,
                asked,
                ctx,
                true,
                all_missing(asked.len()),
                0,
            ),
            mapped_marks(src@, start as int, end as int, asked, ctx) == (match whole {
                Err(error) => Err(error),
                Ok((marks, n)) => Ok(final_marks(asked, 0, marks, n)),
            }),
        ensures
            whole == Ok::<(Seq<MarkModel>, int), Error>((marks_model(acc@), count as int)),
        decreases len - pos,
    {
        let p: usize = match run_next_value(src, pos, end, ctx.dialect, first)? {
            Some(p) => p,
            None => {
                break;
            },
        };
        let e: usize = walk_record(src, p, 0, &plan, ctx, false, &mut acc, host)?;
        count += 1;
        pos = e;
        first = false;
    }
    finish_stream(demands, 0, &mut acc, count);
    Ok(acc)
}


proof fn mapped_grows(demands: Seq<DemandModel>, i: nat, n: nat)
    requires
        i <= n <= demands.len(),
    ensures
        mapped(demands, i).len() <= mapped(demands, n).len(),
        i < n && shard_of(demands[i as int]) != Shard::Sum ==> mapped(demands, i).len() < mapped(demands, n).len(),
    decreases n - i,
{
    if i < n {
        mapped_grows(demands, i + 1, n);
    }
}

/// The window's count in every count's place, and the mapped marks in the
/// others.
fn place_counts(window: &Window, count: u64, marks: Vec<Mark>, Ghost(demands): Ghost<Seq<DemandModel>>) -> (r: Vec<Mark>)
    requires
        window.projects(demands),
        marks@.len() == mapped(demands, demands.len()).len(),
    ensures
        marks_model(r@) == with_counts(demands, count as int, marks_model(marks@)),
        r@.len() == demands.len(),
{
    let ghost given = marks@;
    let ghost named = with_counts(demands, count as int, marks_model(given));
    let mut source: Vec<Mark> = marks;
    let total: usize = source.len();
    let mut out: Vec<Mark> = Vec::new();
    let mut used: usize = 0;
    let mut i: usize = 0;
    while i < window.sums.len()
        invariant
            i <= window.sums@.len(),
            window.projects(demands),
            window.sums@.len() == demands.len(),
            given.len() == mapped(demands, demands.len()).len(),
            source@.len() == given.len(),
            total == given.len(),
            used == mapped(demands, i as nat).len(),
            named == with_counts(demands, count as int, marks_model(given)),
            out@.len() == i,
            forall|k: int| used <= k < given.len() ==> #[trigger] source@[k] == given[k],
            forall|k: int| 0 <= k < i ==> (#[trigger] out@[k])@ == named[k],
        decreases window.sums@.len() - i,
    {
        proof {
            assert(window.sums@[i as int] == (shard_of(demands[i as int]) == Shard::Sum));
            mapped_grows(demands, i as nat, demands.len());
        }
        if window.sums[i] {
            out.push(Mark::Count(count));
        } else {
            let mut mark: Mark = Mark::Missing;
            core::mem::swap(&mut mark, &mut source[used]);
            proof {
                assert(mark == given[used as int]);
                assert(marks_model(given)[used as int] == mark@);
            }
            out.push(mark);
            used += 1;
        }
        i += 1;
    }
    proof {
        assert(marks_model(out@) =~= named);
    }
    out
}

fn has_sum(window: &Window, Ghost(demands): Ghost<Seq<DemandModel>>) -> (r: bool)
    requires
        window.projects(demands),
    ensures
        r == any_sum(demands),
{
    let mut i: usize = 0;
    while i < window.sums.len()
        invariant
            i <= window.sums@.len(),
            window.projects(demands),
            window.sums@.len() == demands.len(),
            forall|k: int| 0 <= k < i ==> shard_of(#[trigger] demands[k]) != Shard::Sum,
        decreases window.sums@.len() - i,
    {
        proof {
            assert(window.sums@[i as int] == (shard_of(demands[i as int]) == Shard::Sum));
        }
        if window.sums[i] {
            return true;
        }
        i += 1;
    }
    false
}

/// The marks of a request over a window.
fn mark_window(
    src: &[u8],
    start: usize,
    end: usize,
    window: &Window,
    ctx: WalkCtx,
    host: &mut Host<'_>,
    Ghost(demands): Ghost<Seq<DemandModel>>,
) -> (r: Result<Vec<Mark>, Error>)
    requires
        start <= end <= src@.len(),
        window.projects(demands),
        old(host).wf(),
    ensures
        (has_next(src@, start as int, end as int, ctx.dialect) && host_stopped(r, *old(host), src@.len() as int)) || match window_marks(src@, start as int, end as int, demands, ctx) {
            Ok(marks) => r is Ok && marks_model(r->Ok_0@) == marks,
            Err(error) => r is Err && r->Err_0 == error,
        },
        r matches Ok(marks) ==> marks@.len() == demands.len(),
        final(host).wf(),
        final(host).same(*old(host)),
{
    let ghost rows = mapped(demands, demands.len());
    proof {
        assert(demands_model(window.mapped@).len() == window.mapped@.len());
    }
    let mut count: u64 = 0;
    if has_sum(window, Ghost(demands)) {
        count = count_window(src, start, end, ctx, host)?;
        if window.mapped.len() == 0 {
            // Every demand is an element count: no per-value work.
            let nothing: Vec<Mark> = Vec::new();
            proof {
                assert(marks_model(nothing@) =~= Seq::<MarkModel>::empty());
            }
            return Ok(place_counts(window, count, nothing, Ghost(demands)));
        }
    }
    let marks = scan_concat_window(src, start, end, window.mapped.as_slice(), ctx, host)?;
    Ok(place_counts(window, count, marks, Ghost(demands)))
}

/// Scan one part: a run of values answered as the body of an array.
pub(crate) fn scan_adjacent_window<'src>(
    src: &'src [u8],
    start: usize,
    end: usize,
    req: &ScanRequest<'_>,
    window: &Window,
    host: &mut Host<'_>,
) -> (r: Result<ScanResult<'src>, Error>)
    requires
        start <= end <= src@.len(),
        window.projects(req.model().demands),
        old(host).wf(),
    ensures
        (has_next(src@, start as int, end as int, req.dialect) && host_stopped(r, *old(host), src@.len() as int)) || match window_answers(src@, start as int, end as int, req.model()) {
            Ok(answers) => r is Ok && answers_model(r->Ok_0.answers@) == answers && errors_of(r->Ok_0.issues@) == Seq::<
                Error,
            >::empty(),
            Err(error) => r is Err && r->Err_0 == error,
        },
        final(host).wf(),
        final(host).same(*old(host)),
{
    proof {
        reveal(window_answers);
    }
    let marks = mark_window(src, start, end, window, req.ctx(), host, Ghost(req.model().demands))?;
    let facts = collect_facts(src, start, end, req);
    let binding = Binding {
        source: src,
        strict: matches!(req.strictness, Strictness::Strict),
        dialect: req.dialect,
        facts: &facts,
        all_facts: false,
    };
    let issues: Vec<Issue> = Vec::new();
    proof {
        assert(errors_of(issues@) =~= Seq::<Error>::empty());
    }
    Ok(ScanResult { answers: binding.answers(marks), issues })
}

/// The marks of a request over the records of a stream that begin in a part. A refused
/// record refuses the part.
pub open spec fn records_marks(b: Seq<u8>, start: int, end: int, ask: Ask) -> Result<Seq<MarkModel>, Error> {
    match part_frames(b, start, end, ask.input, ask.ctx.max, ask.ctx.dialect) {
        Err(error) => Err(error),
        Ok(frames) => match frames_marks(b, frames, ask.demands, ask.ctx) {
            Err(error) => Err(error),
            Ok((marks, issues)) => if issues.len() > 0 {
                Err(issues[0])
            } else {
                Ok(marks)
            },
        },
    }
}

/// The answers of a request over the records of a stream that begin in a part.
#[verifier::opaque]
pub open spec fn records_answers(b: Seq<u8>, start: int, end: int, ask: Ask) -> Result<Seq<AnswerModel>, Error> {
    match records_marks(b, start, end, ask) {
        Err(error) => Err(error),
        Ok(marks) => Ok(
            answers_of(
                b,
                marks,
                ask.ctx.strictness == Strictness::Strict,
                ask.ctx.dialect,
                window_facts(b, start, end, ask),
                false,
            ),
        ),
    }
}

/// Whether a record of a stream begins in a part, so that its scan comes to poll the host.
pub open spec fn has_record(b: Seq<u8>, start: int, end: int, ask: Ask) -> bool {
    part_frames(b, start, end, ask.input, ask.ctx.max, ask.ctx.dialect) matches Ok(frames) && frames.len() > 0
}

/// Scan one part of a stream: the records that begin in it, each inside its frame.
pub(crate) fn scan_stream_window<'src>(
    src: &'src [u8],
    start: usize,
    end: usize,
    req: &ScanRequest<'_>,
    host: &mut Host<'_>,
) -> (r: Result<ScanResult<'src>, Error>)
    requires
        start <= end <= src@.len(),
        old(host).wf(),
    ensures
        (has_record(src@, start as int, end as int, req.model()) && host_stopped(r, *old(host), src@.len() as int))
            || match records_answers(src@, start as int, end as int, req.model()) {
            Ok(answers) => r is Ok && answers_model(r->Ok_0.answers@) == answers && errors_of(r->Ok_0.issues@) == Seq::<
                Error,
            >::empty(),
            Err(error) => r is Err && r->Err_0 == error,
        },
        final(host).wf(),
        final(host).same(*old(host)),
{
    proof {
        reveal(records_answers);
    }
    let ctx = req.ctx();
    let ranges: Vec<ByteRange> = part_ranges(src, start, end, req.input, ctx.max, ctx.dialect)?;
    let (marks, refused) = scan_frames(src, &ranges, req.demands, ctx, host)?;
    if refused.len() > 0 {
        return Err(refused[0]);
    }
    let facts = collect_facts(src, start, end, req);
    let binding = Binding {
        source: src,
        strict: matches!(req.strictness, Strictness::Strict),
        dialect: req.dialect,
        facts: &facts,
        all_facts: false,
    };
    let issues: Vec<Issue> = Vec::new();
    proof {
        assert(errors_of(issues@) =~= Seq::<Error>::empty());
    }
    Ok(ScanResult { answers: binding.answers(marks), issues })
}

} // verus!
