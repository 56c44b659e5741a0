//! A shard plan: where a source is cut, and the scan of each part.

use vstd::prelude::*;

use crate::answer::{answers_model, AnswerModel, ScanResult};
use crate::control::{is_stop_of, Control};
use crate::demand::{
    copy_demands, demand_model, demands_model, steps_model, Demand, DemandModel, Step, StepModel, Strictness,
};
use crate::dialect::Dialect;
use crate::error::{at, Error, ErrorKind};
use crate::framing::{
    adjacent, at_least_one, ndjson_runs, pack_runs, packed_runs, packed_values, partition_adjacent, partition_json_seq,
    partition_ndjson, seq_from,
};
use crate::lex::skip::MAX_NESTING;
use crate::scan::{
    any_filters_container, check_of, errors_of, is_polled, refuse_container_predicates, scan, scan_controlled, scanned, Ask, JsonInput,
    ScanRequest,
};
use crate::shard::cut::{
    element_ranges, elements_from_summaries, serial_elements, summaries_model, summary_fault, summary_of, summed_elements,
    summed_fault, CutSummary, SummaryModel,
};
use crate::shard::path::{array_at, resolve_array_start, shared_path, shared_steps};
use crate::shard::tail::{shadow_after, shadowed_after, tail_fault, validate_tail, Shadow};
use crate::shard::window::{
    has_next, has_record, records_answers, scan_adjacent_window, scan_stream_window, shard_of, window_answers, Shard, Window,
};
use crate::value::ByteRange;
use crate::walk::host::Host;
use crate::walk::model::WalkCtx;

verus! {

/// First-cut morsel size.
pub const FIRST_SHARD_BYTES: usize = 262144;

/// The plan's morsel source: array element spans, or packed ranges.
#[derive(Debug)]
enum Parts {
    /// Text array: top-level element spans and the offset just past `]`.
    Elements {
        spans: Vec<ByteRange>,
        close_end: usize,
    },
    /// A stream partition or a whole-document fallback.
    Packed(Vec<ByteRange>),
}

/// Where a plan cuts.
pub enum PartsModel {
    /// Between the elements of a text array, up to the offset past its `]`.
    Elements(Seq<ByteRange>, int),
    /// Into these ranges.
    Packed(Seq<ByteRange>),
}

/// [`Plan`] over mathematical values.
pub struct PlanModel {
    /// Where it cuts.
    pub parts: PartsModel,
    /// Length of the source it was built for.
    pub len: int,
    /// The request it was built for.
    pub ask: Ask,
}

/// The whole source as one range.
pub open spec fn one_range(len: int) -> Seq<ByteRange> {
    seq![ByteRange { start: 0, end: len as usize }]
}

/// Ranges, or the whole source when there are none.
pub open spec fn packed_parts(len: int, ranges: Seq<ByteRange>) -> PartsModel {
    PartsModel::Packed(
        if ranges.len() == 0 {
            one_range(len)
        } else {
            ranges
        },
    )
}

/// Elements, or the whole source when fewer than two were named.
pub open spec fn element_parts(len: int, spans: Seq<ByteRange>, close_end: int) -> PartsModel {
    if spans.len() >= 2 {
        PartsModel::Elements(spans, close_end)
    } else {
        packed_parts(len, Seq::empty())
    }
}

/// Whether a demand follows a path from the root of a record.
pub open spec fn spined(d: DemandModel) -> bool {
    match d {
        DemandModel::Path { .. } => true,
        DemandModel::Project { path, .. } => path.len() > 0,
        DemandModel::Filter { path, .. } => path.len() > 0,
        _ => false,
    }
}

/// Whether a request can be answered part by part. The adjacent and JSON-seq
/// framers read no comments, and a stream is a virtual array, not the object
/// containing a text array.
pub open spec fn eligible(input: JsonInput, demands: Seq<DemandModel>, dialect: Dialect) -> bool {
    &&& !(dialect.comments() && (input == JsonInput::Adjacent || input == JsonInput::JsonSeq))
    &&& input != JsonInput::Text ==> forall|i: int| 0 <= i < demands.len() ==> !spined(#[trigger] demands[i])
    &&& demands.len() > 0
    &&& forall|i: int| 0 <= i < demands.len() ==> shard_of(#[trigger] demands[i]) != Shard::Serial
}

/// The elements of the array a path leads to: of the first match when no later
/// member takes the path, else of the last.
#[verifier::opaque]
pub open spec fn located_elements(b: Seq<u8>, steps: Seq<StepModel>, max: u32, dialect: Dialect) -> Result<
    Option<(Seq<ByteRange>, int)>,
    Error,
> {
    match array_at(b, steps, false, max, dialect) {
        Err(error) => Err(error),
        Ok(None) => Ok(None),
        Ok(Some(start)) => match serial_elements(b, start + 1) {
            Err(error) => Err(error),
            Ok((spans, close_end)) => if shadow_after(b, steps, close_end, max, dialect) == Shadow::Clear {
                Ok(Some((spans, close_end)))
            } else {
                match array_at(b, steps, true, max, dialect) {
                    Err(error) => Err(error),
                    Ok(None) => Ok(None),
                    Ok(Some(last)) => match serial_elements(b, last + 1) {
                        Err(error) => Err(error),
                        Ok(found) => Ok(Some(found)),
                    },
                }
            },
        },
    }
}

/// Where a text is cut.
#[verifier::opaque]
pub open spec fn text_parts(b: Seq<u8>, ask: Ask) -> Result<PartsModel, Error> {
    let whole = packed_parts(b.len() as int, Seq::empty());
    match shared_path(ask.demands) {
        None => Ok(whole),
        Some(steps) => match located_elements(b, steps, ask.ctx.max, ask.ctx.dialect) {
            Err(error) => Err(error),
            Ok(None) => Ok(whole),
            Ok(Some((spans, close_end))) => if spans.len() < 2 {
                Ok(whole)
            } else {
                match tail_fault(b, steps, close_end, ask.ctx.unread(), ask.ctx.max, ask.ctx.dialect) {
                    Some(error) => Err(error),
                    None => Ok(PartsModel::Elements(spans, close_end)),
                }
            },
        },
    }
}

/// Where a request cuts its source.
#[verifier::opaque]
pub open spec fn planned_parts(b: Seq<u8>, ask: Ask) -> Result<PartsModel, Error> {
    let len = b.len() as int;
    if any_filters_container(ask.demands) {
        Err(at(ErrorKind::PredicateOperand, 0))
    } else if !eligible(ask.input, ask.demands, ask.ctx.dialect) {
        Ok(packed_parts(len, Seq::empty()))
    } else {
        match ask.input {
            JsonInput::Ndjson => Ok(packed_parts(len, ndjson_runs(b, 0, 0, at_least_one(FIRST_SHARD_BYTES as int)))),
            JsonInput::JsonSeq => Ok(
                packed_parts(
                    len,
                    match seq_from(b, 0, MAX_NESTING, Dialect::Rfc8259, true) {
                        Ok(values) => packed_values(values, FIRST_SHARD_BYTES as int),
                        Err(_) => Seq::empty(),
                    },
                ),
            ),
            JsonInput::Adjacent => Ok(
                packed_parts(
                    len,
                    match adjacent(b, MAX_NESTING, Dialect::Rfc8259) {
                        Ok(values) => packed_values(values, FIRST_SHARD_BYTES as int),
                        Err(_) => Seq::empty(),
                    },
                ),
            ),
            JsonInput::Text => text_parts(b, ask),
        }
    }
}

/// Where the summaries of a host cut a source: the whole source when they do
/// not answer the request.
#[verifier::opaque]
pub open spec fn summed_parts(b: Seq<u8>, start: int, summaries: Seq<SummaryModel>, ask: Ask) -> PartsModel {
    let len = b.len() as int;
    let whole = packed_parts(len, Seq::empty());
    if any_filters_container(ask.demands) || !eligible(ask.input, ask.demands, ask.ctx.dialect) {
        whole
    } else {
        let (spans, close_end) = summed_elements(b, start, summaries);
        let refused = match shared_path(ask.demands) {
            Some(steps) => shadow_after(b, steps, close_end, ask.ctx.max, ask.ctx.dialect) != Shadow::Clear || tail_fault(
                b,
                steps,
                close_end,
                ask.ctx.unread(),
                ask.ctx.max,
                ask.ctx.dialect,
            ) is Some,
            None => false,
        };
        if spans.len() >= 2 && refused {
            whole
        } else {
            element_parts(len, spans, close_end)
        }
    }
}

/// The ranges of about `target` bytes a cut makes.
pub open spec fn ranges_of(parts: PartsModel, len: int, target: int) -> Seq<ByteRange> {
    match parts {
        PartsModel::Elements(spans, close_end) => {
            let runs = packed_runs(spans, target, true, close_end);
            if runs.len() <= 1 {
                one_range(len)
            } else {
                runs
            }
        },
        PartsModel::Packed(ranges) => ranges,
    }
}

/// The end of a range inside its source.
pub open spec fn range_end(b: Seq<u8>, range: ByteRange) -> int {
    if range.end <= b.len() {
        range.end as int
    } else {
        b.len() as int
    }
}

/// Whether the scan of a range comes to poll the host: a range past the source and
/// one that holds no value are settled before.
pub open spec fn part_polls(b: Seq<u8>, range: ByteRange, ask: Ask) -> bool {
    let end = range_end(b, range);
    if range.start > end {
        false
    } else if range.start == 0 && end == b.len() {
        is_polled(b, ask)
    } else if ask.input == JsonInput::Text {
        has_next(b, range.start as int, end, ask.ctx.dialect)
    } else {
        has_record(b, range.start as int, end, ask)
    }
}

/// The scan of one range of a plan: the whole source by a serial scan, a part of an array as
/// the run of values in it, and a part of a stream as the records that begin in it, each
/// inside its frame.
#[verifier::opaque]
pub open spec fn part_scanned(b: Seq<u8>, range: ByteRange, ask: Ask) -> Result<(Seq<AnswerModel>, Seq<Error>), Error> {
    let end = range_end(b, range);
    if range.start > end {
        Err(at(ErrorKind::RangePastSource, range.start as int))
    } else if range.start == 0 && end == b.len() {
        scanned(b, ask)
    } else {
        let answered = if ask.input == JsonInput::Text {
            window_answers(b, range.start as int, end, ask)
        } else {
            records_answers(b, range.start as int, end, ask)
        };
        match answered {
            Err(error) => Err(error),
            Ok(answers) => Ok((answers, Seq::empty())),
        }
    }
}

/// A shard plan for one request over one source. Built by a serial cut of the
/// array body ([`Plan::build`]); the host re-enters [`Plan::scan`] per morsel. A
/// plan that names fewer than two elements, or a non-eligible request, is one
/// whole-document range.
#[derive(Debug)]
pub struct Plan {
    parts: Parts,
    len: usize,
    demands: Vec<Demand>,
    strictness: Strictness,
    max_nesting: u32,
    dialect: Dialect,
    input: JsonInput,
    facts: bool,
    window: Window,
}

impl View for Plan {
    type V = PlanModel;

    closed spec fn view(&self) -> PlanModel {
        PlanModel {
            parts: parts_model(self.parts),
            len: self.len as int,
            ask: Ask {
                input: self.input,
                demands: demands_model(self.demands@),
                ctx: WalkCtx { strictness: self.strictness, max: self.max_nesting, dialect: self.dialect },
                facts: self.facts,
            },
        }
    }
}

spec fn parts_model(parts: Parts) -> PartsModel {
    match parts {
        Parts::Elements { spans, close_end } => PartsModel::Elements(spans@, close_end as int),
        Parts::Packed(ranges) => PartsModel::Packed(ranges@),
    }
}

fn one_range_len(len: usize) -> (r: Vec<ByteRange>)
    ensures
        r@ == one_range(len as int),
{
    let mut out: Vec<ByteRange> = Vec::new();
    out.push(ByteRange { start: 0, end: len });
    proof {
        assert(out@ =~= one_range(len as int));
    }
    out
}

fn pack(len: usize, ranges: Vec<ByteRange>) -> (r: Parts)
    ensures
        parts_model(r) == packed_parts(len as int, ranges@),
{
    if ranges.len() == 0 {
        Parts::Packed(one_range_len(len))
    } else {
        Parts::Packed(ranges)
    }
}

fn whole_part(len: usize) -> (r: Parts)
    ensures
        parts_model(r) == packed_parts(len as int, Seq::empty()),
{
    let none: Vec<ByteRange> = Vec::new();
    proof {
        assert(none@ =~= Seq::<ByteRange>::empty());
    }
    pack(len, none)
}

fn elements(len: usize, spans: Vec<ByteRange>, close_end: usize) -> (r: Parts)
    ensures
        parts_model(r) == element_parts(len as int, spans@, close_end as int),
{
    if spans.len() >= 2 {
        Parts::Elements { spans, close_end }
    } else {
        whole_part(len)
    }
}

/// The demand whitelist is [`Demand::shard`].
fn shard_eligible(req: &ScanRequest<'_>) -> (r: bool)
    ensures
        r == eligible(req.input, demands_model(req.demands@), req.dialect),
{
    let ghost model = demands_model(req.demands@);
    let framed: bool = matches!(req.input, JsonInput::Adjacent | JsonInput::JsonSeq);
    if req.dialect.has_comments() && framed {
        return false;
    }
    let text: bool = matches!(req.input, JsonInput::Text);
    let mut i: usize = 0;
    while i < req.demands.len()
        invariant
            i <= req.demands@.len(),
            model == demands_model(req.demands@),
            text == (req.input == JsonInput::Text),
            forall|k: int| 0 <= k < i ==> shard_of(#[trigger] model[k]) != Shard::Serial,
            !text ==> forall|k: int| 0 <= k < i ==> !spined(#[trigger] model[k]),
        decreases req.demands@.len() - i,
    {
        let demand: &Demand = &req.demands[i];
        proof {
            assert(model[i as int] == demand_model(*demand));
        }
        if matches!(demand.shard(), Shard::Serial) {
            return false;
        }
        if !text && has_spine(demand) {
            return false;
        }
        i += 1;
    }
    req.demands.len() > 0
}

fn has_spine(demand: &Demand) -> (r: bool)
    ensures
        r == spined(demand_model(*demand)),
{
    match demand {
        Demand::Path { .. } => true,
        Demand::Project { path, .. } => {
            proof {
                assert(steps_model(path.steps@).len() == path.steps@.len());
            }
            path.steps.len() > 0
        },
        Demand::Filter { path, .. } => {
            proof {
                assert(steps_model(path.steps@).len() == path.steps@.len());
            }
            path.steps.len() > 0
        },
        _ => false,
    }
}

/// The elements of the array a path leads to.
fn locate_elements(src: &[u8], steps: &[Step], max: u32, dialect: Dialect) -> (r: Result<
    Option<(Vec<ByteRange>, usize)>,
    Error,
>)
    ensures
        match located_elements(src@, steps_model(steps@), max, dialect) {
            Ok(Some((spans, close_end))) => r matches Ok(Some((v, end))) && v@ == spans && end == close_end && end
                <= src@.len(),
            Ok(None) => r matches Ok(None),
            Err(error) => r is Err && r->Err_0 == error,
        },
{
    proof {
        reveal(located_elements);
    }
    let len: usize = src.len();
    let start: usize = match resolve_array_start(src, steps, false, max, dialect)? {
        Some(start) => start,
        None => {
            return Ok(None);
        },
    };
    let (spans, close_end) = element_ranges(src, start + 1)?;
    if matches!(shadowed_after(src, steps, close_end, max, dialect), Shadow::Clear) {
        return Ok(Some((spans, close_end)));
    }
    // The last-match walk is authoritative.
    match resolve_array_start(src, steps, true, max, dialect)? {
        Some(last) => {
            let found = element_ranges(src, last + 1)?;
            Ok(Some(found))
        },
        None => Ok(None),
    }
}

impl Plan {
    /// The projection is the request's.
    #[verifier::type_invariant]
    spec fn compiled(self) -> bool {
        self.window.projects(demands_model(self.demands@))
    }

    fn with_parts(parts: Parts, len: usize, req: &ScanRequest<'_>) -> (r: Self)
        ensures
            r@ == (PlanModel { parts: parts_model(parts), len: len as int, ask: req.model() }),
    {
        let demands = copy_demands(req.demands);
        let window = Window::compile(demands.as_slice());
        Plan {
            parts,
            len,
            demands,
            strictness: req.strictness,
            max_nesting: req.max_nesting,
            dialect: req.dialect,
            input: req.input,
            facts: req.facts,
            window,
        }
    }

    /// Plan a request: the serial cut for a text array, the frame partition for
    /// a stream, or one whole range when the request is not shard-eligible.
    ///
    /// # Errors
    ///
    /// Grammar while locating a root or path array.
    pub fn build(src: &[u8], req: &ScanRequest<'_>) -> (r: Result<Self, Error>)
        ensures
            match planned_parts(src@, req.model()) {
                Ok(parts) => r is Ok && r->Ok_0@ == (PlanModel { parts, len: src@.len() as int, ask: req.model() }),
                Err(error) => r is Err && r->Err_0 == error,
            },
    {
        proof {
            reveal(planned_parts);
        }
        let len: usize = src.len();
        refuse_container_predicates(req.demands)?;
        let parts: Parts = if !shard_eligible(req) {
            whole_part(len)
        } else {
            match req.input {
                JsonInput::Ndjson => pack(len, partition_ndjson(src, FIRST_SHARD_BYTES)),
                JsonInput::JsonSeq => pack(len, partition_json_seq(src, FIRST_SHARD_BYTES)),
                JsonInput::Adjacent => pack(len, partition_adjacent(src, FIRST_SHARD_BYTES)),
                JsonInput::Text => Self::cut_text(src, req)?,
            }
        };
        Ok(Self::with_parts(parts, len, req))
    }

    fn cut_text(src: &[u8], req: &ScanRequest<'_>) -> (r: Result<Parts, Error>)
        ensures
            match text_parts(src@, req.model()) {
                Ok(parts) => r is Ok && parts_model(r->Ok_0) == parts,
                Err(error) => r is Err && r->Err_0 == error,
            },
    {
        proof {
            reveal(text_parts);
        }
        let len: usize = src.len();
        let steps: &[Step] = match shared_steps(req.demands) {
            Some(steps) => steps,
            None => {
                return Ok(whole_part(len));
            },
        };
        let (spans, close_end) = match locate_elements(src, steps, req.max_nesting, req.dialect)? {
            Some(found) => found,
            None => {
                return Ok(whole_part(len));
            },
        };
        if spans.len() < 2 {
            return Ok(whole_part(len));
        }
        validate_tail(src, steps, close_end, check_of(req.strictness), req.max_nesting, req.dialect)?;
        Ok(Parts::Elements { spans, close_end })
    }

    /// The retained plan the host summaries describe, so planning is paid once
    /// and later queries are index lookup and scan. The summaries must cover the
    /// array as [`Plan::host_ranges`] requires. A non-eligible request, or one
    /// whose tail fails the trailing-content check, falls back to one
    /// whole-document range (which [`Plan::scan`] validates).
    #[must_use]
    pub fn from_summaries(src: &[u8], start: usize, summaries: &[CutSummary], req: &ScanRequest<'_>) -> (r: Self)
        requires
            start < usize::MAX,
        ensures
            r@ == (PlanModel {
                parts: summed_parts(src@, start as int, summaries_model(summaries@), req.model()),
                len: src@.len() as int,
                ask: req.model(),
            }),
    {
        proof {
            reveal(summed_parts);
        }
        let len: usize = src.len();
        let refused: bool = match refuse_container_predicates(req.demands) {
            Ok(()) => !shard_eligible(req),
            Err(_) => true,
        };
        if refused {
            return Self::with_parts(whole_part(len), len, req);
        }
        let (spans, close_end) = elements_from_summaries(src, start, summaries);
        if spans.len() >= 2 {
            match shared_steps(req.demands) {
                Some(steps) => {
                    let clear: bool = matches!(
                        shadowed_after(src, steps, close_end, req.max_nesting, req.dialect),
                        Shadow::Clear
                    );
                    if !clear || validate_tail(
                        src,
                        steps,
                        close_end,
                        check_of(req.strictness),
                        req.max_nesting,
                        req.dialect,
                    ).is_err() {
                        return Self::with_parts(whole_part(len), len, req);
                    }
                },
                None => {},
            }
        }
        Self::with_parts(elements(len, spans, close_end), len, req)
    }

    /// One host block's cut summary under the outside state.
    #[must_use]
    pub fn cut(src: &[u8], block: ByteRange) -> (r: CutSummary)
        ensures
            r@ == summary_of(src@, block),
    {
        CutSummary::new(src, block)
    }

    /// The first `[` the request's array path names, without scanning its body.
    ///
    /// A later duplicate member can take the path instead; the planning entries
    /// resolve that shadow and fall back to the serial walk when it needs
    /// decoded names. Hosts use this entry to bound the region they summarize.
    ///
    /// # Errors
    ///
    /// Grammar while resolving the path.
    pub fn array_start(src: &[u8], req: &ScanRequest<'_>) -> (r: Result<Option<usize>, Error>)
        ensures
            match shared_path(demands_model(req.demands@)) {
                None => r matches Ok(None),
                Some(steps) => match array_at(src@, steps, false, req.max_nesting, req.dialect) {
                    Ok(Some(start)) => r matches Ok(Some(s)) && s == start,
                    Ok(None) => r matches Ok(None),
                    Err(error) => r is Err && r->Err_0 == error,
                },
            },
    {
        match shared_steps(req.demands) {
            Some(steps) => resolve_array_start(src, steps, false, req.max_nesting, req.dialect),
            None => Ok(None),
        }
    }

    /// Morsel ranges of about `target` bytes, or one full range.
    #[must_use]
    pub fn ranges(&self, target: usize) -> (r: Vec<ByteRange>)
        ensures
            r@ == ranges_of(self@.parts, self@.len, target as int),
    {
        match &self.parts {
            Parts::Elements { spans, close_end } => {
                let runs = pack_runs(spans.as_slice(), target, true, *close_end);
                if runs.len() <= 1 {
                    one_range_len(self.len)
                } else {
                    runs
                }
            },
            Parts::Packed(ranges) => copy_ranges(ranges),
        }
    }

    /// Indexed top-level element count (0 for a stream or a whole-range plan).
    #[must_use]
    pub fn elements(&self) -> (r: usize)
        ensures
            r == (match self@.parts {
                PartsModel::Elements(spans, _) => spans.len(),
                PartsModel::Packed(_) => 0,
            }),
    {
        match &self.parts {
            Parts::Elements { spans, .. } => spans.len(),
            Parts::Packed(_) => 0,
        }
    }

    /// The request this plan was built for.
    fn request(&self) -> (r: ScanRequest<'_>)
        ensures
            r.model() == self@.ask,
            r.demands@ == self.demands@,
    {
        ScanRequest {
            input: self.input,
            demands: self.demands.as_slice(),
            strictness: self.strictness,
            max_nesting: self.max_nesting,
            dialect: self.dialect,
            facts: self.facts,
        }
    }

    /// Scan one planned range: a slice of root-array elements (no brackets) or a
    /// full document. Spans stay in `src` coordinates; the request and demand
    /// projection were compiled at build time.
    ///
    /// # Errors
    ///
    /// Grammar inside the range.
    pub fn scan<'src>(&self, src: &'src [u8], range: ByteRange) -> (r: Result<ScanResult<'src>, Error>)
        ensures
            match part_scanned(src@, range, self@.ask) {
                Ok((answers, issues)) => r is Ok && answers_model(r->Ok_0.answers@) == answers && errors_of(
                    r->Ok_0.issues@,
                ) == issues,
                Err(error) => r is Err && r->Err_0 == error,
            },
    {
        proof {
            reveal(part_scanned);
            use_type_invariant(self);
        }
        let len: usize = src.len();
        let end: usize = if range.end <= len {
            range.end
        } else {
            len
        };
        if range.start > end {
            return Err(Error::new(ErrorKind::RangePastSource, range.start));
        }
        let req = self.request();
        if range.start == 0 && end == len {
            return scan(src, &req);
        }
        let mut host: Host<'_> = Host::none();
        if matches!(self.input, JsonInput::Text) {
            scan_adjacent_window(src, range.start, end, &req, &self.window, &mut host)
        } else {
            scan_stream_window(src, range.start, end, &req, &mut host)
        }
    }

    /// [`Plan::scan`] under a host [`Control`], polled per window value and at
    /// the walk's container boundaries.
    ///
    /// # Errors
    ///
    /// Grammar inside the range, or a control stop at an offset of the source.
    pub fn scan_controlled<'src>(&self, src: &'src [u8], range: ByteRange, control: &Control) -> (r: Result<
        ScanResult<'src>,
        Error,
    >)
        ensures
            (part_polls(src@, range, self@.ask) && (r matches Err(e) && is_stop_of(*control, e, src@.len() as int))) || match part_scanned(
                src@,
                range,
                self@.ask,
            ) {
                Ok((answers, issues)) => r is Ok && answers_model(r->Ok_0.answers@) == answers && errors_of(
                    r->Ok_0.issues@,
                ) == issues,
                Err(error) => r is Err && r->Err_0 == error,
            },
    {
        proof {
            reveal(part_scanned);
            use_type_invariant(self);
        }
        let len: usize = src.len();
        let end: usize = if range.end <= len {
            range.end
        } else {
            len
        };
        if range.start > end {
            return Err(Error::new(ErrorKind::RangePastSource, range.start));
        }
        let req = self.request();
        if range.start == 0 && end == len {
            return scan_controlled(src, &req, control);
        }
        let mut host: Host<'_> = Host { control: Some(control), trace: None };
        if matches!(self.input, JsonInput::Text) {
            scan_adjacent_window(src, range.start, end, &req, &self.window, &mut host)
        } else {
            scan_stream_window(src, range.start, end, &req, &mut host)
        }
    }
}

fn copy_ranges(ranges: &Vec<ByteRange>) -> (r: Vec<ByteRange>)
    ensures
        r@ == ranges@,
{
    let mut out: Vec<ByteRange> = Vec::new();
    let mut i: usize = 0;
    while i < ranges.len()
        invariant
            i <= ranges@.len(),
            out@ == ranges@.take(i as int),
        decreases ranges@.len() - i,
    {
        out.push(ranges[i]);
        proof {
            assert(out@ =~= ranges@.take(i + 1));
        }
        i += 1;
    }
    proof {
        assert(out@ =~= ranges@);
    }
    out
}

/// Where host summaries cut a text: as the serial cut does, but for the body,
/// which the summaries describe.
#[verifier::opaque]
pub open spec fn hosted_ranges(b: Seq<u8>, ask: Ask, summaries: Seq<SummaryModel>, target: int) -> Result<
    Seq<ByteRange>,
    Error,
> {
    let len = b.len() as int;
    let serial = match planned_parts(b, ask) {
        Err(error) => Err(error),
        Ok(parts) => Ok(ranges_of(parts, len, target)),
    };
    if any_filters_container(ask.demands) {
        Err(at(ErrorKind::PredicateOperand, 0))
    } else if ask.input != JsonInput::Text || !eligible(ask.input, ask.demands, ask.ctx.dialect) {
        serial
    } else {
        match shared_path(ask.demands) {
            None => Ok(one_range(len)),
            Some(steps) => match array_at(b, steps, false, ask.ctx.max, ask.ctx.dialect) {
                Err(error) => Err(error),
                Ok(None) => Ok(one_range(len)),
                Ok(Some(start)) => {
                    let (spans, close_end) = summed_elements(b, start, summaries);
                    if shadow_after(b, steps, close_end, ask.ctx.max, ask.ctx.dialect) != Shadow::Clear {
                        serial
                    } else {
                        match summed_fault(len, summaries, close_end, 0) {
                            Some(error) => Err(error),
                            None => match tail_fault(
                                b,
                                steps,
                                close_end,
                                ask.ctx.unread(),
                                ask.ctx.max,
                                ask.ctx.dialect,
                            ) {
                                Some(error) => if spans.len() >= 2 {
                                    Err(error)
                                } else {
                                    Ok(ranges_of(element_parts(len, spans, close_end), len, target))
                                },
                                None => Ok(ranges_of(element_parts(len, spans, close_end), len, target)),
                            },
                        }
                    }
                },
            },
        }
    }
}

impl Plan {
    /// Host protocol entry: morsel ranges from host-built block summaries. The
    /// host partitions the array body into contiguous blocks, summarizes each
    /// with [`Plan::cut`], and passes them in ascending order. Streams and
    /// non-array shapes fall back to [`Plan::build`].
    ///
    /// # Errors
    ///
    /// Grammar while resolving the array path.
    pub fn host_ranges(src: &[u8], req: &ScanRequest<'_>, summaries: &[CutSummary], target: usize) -> (r: Result<
        Vec<ByteRange>,
        Error,
    >)
        ensures
            match hosted_ranges(src@, req.model(), summaries_model(summaries@), target as int) {
                Ok(ranges) => r is Ok && r->Ok_0@ == ranges,
                Err(error) => r is Err && r->Err_0 == error,
            },
    {
        proof {
            reveal(hosted_ranges);
        }
        let len: usize = src.len();
        refuse_container_predicates(req.demands)?;
        if !matches!(req.input, JsonInput::Text) || !shard_eligible(req) {
            return Ok(Self::build(src, req)?.ranges(target));
        }
        let steps: &[Step] = match shared_steps(req.demands) {
            Some(steps) => steps,
            None => {
                return Ok(one_range_len(len));
            },
        };
        let start: usize = match resolve_array_start(src, steps, false, req.max_nesting, req.dialect)? {
            Some(start) => start,
            None => {
                return Ok(one_range_len(len));
            },
        };
        let (spans, close_end) = elements_from_summaries(src, start, summaries);
        if !matches!(shadowed_after(src, steps, close_end, req.max_nesting, req.dialect), Shadow::Clear) {
            // The last-match walk owns the path, and the serial cut must
            // revalidate the body that is skipped here.
            return Ok(Self::build(src, req)?.ranges(target));
        }
        match summary_fault(src, summaries, close_end) {
            Some(error) => {
                return Err(error);
            },
            None => {},
        }
        if spans.len() >= 2 {
            validate_tail(src, steps, close_end, check_of(req.strictness), req.max_nesting, req.dialect)?;
        }
        Ok(Self::with_parts(elements(len, spans, close_end), len, req).ranges(target))
    }
}

} // verus!
