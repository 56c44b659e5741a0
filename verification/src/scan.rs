//! Scan entries: [`validate`], [`scan`], [`scan_each`], [`scan_traced`].
//!
//! Trailing non-whitespace after one text value is `trailing-content`. A stream
//! is a virtual array of its records.

use vstd::prelude::*;

use crate::answer::{answers_model, answers_of, Answer, AnswerModel, Binding, Document, Issue, ScanResult};
use crate::control::{is_stop_of, Control};
use crate::demand::{
    demand_model, demands_model, lenses_model, lenses_of, predicate_model, Demand, DemandModel, Lens, Predicate,
    PredicateModel, Strictness,
};
use crate::dialect::Dialect;
use crate::error::{at, Error, ErrorKind};
use crate::facts::{collect, collected, facts_model, Fact, FactModel};
use crate::framing::{strip_bom, text_start};
use crate::lex::skip::{value_end, Check, Ctx, MAX_NESTING};
use crate::lex::ws::{skip_trivia, trivia_end, trivia_end_bounds};
use crate::stream::{each_marks, each_record, has_records, joins, recorded, scan_stream, stream_events, stream_marks};
use crate::trace::{is_walk_event, AnswerKind, Trace, TraceEvent};
use crate::value::{json, span, ByteRange, Value};
use crate::walk::events::node_events;
use crate::walk::host::Host;
use crate::walk::marks::{marks_model, Mark, MarkModel};
use crate::walk::model::{kind_at, node, Env, WalkCtx, Walked};
use crate::walk::node::{host_stopped, walk_node, Walk};

verus! {

/// How a source buffer holds JSON values.
#[derive(Clone, Copy, Debug, PartialEq, Eq, Structural)]
#[non_exhaustive]
pub enum JsonInput {
    /// One complete JSON value. Trailing whitespace is allowed.
    Text,
    /// Adjacent JSON values; leftover after one value is the next.
    Adjacent,
    /// Newline-delimited JSON values.
    Ndjson,
    /// RFC 7464 JSON text sequences (`0x1E` record separator).
    JsonSeq,
}

/// Scan request.
#[derive(Clone, Copy, Debug)]
#[non_exhaustive]
pub struct ScanRequest<'a> {
    /// How the buffer holds values.
    pub input: JsonInput,
    /// Demanded work. One answer per entry.
    pub demands: &'a [Demand],
    /// Semantic dial. Default is [`Strictness::Structure`].
    pub strictness: Strictness,
    /// Container nesting bound for this scan. Defaults to [`MAX_NESTING`].
    pub max_nesting: u32,
    /// Grammar the buffer is read under. Default is RFC 8259.
    pub dialect: Dialect,
    /// Collect comment facts onto each built document. Default `false`. Glyph
    /// spans are retained only under Strict.
    pub facts: bool,
}

/// [`ScanRequest`] over sequences.
pub struct Ask {
    /// How the buffer holds values.
    pub input: JsonInput,
    /// Demanded work.
    pub demands: Seq<DemandModel>,
    /// What the walk reads under.
    pub ctx: WalkCtx,
    /// Whether comment facts are collected.
    pub facts: bool,
}

impl<'a> ScanRequest<'a> {
    /// What this request asks.
    pub open spec fn model(self) -> Ask {
        Ask {
            input: self.input,
            demands: demands_model(self.demands@),
            ctx: self.ctx_model(),
            facts: self.facts,
        }
    }

    /// What the walk of this request reads under.
    pub open spec fn ctx_model(self) -> WalkCtx {
        WalkCtx { strictness: self.strictness, max: self.max_nesting, dialect: self.dialect }
    }

    /// A request for `demands` over `input`, every other knob at its default.
    #[must_use]
    pub fn new(input: JsonInput, demands: &'a [Demand]) -> (r: Self)
        ensures
            r.input == input,
            r.demands@ == demands@,
            r.strictness == Strictness::Structure,
            r.max_nesting == MAX_NESTING,
            r.dialect == Dialect::Rfc8259,
            !r.facts,
    {
        ScanRequest {
            input,
            demands,
            strictness: Strictness::Structure,
            max_nesting: MAX_NESTING,
            dialect: Dialect::Rfc8259,
            facts: false,
        }
    }

    /// This request with `strictness`.
    #[must_use]
    pub fn with_strictness(self, strictness: Strictness) -> (r: Self)
        ensures
            r == (ScanRequest { strictness, ..self }),
    {
        ScanRequest { strictness, ..self }
    }

    /// This request with a `max_nesting` bound.
    #[must_use]
    pub fn with_max_nesting(self, max_nesting: u32) -> (r: Self)
        ensures
            r == (ScanRequest { max_nesting, ..self }),
    {
        ScanRequest { max_nesting, ..self }
    }

    /// This request reading `dialect`.
    #[must_use]
    pub fn with_dialect(self, dialect: Dialect) -> (r: Self)
        ensures
            r == (ScanRequest { dialect, ..self }),
    {
        ScanRequest { dialect, ..self }
    }

    /// This request collecting comment facts (or not).
    #[must_use]
    pub fn with_facts(self, facts: bool) -> (r: Self)
        ensures
            r == (ScanRequest { facts, ..self }),
    {
        ScanRequest { facts, ..self }
    }

    /// What the walk of this request reads under.
    pub fn ctx(&self) -> (r: WalkCtx)
        ensures
            r == self.ctx_model(),
    {
        WalkCtx { strictness: self.strictness, max: self.max_nesting, dialect: self.dialect }
    }
}

/// Whether an equality operand of a condition is a container.
pub open spec fn compares_container(p: PredicateModel) -> bool
    decreases p,
{
    match p {
        PredicateModel::Eq(_, value) => value is Array || value is Object,
        PredicateModel::Ne(_, value) => value is Array || value is Object,
        PredicateModel::Order(_, _, _) => false,
        PredicateModel::And(x, y) => compares_container(*x) || compares_container(*y),
        PredicateModel::Or(x, y) => compares_container(*x) || compares_container(*y),
        PredicateModel::Not(x) => compares_container(*x),
    }
}

/// Whether a demand filters by a container operand.
pub open spec fn filters_container(d: DemandModel) -> bool
    decreases d,
{
    match d {
        DemandModel::Path { steps, nested } => nested matches Some(n) && filters_container(*n),
        DemandModel::Collection { keys, nested } => nested matches Some(n) && filters_container(*n),
        DemandModel::Slice { range, nested } => nested matches Some(n) && filters_container(*n),
        DemandModel::Filter { path, predicate, project } => compares_container(predicate),
        _ => false,
    }
}

/// Whether some demand filters by a container operand.
pub open spec fn any_filters_container(demands: Seq<DemandModel>) -> bool {
    exists|i: int| 0 <= i < demands.len() && filters_container(#[trigger] demands[i])
}

fn is_container(value: &Value) -> (r: bool)
    ensures
        r == (json(*value) is Array || json(*value) is Object),
{
    match value {
        Value::Array(_) => true,
        Value::Object(_) => true,
        _ => false,
    }
}

fn refuse_container_predicate(predicate: &Predicate) -> (r: bool)
    ensures
        r == compares_container(predicate_model(*predicate)),
    decreases *predicate,
{
    match predicate {
        Predicate::Eq { field: _, value } => is_container(value),
        Predicate::Ne { field: _, value } => is_container(value),
        Predicate::And(a, b) => refuse_container_predicate(a) || refuse_container_predicate(b),
        Predicate::Or(a, b) => refuse_container_predicate(a) || refuse_container_predicate(b),
        Predicate::Not(a) => refuse_container_predicate(a),
        _ => false,
    }
}

fn refuses(demand: &Demand) -> (r: bool)
    ensures
        r == filters_container(demand_model(*demand)),
    decreases *demand,
{
    match demand {
        Demand::Path { steps: _, nested } => match nested {
            Some(d) => refuses(d),
            None => false,
        },
        Demand::Collection { fields: _, nested } => match nested {
            Some(d) => refuses(d),
            None => false,
        },
        Demand::Slice { range: _, nested } => match nested {
            Some(d) => refuses(d),
            None => false,
        },
        Demand::Filter { path: _, predicate, project: _ } => refuse_container_predicate(predicate),
        _ => false,
    }
}

/// Refuse a filter whose equality operand is a container. The walk compares
/// source spans without materializing values, so only scalar operands apply.
pub fn refuse_container_predicates(demands: &[Demand]) -> (r: Result<(), Error>)
    ensures
        r == (if any_filters_container(demands_model(demands@)) {
            Err::<(), Error>(at(ErrorKind::PredicateOperand, 0))
        } else {
            Ok(())
        }),
{
    let mut i: usize = 0;
    while i < demands.len()
        invariant
            i <= demands@.len(),
            forall|k: int| 0 <= k < i ==> !filters_container(#[trigger] demands_model(demands@)[k]),
        decreases demands@.len() - i,
    {
        if refuses(&demands[i]) {
            assert(filters_container(demands_model(demands@)[i as int]));
            return Err(Error::new(ErrorKind::PredicateOperand, 0));
        }
        i = i + 1;
    }
    Ok(())
}

/// Value check selected by `strictness` where nothing is demanded.
pub fn check_of(strictness: Strictness) -> (r: Check)
    ensures
        r == (match strictness {
            Strictness::Strict => Check::Values,
            _ => Check::Locate,
        }),
{
    match strictness {
        Strictness::Strict => Check::Values,
        _ => Check::Locate,
    }
}

/// Whether some demand is for the whole value.
pub open spec fn any_whole(demands: Seq<DemandModel>) -> bool {
    exists|i: int| 0 <= i < demands.len() && #[trigger] demands[i] is Whole
}

/// Whether every document of the scan takes all the source's facts: the request
/// asks for facts on a commenting dialect with a whole-value demand.
pub open spec fn fuses(ask: Ask) -> bool {
    ask.facts && ask.ctx.dialect.comments() && any_whole(ask.demands)
}

/// Where the root of a text request stands: only a request that is not Strict
/// may end at a bounded window.
pub open spec fn root_env(ask: Ask) -> Env {
    Env {
        element: false,
        may_stop: ask.ctx.strictness != Strictness::Strict && !fuses(ask),
        lane: false,
    }
}

/// The walk of a text request: one value, then nothing but trivia unless a
/// bounded window ended the walk.
pub open spec fn text_walk(b: Seq<u8>, ask: Ask) -> Result<Walked, Error> {
    match trivia_end(b, text_start(b), ask.ctx.dialect) {
        Err(error) => Err(error),
        Ok(pos) => if pos >= b.len() {
            Err(at(ErrorKind::ExpectedValue, pos))
        } else {
            match node(b, pos, ask.demands, ask.ctx, 0, root_env(ask)) {
                Err(error) => Err(error),
                Ok(w) => if w.stopped {
                    Ok(w)
                } else {
                    match trivia_end(b, w.end, ask.ctx.dialect) {
                        Err(error) => Err(error),
                        Ok(tail) => if tail < b.len() {
                            Err(at(ErrorKind::TrailingContent, tail))
                        } else {
                            Ok(w)
                        },
                    }
                },
            }
        },
    }
}

/// The facts a request collects from a source.
pub open spec fn asked_facts(b: Seq<u8>, ask: Ask) -> Seq<FactModel> {
    if ask.facts {
        collected(
            b,
            if ask.input == JsonInput::Text && fuses(ask) {
                text_start(b)
            } else {
                0
            },
            b.len() as int,
            ask.ctx.dialect,
            ask.ctx.strictness == Strictness::Strict,
        )
    } else {
        Seq::empty()
    }
}

/// The answers of a text request.
pub open spec fn text_answers(b: Seq<u8>, ask: Ask) -> Result<Seq<AnswerModel>, Error> {
    match text_walk(b, ask) {
        Err(error) => Err(error),
        Ok(w) => Ok(
            answers_of(
                b,
                w.marks,
                ask.ctx.strictness == Strictness::Strict,
                ask.ctx.dialect,
                asked_facts(b, ask),
                fuses(ask),
            ),
        ),
    }
}

/// Whether some demand is for the whole value.
fn wants_any_whole(demands: &[Demand]) -> (r: bool)
    ensures
        r == any_whole(demands_model(demands@)),
{
    let mut i: usize = 0;
    while i < demands.len()
        invariant
            i <= demands@.len(),
            forall|k: int| 0 <= k < i ==> !(#[trigger] demands_model(demands@)[k] is Whole),
        decreases demands@.len() - i,
    {
        if matches!(demands[i], Demand::Whole) {
            assert(demands_model(demands@)[i as int] is Whole);
            return true;
        }
        i = i + 1;
    }
    false
}

/// Whether every document of the scan takes all the source's facts.
fn fuses_facts(req: &ScanRequest<'_>) -> (r: bool)
    ensures
        r == fuses(req.model()),
{
    req.facts && req.dialect.has_comments() && wants_any_whole(req.demands)
}

/// The facts a request collects from a source.
pub fn collect_facts(src: &[u8], from: usize, to: usize, req: &ScanRequest<'_>) -> (r: Vec<Fact>)
    ensures
        facts_model(r@) == (if req.facts {
            collected(src@, from as int, to as int, req.dialect, req.strictness == Strictness::Strict)
        } else {
            Seq::empty()
        }),
{
    if req.facts {
        collect(src, from, to, req.dialect, matches!(req.strictness, Strictness::Strict))
    } else {
        let none: Vec<Fact> = Vec::new();
        assert(facts_model(none@) =~= Seq::empty());
        none
    }
}

/// Whether a scan answered what the model names, or the host stopped it.
pub open spec fn scans_as(
    r: Result<ScanResult<'_>, Error>,
    named: Result<(Seq<AnswerModel>, Seq<Error>), Error>,
    host: Host<'_>,
    polled: bool,
    n: int,
) -> bool {
    (polled && host_stopped(r, host, n)) || match named {
        Ok((answers, issues)) => r matches Ok(result) && answers_model(result.answers@) == answers && errors_of(
            result.issues@,
        ) == issues,
        Err(error) => r == Err::<ScanResult<'_>, Error>(error),
    }
}

/// What several issues are.
pub open spec fn errors_of(issues: Seq<Issue>) -> Seq<Error> {
    issues.map_values(|i: Issue| i.error)
}

/// Answers without a recovered refusal.
pub open spec fn without_issues(r: Result<Seq<AnswerModel>, Error>) -> Result<(Seq<AnswerModel>, Seq<Error>), Error> {
    match r {
        Ok(answers) => Ok((answers, Seq::empty())),
        Err(error) => Err(error),
    }
}

/// Scan one text value.
pub(crate) fn scan_text<'src>(src: &'src [u8], req: &ScanRequest<'_>, host: &mut Host<'_>) -> (r: Result<
    ScanResult<'src>,
    Error,
>)
    requires
        old(host).wf(),
        req.input == JsonInput::Text,
    ensures
        scans_as(
            r,
            without_issues(text_answers(src@, req.model())),
            *old(host),
            has_value(src@, req.dialect),
            src@.len() as int,
        ),
        r matches Ok(result) ==> result.answers@.len() == req.demands@.len(),
        final(host).wf(),
        final(host).same(*old(host)),
        r matches Ok(result) ==> result.issues@.len() == 0 && recorded(
            *final(host),
            *old(host),
            walk_events(src@, req.model()),
            true,
        ),
{
    let len: usize = src.len();
    let bom: usize = strip_bom(src);
    proof {
        trivia_end_bounds(src@, bom as int, req.dialect);
    }
    let pos: usize = skip_trivia(src, bom, req.dialect)?;
    if pos >= len {
        return Err(Error::new(ErrorKind::ExpectedValue, pos));
    }
    let fused: bool = fuses_facts(req);
    let hits: Vec<Lens<'_>> = lenses_of(req.demands);
    assert(lenses_model(hits@).len() == hits@.len());
    assert(demands_model(req.demands@).len() == req.demands@.len());
    let strict: bool = matches!(req.strictness, Strictness::Strict);
    host.poll(pos)?;
    let walked: Walk = walk_node(
        src,
        pos,
        hits.as_slice(),
        req.ctx(),
        0,
        Env { element: false, may_stop: !strict && !fused, lane: false },
        host,
    )?;
    proof {
        let events = node_events(src@, pos as int, demands_model(req.demands@), req.model().ctx, 0, root_env(req.model()));
        if old(host).trace is Some && old(host).events().len() == 0 {
            assert(host.events() =~= events);
            assert(events.take(events.len() as int) =~= events);
            assert(events.skip(events.len() as int) =~= Seq::empty());
            assert(events + Seq::<TraceEvent>::empty() =~= events);
        }
    }
    if !walked.stopped {
        let tail: usize = skip_trivia(src, walked.end, req.dialect)?;
        if tail < len {
            return Err(Error::new(ErrorKind::TrailingContent, tail));
        }
    }
    let facts: Vec<Fact> = collect_facts(
        src,
        if fused {
            bom
        } else {
            0
        },
        len,
        req,
    );
    let binding: Binding<'src, '_> = Binding { source: src, strict, dialect: req.dialect, facts: &facts, all_facts: fused };
    let answers: Vec<Answer<'src>> = binding.answers(walked.marks);
    let issues: Vec<Issue> = Vec::new();
    assert(errors_of(issues@) =~= Seq::empty());
    Ok(ScanResult { answers, issues })
}

/// The answers and recovered refusals of a request.
pub open spec fn scanned(b: Seq<u8>, ask: Ask) -> Result<(Seq<AnswerModel>, Seq<Error>), Error> {
    if any_filters_container(ask.demands) {
        Err(at(ErrorKind::PredicateOperand, 0))
    } else if ask.input == JsonInput::Text {
        without_issues(text_answers(b, ask))
    } else {
        match stream_marks(b, ask.input, ask.demands, ask.ctx) {
            Err(error) => Err(error),
            Ok((marks, issues)) => Ok(
                (
                    answers_of(
                        b,
                        marks,
                        ask.ctx.strictness == Strictness::Strict,
                        ask.ctx.dialect,
                        asked_facts(b, ask),
                        false,
                    ),
                    issues,
                ),
            ),
        }
    }
}

/// Events of a request's walk: on a stream, those of the records that no index names,
/// and those of the records that one does.
pub open spec fn walk_events(b: Seq<u8>, ask: Ask) -> (Seq<TraceEvent>, Seq<TraceEvent>) {
    if ask.input == JsonInput::Text {
        match trivia_end(b, text_start(b), ask.ctx.dialect) {
            Ok(pos) => (node_events(b, pos, ask.demands, ask.ctx, 0, root_env(ask)), Seq::empty()),
            Err(_) => (Seq::empty(), Seq::empty()),
        }
    } else {
        stream_events(b, ask.input, ask.demands, ask.ctx)
    }
}

/// Whether a text holds something behind its leading trivia.
pub open spec fn has_value(b: Seq<u8>, dialect: Dialect) -> bool {
    trivia_end(b, text_start(b), dialect) matches Ok(pos) && pos < b.len()
}

/// Whether a request comes to poll the host: a refused predicate, a text that does
/// not begin and a stream without records are settled before.
pub open spec fn is_polled(b: Seq<u8>, ask: Ask) -> bool {
    &&& !any_filters_container(ask.demands)
    &&& if ask.input == JsonInput::Text {
        has_value(b, ask.ctx.dialect)
    } else {
        has_records(b, ask.input, ask.ctx)
    }
}

/// The answers visited one record at a time, and what the visit came to: the
/// recovered refusals, or the refusal that ended it.
pub open spec fn visited(b: Seq<u8>, ask: Ask) -> (Seq<AnswerModel>, Result<Seq<Error>, Error>) {
    if any_filters_container(ask.demands) {
        (Seq::empty(), Err(at(ErrorKind::PredicateOperand, 0)))
    } else if ask.input == JsonInput::Text {
        match text_answers(b, ask) {
            Err(error) => (Seq::empty(), Err(error)),
            Ok(answers) => (answers, Ok(Seq::empty())),
        }
    } else {
        let (marks, outcome) = each_marks(b, ask.input, ask.demands, ask.ctx);
        (
            answers_of(
                b,
                marks,
                ask.ctx.strictness == Strictness::Strict,
                ask.ctx.dialect,
                asked_facts(b, ask),
                false,
            ),
            outcome,
        )
    }
}

fn to_issues(errors: Vec<Error>) -> (r: Vec<Issue>)
    ensures
        errors_of(r@) == errors@,
{
    let mut out: Vec<Issue> = Vec::new();
    let mut i: usize = 0;
    while i < errors.len()
        invariant
            i <= errors@.len(),
            out@.len() == i,
            forall|k: int| 0 <= k < i ==> (#[trigger] out@[k]).error == errors@[k],
        decreases errors@.len() - i,
    {
        out.push(Issue { error: errors[i] });
        i = i + 1;
    }
    assert(errors_of(out@) =~= errors@);
    out
}

/// Turn a stream's marks into answers.
fn bind_stream<'src>(src: &'src [u8], req: &ScanRequest<'_>, marks: Vec<Mark>, errors: Vec<Error>) -> (r: ScanResult<'src>)
    requires
        req.input != JsonInput::Text,
    ensures
        answers_model(r.answers@) == answers_of(
            src@,
            marks_model(marks@),
            req.strictness == Strictness::Strict,
            req.dialect,
            asked_facts(src@, req.model()),
            false,
        ),
        errors_of(r.issues@) == errors@,
        r.answers@.len() == marks@.len(),
{
    let strict: bool = matches!(req.strictness, Strictness::Strict);
    let facts: Vec<Fact> = collect_facts(src, 0, src.len(), req);
    let binding: Binding<'src, '_> = Binding { source: src, strict, dialect: req.dialect, facts: &facts, all_facts: false };
    ScanResult { answers: binding.answers(marks), issues: to_issues(errors) }
}

/// Shared dispatch of the scan entries.
pub(crate) fn dispatch<'src>(src: &'src [u8], req: &ScanRequest<'_>, host: &mut Host<'_>) -> (r: Result<
    ScanResult<'src>,
    Error,
>)
    requires
        old(host).wf(),
    ensures
        scans_as(r, scanned(src@, req.model()), *old(host), is_polled(src@, req.model()), src@.len() as int),
        r matches Ok(result) ==> result.answers@.len() == req.demands@.len(),
        final(host).wf(),
        final(host).same(*old(host)),
        r matches Ok(result) ==> recorded(
            *final(host),
            *old(host),
            walk_events(src@, req.model()),
            result.issues@.len() == 0,
        ),
{
    refuse_container_predicates(req.demands)?;
    match req.input {
        JsonInput::Text => scan_text(src, req, host),
        _ => {
            let (marks, errors) = scan_stream(src, req.input, req.demands, req.ctx(), host)?;
            let result: ScanResult<'src> = bind_stream(src, req, marks, errors);
            assert(errors_of(result.issues@).len() == result.issues@.len());
            Ok(result)
        },
    }
}

/// One-pass scan: one answer per demand. Adjacent, NDJSON and JSON-seq inputs
/// are a virtual array of top-level values.
pub fn scan<'src>(src: &'src [u8], req: &ScanRequest<'_>) -> (r: Result<ScanResult<'src>, Error>)
    ensures
        match scanned(src@, req.model()) {
            Ok((answers, issues)) => r matches Ok(result) && answers_model(result.answers@) == answers && errors_of(
                result.issues@,
            ) == issues,
            Err(error) => r == Err::<ScanResult<'_>, Error>(error),
        },
        r matches Ok(result) ==> result.answers@.len() == req.demands@.len(),
{
    let mut host: Host<'_> = Host::none();
    dispatch(src, req, &mut host)
}

/// One-pass scan under a host [`Control`]. The handle is polled once per
/// container child and once per stream record (never per byte); a stop returns
/// a control error at an offset of the source and no partial answer. A scan the host does not stop, or that is
/// settled before the first poll, answers as [`scan`] does.
pub fn scan_controlled<'src>(src: &'src [u8], req: &ScanRequest<'_>, control: &Control) -> (r: Result<
    ScanResult<'src>,
    Error,
>)
    ensures
        (is_polled(src@, req.model()) && (r matches Err(e) && is_stop_of(*control, e, src@.len() as int))) || match scanned(src@, req.model()) {
            Ok((answers, issues)) => r matches Ok(result) && answers_model(result.answers@) == answers && errors_of(
                result.issues@,
            ) == issues,
            Err(error) => r == Err::<ScanResult<'_>, Error>(error),
        },
        r matches Ok(result) ==> result.answers@.len() == req.demands@.len(),
{
    let mut host: Host<'_> = Host { control: Some(control), trace: None };
    dispatch(src, req, &mut host)
}

/// Kind of an answer.
pub open spec fn kind_of_answer(a: AnswerModel) -> AnswerKind {
    match a {
        AnswerModel::Missing => AnswerKind::Missing,
        AnswerModel::Document(_) => AnswerKind::Document,
        AnswerModel::Columns(_, _) => AnswerKind::Columns,
        AnswerModel::Mismatch(_) => AnswerKind::Mismatch,
        _ => AnswerKind::Oracle,
    }
}

/// The mark event of an answer.
pub open spec fn mark_event(a: AnswerModel, demand: int) -> TraceEvent {
    TraceEvent::Mark {
        demand: demand as u32,
        kind: kind_of_answer(a),
        span: match a {
            AnswerModel::Document(document) => Some(document.root),
            _ => None,
        },
    }
}

/// The mark events of several answers.
pub open spec fn mark_events(answers: Seq<AnswerModel>) -> Seq<TraceEvent> {
    Seq::new(answers.len(), |i: int| mark_event(answers[i], i))
}

/// Record one mark per answer: what each demand produced, with the span when
/// the answer has one.
pub fn record_marks(trace: &mut Trace, answers: &Vec<Answer<'_>>)
    requires
        old(trace).tallied(),
        answers@.len() <= u32::MAX,
    ensures
        final(trace).tallied(),
        final(trace).counters.demands == answers@.len(),
        final(trace).counters.polls == old(trace).counters.polls,
        final(trace).events@ == old(trace).events@ + mark_events(answers_model(answers@)),
{
    trace.counters.demands = answers.len() as u64;
    let ghost before = trace.events@;
    let ghost all = mark_events(answers_model(answers@));
    let mut i: usize = 0;
    assert(before + all.take(0) =~= before);
    while i < answers.len()
        invariant
            i <= answers@.len(),
            answers@.len() <= u32::MAX,
            all == mark_events(answers_model(answers@)),
            trace.tallied(),
            trace.counters.demands == answers@.len(),
            trace.counters.polls == old(trace).counters.polls,
            trace.events@ == before + all.take(i as int),
        decreases answers@.len() - i,
    {
        let (kind, span): (AnswerKind, Option<ByteRange>) = match &answers[i] {
            Answer::Missing => (AnswerKind::Missing, None),
            Answer::Document(document) => (AnswerKind::Document, Some(document.root())),
            Answer::Columns(_) => (AnswerKind::Columns, None),
            Answer::Oracle(_) => (AnswerKind::Oracle, None),
            Answer::TypeMismatch { actual: _ } => (AnswerKind::Mismatch, None),
        };
        let ghost prior = trace.events@;
        trace.note_mark(i as u32, kind, span);
        proof {
            assert(all[i as int] == mark_event(answers_model(answers@)[i as int], i as int));
            assert(trace.events@ == prior.push(all[i as int]));
            assert(all.take(i + 1) =~= all.take(i as int).push(all[i as int]));
            assert(trace.events@ =~= before + all.take(i + 1));
        }
        i = i + 1;
    }
    assert(all.take(i as int) =~= all);
}

/// Whether a trace holds the events of the walk in their order, closes with one mark per
/// answer, and its counters tally it; without a control nothing was polled. What a
/// stream's refused last record left behind stands where that record's events would.
pub open spec fn traces(
    trace: Trace,
    walked: (Seq<TraceEvent>, Seq<TraceEvent>),
    answers: Seq<AnswerModel>,
    complete: bool,
    controlled: bool,
) -> bool {
    &&& trace.tallied()
    &&& joins(trace.events@.take(trace.events@.len() - answers.len()), walked, complete)
    &&& complete ==> trace.events@ == walked.0 + walked.1 + mark_events(answers)
    &&& !controlled ==> trace.counters.polls == 0
    &&& forall|i: int|
        0 <= i < trace.events@.len() - answers.len() ==> is_walk_event(#[trigger] trace.events@[i])
    &&& trace.counters.demands == answers.len()
    &&& trace.events@.len() >= answers.len()
    &&& trace.events@.skip(trace.events@.len() - answers.len()) == mark_events(answers)
}

fn close_trace<'src>(
    result: ScanResult<'src>,
    host: Host<'_>,
    Ghost(walked): Ghost<(Seq<TraceEvent>, Seq<TraceEvent>)>,
    Ghost(complete): Ghost<bool>,
) -> (r: (ScanResult<'src>, Trace))
    requires
        host.wf(),
        host.trace is Some,
        joins(host.events(), walked, complete),
        result.answers@.len() <= u32::MAX,
    ensures
        r.0 == result,
        traces(r.1, walked, answers_model(result.answers@), complete, host.control is Some),
{
    let mut trace: Trace = match host.trace {
        Some(trace) => trace,
        None => Trace::new(),
    };
    let ghost before = trace.events@;
    record_marks(&mut trace, &result.answers);
    assert(trace.events@.skip(before.len() as int) =~= mark_events(answers_model(result.answers@)));
    assert(trace.events@.take(before.len() as int) =~= before);
    (result, trace)
}

/// One-pass scan with a walk trace: what each demand produced, what was
/// skipped, and where the walk stopped early. On any refusal nothing is
/// returned, including no partial trace.
pub fn scan_traced<'src>(src: &'src [u8], req: &ScanRequest<'_>) -> (r: Result<(ScanResult<'src>, Trace), Error>)
    requires
        req.demands@.len() <= u32::MAX,
    ensures
        match scanned(src@, req.model()) {
            Ok((answers, issues)) => r matches Ok((result, trace)) && answers_model(result.answers@) == answers
                && errors_of(result.issues@) == issues && traces(
                trace,
                walk_events(src@, req.model()),
                answers,
                issues.len() == 0,
                false,
            ),
            Err(error) => r == Err::<(ScanResult<'_>, Trace), Error>(error),
        },
{
    let mut host: Host<'_> = Host { control: None, trace: Some(Trace::new()) };
    let result: ScanResult<'src> = dispatch(src, req, &mut host)?;
    assert(errors_of(result.issues@).len() == result.issues@.len());
    Ok(close_trace(result, host, Ghost(walk_events(src@, req.model())), Ghost(result.issues@.len() == 0)))
}

/// [`scan_controlled`] with a walk trace. The trace counts the polls; nothing is promised of
/// how many there are.
pub fn scan_traced_controlled<'src>(src: &'src [u8], req: &ScanRequest<'_>, control: &Control) -> (r: Result<
    (ScanResult<'src>, Trace),
    Error,
>)
    requires
        req.demands@.len() <= u32::MAX,
    ensures
        (is_polled(src@, req.model()) && (r matches Err(e) && is_stop_of(*control, e, src@.len() as int))) || match scanned(src@, req.model()) {
            Ok((answers, issues)) => r matches Ok((result, trace)) && answers_model(result.answers@) == answers
                && errors_of(result.issues@) == issues && traces(
                trace,
                walk_events(src@, req.model()),
                answers,
                issues.len() == 0,
                true,
            ),
            Err(error) => r == Err::<(ScanResult<'_>, Trace), Error>(error),
        },
{
    let mut host: Host<'_> = Host { control: Some(control), trace: Some(Trace::new()) };
    let result: ScanResult<'src> = dispatch(src, req, &mut host)?;
    assert(errors_of(result.issues@).len() == result.issues@.len());
    Ok(close_trace(result, host, Ghost(walk_events(src@, req.model())), Ghost(result.issues@.len() == 0)))
}

/// Visit each framed value: its answers go behind those in `visits`, in visiting
/// order. One text is visited once; a stream is visited per record, once per demand
/// that reads the record. A malformed final record is dropped. Use
/// [`scan_each_with_issues`] to see it. What was visited before a refusal stays.
pub fn scan_each<'src>(src: &'src [u8], req: &ScanRequest<'_>, visits: &mut Vec<Answer<'src>>) -> (r: Result<(), Error>)
    ensures
        answers_model(final(visits)@) == answers_model(old(visits)@) + visited(src@, req.model()).0,
        match visited(src@, req.model()).1 {
            Ok(_) => r is Ok,
            Err(error) => r == Err::<(), Error>(error),
        },
{
    let _issues: Vec<Issue> = scan_each_with_issues(src, req, visits)?;
    Ok(())
}

/// Put answers behind others.
fn add_visits<'src>(visits: &mut Vec<Answer<'src>>, answers: Vec<Answer<'src>>)
    ensures
        answers_model(final(visits)@) == answers_model(old(visits)@) + answers_model(answers@),
{
    let mut answers: Vec<Answer<'src>> = answers;
    let ghost more = answers@;
    visits.append(&mut answers);
    assert(answers_model(visits@) =~= answers_model(old(visits)@) + answers_model(more));
}

/// Visit each framed value as [`scan_each`] does, and return the recovered
/// per-record issues. A malformed final record is reported here instead of dropped.
pub fn scan_each_with_issues<'src>(src: &'src [u8], req: &ScanRequest<'_>, visits: &mut Vec<Answer<'src>>) -> (r: Result<
    Vec<Issue>,
    Error,
>)
    ensures
        answers_model(final(visits)@) == answers_model(old(visits)@) + visited(src@, req.model()).0,
        match visited(src@, req.model()).1 {
            Ok(issues) => r matches Ok(x) && errors_of(x@) == issues,
            Err(error) => r == Err::<Vec<Issue>, Error>(error),
        },
{
    assert(answers_model(visits@) + Seq::<AnswerModel>::empty() =~= answers_model(visits@));
    refuse_container_predicates(req.demands)?;
    match req.input {
        JsonInput::Text => {
            let mut host: Host<'_> = Host::none();
            let result: ScanResult<'src> = scan_text(src, req, &mut host)?;
            add_visits(visits, result.answers);
            Ok(result.issues)
        },
        _ => {
            let mut seen: Vec<Mark> = Vec::new();
            let outcome = each_record(src, req.input, req.demands, req.ctx(), &mut seen);
            let bound: ScanResult<'src> = bind_stream(src, req, seen, Vec::new());
            add_visits(visits, bound.answers);
            match outcome {
                Ok(errors) => Ok(to_issues(errors)),
                Err(error) => Err(error),
            }
        },
    }
}

/// Where the one value of a strictly valid text is: trivia, a value every byte
/// of which is checked, and nothing but trivia after it.
pub open spec fn strict_root(b: Seq<u8>, dialect: Dialect) -> Result<ByteRange, Error> {
    match trivia_end(b, text_start(b), dialect) {
        Err(error) => Err(error),
        Ok(pos) => match value_end(b, pos, Ctx { check: Check::Values, max: MAX_NESTING, dialect }, 0) {
            Err(error) => Err(error),
            Ok(e) => match trivia_end(b, e, dialect) {
                Err(error) => Err(error),
                Ok(tail) => if tail < b.len() {
                    Err(at(ErrorKind::TrailingContent, tail))
                } else {
                    Ok(span(pos, e))
                },
            },
        },
    }
}

/// Walking a value for its whole span locates it and nothing else.
pub proof fn whole_walk(b: Seq<u8>, pos: int, ctx: WalkCtx, depth: int, env: Env)
    requires
        0 <= pos <= b.len(),
        trivia_end(b, pos, ctx.dialect) == Ok::<int, Error>(pos),
    ensures
        node(b, pos, seq![DemandModel::Whole], ctx, depth, env) == (match value_end(
            b,
            pos,
            ctx.under(ctx.demanded()),
            depth,
        ) {
            Err(error) => Err(error),
            Ok(e) => Ok(Walked { end: e, stopped: false, marks: seq![MarkModel::Span(span(pos, e))] }),
        }),
{
    let hits = seq![DemandModel::Whole];
    let here = crate::walk::model::flat(hits);
    assert(here =~= hits);
    assert(here[0] is Whole);
    if pos < b.len() {
        match kind_at(b[pos], ctx.dialect) {
            None => {},
            Some(kind) => {
                reveal(crate::walk::model::located);
                assert(!crate::walk::model::enters(here, kind));
                assert(crate::walk::model::only_located(here));
                assert(crate::walk::model::wants_whole(here));
                reveal_with_fuel(crate::walk::model::oracles, 2);
                let filled = crate::walk::model::oracles(b, pos, kind, here, here.len(), false, ctx, depth);
                assert(filled is Ok && filled->Ok_0.1 == pos);
                if let Ok(e) = value_end(b, pos, ctx.under(ctx.demanded()), depth) {
                    assert(crate::walk::model::terminal_marks(here, filled->Ok_0.0, pos, e, kind) =~= seq![
                        MarkModel::Span(span(pos, e)),
                    ]);
                }
            },
        }
    }
}

/// The request that validates a text.
pub open spec fn strict_ask(dialect: Dialect, facts: bool) -> Ask {
    Ask {
        input: JsonInput::Text,
        demands: seq![DemandModel::Whole],
        ctx: WalkCtx { strictness: Strictness::Strict, max: MAX_NESTING, dialect },
        facts,
    }
}

/// A Strict scan for the whole value answers with the one document of a
/// strictly valid text, marked as validated under its grammar.
pub proof fn strict_scan_is_strict_root(b: Seq<u8>, dialect: Dialect, facts: bool)
    ensures
        match strict_root(b, dialect) {
            Err(error) => scanned(b, strict_ask(dialect, facts)) == Err::<(Seq<AnswerModel>, Seq<Error>), Error>(error),
            Ok(root) => scanned(b, strict_ask(dialect, facts)) matches Ok((answers, issues)) && issues.len() == 0
                && answers.len() == 1 && (answers[0] matches AnswerModel::Document(d) && d.source == b && d.root == root
                && d.grammar == Some(dialect.tag_code())),
        },
{
    let ask = strict_ask(dialect, facts);
    assert(!filters_container(ask.demands[0]));
    assert(!any_filters_container(ask.demands));
    let bom = text_start(b);
    trivia_end_bounds(b, bom, dialect);
    crate::lex::ws::trivia_end_settles(b, bom, dialect);
    if let Ok(pos) = trivia_end(b, bom, dialect) {
        whole_walk(b, pos, ask.ctx, 0, root_env(ask));
    }
}

/// Strict-validate every byte of one text value under `dialect`.
pub fn validate(src: &[u8], dialect: Dialect) -> (r: Result<(), Error>)
    ensures
        match strict_root(src@, dialect) {
            Ok(_) => r is Ok,
            Err(error) => r == Err::<(), Error>(error),
        },
{
    let demands: [Demand; 1] = [Demand::Whole];
    let req: ScanRequest<'_> = ScanRequest {
        input: JsonInput::Text,
        demands: &demands,
        strictness: Strictness::Strict,
        max_nesting: MAX_NESTING,
        dialect,
        facts: false,
    };
    proof {
        assert(demands_model(demands@) =~= seq![DemandModel::Whole]);
        assert(req.model() == strict_ask(dialect, false));
        strict_scan_is_strict_root(src@, dialect, false);
    }
    match scan(src, &req) {
        Ok(_) => Ok(()),
        Err(error) => Err(error),
    }
}

} // verus!
