//! Edits located by one strict scan and applied: as splices, or by re-encoding
//! the edited value.

use vstd::prelude::*;

use crate::answer::{answers_model, Answer, AnswerModel, Document, DocumentModel};
use crate::demand::{demand_model, demands_model, Demand, DemandModel};
use crate::dialect::Dialect;
use crate::edit::dom::{apply_dom, edited_value};
use crate::edit::fact_plan::{fact_plans_as, plan_fact, planned_fact};
use crate::edit::plan::{encoded, plan_splice, planned_splice, replacement};
use crate::edit::request::{edit_demand, edit_request, edits_model, Edit, EditModel, EditOptions};
use crate::edit::splice::{
    accepted_splices_are_disjoint, add_splice, apply_order, check_splices, descending, disjoint, ordered_splices, remapped,
    remapped_facts, slotted, spliced, splices_model, write_splices, Splice, SpliceModel,
};
use crate::error::{at, Error, ErrorKind};
use crate::facts::{copy_facts, facts_model, Fact, FactModel};
use crate::lex::skip::MAX_NESTING;
use crate::materialize::{parse, parsed, Form, MaterializeOptions};
use crate::scan::{scan, scanned, strict_ask, strict_root, strict_scan_is_strict_root, validate, Ask, JsonInput, ScanRequest};
use crate::demand::Strictness;
use crate::value::{json, ByteRange, Json, Value};
use crate::walk::model::WalkCtx;

verus! {

/// The demands the first `n` edits make.
pub open spec fn demands_of(edits: Seq<EditModel>, n: nat, dialect: Dialect) -> Seq<DemandModel>
    decreases n,
{
    if n == 0 || n > edits.len() {
        Seq::empty()
    } else {
        let before = demands_of(edits, (n - 1) as nat, dialect);
        match edit_demand(edits[n - 1], dialect) {
            Some(d) => before.push(d),
            None => before,
        }
    }
}

/// Whether an edit writes a comment.
pub open spec fn writes_fact(e: EditModel) -> bool {
    e is Fact
}

/// Whether some edit writes a comment.
pub open spec fn any_fact(edits: Seq<EditModel>) -> bool {
    exists|i: int| 0 <= i < edits.len() && writes_fact(#[trigger] edits[i])
}

/// Whether a plan needs the comment facts of the source.
pub open spec fn needs_facts(edits: Seq<EditModel>, dialect: Dialect, wanted: bool) -> bool {
    wanted || (dialect.comments() && any_fact(edits))
}

/// The strict scan that locates every edit, after the whole value when the
/// facts are needed.
pub open spec fn locating(edits: Seq<EditModel>, dialect: Dialect, facts: bool) -> Ask {
    Ask {
        input: JsonInput::Text,
        demands: (if facts {
            seq![DemandModel::Whole]
        } else {
            Seq::empty()
        }) + demands_of(edits, edits.len(), dialect),
        ctx: WalkCtx { strictness: Strictness::Strict, max: MAX_NESTING, dialect },
        facts,
    }
}

/// Where an answer found its value. A path that meets another kind leads nowhere:
/// to a delete it is absent, to another edit it names no value.
pub open spec fn located_span(src: Seq<u8>, answer: AnswerModel, e: EditModel) -> Result<Option<ByteRange>, Error> {
    match answer {
        AnswerModel::Document(d) => if d.root.start <= d.root.end <= src.len() {
            Ok(Some(d.root))
        } else {
            Err(at(ErrorKind::NotAValueSpan, 0))
        },
        AnswerModel::Missing => Ok(None),
        AnswerModel::Mismatch(_) => if e is Delete {
            Ok(None)
        } else {
            Err(at(ErrorKind::NotAValueSpan, 0))
        },
        _ => Err(at(ErrorKind::NotAValueSpan, 0)),
    }
}

/// Where the first `n` edits found their values; `base` answers come first.
pub open spec fn located_spans(
    src: Seq<u8>,
    answers: Seq<AnswerModel>,
    base: int,
    edits: Seq<EditModel>,
    n: nat,
    dialect: Dialect,
) -> Result<Seq<Option<ByteRange>>, Error>
    decreases n,
{
    if n == 0 || n > edits.len() {
        Ok(Seq::empty())
    } else {
        match located_spans(src, answers, base, edits, (n - 1) as nat, dialect) {
            Err(error) => Err(error),
            Ok(before) => if edit_demand(edits[n - 1], dialect) is None {
                Ok(before.push(None))
            } else {
                match located_span(
                    src,
                    answers[base + demands_of(edits, (n - 1) as nat, dialect).len()],
                    edits[n - 1],
                ) {
                    Err(error) => Err(error),
                    Ok(span) => Ok(before.push(span)),
                }
            },
        }
    }
}

/// The splices of one edit, and the facts it leaves alone.
#[verifier::opaque]
pub open spec fn planned_edit(
    src: Seq<u8>,
    index: int,
    e: EditModel,
    span: Option<ByteRange>,
    dialect: Dialect,
    facts: Seq<FactModel>,
) -> Result<(Seq<SpliceModel>, Seq<FactModel>), Error> {
    match e {
        EditModel::Fact(_, op) => planned_fact(src, index, op, span, dialect, facts),
        _ => match planned_splice(src, index, e, span, dialect) {
            Err(error) => Err(error),
            Ok(splices) => Ok((splices, facts)),
        },
    }
}

/// The splices of the first `n` edits, in edit order, and the facts they leave
/// alone.
pub open spec fn planned_edits(
    src: Seq<u8>,
    edits: Seq<EditModel>,
    spans: Seq<Option<ByteRange>>,
    n: nat,
    dialect: Dialect,
    facts: Seq<FactModel>,
) -> Result<(Seq<SpliceModel>, Seq<FactModel>), Error>
    decreases n,
{
    if n == 0 || n > edits.len() {
        Ok((Seq::empty(), facts))
    } else {
        match planned_edits(src, edits, spans, (n - 1) as nat, dialect, facts) {
            Err(error) => Err(error),
            Ok((before, kept)) => match planned_edit(src, n - 1, edits[n - 1], spans[n - 1], dialect, kept) {
                Err(error) => Err(error),
                Ok((more, rest)) => Ok((before + more, rest)),
            },
        }
    }
}

/// The splices to apply, back of the source first, and the facts of the source
/// that they leave alone.
#[verifier::opaque]
pub open spec fn plan_of(src: Seq<u8>, edits: Seq<EditModel>, dialect: Dialect, wanted: bool) -> Result<
    (Seq<SpliceModel>, Seq<FactModel>),
    Error,
> {
    let facts = needs_facts(edits, dialect, wanted);
    match scanned(src, locating(edits, dialect, facts)) {
        Err(error) => Err(error),
        Ok((answers, _)) => if facts && !(answers[0] is Document) {
            Err(at(ErrorKind::NoDocument, 0))
        } else {
            match located_spans(
                src,
                answers,
                if facts {
                    1
                } else {
                    0
                },
                edits,
                edits.len(),
                dialect,
            ) {
                Err(error) => Err(error),
                Ok(spans) => match planned_edits(
                    src,
                    edits,
                    spans,
                    edits.len(),
                    dialect,
                    if facts {
                        answers[0]->Document_0.facts
                    } else {
                        Seq::empty()
                    },
                ) {
                    Err(error) => Err(error),
                    Ok((splices, kept)) => match ordered_splices(splices, src.len() as int) {
                        Err(error) => Err(error),
                        Ok(sorted) => Ok((sorted, kept)),
                    },
                },
            }
        },
    }
}

/// A value with the first `n` edits applied.
pub open spec fn edited_values(j: Json, edits: Seq<EditModel>, n: nat) -> Option<Json>
    decreases n,
{
    if n == 0 || n > edits.len() {
        Some(j)
    } else {
        match edited_values(j, edits, (n - 1) as nat) {
            None => None,
            Some(before) => edited_value(before, edits[n - 1]),
        }
    }
}

/// The re-encoded document of a value with `edits` applied; `original` when a
/// value cannot express the request or the result is invalid.
#[verifier::opaque]
pub open spec fn fallback(src: Seq<u8>, edits: Seq<EditModel>, dialect: Dialect, original: Error) -> Result<Seq<u8>, Error> {
    if any_fact(edits) {
        Err(original)
    } else {
        match parsed(src, dialect, Form::Value) {
            Err(_) => Err(original),
            Ok(j) => match edited_values(j, edits, edits.len()) {
                None => Err(original),
                Some(new) => match replacement(new, dialect) {
                    Err(_) => Err(original),
                    Ok(out) => if strict_root(out, dialect) is Ok {
                        Ok(out)
                    } else {
                        Err(original)
                    },
                },
            },
        }
    }
}

/// Whether a failed plan may be re-expressed by re-encoding the edited value. A
/// request error (overlap, root delete or insert) stays fatal.
pub open spec fn may_fall_back(error: Error) -> bool {
    error.kind == ErrorKind::EditUnplaceable
}

/// The source with `edits` applied.
pub open spec fn edited(src: Seq<u8>, edits: Seq<EditModel>, dialect: Dialect) -> Result<Seq<u8>, Error> {
    match plan_of(src, edits, dialect, false) {
        Err(error) => if may_fall_back(error) {
            fallback(src, edits, dialect, error)
        } else {
            Err(error)
        },
        Ok((splices, _)) => if splices.len() == 0 {
            Ok(src)
        } else {
            let out = spliced(src, splices, 0, src.len() as int);
            match strict_root(out, dialect) {
                Err(error) => fallback(src, edits, dialect, error),
                Ok(_) => Ok(out),
            }
        },
    }
}

/// The strictly validated document of a source.
#[verifier::opaque]
pub open spec fn strict_document(src: Seq<u8>, dialect: Dialect, facts: bool) -> DocumentModel {
    scanned(src, strict_ask(dialect, facts))->Ok_0.0[0]->Document_0
}

/// The document of a source with `edits` applied.
pub open spec fn edited_document(src: Seq<u8>, edits: Seq<EditModel>, dialect: Dialect) -> Result<DocumentModel, Error> {
    match plan_of(src, edits, dialect, true) {
        Err(error) => if may_fall_back(error) {
            fallback_document(src, edits, dialect, error)
        } else {
            Err(error)
        },
        Ok((splices, kept)) => {
            let out = spliced(src, splices, 0, src.len() as int);
            match strict_root(out, dialect) {
                Err(error) => fallback_document(src, edits, dialect, error),
                Ok(root) => Ok(
                    DocumentModel {
                        source: out,
                        root,
                        grammar: Some(dialect.tag_code()),
                        facts: remapped(kept, splices),
                    },
                ),
            }
        },
    }
}

/// The document of the re-encoded value.
pub open spec fn fallback_document(src: Seq<u8>, edits: Seq<EditModel>, dialect: Dialect, original: Error) -> Result<
    DocumentModel,
    Error,
> {
    match fallback(src, edits, dialect, original) {
        Err(error) => Err(error),
        Ok(out) => Ok(strict_document(out, dialect, true)),
    }
}


/// The located splices, back of the source first, plus the input facts the plan
/// leaves alone.
struct Plan {
    facts: Vec<Fact>,
    splices: Vec<Splice>,
}

fn has_fact(edits: &[Edit]) -> (r: bool)
    ensures
        r == any_fact(edits_model(edits@)),
{
    let ghost model = edits_model(edits@);
    let mut i: usize = 0;
    while i < edits.len()
        invariant
            i <= edits@.len(),
            model == edits_model(edits@),
            forall|k: int| 0 <= k < i ==> !writes_fact(#[trigger] model[k]),
        decreases edits@.len() - i,
    {
        if let Edit::Fact { .. } = &edits[i] {
            proof {
                assert(writes_fact(model[i as int]));
            }
            return true;
        }
        i += 1;
    }
    false
}

/// The demands that locate every edit.
fn edit_requests(edits: &[Edit], dialect: Dialect, facts: bool) -> (r: Vec<Demand>)
    ensures
        demands_model(r@) == locating(edits_model(edits@), dialect, facts).demands,
{
    let ghost model = edits_model(edits@);
    let ghost lead = if facts {
        seq![DemandModel::Whole]
    } else {
        Seq::empty()
    };
    let mut demands: Vec<Demand> = Vec::new();
    if facts {
        demands.push(Demand::Whole);
    }
    let mut i: usize = 0;
    proof {
        assert(demands_model(demands@) =~= lead + demands_of(model, 0, dialect));
    }
    while i < edits.len()
        invariant
            i <= edits@.len(),
            model == edits_model(edits@),
            demands_model(demands@) == lead + demands_of(model, i as nat, dialect),
        decreases edits@.len() - i,
    {
        let ghost before = demands@;
        proof {
            assert(model[i as int] == edits@[i as int]@);
        }
        match edit_request(&edits[i], dialect) {
            Some(demand) => {
                let ghost next = demand_model(demand);
                demands.push(demand);
                proof {
                    assert(demands_model(demands@) =~= demands_model(before).push(next));
                    assert((lead + demands_of(model, i as nat, dialect)).push(next) =~= lead + demands_of(
                        model,
                        i as nat,
                        dialect,
                    ).push(next));
                }
            },
            None => {},
        }
        i += 1;
    }
    demands
}

fn span_of(src: &[u8], answer: &Answer<'_>, edit: &Edit) -> (r: Result<Option<ByteRange>, Error>)
    ensures
        r == located_span(src@, answer@, edit@),
{
    match answer {
        Answer::Document(d) => {
            let root: ByteRange = d.root();
            if root.start <= root.end && root.end <= src.len() {
                Ok(Some(root))
            } else {
                Err(Error::new(ErrorKind::NotAValueSpan, 0))
            }
        },
        Answer::Missing => Ok(None),
        Answer::TypeMismatch { actual: _ } => match edit {
            Edit::Delete { path: _ } => Ok(None),
            _ => Err(Error::new(ErrorKind::NotAValueSpan, 0)),
        },
        _ => Err(Error::new(ErrorKind::NotAValueSpan, 0)),
    }
}

proof fn demands_of_grows(edits: Seq<EditModel>, n: nat, m: nat, dialect: Dialect)
    requires
        n <= m <= edits.len(),
    ensures
        demands_of(edits, n, dialect).len() <= demands_of(edits, m, dialect).len(),
        n < m && edit_demand(edits[n as int], dialect) is Some ==> demands_of(edits, n, dialect).len() < demands_of(
            edits,
            m,
            dialect,
        ).len(),
    decreases m - n,
{
    if n < m {
        demands_of_grows(edits, n + 1, m, dialect);
    }
}

proof fn located_spans_err(
    src: Seq<u8>,
    answers: Seq<AnswerModel>,
    base: int,
    edits: Seq<EditModel>,
    n: nat,
    m: nat,
    dialect: Dialect,
)
    requires
        n <= m <= edits.len(),
        located_spans(src, answers, base, edits, n, dialect) is Err,
    ensures
        located_spans(src, answers, base, edits, m, dialect) == located_spans(src, answers, base, edits, n, dialect),
    decreases m - n,
{
    if n < m {
        located_spans_err(src, answers, base, edits, n, (m - 1) as nat, dialect);
    }
}

/// Where each edit found its value.
fn locate_spans(src: &[u8], answers: &Vec<Answer<'_>>, base: usize, edits: &[Edit], dialect: Dialect) -> (r: Result<
    Vec<Option<ByteRange>>,
    Error,
>)
    requires
        answers@.len() == base + demands_of(edits_model(edits@), edits@.len(), dialect).len(),
    ensures
        match located_spans(src@, answers_model(answers@), base as int, edits_model(edits@), edits@.len(), dialect) {
            Ok(spans) => r matches Ok(v) && v@ == spans && v@.len() == edits@.len() && forall|i: int|
                0 <= i < v@.len() ==> ((#[trigger] v@[i]) matches Some(s) ==> s.start <= s.end <= src@.len()),
            Err(error) => r is Err && r->Err_0 == error,
        },
{
    let ghost model = edits_model(edits@);
    let ghost found = answers_model(answers@);
    let total: usize = answers.len();
    let mut spans: Vec<Option<ByteRange>> = Vec::new();
    let mut used: usize = base;
    let mut i: usize = 0;
    proof {
        assert(spans@ =~= Seq::<Option<ByteRange>>::empty());
    }
    while i < edits.len()
        invariant
            i <= edits@.len(),
            model == edits_model(edits@),
            found == answers_model(answers@),
            total == answers@.len(),
            total == base + demands_of(model, edits@.len(), dialect).len(),
            used == base + demands_of(model, i as nat, dialect).len(),
            spans@.len() == i,
            located_spans(src@, found, base as int, model, i as nat, dialect) == Ok::<Seq<Option<ByteRange>>, Error>(spans@),
            forall|i: int|
                0 <= i < spans@.len() ==> ((#[trigger] spans@[i]) matches Some(s) ==> s.start <= s.end <= src@.len()),
        decreases edits@.len() - i,
    {
        proof {
            assert(model[i as int] == edits@[i as int]@);
            demands_of_grows(model, i as nat, edits@.len(), dialect);
        }
        let skipped: bool = !dialect.has_comments() && matches!(&edits[i], Edit::Fact { .. });
        proof {
            assert(skipped == (edit_demand(model[i as int], dialect) is None));
        }
        if skipped {
            spans.push(None);
        } else {
            proof {
                assert(found[used as int] == answers@[used as int]@);
            }
            match span_of(src, &answers[used], &edits[i]) {
                Ok(span) => {
                    spans.push(span);
                },
                Err(error) => {
                    proof {
                        located_spans_err(src@, found, base as int, model, (i + 1) as nat, edits@.len(), dialect);
                    }
                    return Err(error);
                },
            }
            used += 1;
        }
        i += 1;
    }
    Ok(spans)
}

proof fn planned_edits_err(
    src: Seq<u8>,
    edits: Seq<EditModel>,
    spans: Seq<Option<ByteRange>>,
    n: nat,
    m: nat,
    dialect: Dialect,
    facts: Seq<FactModel>,
)
    requires
        n <= m <= edits.len(),
        planned_edits(src, edits, spans, n, dialect, facts) is Err,
    ensures
        planned_edits(src, edits, spans, m, dialect, facts) == planned_edits(src, edits, spans, n, dialect, facts),
    decreases m - n,
{
    if n < m {
        planned_edits_err(src, edits, spans, n, (m - 1) as nat, dialect, facts);
    }
}

proof fn apply_order_push(splices: Seq<SpliceModel>, s: SpliceModel)
    ensures
        apply_order(splices.push(s)) == slotted(apply_order(splices), s),
{
    assert(splices.push(s).drop_last() =~= splices);
}

/// Put splices where they are applied.
fn add_splices(sorted: &mut Vec<Splice>, more: Vec<Splice>, Ghost(all): Ghost<Seq<SpliceModel>>)
    requires
        splices_model(old(sorted)@) == apply_order(all),
        descending(splices_model(old(sorted)@)),
    ensures
        splices_model(final(sorted)@) == apply_order(all + splices_model(more@)),
        descending(splices_model(final(sorted)@)),
{
    let ghost model = splices_model(more@);
    let mut rest: Vec<Splice> = more;
    let ghost mut taken: int = 0;
    proof {
        assert(all + model.take(0) =~= all);
        assert(splices_model(rest@) =~= model.skip(0));
    }
    while rest.len() > 0
        invariant
            0 <= taken <= model.len(),
            splices_model(rest@) == model.skip(taken),
            rest@.len() == model.len() - taken,
            splices_model(sorted@) == apply_order(all + model.take(taken)),
            descending(splices_model(sorted@)),
        decreases rest@.len(),
    {
        let ghost before = rest@;
        let s: Splice = rest.remove(0);
        proof {
            assert(s@ == splices_model(before)[0]);
            assert forall|k: int| 0 <= k < rest@.len() implies splices_model(rest@)[k] == model.skip(taken + 1)[k] by {
                assert(rest@[k] == before[k + 1]);
                assert(splices_model(before)[k + 1] == model.skip(taken)[k + 1]);
            }
            assert(splices_model(rest@) =~= model.skip(taken + 1));
            assert(all + model.take(taken + 1) =~= (all + model.take(taken)).push(model[taken]));
            apply_order_push(all + model.take(taken), model[taken]);
            taken = taken + 1;
        }
        add_splice(sorted, s);
    }
    proof {
        assert(model.take(taken) =~= model);
    }
}

fn plan_edits(src: &[u8], edits: &[Edit], dialect: Dialect, wanted: bool) -> (r: Result<Plan, Error>)
    ensures
        match plan_of(src@, edits_model(edits@), dialect, wanted) {
            Ok((splices, kept)) => r is Ok && splices_model(r->Ok_0.splices@) == splices && facts_model(
                r->Ok_0.facts@,
            ) == kept && disjoint(splices, src@.len() as int),
            Err(error) => r is Err && r->Err_0 == error,
        },
{
    proof {
        reveal(plan_of);
    }
    let ghost model = edits_model(edits@);
    // One strict pass locates every edit's primary span and, walking the whole
    // document, value-checks it. A leading whole demand rides the same pass to
    // hand back the input facts when the plan needs them.
    let facts_too: bool = wanted || (dialect.has_comments() && has_fact(edits));
    let demands = edit_requests(edits, dialect, facts_too);
    let req: ScanRequest<'_> = ScanRequest {
        input: JsonInput::Text,
        demands: demands.as_slice(),
        strictness: Strictness::Strict,
        max_nesting: MAX_NESTING,
        dialect,
        facts: facts_too,
    };
    proof {
        assert(req.model() == locating(model, dialect, facts_too));
    }
    let answers = scan(src, &req)?.answers;
    let ghost found = answers_model(answers@);
    let mut facts: Vec<Fact> = Vec::new();
    let mut base: usize = 0;
    if facts_too {
        proof {
            assert(found[0] == answers@[0]@);
        }
        match &answers[0] {
            Answer::Document(d) => {
                facts = copy_facts(d.facts());
                base = 1;
            },
            _ => {
                return Err(Error::new(ErrorKind::NoDocument, 0));
            },
        }
    }
    proof {
        assert(facts_model(facts@) =~= (if facts_too {
            found[0]->Document_0.facts
        } else {
            Seq::<FactModel>::empty()
        }));
    }
    let spans = locate_spans(src, &answers, base, edits, dialect)?;
    let (splices, kept) = place_edits(src, edits, &spans, dialect, facts)?;
    check_splices(&splices, src.len())?;
    proof {
        let given = if facts_too {
            found[0]->Document_0.facts
        } else {
            Seq::<FactModel>::empty()
        };
        let all = planned_edits(src@, model, spans@, edits@.len(), dialect, given)->Ok_0.0;
        accepted_splices_are_disjoint(all, src@.len() as int);
    }
    Ok(Plan { facts: kept, splices })
}

/// Plan one edit.
fn plan_edit(src: &[u8], index: usize, edit: &Edit, span: Option<ByteRange>, dialect: Dialect, facts: Vec<Fact>) -> (r: Result<
    (Vec<Splice>, Vec<Fact>),
    Error,
>)
    requires
        span matches Some(s) ==> s.start <= src@.len(),
    ensures
        fact_plans_as(r, planned_edit(src@, index as int, edit@, span, dialect, facts_model(facts@))),
{
    proof {
        reveal(planned_edit);
    }
    match edit {
        Edit::Fact { op, .. } => plan_fact(src, index, op, span, dialect, facts),
        _ => match plan_splice(src, index, edit, span, dialect) {
            Ok(splices) => Ok((splices, facts)),
            Err(error) => Err(error),
        },
    }
}

/// Plan every edit.
fn place_edits(src: &[u8], edits: &[Edit], spans: &Vec<Option<ByteRange>>, dialect: Dialect, given: Vec<Fact>) -> (r: Result<
    (Vec<Splice>, Vec<Fact>),
    Error,
>)
    requires
        spans@.len() == edits@.len(),
        forall|i: int|
            0 <= i < spans@.len() ==> ((#[trigger] spans@[i]) matches Some(s) ==> s.start <= s.end <= src@.len()),
    ensures
        match planned_edits(src@, edits_model(edits@), spans@, edits@.len(), dialect, facts_model(given@)) {
            Ok((splices, kept)) => r is Ok && splices_model(r->Ok_0.0@) == apply_order(splices) && facts_model(
                r->Ok_0.1@,
            ) == kept,
            Err(error) => r is Err && r->Err_0 == error,
        },
{
    let ghost model = edits_model(edits@);
    let ghost facts_given = facts_model(given@);
    let mut facts: Vec<Fact> = given;
    let mut sorted: Vec<Splice> = Vec::new();
    let mut i: usize = 0;
    proof {
        assert(splices_model(sorted@) =~= apply_order(Seq::<SpliceModel>::empty()));
    }
    while i < edits.len()
        invariant
            i <= edits@.len(),
            model == edits_model(edits@),
            facts_given == facts_model(given@),
            spans@.len() == edits@.len(),
            forall|i: int|
                0 <= i < spans@.len() ==> ((#[trigger] spans@[i]) matches Some(s) ==> s.start <= s.end <= src@.len()),
            planned_edits(src@, model, spans@, i as nat, dialect, facts_given) is Ok,
            splices_model(sorted@) == apply_order(
                planned_edits(src@, model, spans@, i as nat, dialect, facts_given)->Ok_0.0,
            ),
            facts_model(facts@) == planned_edits(src@, model, spans@, i as nat, dialect, facts_given)->Ok_0.1,
            descending(splices_model(sorted@)),
        decreases edits@.len() - i,
    {
        let ghost all = planned_edits(src@, model, spans@, i as nat, dialect, facts_given)->Ok_0.0;
        let edit: &Edit = &edits[i];
        proof {
            assert(model[i as int] == edit@);
        }
        let span: Option<ByteRange> = spans[i];
        match plan_edit(src, i, edit, span, dialect, facts) {
            Ok((more, kept)) => {
                add_splices(&mut sorted, more, Ghost(all));
                facts = kept;
            },
            Err(error) => {
                proof {
                    planned_edits_err(src@, model, spans@, (i + 1) as nat, edits@.len(), dialect, facts_given);
                }
                return Err(error);
            },
        }
        i += 1;
    }
    Ok((sorted, facts))
}


/// Strict-validate one text value and return its document.
fn validated_document(src: &[u8], dialect: Dialect, facts: bool) -> (r: Result<Document<'_>, Error>)
    ensures
        match strict_root(src@, dialect) {
            Ok(root) => r is Ok && r->Ok_0@ == strict_document(src@, dialect, facts) && r->Ok_0@.root == root,
            Err(error) => r is Err && r->Err_0 == error,
        },
{
    proof {
        reveal(strict_document);
    }
    let demands: [Demand; 1] = [Demand::Whole];
    let req: ScanRequest<'_> = ScanRequest {
        input: JsonInput::Text,
        demands: &demands,
        strictness: Strictness::Strict,
        max_nesting: MAX_NESTING,
        dialect,
        facts,
    };
    proof {
        assert(demands_model(demands@) =~= seq![DemandModel::Whole]);
        assert(req.model() == strict_ask(dialect, facts));
        strict_scan_is_strict_root(src@, dialect, facts);
    }
    let mut answers = scan(src, &req)?.answers;
    proof {
        assert(answers_model(answers@)[0] == answers@[0]@);
    }
    match answers.pop() {
        Some(Answer::Document(document)) => Ok(document),
        _ => Err(Error::new(ErrorKind::NoDocument, 0)),
    }
}

/// Whether a failed plan may be re-expressed by re-encoding the edited value. A
/// request error (overlap, root delete or insert) or a host stop stays fatal.
pub fn fallback_able(error: &Error) -> (r: bool)
    ensures
        r == may_fall_back(*error),
{
    matches!(error.kind, ErrorKind::EditUnplaceable)
}

/// Re-encode the whole document from a value with `edits` applied, when the
/// splice path could not place them; returns `original` when a value cannot
/// represent the request or the result is invalid. The fallback drops
/// formatting and comments, where the splice keeps them.
pub fn fallback_encode(src: &[u8], edits: &[Edit], dialect: Dialect, original: Error) -> (r: Result<Vec<u8>, Error>)
    ensures
        match fallback(src@, edits_model(edits@), dialect, original) {
            Ok(out) => r matches Ok(v) && v@ == out,
            Err(error) => r is Err && r->Err_0 == error,
        },
{
    proof {
        reveal(fallback);
    }
    let ghost model = edits_model(edits@);
    if has_fact(edits) {
        return Err(original);
    }
    let artifact = match parse(src, MaterializeOptions { dialect, form: Form::Value }) {
        Ok(artifact) => artifact,
        Err(_) => {
            return Err(original);
        },
    };
    let mut value = artifact.into_value();
    let ghost start = json(value);
    let mut i: usize = 0;
    while i < edits.len()
        invariant
            i <= edits@.len(),
            model == edits_model(edits@),
            !any_fact(model),
            parsed(src@, dialect, Form::Value) == Ok::<Json, Error>(start),
            edited_values(start, model, i as nat) == Some(json(value)),
        decreases edits@.len() - i,
    {
        proof {
            assert(model[i as int] == edits@[i as int]@);
        }
        if !apply_dom(&mut value, &edits[i]) {
            proof {
                reveal(fallback);
                edited_values_none(start, model, (i + 1) as nat, edits@.len());
            }
            return Err(original);
        }
        i += 1;
    }
    match encoded(&value, dialect) {
        Ok(out) => match validate(out.as_slice(), dialect) {
            Ok(()) => Ok(out),
            Err(_) => Err(original),
        },
        Err(_) => Err(original),
    }
}

proof fn edited_values_none(j: Json, edits: Seq<EditModel>, n: nat, m: nat)
    requires
        n <= m <= edits.len(),
        edited_values(j, edits, n) is None,
    ensures
        edited_values(j, edits, m) is None,
    decreases m - n,
{
    if n < m {
        edited_values_none(j, edits, n, (m - 1) as nat);
    }
}

/// Apply `edits` to `src`, re-validating under `opts.dialect`. Under RFC 8259,
/// [`Edit::Delete`] of an absent path is a no-op and an [`Edit::Fact`] write is
/// inert; `Assign`/`Insert` error when their path is absent.
///
/// # Errors
///
/// Invalid input, an absent `Assign`/`Insert` path, or output that fails a
/// strict scan.
pub fn edit(src: &[u8], edits: &[Edit], opts: EditOptions) -> (r: Result<Vec<u8>, Error>)
    ensures
        match edited(src@, edits_model(edits@), opts.dialect) {
            Ok(out) => r matches Ok(v) && v@ == out,
            Err(error) => r is Err && r->Err_0 == error,
        },
{
    let dialect: Dialect = opts.dialect;
    let plan = match plan_edits(src, edits, dialect, false) {
        Ok(plan) => plan,
        Err(error) => {
            if fallback_able(&error) {
                return fallback_encode(src, edits, dialect, error);
            }
            return Err(error);
        },
    };
    if plan.splices.len() == 0 {
        let mut out: Vec<u8> = Vec::new();
        crate::encode::append(&mut out, src);
        proof {
            assert(out@ =~= src@);
        }
        return Ok(out);
    }
    let out = write_splices(src, &plan.splices);
    match validate(out.as_slice(), dialect) {
        Ok(()) => Ok(out),
        Err(error) => fallback_encode(src, edits, dialect, error),
    }
}

/// What falls back is strictly valid.
proof fn fallback_is_strict(src: Seq<u8>, edits: Seq<EditModel>, dialect: Dialect, original: Error)
    ensures
        fallback(src, edits, dialect, original) matches Ok(out) ==> strict_root(out, dialect) is Ok,
{
    reveal(fallback);
}

/// A strictly validated document is over the source it was read from.
proof fn strict_document_facts(src: Seq<u8>, dialect: Dialect, facts: bool)
    ensures
        strict_root(src, dialect) matches Ok(root) ==> strict_document(src, dialect, facts).source == src
            && strict_document(src, dialect, facts).root == root && strict_document(src, dialect, facts).grammar == Some(
            dialect.tag_code(),
        ),
{
    reveal(strict_document);
    strict_scan_is_strict_root(src, dialect, facts);
}

/// [`fallback_encode`] into `out`, returning the output's [`Document`].
fn fall_back_into<'out>(src: &[u8], edits: &[Edit], dialect: Dialect, original: Error, out: &'out mut Vec<u8>) -> (r: Result<
    Document<'out>,
    Error,
>)
    ensures
        match fallback_document(src@, edits_model(edits@), dialect, original) {
            Ok(document) => r is Ok && r->Ok_0@ == document && final(out)@ == document.source,
            Err(error) => r is Err && r->Err_0 == error,
        },
{
    proof {
        fallback_is_strict(src@, edits_model(edits@), dialect, original);
    }
    let bytes = fallback_encode(src, edits, dialect, original)?;
    proof {
        strict_document_facts(bytes@, dialect, true);
    }
    *out = bytes;
    validated_document(out.as_slice(), dialect, true)
}

/// Apply `edits` and keep the spliced bytes as a [`Document`] over `out` (whose
/// old contents go); a fact glyph straddling a splice is dropped, never cut.
///
/// # Errors
///
/// Same as [`edit`].
pub fn edit_document<'out>(src: &[u8], edits: &[Edit], opts: EditOptions, out: &'out mut Vec<u8>) -> (r: Result<
    Document<'out>,
    Error,
>)
    ensures
        match edited_document(src@, edits_model(edits@), opts.dialect) {
            Ok(document) => r is Ok && r->Ok_0@ == document && final(out)@ == document.source,
            Err(error) => r is Err && r->Err_0 == error,
        },
{
    let dialect: Dialect = opts.dialect;
    let plan = match plan_edits(src, edits, dialect, true) {
        Ok(plan) => plan,
        Err(error) => {
            if fallback_able(&error) {
                return fall_back_into(src, edits, dialect, error, out);
            }
            return Err(error);
        },
    };
    let bytes = write_splices(src, &plan.splices);
    let root: ByteRange = match validated_root(bytes.as_slice(), dialect) {
        Ok(root) => root,
        Err(error) => {
            return fall_back_into(src, edits, dialect, error, out);
        },
    };
    proof {
        let ghost sorted = splices_model(plan.splices@);
        assert forall|i: int| 0 <= i < plan.splices@.len() implies (#[trigger] plan.splices@[i]).from <= plan.splices@[i].to by {
            assert(sorted[i] == plan.splices@[i]@);
        }
    }
    let facts = remapped_facts(&plan.facts, &plan.splices);
    *out = bytes;
    let mut document = Document::from_span_validated(out.as_slice(), root, dialect.grammar_tag());
    document.set_facts(facts);
    Ok(document)
}

/// Strict-validate one text value and return where it is.
fn validated_root(src: &[u8], dialect: Dialect) -> (r: Result<ByteRange, Error>)
    ensures
        r == strict_root(src@, dialect),
{
    Ok(validated_document(src, dialect, false)?.root())
}

} // verus!
