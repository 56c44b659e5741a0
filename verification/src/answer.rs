//! What a scan hands back: located documents, column batches and oracle answers.

use vstd::prelude::*;

use crate::dialect::{Dialect, GrammarTag};
use crate::error::Error;
use crate::facts::{copy_facts, facts_model, Fact, FactModel};
use crate::text::names_of;
use crate::value::{ByteRange, ValueKind};
use crate::walk::marks::{Batch, BatchModel, ColumnCell, Mark, MarkModel};

verus! {

/// A located value: a span of a source, whether a Strict pass validated it and
/// under which grammar, and its comment facts.
#[derive(Debug, PartialEq, Eq)]
pub struct Document<'src> {
    source: &'src [u8],
    root: ByteRange,
    grammar: Option<GrammarTag>,
    facts: Vec<Fact>,
}

/// [`Document`] over sequences.
pub struct DocumentModel {
    /// The source bytes.
    pub source: Seq<u8>,
    /// Span of the value.
    pub root: ByteRange,
    /// Tag code of the grammar that validated it; `None` when none did.
    pub grammar: Option<u8>,
    /// Comment facts.
    pub facts: Seq<FactModel>,
}

impl<'src> View for Document<'src> {
    type V = DocumentModel;

    closed spec fn view(&self) -> DocumentModel {
        DocumentModel {
            source: self.source@,
            root: self.root,
            grammar: match self.grammar {
                Some(tag) => Some(tag.code),
                None => None,
            },
            facts: facts_model(self.facts@),
        }
    }
}

impl<'src> Document<'src> {
    /// A located value no grammar has validated.
    #[must_use]
    pub fn from_span(source: &'src [u8], root: ByteRange) -> (r: Self)
        ensures
            r@ == (DocumentModel { source: source@, root, grammar: None, facts: Seq::empty() }),
    {
        let r: Document<'src> = Document { source, root, grammar: None, facts: Vec::new() };
        assert(facts_model(r.facts@) =~= Seq::empty());
        r
    }

    /// A located value that a Strict pass under `grammar` has validated.
    #[must_use]
    pub fn from_span_validated(source: &'src [u8], root: ByteRange, grammar: GrammarTag) -> (r: Self)
        ensures
            r@ == (DocumentModel { source: source@, root, grammar: Some(grammar.code), facts: Seq::empty() }),
    {
        let r: Document<'src> = Document { source, root, grammar: Some(grammar), facts: Vec::new() };
        assert(facts_model(r.facts@) =~= Seq::empty());
        r
    }

    /// The source bytes.
    #[must_use]
    pub fn source(&self) -> (r: &'src [u8])
        ensures
            r@ == self@.source,
    {
        self.source
    }

    /// Span of the value.
    #[must_use]
    pub fn root(&self) -> (r: ByteRange)
        ensures
            r == self@.root,
    {
        self.root
    }

    /// Whether a Strict pass validated every byte of the value.
    #[must_use]
    pub fn is_fully_validated(&self) -> (r: bool)
        ensures
            r == (self@.grammar is Some),
    {
        self.grammar.is_some()
    }

    /// The grammar that validated the value.
    #[must_use]
    pub fn grammar(&self) -> (r: Option<GrammarTag>)
        ensures
            match self@.grammar {
                Some(code) => r matches Some(tag) && tag.code == code,
                None => r is None,
            },
    {
        self.grammar
    }

    /// Comment facts of the value.
    #[must_use]
    pub fn facts(&self) -> (r: &Vec<Fact>)
        ensures
            facts_model(r@) == self@.facts,
    {
        &self.facts
    }

    /// Attach comment facts.
    pub fn set_facts(&mut self, facts: Vec<Fact>)
        ensures
            final(self)@ == (DocumentModel { facts: facts_model(facts@), ..old(self)@ }),
    {
        self.facts = facts;
    }
}

/// Rows of located cells over one source.
#[derive(Debug, PartialEq, Eq)]
pub struct Columns<'src> {
    source: &'src [u8],
    batch: Batch,
}

impl<'src> Columns<'src> {
    /// The source bytes the cells are spans of.
    pub closed spec fn bytes(self) -> Seq<u8> {
        self.source@
    }

    /// The rows.
    pub closed spec fn rows_model(self) -> BatchModel {
        self.batch@
    }

    /// Rows over a source.
    #[must_use]
    pub fn new(source: &'src [u8], batch: Batch) -> (r: Self)
        ensures
            r.bytes() == source@,
            r.rows_model() == batch@,
    {
        Columns { source, batch }
    }

    /// The source bytes the cells are spans of.
    #[must_use]
    pub fn source(&self) -> (r: &'src [u8])
        ensures
            r@ == self.bytes(),
    {
        self.source
    }

    /// Field names, one per column.
    #[must_use]
    pub fn fields(&self) -> (r: &Vec<String>)
        ensures
            names_of(r@) == self.rows_model().fields,
    {
        &self.batch.fields
    }

    /// Cells, row by row.
    #[must_use]
    pub fn cells(&self) -> (r: &Vec<ColumnCell>)
        ensures
            r@ == self.rows_model().cells,
    {
        &self.batch.cells
    }

    /// Number of rows.
    #[must_use]
    pub fn rows(&self) -> (r: usize)
        ensures
            r == crate::walk::marks::rows_of(self.rows_model()),
    {
        self.batch.rows()
    }
}

/// An oracle's answer.
#[derive(Debug, PartialEq, Eq)]
pub enum OracleAnswer {
    /// Kind of the value.
    Kind(ValueKind),
    /// A count.
    Count(u64),
    /// Decoded length of a string.
    StringByteLength(u64),
    /// Whether the member is there.
    HasKey(bool),
    /// Distinct member names.
    MemberNames(Vec<String>),
}

/// What one demand produced.
#[derive(Debug, PartialEq, Eq)]
pub enum Answer<'src> {
    /// Nothing there (not null).
    Missing,
    /// A located value.
    Document(Document<'src>),
    /// A batch of rows.
    Columns(Columns<'src>),
    /// An oracle's answer.
    Oracle(OracleAnswer),
    /// The demand met the wrong kind.
    TypeMismatch {
        /// The kind it met.
        actual: ValueKind,
    },
}

/// [`Answer`] over sequences.
pub enum AnswerModel {
    /// Nothing there (not null).
    Missing,
    /// A located value.
    Document(DocumentModel),
    /// A batch of rows over a source.
    Columns(Seq<u8>, BatchModel),
    /// Kind of the value.
    Kind(ValueKind),
    /// A count.
    Count(int),
    /// Decoded length of a string.
    Length(int),
    /// Whether the member is there.
    HasKey(bool),
    /// Distinct member names.
    Names(Seq<Seq<u8>>),
    /// The demand met the wrong kind.
    Mismatch(ValueKind),
}

impl<'src> View for Answer<'src> {
    type V = AnswerModel;

    open spec fn view(&self) -> AnswerModel {
        match *self {
            Answer::Missing => AnswerModel::Missing,
            Answer::Document(document) => AnswerModel::Document(document@),
            Answer::Columns(columns) => AnswerModel::Columns(columns.bytes(), columns.rows_model()),
            Answer::Oracle(o) => match o {
                OracleAnswer::Kind(kind) => AnswerModel::Kind(kind),
                OracleAnswer::Count(n) => AnswerModel::Count(n as int),
                OracleAnswer::StringByteLength(n) => AnswerModel::Length(n as int),
                OracleAnswer::HasKey(flag) => AnswerModel::HasKey(flag),
                OracleAnswer::MemberNames(names) => AnswerModel::Names(names_of(names@)),
            },
            Answer::TypeMismatch { actual } => AnswerModel::Mismatch(actual),
        }
    }
}

/// What several answers are.
pub open spec fn answers_model(answers: Seq<Answer>) -> Seq<AnswerModel> {
    answers.map_values(|a: Answer| a@)
}

/// Whether a fact's glyph (its owner when it has none) lies inside `[from, to)`.
pub open spec fn lies_within(f: FactModel, from: int, to: int) -> bool {
    match f.source_span {
        Some(s) => from <= s.start && s.end <= to,
        None => from <= f.owner.start && f.owner.end <= to,
    }
}

/// The facts inside `[from, to)`.
pub open spec fn facts_within(facts: Seq<FactModel>, from: int, to: int) -> Seq<FactModel>
    decreases facts.len(),
{
    if facts.len() == 0 {
        Seq::empty()
    } else if lies_within(facts.last(), from, to) {
        facts_within(facts.drop_last(), from, to).push(facts.last())
    } else {
        facts_within(facts.drop_last(), from, to)
    }
}

/// Whether a fact's glyph (its owner when it has none) lies inside `[from, to)`.
pub fn within(fact: &Fact, from: usize, to: usize) -> (r: bool)
    ensures
        r == lies_within(fact@, from as int, to as int),
{
    match fact.source_span {
        Some(s) => from <= s.start && s.end <= to,
        None => from <= fact.owner.start && fact.owner.end <= to,
    }
}

/// What a scan knows about every document it hands back.
pub struct Binding<'src, 'f> {
    /// The source bytes.
    pub source: &'src [u8],
    /// Whether a Strict pass validated every byte.
    pub strict: bool,
    /// The grammar of the scan.
    pub dialect: Dialect,
    /// Comment facts of the source.
    pub facts: &'f Vec<Fact>,
    /// Whether each document takes all facts, or only those inside it.
    pub all_facts: bool,
}

/// The answer a mark stands for.
pub open spec fn answer_of(
    b: Seq<u8>,
    mark: MarkModel,
    strict: bool,
    dialect: Dialect,
    facts: Seq<FactModel>,
    all_facts: bool,
) -> AnswerModel {
    match mark {
        MarkModel::Missing => AnswerModel::Missing,
        MarkModel::Span(s) => AnswerModel::Document(
            DocumentModel {
                source: b,
                root: s,
                grammar: if strict {
                    Some(dialect.tag_code())
                } else {
                    None
                },
                facts: if all_facts {
                    facts
                } else {
                    facts_within(facts, s.start as int, s.end as int)
                },
            },
        ),
        MarkModel::Rows(batch) => AnswerModel::Columns(b, batch),
        MarkModel::Kind(kind) => AnswerModel::Kind(kind),
        MarkModel::Count(n) => AnswerModel::Count(n),
        MarkModel::Length(n) => AnswerModel::Length(n),
        MarkModel::HasKey(flag) => AnswerModel::HasKey(flag),
        MarkModel::Names(names) => AnswerModel::Names(names),
        MarkModel::Mismatch(kind) => AnswerModel::Mismatch(kind),
    }
}

/// The answers marks stand for.
pub open spec fn answers_of(
    b: Seq<u8>,
    marks: Seq<MarkModel>,
    strict: bool,
    dialect: Dialect,
    facts: Seq<FactModel>,
    all_facts: bool,
) -> Seq<AnswerModel> {
    marks.map_values(|m: MarkModel| answer_of(b, m, strict, dialect, facts, all_facts))
}

impl<'src, 'f> Binding<'src, 'f> {
    /// The facts a document at `root` takes.
    fn facts_of(&self, root: ByteRange) -> (r: Vec<Fact>)
        ensures
            facts_model(r@) == (if self.all_facts {
                facts_model(self.facts@)
            } else {
                facts_within(facts_model(self.facts@), root.start as int, root.end as int)
            }),
    {
        if self.all_facts {
            return copy_facts(self.facts);
        }
        let ghost all = facts_model(self.facts@);
        let mut out: Vec<Fact> = Vec::new();
        let mut i: usize = 0;
        assert(all.take(0).len() == 0);
        assert(facts_model(out@) =~= Seq::empty());
        while i < self.facts.len()
            invariant
                i <= self.facts@.len(),
                all == facts_model(self.facts@),
                facts_model(out@) == facts_within(all.take(i as int), root.start as int, root.end as int),
            decreases self.facts@.len() - i,
        {
            proof {
                let t = all.take(i + 1);
                assert(t.drop_last() =~= all.take(i as int));
                assert(t.last() == self.facts@[i as int]@);
            }
            let ghost before = out@;
            if within(&self.facts[i], root.start, root.end) {
                let f: Fact = self.facts[i].copied();
                out.push(f);
                assert(facts_model(out@) =~= facts_model(before).push(f@));
            }
            i = i + 1;
        }
        assert(all.take(i as int) =~= all);
        out
    }

    /// The answer a mark stands for.
    pub fn answer(&self, mark: Mark) -> (r: Answer<'src>)
        ensures
            r@ == answer_of(
                self.source@,
                mark@,
                self.strict,
                self.dialect,
                facts_model(self.facts@),
                self.all_facts,
            ),
    {
        match mark {
            Mark::Missing => Answer::Missing,
            Mark::Span(root) => {
                let mut document: Document<'src> = if self.strict {
                    Document::from_span_validated(self.source, root, self.dialect.grammar_tag())
                } else {
                    Document::from_span(self.source, root)
                };
                document.set_facts(self.facts_of(root));
                Answer::Document(document)
            },
            Mark::Rows(batch) => Answer::Columns(Columns::new(self.source, batch)),
            Mark::Kind(kind) => Answer::Oracle(OracleAnswer::Kind(kind)),
            Mark::Count(n) => Answer::Oracle(OracleAnswer::Count(n)),
            Mark::Length(n) => Answer::Oracle(OracleAnswer::StringByteLength(n)),
            Mark::HasKey(flag) => Answer::Oracle(OracleAnswer::HasKey(flag)),
            Mark::Names(names) => Answer::Oracle(OracleAnswer::MemberNames(names)),
            Mark::Mismatch(kind) => Answer::TypeMismatch { actual: kind },
        }
    }

    /// The answers marks stand for.
    pub fn answers(&self, marks: Vec<Mark>) -> (r: Vec<Answer<'src>>)
        ensures
            answers_model(r@) == answers_of(
                self.source@,
                crate::walk::marks::marks_model(marks@),
                self.strict,
                self.dialect,
                facts_model(self.facts@),
                self.all_facts,
            ),
            r@.len() == marks@.len(),
    {
        let ghost given = marks@;
        let ghost named = answers_of(
            self.source@,
            crate::walk::marks::marks_model(given),
            self.strict,
            self.dialect,
            facts_model(self.facts@),
            self.all_facts,
        );
        let mut marks: Vec<Mark> = marks;
        let mut out: Vec<Answer<'src>> = Vec::new();
        let mut i: usize = 0;
        while i < marks.len()
            invariant
                i <= marks@.len(),
                marks@.len() == given.len(),
                out@.len() == i,
                named == answers_of(
                    self.source@,
                    crate::walk::marks::marks_model(given),
                    self.strict,
                    self.dialect,
                    facts_model(self.facts@),
                    self.all_facts,
                ),
                forall|k: int| i <= k < given.len() ==> #[trigger] marks@[k] == given[k],
                forall|k: int| 0 <= k < i ==> (#[trigger] out@[k])@ == named[k],
            decreases marks@.len() - i,
        {
            let mut mark: Mark = Mark::Missing;
            core::mem::swap(&mut mark, &mut marks[i]);
            assert(mark == given[i as int]);
            out.push(self.answer(mark));
            i = i + 1;
        }
        assert(answers_model(out@) =~= named);
        out
    }
}

/// A per-record refusal a stream scan recovered from.
#[derive(Clone, Copy, Debug, PartialEq, Eq, Structural)]
pub struct Issue {
    /// What was refused.
    pub error: Error,
}

/// What a scan produced: one answer per demand, and the refusals it recovered from.
#[derive(Debug, PartialEq, Eq)]
pub struct ScanResult<'src> {
    /// One answer per demand.
    pub answers: Vec<Answer<'src>>,
    /// Recovered refusals.
    pub issues: Vec<Issue>,
}

} // verus!
