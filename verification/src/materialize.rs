//! Materialize an answer to a read value.
//!
//! Missing is an error, not null.

use vstd::prelude::*;

use crate::answer::{Answer, AnswerModel, Document};
use crate::dialect::Dialect;
use crate::error::{at, Error, ErrorKind};
use crate::framing::{strip_bom, text_start};
use crate::tape::{built_columns, built_span, sound, tree, value_at, Builder, Node, Room};
use crate::value::{json, ByteRange, Json, Value};

verus! {

/// Artifact a materialize call produces.
#[derive(Clone, Copy, Debug, PartialEq, Eq, Structural)]
#[non_exhaustive]
pub enum Form {
    /// Zero-copy source-backed arena. The default.
    Borrowed,
    /// Arena whose payloads are copied into document-owned storage.
    Owned,
    /// Owned mutable tree, produced from the source-backed view on demand.
    Value,
}

impl Default for Form {
    fn default() -> (r: Self)
        ensures
            r == Form::Borrowed,
    {
        Form::Borrowed
    }
}

/// Options for [`materialize`] and [`parse`]: the dialect and the artifact [`Form`].
#[derive(Clone, Copy, Debug, PartialEq, Eq, Structural)]
#[non_exhaustive]
pub struct MaterializeOptions {
    /// Grammar the answer is read under.
    pub dialect: Dialect,
    /// Artifact form to produce.
    pub form: Form,
}

impl MaterializeOptions {
    /// Options reading `dialect` and producing `form`.
    #[must_use]
    pub fn new(dialect: Dialect, form: Form) -> (r: Self)
        ensures
            r == (MaterializeOptions { dialect, form }),
    {
        MaterializeOptions { dialect, form }
    }

    /// These options reading `dialect`.
    #[must_use]
    pub fn with_dialect(self, dialect: Dialect) -> (r: Self)
        ensures
            r == (MaterializeOptions { dialect, ..self }),
    {
        MaterializeOptions { dialect, ..self }
    }

    /// These options producing `form`.
    #[must_use]
    pub fn with_form(self, form: Form) -> (r: Self)
        ensures
            r == (MaterializeOptions { form, ..self }),
    {
        MaterializeOptions { form, ..self }
    }
}

impl Default for MaterializeOptions {
    fn default() -> (r: Self)
        ensures
            r == (MaterializeOptions { dialect: Dialect::Rfc8259, form: Form::Borrowed }),
    {
        MaterializeOptions { dialect: Dialect::Rfc8259, form: Form::Borrowed }
    }
}

/// A source-backed arena: payloads are source slices, what no slice spells is
/// spilled.
#[derive(Debug, PartialEq, Eq)]
pub struct BorrowedDocument<'src> {
    source: &'src [u8],
    spill: Vec<u8>,
    nodes: Vec<Node>,
    edges: Vec<u32>,
    root: u32,
}

impl<'src> BorrowedDocument<'src> {
    /// Arenas are always what a build makes.
    #[verifier::type_invariant]
    spec fn built(self) -> bool {
        &&& sound(self.nodes@, self.edges@, self.source@ + self.spill@, self.source@.len() as int)
        &&& self.root < self.nodes@.len()
    }

    /// The value this document holds.
    pub closed spec fn tree(self) -> Json {
        tree(self.nodes@, self.edges@, self.source@ + self.spill@, self.root as int)
    }

    /// The value as an owned mutable tree.
    #[must_use]
    pub fn to_value(&self) -> (r: Value)
        ensures
            json(r) == self.tree(),
    {
        proof {
            use_type_invariant(self);
        }
        value_at(self.source, self.spill.as_slice(), &self.nodes, &self.edges, self.root)
    }
}

/// An arena whose payloads are copied into document-owned storage.
#[derive(Debug, PartialEq, Eq)]
pub struct OwnedDocument {
    data: Vec<u8>,
    nodes: Vec<Node>,
    edges: Vec<u32>,
    root: u32,
}

impl OwnedDocument {
    /// Arenas are always what a build makes.
    #[verifier::type_invariant]
    spec fn built(self) -> bool {
        &&& sound(self.nodes@, self.edges@, Seq::<u8>::empty() + self.data@, 0)
        &&& self.root < self.nodes@.len()
    }

    /// The value this document holds.
    pub closed spec fn tree(self) -> Json {
        tree(self.nodes@, self.edges@, Seq::<u8>::empty() + self.data@, self.root as int)
    }

    /// The value as an owned mutable tree.
    #[must_use]
    pub fn to_value(&self) -> (r: Value)
        ensures
            json(r) == self.tree(),
    {
        proof {
            use_type_invariant(self);
        }
        let none = vstd::slice::slice_subrange(self.data.as_slice(), 0, 0);
        proof {
            assert(none@ =~= Seq::<u8>::empty());
        }
        value_at(none, self.data.as_slice(), &self.nodes, &self.edges, self.root)
    }
}

/// Artifact produced by [`materialize`]/[`parse`], selected by [`Form`].
#[derive(Debug, PartialEq, Eq)]
#[non_exhaustive]
pub enum Materialized<'src> {
    /// Source-backed arena view ([`Form::Borrowed`]).
    Borrowed(BorrowedDocument<'src>),
    /// Owned arena ([`Form::Owned`]).
    Owned(OwnedDocument),
    /// Owned mutable tree ([`Form::Value`]).
    Value(Value),
}

impl<'src> Materialized<'src> {
    /// The value this artifact holds.
    pub open spec fn tree(self) -> Json {
        match self {
            Materialized::Borrowed(document) => document.tree(),
            Materialized::Owned(document) => document.tree(),
            Materialized::Value(value) => json(value),
        }
    }

    /// The form of this artifact.
    pub open spec fn form(self) -> Form {
        match self {
            Materialized::Borrowed(_) => Form::Borrowed,
            Materialized::Owned(_) => Form::Owned,
            Materialized::Value(_) => Form::Value,
        }
    }

    /// Consume any form as an owned [`Value`].
    #[must_use]
    pub fn into_value(self) -> (r: Value)
        ensures
            json(r) == self.tree(),
    {
        match self {
            Materialized::Value(value) => value,
            Materialized::Borrowed(document) => document.to_value(),
            Materialized::Owned(document) => document.to_value(),
        }
    }
}

/// Room in empty arenas over a source.
pub open spec fn empty_room(src: Seq<u8>, slices: bool) -> Room {
    Room {
        nodes: 0,
        edges: 0,
        data: if slices {
            src.len() as int
        } else {
            0
        },
    }
}

/// A value without its room.
pub open spec fn value_only(read: Result<(Json, Room), Error>) -> Result<Json, Error> {
    match read {
        Err(error) => Err(error),
        Ok((j, _)) => Ok(j),
    }
}

/// The value of an answer. An oracle, a missing value and a type mismatch are
/// not values.
pub open spec fn materialized(answer: AnswerModel, dialect: Dialect, form: Form) -> Result<Json, Error> {
    let slices = form != Form::Owned;
    match answer {
        AnswerModel::Document(d) => value_only(
            built_span(d.source, d.root, dialect, slices, empty_room(d.source, slices)),
        ),
        AnswerModel::Columns(src, batch) => value_only(
            built_columns(src, batch, dialect, slices, empty_room(src, slices)),
        ),
        AnswerModel::Missing => Err(at(ErrorKind::MissingIsNotAValue, 0)),
        AnswerModel::Mismatch(_) => Err(at(ErrorKind::MismatchIsNotAValue, 0)),
        _ => Err(at(ErrorKind::OracleIsNotAValue, 0)),
    }
}

fn fill<'src>(answer: &Answer<'src>, dialect: Dialect, slices: bool) -> (r: Result<(Builder<'src>, u32), Error>)
    ensures
        match materialized(
            answer@,
            dialect,
            if slices {
                Form::Borrowed
            } else {
                Form::Owned
            },
        ) {
            Ok(j) => r matches Ok((builder, root)) && builder.wf() && builder.slicing() == slices && root < builder.count()
                && builder.value(root as int) == j,
            Err(error) => r is Err && r->Err_0 == error,
        },
{
    match answer {
        Answer::Document(document) => {
            let mut builder = Builder::new(document.source(), dialect, slices);
            let root: u32 = builder.span(document.root())?;
            Ok((builder, root))
        },
        Answer::Columns(columns) => {
            let mut builder = Builder::new(columns.source(), dialect, slices);
            let root: u32 = builder.columns(columns)?;
            Ok((builder, root))
        },
        Answer::Oracle(_) => Err(Error::new(ErrorKind::OracleIsNotAValue, 0)),
        Answer::Missing => Err(Error::new(ErrorKind::MissingIsNotAValue, 0)),
        Answer::TypeMismatch { .. } => Err(Error::new(ErrorKind::MismatchIsNotAValue, 0)),
    }
}

/// Materialize `answer` under `opts`. The source comes from the answer itself,
/// so the spans cannot be read against different bytes.
///
/// # Errors
///
/// Grammar, value-level checks a lazy scan deferred, an answer that is not a
/// value, a JSON5 number with no exact representation, or an arena past 32-bit
/// ids.
pub fn materialize<'src>(answer: &Answer<'src>, opts: MaterializeOptions) -> (r: Result<Materialized<'src>, Error>)
    ensures
        match materialized(answer@, opts.dialect, opts.form) {
            Ok(j) => r matches Ok(artifact) && artifact.tree() == j && artifact.form() == opts.form,
            Err(error) => r is Err && r->Err_0 == error,
        },
{
    match opts.form {
        Form::Owned => {
            let (builder, root) = fill(answer, opts.dialect, false)?;
            let (kept, data, nodes, edges) = builder.finish();
            proof {
                assert(kept@ =~= Seq::<u8>::empty());
            }
            Ok(Materialized::Owned(OwnedDocument { data, nodes, edges, root }))
        },
        Form::Borrowed => {
            let (builder, root) = fill(answer, opts.dialect, true)?;
            let (source, spill, nodes, edges) = builder.finish();
            Ok(Materialized::Borrowed(BorrowedDocument { source, spill, nodes, edges, root }))
        },
        Form::Value => {
            let (builder, root) = fill(answer, opts.dialect, true)?;
            let (source, spill, nodes, edges) = builder.finish();
            Ok(Materialized::Value(value_at(source, spill.as_slice(), &nodes, &edges, root)))
        },
    }
}

/// The value of a whole text, past its byte order mark.
pub open spec fn parsed(src: Seq<u8>, dialect: Dialect, form: Form) -> Result<Json, Error> {
    let slices = form != Form::Owned;
    let span = ByteRange { start: text_start(src) as usize, end: src.len() as usize };
    value_only(built_span(src, span, dialect, slices, empty_room(src, slices)))
}

/// Parse one text value under `opts`. Always value-checks.
///
/// # Errors
///
/// Grammar, trailing content, a JSON5 number with no exact representation, or
/// an arena past 32-bit ids.
pub fn parse(src: &[u8], opts: MaterializeOptions) -> (r: Result<Materialized<'_>, Error>)
    ensures
        match parsed(src@, opts.dialect, opts.form) {
            Ok(j) => r matches Ok(artifact) && artifact.tree() == j && artifact.form() == opts.form,
            Err(error) => r is Err && r->Err_0 == error,
        },
{
    let start: usize = strip_bom(src);
    let span = ByteRange { start, end: src.len() };
    let answer = Answer::Document(Document::from_span(src, span));
    materialize(&answer, opts)
}

} // verus!
