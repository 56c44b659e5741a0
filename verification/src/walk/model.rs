//! What one walk answers: the marks a set of demands gets from the value at a
//! position, and where the walk ends.
//!
//! Every demand at a node is a hit. A container hands each child the hits that
//! reach it; what no hit reaches is skipped under the strictness dial.

use vstd::prelude::*;

use crate::ascii::{LBRACE, RBRACE, RBRACKET};
use crate::demand::{flattened, nested_or_whole, DemandModel, OracleModel, StepModel, Strictness};
use crate::dialect::Dialect;
use crate::error::{at, Error, ErrorKind};
use crate::lex::key_text;
use crate::lex::skip::{after_colon, next_at, scalar, starts_number, value, value_end, Check, Ctx, NextAt};
use crate::lex::string::{opens_string, string_text};
use crate::lex::ws::trivia_end;
use crate::value::{resolved, span, ByteRange, ValueKind};
use crate::walk::marks::{
    absent_row, folded, retained, row_fields, row_shape, BatchModel, MarkModel, Shape,
};
use crate::walk::member::{inserted, lookup, names_in, object_cells, wanted};

verus! {

/// What a walk reads under.
#[derive(Clone, Copy, Debug, PartialEq, Eq, Structural)]
pub struct WalkCtx {
    /// Semantic dial.
    pub strictness: Strictness,
    /// Nesting bound.
    pub max: u32,
    /// Grammar.
    pub dialect: Dialect,
}

impl WalkCtx {
    /// Check of a region nothing demands.
    pub open spec fn unread(self) -> Check {
        match self.strictness {
            Strictness::Strict => Check::Values,
            _ => Check::Locate,
        }
    }

    /// Check of a demanded region.
    pub open spec fn demanded(self) -> Check {
        match self.strictness {
            Strictness::Lazy => Check::Locate,
            _ => Check::Values,
        }
    }

    /// The skip context of a check.
    pub open spec fn under(self, check: Check) -> Ctx {
        Ctx { check, max: self.max, dialect: self.dialect }
    }
}

/// Where a node stands.
#[derive(Clone, Copy, Debug, PartialEq, Eq, Structural)]
pub struct Env {
    /// The node is an element of an array that is being mapped.
    pub element: bool,
    /// Every demand of the request is a hit here and no repetition encloses
    /// the node, so a bounded window may end the whole walk.
    pub may_stop: bool,
    /// The node is a stream record whose flat row demands read one object.
    pub lane: bool,
}

/// What a walk left.
pub struct Walked {
    /// Where the walk ended.
    pub end: int,
    /// Whether a bounded window ended the whole walk.
    pub stopped: bool,
    /// One mark per hit.
    pub marks: Seq<MarkModel>,
}

/// Kind of the value that starts with `byte`.
pub open spec fn kind_at(byte: u8, dialect: Dialect) -> Option<ValueKind> {
    if byte == 0x6e {
        Some(ValueKind::Null)
    } else if byte == 0x74 || byte == 0x66 {
        Some(ValueKind::Bool)
    } else if starts_number(byte, dialect) {
        Some(ValueKind::Number)
    } else if opens_string(byte, dialect) {
        Some(ValueKind::String)
    } else if byte == 0x5b {
        Some(ValueKind::Array)
    } else if byte == LBRACE {
        Some(ValueKind::Object)
    } else {
        None
    }
}

/// The hits that are there, in order.
pub open spec fn kept(opts: Seq<Option<DemandModel>>) -> Seq<DemandModel>
    decreases opts.len(),
{
    if opts.len() == 0 {
        Seq::empty()
    } else {
        match opts.last() {
            Some(d) => kept(opts.drop_last()).push(d),
            None => kept(opts.drop_last()),
        }
    }
}

/// How many hits are there before position `i`.
pub open spec fn rank(opts: Seq<Option<DemandModel>>, i: int) -> int {
    kept(opts.take(i)).len() as int
}

/// Each hit with spent paths unwrapped.
pub open spec fn flat(hits: Seq<DemandModel>) -> Seq<DemandModel> {
    hits.map_values(|h: DemandModel| flattened(h))
}

/// Whether a hit is a row demand on the node itself.
pub open spec fn flat_row(h: DemandModel) -> bool {
    match h {
        DemandModel::Project { path, fields } => path.len() == 0,
        DemandModel::Filter { path, predicate, project } => path.len() == 0,
        _ => false,
    }
}

/// Whether every hit is a row demand on the node itself.
pub open spec fn all_rows(hits: Seq<DemandModel>) -> bool {
    forall|i: int| 0 <= i < hits.len() ==> flat_row(#[trigger] hits[i])
}

/// Whether some hit wants the whole value.
pub open spec fn wants_whole(hits: Seq<DemandModel>) -> bool {
    exists|i: int| 0 <= i < hits.len() && #[trigger] hits[i] is Whole
}

/// Whether a hit is answered inside the container.
pub open spec fn needs_container(h: DemandModel) -> bool {
    match h {
        DemandModel::Path { steps, nested } => steps.len() > 0,
        DemandModel::Whole => false,
        DemandModel::Oracle(o) => o is HasKey || o is MemberNames || o is MemberCount,
        _ => true,
    }
}

/// Whether the walk enters the container: some hit is answered inside it, or
/// the distinct members of an object are counted.
pub open spec fn enters(hits: Seq<DemandModel>, kind: ValueKind) -> bool {
    exists|i: int|
        0 <= i < hits.len() && (needs_container(#[trigger] hits[i]) || (kind == ValueKind::Object && hits[i]
            == DemandModel::Oracle(OracleModel::Count)))
}

/// Whether every hit is an oracle or the whole value.
pub open spec fn only_located(hits: Seq<DemandModel>) -> bool {
    forall|i: int| 0 <= i < hits.len() ==> (#[trigger] hits[i] is Oracle || hits[i] is Whole)
}

/// A count of the container itself.
pub open spec fn is_count(h: DemandModel) -> bool {
    h == DemandModel::Oracle(OracleModel::Count) || h == DemandModel::Oracle(OracleModel::DescendCount)
}

/// Whether an element array is one value to all its hits: none leads into it or maps it.
pub open spec fn one_element(hits: Seq<DemandModel>) -> bool {
    forall|i: int| 0 <= i < hits.len() ==> !(#[trigger] hits[i] is Path || hits[i] is Collection || hits[i] is Slice)
}

/// Whether a hit takes an element array as one row: it answers from the array's kind,
/// whatever stands beside it.
pub open spec fn takes_row(h: DemandModel) -> bool {
    h is Project || h is Filter
}

/// A hit as it stands at an array: an element array is no object, so a hit that takes it
/// as one row is set aside for one on its members, which enters no element.
pub open spec fn set_aside(h: DemandModel, env: Env) -> DemandModel {
    if env.element && takes_row(h) {
        DemandModel::Oracle(OracleModel::MemberCount)
    } else {
        h
    }
}

/// The hits as they stand at an array.
pub open spec fn beside(hits: Seq<DemandModel>, env: Env) -> Seq<DemandModel> {
    hits.map_values(|h: DemandModel| set_aside(h, env))
}

/// The marks of the hits as they stand at an array.
pub open spec fn beside_marks(hits: Seq<DemandModel>, answered: Seq<MarkModel>, env: Env) -> Seq<MarkModel> {
    Seq::new(
        answered.len(),
        |i: int|
            if env.element && takes_row(hits[i]) {
                MarkModel::Mismatch(ValueKind::Array)
            } else {
                answered[i]
            },
    )
}

/// Number of elements of an array from `pos` to its closer, and where that is.
pub open spec fn element_count(b: Seq<u8>, pos: int, ctx: Ctx, depth: int, n: nat) -> Result<(int, nat), Error>
    decreases b.len() - pos,
{
    match next_at(b, pos, ctx.dialect, RBRACKET, n == 0) {
        Err(error) => Err(error),
        Ok(NextAt::Close(e)) => Ok((e, n)),
        Ok(NextAt::Item(p)) => match value_end(b, p, ctx, depth) {
            Err(error) => Err(error),
            Ok(e) => if pos <= p < e <= b.len() {
                element_count(b, e, ctx, depth, n + 1)
            } else {
                Ok((e, n))
            },
        },
    }
}

/// One oracle's mark at the value at `start`, and the end it located on the way.
#[verifier::opaque]
pub open spec fn oracle_mark(
    b: Seq<u8>,
    start: int,
    kind: ValueKind,
    o: OracleModel,
    entering: bool,
    ctx: WalkCtx,
    depth: int,
) -> Result<(MarkModel, Option<int>), Error> {
    match o {
        OracleModel::Kind => Ok((MarkModel::Kind(kind), None)),
        OracleModel::Count => if kind == ValueKind::Array || kind == ValueKind::Object {
            if entering {
                Ok((MarkModel::Missing, None))
            } else if depth >= ctx.max {
                Err(at(ErrorKind::Limit, start))
            } else {
                match element_count(b, start + 1, ctx.under(ctx.unread()), depth + 1, 0) {
                    Err(error) => Err(error),
                    Ok((e, n)) => Ok((MarkModel::Count(n as int), Some(e))),
                }
            }
        } else {
            Ok((MarkModel::Mismatch(kind), None))
        },
        OracleModel::DescendCount => match value(b, start, ctx.under(ctx.demanded()), 0) {
            Err(error) => Err(error),
            Ok((e, n)) => Ok((MarkModel::Count(n as int), Some(e))),
        },
        OracleModel::StringByteLength => if kind == ValueKind::String {
            match string_text(b, start, ctx.dialect) {
                Err(error) => Err(error),
                Ok((e, text)) => Ok((MarkModel::Length(text.len() as int), None)),
            }
        } else {
            Ok((MarkModel::Mismatch(kind), None))
        },
        _ => if kind == ValueKind::Object {
            Ok((MarkModel::Missing, None))
        } else {
            Ok((MarkModel::Mismatch(kind), None))
        },
    }
}

/// The marks of the first `n` hits' oracles, and the end the last of them located.
pub open spec fn oracles(
    b: Seq<u8>,
    start: int,
    kind: ValueKind,
    hits: Seq<DemandModel>,
    n: nat,
    entering: bool,
    ctx: WalkCtx,
    depth: int,
) -> Result<(Seq<MarkModel>, int), Error>
    decreases n,
{
    if n == 0 {
        Ok((Seq::empty(), start))
    } else {
        match oracles(b, start, kind, hits, (n - 1) as nat, entering, ctx, depth) {
            Err(error) => Err(error),
            Ok((marks, reach)) => match hits[n - 1] {
                DemandModel::Oracle(o) => match oracle_mark(b, start, kind, o, entering, ctx, depth) {
                    Err(error) => Err(error),
                    Ok((mark, end)) => Ok(
                        (
                            marks.push(mark),
                            match end {
                                Some(e) => e,
                                None => reach,
                            },
                        ),
                    ),
                },
                _ => Ok((marks.push(MarkModel::Missing), reach)),
            },
        }
    }
}

/// The marks of a value that is one span to every hit.
pub open spec fn terminal_marks(
    hits: Seq<DemandModel>,
    answered: Seq<MarkModel>,
    start: int,
    end: int,
    kind: ValueKind,
) -> Seq<MarkModel> {
    Seq::new(
        hits.len(),
        |i: int|
            match hits[i] {
                DemandModel::Whole => MarkModel::Span(span(start, end)),
                DemandModel::Oracle(_) => answered[i],
                _ => MarkModel::Mismatch(kind),
            },
    )
}

/// The hit an array element at `index` gets from an array's hit.
pub open spec fn enter_array(h: DemandModel, index: int) -> Option<DemandModel> {
    match h {
        DemandModel::Collection { keys, nested } => match nested {
            Some(d) => Some(*d),
            None => match keys {
                Some(names) => Some(DemandModel::Project { path: Seq::empty(), fields: names }),
                None => None,
            },
        },
        DemandModel::Slice { range, nested } => Some(nested_or_whole(nested)),
        DemandModel::Project { path, fields } => if path.len() == 0 {
            Some(h)
        } else if path[0] matches StepModel::Index(i) && i == index {
            Some(DemandModel::Project { path: path.skip(1), fields })
        } else {
            None
        },
        DemandModel::Filter { path, predicate, project } => if path.len() == 0 {
            Some(h)
        } else if path[0] matches StepModel::Index(i) && i == index {
            Some(DemandModel::Filter { path: path.skip(1), predicate, project })
        } else {
            None
        },
        DemandModel::Path { steps, nested } => if steps.len() > 0 && (steps[0] matches StepModel::Index(i) && i
            == index) {
            Some(after_step(steps, nested))
        } else {
            None
        },
        _ => None,
    }
}

/// What a path asks after its first step.
pub open spec fn after_step(steps: Seq<StepModel>, nested: Option<Box<DemandModel>>) -> DemandModel {
    if steps.len() == 1 {
        nested_or_whole(nested)
    } else {
        DemandModel::Path { steps: steps.skip(1), nested }
    }
}

/// The hit the value of the member `name` gets from an object's hit.
pub open spec fn enter_object(h: DemandModel, name: Seq<u8>) -> Option<DemandModel> {
    match h {
        DemandModel::Path { steps, nested } => if steps.len() > 0 && steps[0] == StepModel::Key(name) {
            Some(after_step(steps, nested))
        } else {
            None
        },
        DemandModel::Project { path, fields } => if path.len() > 0 && path[0] == StepModel::Key(name) {
            Some(DemandModel::Project { path: path.skip(1), fields })
        } else {
            None
        },
        DemandModel::Filter { path, predicate, project } => if path.len() > 0 && path[0] == StepModel::Key(name) {
            Some(DemandModel::Filter { path: path.skip(1), predicate, project })
        } else {
            None
        },
        _ => None,
    }
}

/// The hits of each array hit's element.
pub open spec fn array_hits(hits: Seq<DemandModel>, index: int) -> Seq<Option<DemandModel>> {
    hits.map_values(|h: DemandModel| enter_array(h, index))
}

/// The hits of each object hit's member value.
pub open spec fn object_hits(hits: Seq<DemandModel>, name: Seq<u8>) -> Seq<Option<DemandModel>> {
    hits.map_values(|h: DemandModel| enter_object(h, name))
}

/// Whether a path starts at a negative index.
pub open spec fn from_end(path: Seq<StepModel>) -> bool {
    path.len() > 0 && (path[0] matches StepModel::Index(i) && i < 0)
}

/// Whether a slice's rows are rebuilt from its windowed elements: its elements
/// do not contribute exactly one row each.
pub open spec fn slice_replays(h: DemandModel) -> bool {
    match h {
        DemandModel::Slice { range, nested } => match flattened(nested_or_whole(nested)) {
            DemandModel::Whole => false,
            DemandModel::Project { path, fields } => path.len() > 0,
            _ => true,
        },
        _ => false,
    }
}

/// Whether a hit is answered from an array's element spans.
pub open spec fn needs_spans(h: DemandModel) -> bool {
    match h {
        DemandModel::Path { steps, nested } => from_end(steps),
        DemandModel::Project { path, fields } => from_end(path),
        DemandModel::Filter { path, predicate, project } => from_end(path),
        _ => slice_replays(h),
    }
}

/// Whether an array's element spans are kept for its hits.
pub open spec fn keeps_spans(hits: Seq<DemandModel>) -> bool {
    exists|i: int| 0 <= i < hits.len() && needs_spans(#[trigger] hits[i])
}

/// The element spans a hit is answered from.
pub open spec fn spans_for(h: DemandModel, spans: Seq<ByteRange>) -> Seq<ByteRange> {
    if needs_spans(h) {
        spans
    } else {
        Seq::empty()
    }
}

/// The elements a window needs, when it does not need the array's length.
pub open spec fn bounded_end(h: DemandModel) -> Option<int> {
    match h {
        DemandModel::Slice { range, nested } => match range.end {
            Some(e) => if e < 0 || (range.start is Some && range.start->0 < 0) {
                None
            } else {
                Some(e as int)
            },
            None => None,
        },
        _ => None,
    }
}

/// The elements every hit's window needs, when all are bounded.
pub open spec fn prefix_window(hits: Seq<DemandModel>) -> Option<int>
    decreases hits.len(),
{
    if hits.len() == 0 {
        None
    } else {
        match bounded_end(hits.last()) {
            None => None,
            Some(e) => if hits.len() == 1 {
                Some(e)
            } else {
                match prefix_window(hits.drop_last()) {
                    None => None,
                    Some(m) => Some(
                        if m > e {
                            m
                        } else {
                            e
                        },
                    ),
                }
            },
        }
    }
}

/// A value no hit reaches.
pub open spec fn passed(b: Seq<u8>, pos: int, check: Check, ctx: WalkCtx, depth: int) -> Result<Walked, Error> {
    match value_end(b, pos, ctx.under(check), depth) {
        Err(error) => Err(error),
        Ok(e) => Ok(Walked { end: e, stopped: false, marks: Seq::empty() }),
    }
}

/// An element loop's state.
pub struct ArrayState {
    /// Cursor.
    pub pos: int,
    /// Elements walked.
    pub idx: int,
    /// Their spans.
    pub spans: Seq<ByteRange>,
    /// One mark per hit.
    pub marks: Seq<MarkModel>,
    /// Whether a bounded window ended the whole walk.
    pub stopped: bool,
}

/// A member loop's state.
pub struct MemberState {
    /// Cursor.
    pub pos: int,
    /// Whether no member was walked yet.
    pub first: bool,
    /// One mark per hit.
    pub marks: Seq<MarkModel>,
    /// Last-wins members the hits read.
    pub members: Seq<(Seq<u8>, ByteRange)>,
    /// Whether a bounded window ended the whole walk.
    pub stopped: bool,
}

/// A row loop's state.
pub struct RowState {
    /// Cursor.
    pub pos: int,
    /// Whether no item was walked yet.
    pub first: bool,
    /// Cells per hit.
    pub cells: Seq<Seq<crate::walk::marks::ColumnCell>>,
}

/// The marks an element loop starts from: an empty batch per row hit.
pub open spec fn opened(hits: Seq<DemandModel>, answered: Seq<MarkModel>) -> Seq<MarkModel> {
    Seq::new(
        hits.len(),
        |i: int|
            match row_shape(hits[i]) {
                Some(shape) => MarkModel::Rows(BatchModel { fields: row_fields(shape), cells: Seq::empty() }),
                None => answered[i],
            },
    )
}

/// The batch of a mark that is rows.
pub open spec fn batch_of(m: MarkModel) -> BatchModel {
    m->Rows_0
}

/// The mark hit `i` gets from a child: what the child left for it, or nothing.
pub open spec fn child_mark(opts: Seq<Option<DemandModel>>, marks: Seq<MarkModel>, i: int) -> MarkModel {
    if opts[i] is Some {
        marks[rank(opts, i)]
    } else {
        MarkModel::Missing
    }
}

/// An element loop's marks after one more element.
pub open spec fn element_marks(
    hits: Seq<DemandModel>,
    marks: Seq<MarkModel>,
    opts: Seq<Option<DemandModel>>,
    left: Seq<MarkModel>,
    elem: ByteRange,
) -> Seq<MarkModel> {
    Seq::new(
        hits.len(),
        |i: int|
            match row_shape(hits[i]) {
                Some(shape) => MarkModel::Rows(
                    folded(batch_of(marks[i]), shape, child_mark(opts, left, i), elem),
                ),
                None => if opts[i] is Some {
                    left[rank(opts, i)]
                } else {
                    marks[i]
                },
            },
    )
}

/// A member loop's marks after one more member: the last value of a name wins.
pub open spec fn member_marks(
    hits: Seq<DemandModel>,
    marks: Seq<MarkModel>,
    opts: Seq<Option<DemandModel>>,
    left: Seq<MarkModel>,
) -> Seq<MarkModel> {
    Seq::new(
        hits.len(),
        |i: int|
            if opts[i] is Some {
                left[rank(opts, i)]
            } else {
                marks[i]
            },
    )
}

/// Whether a hit needs every member of an object.
pub open spec fn collects_all(hits: Seq<DemandModel>) -> bool {
    exists|i: int|
        0 <= i < hits.len() && (#[trigger] hits[i] matches DemandModel::Oracle(o) && (o is HasKey || o is MemberNames
            || o is MemberCount || o is Count))
}

/// Whether an object's members are kept for its hits.
pub open spec fn keeps_members(hits: Seq<DemandModel>) -> bool {
    exists|i: int| 0 <= i < hits.len() && (flat_row(#[trigger] hits[i]) || hits[i] is Oracle)
}

/// A member loop's members after one more member.
pub open spec fn kept_members(
    hits: Seq<DemandModel>,
    members: Seq<(Seq<u8>, ByteRange)>,
    name: Seq<u8>,
    value: ByteRange,
) -> Seq<(Seq<u8>, ByteRange)> {
    if keeps_members(hits) && (collects_all(hits) || wanted(hits, name)) {
        inserted(members, name, value)
    } else {
        members
    }
}

/// The node past the trivia at `pos`.
pub open spec fn node(b: Seq<u8>, pos: int, hits: Seq<DemandModel>, ctx: WalkCtx, depth: int, env: Env) -> Result<
    Walked,
    Error,
>
    decreases b.len() - pos, 6nat, 0nat,
{
    match trivia_end(b, pos, ctx.dialect) {
        Err(error) => Err(error),
        Ok(start) => if !(pos <= start < b.len()) {
            Err(at(ErrorKind::ExpectedValue, start))
        } else if hits.len() == 0 {
            passed(b, start, ctx.unread(), ctx, depth)
        } else {
            match kind_at(b[start], ctx.dialect) {
                None => Err(at(ErrorKind::ExpectedValue, start)),
                Some(kind) => node_of(b, start, kind, flat(hits), ctx, depth, env),
            }
        },
    }
}

/// The node of a known kind at `start`.
pub open spec fn node_of(
    b: Seq<u8>,
    start: int,
    kind: ValueKind,
    hits: Seq<DemandModel>,
    ctx: WalkCtx,
    depth: int,
    env: Env,
) -> Result<Walked, Error>
    decreases b.len() - start, 5nat, 0nat,
{
    match oracles(b, start, kind, hits, hits.len(), enters(hits, kind), ctx, depth) {
        Err(error) => Err(error),
        Ok((answered, reach)) => if !enters(hits, kind) && only_located(hits) {
            located(b, start, kind, hits, answered, reach, ctx, depth)
        } else if kind == ValueKind::Array && env.element && one_element(hits) {
            element_array(b, start, hits, ctx, depth)
        } else if kind == ValueKind::Array {
            array(b, start, beside(hits, env), beside_marks(hits, answered, env), ctx, depth, env)
        } else if kind == ValueKind::Object {
            object(b, start, hits, answered, ctx, depth, env)
        } else {
            match scalar(b, start, ctx.demanded(), ctx.dialect) {
                Err(error) => Err(error),
                Ok(e) => Ok(
                    Walked { end: e, stopped: false, marks: terminal_marks(hits, answered, start, e, kind) },
                ),
            }
        },
    }
}

/// A value only located: oracles and whole-value hits. The end an oracle
/// already located is reused when this skip would read no more than it did.
#[verifier::opaque]
pub open spec fn located(
    b: Seq<u8>,
    start: int,
    kind: ValueKind,
    hits: Seq<DemandModel>,
    answered: Seq<MarkModel>,
    reach: int,
    ctx: WalkCtx,
    depth: int,
) -> Result<Walked, Error> {
    let check = if wants_whole(hits) {
        ctx.demanded()
    } else {
        ctx.unread()
    };
    let end = if reach > start && check == ctx.unread() {
        Ok(reach)
    } else {
        value_end(b, start, ctx.under(check), depth)
    };
    match end {
        Err(error) => Err(error),
        Ok(e) => Ok(Walked { end: e, stopped: false, marks: terminal_marks(hits, answered, start, e, kind) }),
    }
}

/// An array that is one element value to all its hits.
#[verifier::opaque]
pub open spec fn element_array(b: Seq<u8>, start: int, hits: Seq<DemandModel>, ctx: WalkCtx, depth: int) -> Result<
    Walked,
    Error,
> {
    match value_end(b, start, ctx.under(ctx.demanded()), depth) {
        Err(error) => Err(error),
        Ok(e) => match oracles(b, start, ValueKind::Array, hits, hits.len(), false, ctx, depth) {
            Err(error) => Err(error),
            Ok((answered, _)) => Ok(
                Walked {
                    end: e,
                    stopped: false,
                    marks: terminal_marks(hits, answered, start, e, ValueKind::Array),
                },
            ),
        },
    }
}

/// A container's child at `pos`: walked by the hits that reach it, or skipped.
/// A whole-value hit value-checks the children it covers.
pub open spec fn child(
    b: Seq<u8>,
    pos: int,
    reaching: Seq<DemandModel>,
    hits: Seq<DemandModel>,
    ctx: WalkCtx,
    depth: int,
    env: Env,
) -> Result<Walked, Error>
    decreases b.len() - pos, 7nat, 0nat,
{
    if reaching.len() > 0 {
        node(b, pos, reaching, ctx, depth, env)
    } else if wants_whole(hits) {
        passed(b, pos, ctx.demanded(), ctx, depth)
    } else {
        passed(b, pos, ctx.unread(), ctx, depth)
    }
}

/// The array at `start`.
pub open spec fn array(
    b: Seq<u8>,
    start: int,
    hits: Seq<DemandModel>,
    answered: Seq<MarkModel>,
    ctx: WalkCtx,
    depth: int,
    env: Env,
) -> Result<Walked, Error>
    decreases b.len() - start, 4nat, 0nat,
{
    if depth >= ctx.max {
        Err(at(ErrorKind::Limit, start))
    } else if start >= b.len() {
        Err(at(ErrorKind::ExpectedValue, start))
    } else if all_rows(hits) {
        match rows(b, RowState { pos: start + 1, first: true, cells: no_cells(hits.len()) }, hits, ctx, depth + 1) {
            Err(error) => Err(error),
            Ok(st) => Ok(Walked { end: st.pos, stopped: false, marks: row_marks(hits, st.cells) }),
        }
    } else {
        let prefix = if env.may_stop {
            prefix_window(hits)
        } else {
            None
        };
        let first = ArrayState {
            pos: start + 1,
            idx: 0,
            spans: Seq::empty(),
            marks: opened(hits, answered),
            stopped: false,
        };
        match elements(b, first, hits, ctx, depth + 1, prefix) {
            Err(error) => Err(error),
            Ok(st) => match finish_array(b, start, hits, hits.len(), st, ctx, depth, env) {
                Err(error) => Err(error),
                Ok(marks) => Ok(Walked { end: st.pos, stopped: st.stopped, marks }),
            },
        }
    }
}

/// The element loop: from a state to the state at the closer, or at the end of
/// a bounded prefix.
pub open spec fn elements(
    b: Seq<u8>,
    st: ArrayState,
    hits: Seq<DemandModel>,
    ctx: WalkCtx,
    depth: int,
    prefix: Option<int>,
) -> Result<ArrayState, Error>
    decreases b.len() - st.pos, 8nat, 0nat,
{
    if prefix is Some && st.idx >= prefix->0 {
        Ok(ArrayState { stopped: true, ..st })
    } else {
        match next_at(b, st.pos, ctx.dialect, RBRACKET, st.idx == 0) {
            Err(error) => Err(error),
            Ok(NextAt::Close(e)) => Ok(ArrayState { pos: e, ..st }),
            Ok(NextAt::Item(p)) => {
                let opts = array_hits(hits, st.idx);
                if st.pos <= p <= b.len() {
                    match child(b, p, kept(opts), hits, ctx, depth, element_env()) {
                        Err(error) => Err(error),
                        Ok(w) => if p < w.end <= b.len() {
                            elements(b, next_element(st, hits, opts, w, p), hits, ctx, depth, prefix)
                        } else {
                            Ok(st)
                        },
                    }
                } else {
                    Ok(st)
                }
            },
        }
    }
}

/// Where an element stands.
pub open spec fn element_env() -> Env {
    Env { element: true, may_stop: false, lane: false }
}

/// The element loop's state after the element at `p`.
pub open spec fn next_element(
    st: ArrayState,
    hits: Seq<DemandModel>,
    opts: Seq<Option<DemandModel>>,
    w: Walked,
    p: int,
) -> ArrayState {
    ArrayState {
        pos: w.end,
        idx: st.idx + 1,
        spans: st.spans.push(span(p, w.end)),
        marks: element_marks(hits, st.marks, opts, w.marks, span(p, w.end)),
        stopped: false,
    }
}

/// The marks of the first `n` hits once an array's elements were walked.
pub open spec fn finish_array(
    b: Seq<u8>,
    start: int,
    hits: Seq<DemandModel>,
    n: nat,
    st: ArrayState,
    ctx: WalkCtx,
    depth: int,
    env: Env,
) -> Result<Seq<MarkModel>, Error>
    decreases b.len() - start, 3nat, n,
{
    if n == 0 {
        Ok(Seq::empty())
    } else {
        match finish_array(b, start, hits, (n - 1) as nat, st, ctx, depth, env) {
            Err(error) => Err(error),
            Ok(done) => {
                let spans = spans_for(hits[n - 1], st.spans);
                match array_mark(b, start, hits[n - 1], st.marks[n - 1], spans, st, ctx, depth, env) {
                    Err(error) => Err(error),
                    Ok(mark) => Ok(done.push(mark)),
                }
            },
        }
    }
}

/// One hit's mark once an array's elements were walked.
pub open spec fn array_mark(
    b: Seq<u8>,
    start: int,
    h: DemandModel,
    mark: MarkModel,
    spans: Seq<ByteRange>,
    st: ArrayState,
    ctx: WalkCtx,
    depth: int,
    env: Env,
) -> Result<MarkModel, Error>
    decreases b.len() - start, 2nat, 0nat,
{
    match h {
        DemandModel::Whole => Ok(MarkModel::Span(span(start, st.pos))),
        DemandModel::Path { steps, nested } => if !(mark is Missing) || steps.len() == 0 {
            Ok(mark)
        } else {
            match steps[0] {
                StepModel::Key(_) => Ok(MarkModel::Mismatch(ValueKind::Array)),
                StepModel::Index(i) => match resolved(st.idx, i as int) {
                    Some(k) => if k < spans.len() {
                        replay(b, start, spans[k], after_step(steps, nested), ctx, depth, env.element)
                    } else {
                        Ok(MarkModel::Missing)
                    },
                    None => Ok(MarkModel::Missing),
                },
            }
        },
        DemandModel::Collection { keys, nested } => Ok(mark),
        DemandModel::Slice { range, nested } => if slice_replays(h) {
            let shape = row_shape(h)->0;
            let empty = BatchModel { fields: row_fields(shape), cells: Seq::empty() };
            replay_window(
                b,
                start,
                spans,
                range.from(st.idx),
                range.to(st.idx),
                nested_or_whole(nested),
                shape,
                empty,
                ctx,
                depth,
            )
        } else {
            Ok(MarkModel::Rows(retained(batch_of(mark), range.from(st.idx), range.to(st.idx))))
        },
        DemandModel::Project { path, fields } => if path.len() > 0 && (mark is Missing || mark is Mismatch) {
            index_spine(
                b,
                start,
                path,
                DemandModel::Project { path: path.skip(1), fields },
                mark,
                spans,
                st.idx,
                ctx,
                depth,
                env,
            )
        } else {
            Ok(mark)
        },
        DemandModel::Filter { path, predicate, project } => if path.len() > 0 && (mark is Missing
            || mark is Mismatch) {
            index_spine(
                b,
                start,
                path,
                DemandModel::Filter { path: path.skip(1), predicate, project },
                mark,
                spans,
                st.idx,
                ctx,
                depth,
                env,
            )
        } else {
            Ok(mark)
        },
        DemandModel::Oracle(o) => if o is Count {
            Ok(MarkModel::Count(st.idx))
        } else {
            Ok(mark)
        },
    }
}

/// One element walked again for one hit.
pub open spec fn replay(
    b: Seq<u8>,
    start: int,
    elem: ByteRange,
    h: DemandModel,
    ctx: WalkCtx,
    depth: int,
    element: bool,
) -> Result<MarkModel, Error>
    decreases b.len() - start, 0nat, 0nat,
{
    if start < elem.start <= b.len() {
        match node(b, elem.start as int, seq![h], ctx, depth, Env { element, may_stop: false, lane: false }) {
            Err(error) => Err(error),
            Ok(w) => Ok(w.marks[0]),
        }
    } else {
        Ok(MarkModel::Missing)
    }
}

/// The elements `[i, to)` walked again and folded into rows.
pub open spec fn replay_window(
    b: Seq<u8>,
    start: int,
    spans: Seq<ByteRange>,
    i: int,
    to: int,
    h: DemandModel,
    shape: Shape,
    acc: BatchModel,
    ctx: WalkCtx,
    depth: int,
) -> Result<MarkModel, Error>
    decreases b.len() - start, 1nat, to - i,
{
    if 0 <= i < to && i < spans.len() {
        match replay(b, start, spans[i], h, ctx, depth, true) {
            Err(error) => Err(error),
            Ok(mark) => replay_window(
                b,
                start,
                spans,
                i + 1,
                to,
                h,
                shape,
                folded(acc, shape, mark, spans[i]),
                ctx,
                depth,
            ),
        }
    } else {
        Ok(MarkModel::Rows(acc))
    }
}

/// The one-row answer of a row demand on one selected element: an absent row
/// for a projection, no row for a filter.
pub open spec fn flat_index_row(h: DemandModel) -> MarkModel {
    match h {
        DemandModel::Project { path, fields } => MarkModel::Rows(
            BatchModel { fields, cells: absent_row(fields.len()) },
        ),
        DemandModel::Filter { path, predicate, project } => MarkModel::Rows(
            BatchModel { fields: row_fields(Shape::Filtered(project)), cells: Seq::empty() },
        ),
        _ => MarkModel::Missing,
    }
}

/// The answer of a row demand whose path starts at an index the element loop
/// left open.
pub open spec fn index_spine(
    b: Seq<u8>,
    start: int,
    path: Seq<StepModel>,
    inner: DemandModel,
    mark: MarkModel,
    spans: Seq<ByteRange>,
    len: int,
    ctx: WalkCtx,
    depth: int,
    env: Env,
) -> Result<MarkModel, Error>
    decreases b.len() - start, 1nat, 0nat,
{
    match path[0] {
        StepModel::Key(_) => Ok(MarkModel::Mismatch(ValueKind::Array)),
        StepModel::Index(i) => match resolved(len, i as int) {
            None => Ok(MarkModel::Missing),
            Some(k) => if path.len() == 1 {
                let again = if k < spans.len() {
                    replay(b, start, spans[k], inner, ctx, depth, true)
                } else {
                    Ok(mark)
                };
                match again {
                    Err(error) => Err(error),
                    Ok(m) => if m is Rows {
                        Ok(m)
                    } else {
                        Ok(flat_index_row(inner))
                    },
                }
            } else if k < spans.len() {
                replay(b, start, spans[k], inner, ctx, depth, env.element)
            } else {
                Ok(MarkModel::Missing)
            },
        },
    }
}

/// The object at `start`.
pub open spec fn object(
    b: Seq<u8>,
    start: int,
    hits: Seq<DemandModel>,
    answered: Seq<MarkModel>,
    ctx: WalkCtx,
    depth: int,
    env: Env,
) -> Result<Walked, Error>
    decreases b.len() - start, 4nat, 0nat,
{
    if env.lane && all_rows(hits) {
        match row_object(b, start, hits, ctx, depth) {
            Err(error) => Err(error),
            Ok((e, members)) => Ok(
                Walked {
                    end: e,
                    stopped: false,
                    marks: row_marks(hits, object_rows(b, hits, members, span(start, e), ctx.dialect)),
                },
            ),
        }
    } else if depth >= ctx.max {
        Err(at(ErrorKind::Limit, start))
    } else if start >= b.len() {
        Err(at(ErrorKind::ExpectedValue, start))
    } else {
        let first = MemberState {
            pos: start + 1,
            first: true,
            marks: answered,
            members: Seq::empty(),
            stopped: false,
        };
        match members(b, first, hits, ctx, depth + 1, env) {
            Err(error) => Err(error),
            Ok(st) => Ok(
                Walked {
                    end: st.pos,
                    stopped: st.stopped,
                    marks: finish_object(b, start, hits, st, ctx.dialect),
                },
            ),
        }
    }
}

/// The member loop: from a state to the state at the closer, or at a stop.
pub open spec fn members(
    b: Seq<u8>,
    st: MemberState,
    hits: Seq<DemandModel>,
    ctx: WalkCtx,
    depth: int,
    env: Env,
) -> Result<MemberState, Error>
    decreases b.len() - st.pos, 8nat, 0nat,
{
    if st.stopped {
        Ok(st)
    } else {
        match next_at(b, st.pos, ctx.dialect, RBRACE, st.first) {
            Err(error) => Err(error),
            Ok(NextAt::Close(e)) => Ok(MemberState { pos: e, ..st }),
            Ok(NextAt::Item(p)) => match key_text(b, p, ctx.dialect) {
                Err(error) => Err(error),
                Ok((key_end, name)) => match after_colon(b, key_end, ctx.dialect) {
                    Err(error) => Err(error),
                    Ok(v) => {
                        let opts = object_hits(hits, name);
                        if st.pos < v <= b.len() {
                            match child(b, v, kept(opts), hits, ctx, depth, member_env(env, opts, hits)) {
                                Err(error) => Err(error),
                                Ok(w) => if v < w.end <= b.len() {
                                    members(b, next_member(st, hits, opts, name, w, v), hits, ctx, depth, env)
                                } else {
                                    Ok(st)
                                },
                            }
                        } else {
                            Ok(st)
                        }
                    },
                },
            },
        }
    }
}

/// Where a member's value stands: it is located, not an element, and a window
/// below it may end the walk only while every demand follows it.
pub open spec fn member_env(env: Env, opts: Seq<Option<DemandModel>>, hits: Seq<DemandModel>) -> Env {
    Env { element: false, may_stop: env.may_stop && kept(opts).len() == hits.len(), lane: false }
}

/// The member loop's state after the member whose value is at `v`.
pub open spec fn next_member(
    st: MemberState,
    hits: Seq<DemandModel>,
    opts: Seq<Option<DemandModel>>,
    name: Seq<u8>,
    w: Walked,
    v: int,
) -> MemberState {
    MemberState {
        pos: w.end,
        first: false,
        marks: member_marks(hits, st.marks, opts, w.marks),
        members: kept_members(hits, st.members, name, span(v, w.end)),
        stopped: w.stopped,
    }
}

/// The marks of an object's hits once its members were walked.
pub open spec fn finish_object(
    b: Seq<u8>,
    start: int,
    hits: Seq<DemandModel>,
    st: MemberState,
    dialect: Dialect,
) -> Seq<MarkModel> {
    Seq::new(hits.len(), |i: int| object_mark(b, start, hits[i], st.marks[i], st, dialect))
}

/// One hit's mark once an object's members were walked.
pub open spec fn object_mark(
    b: Seq<u8>,
    start: int,
    h: DemandModel,
    mark: MarkModel,
    st: MemberState,
    dialect: Dialect,
) -> MarkModel {
    match h {
        DemandModel::Whole => MarkModel::Span(span(start, st.pos)),
        DemandModel::Path { steps, nested } => key_spine(steps, mark),
        DemandModel::Collection { keys, nested } => MarkModel::Mismatch(ValueKind::Object),
        DemandModel::Slice { range, nested } => MarkModel::Mismatch(ValueKind::Object),
        DemandModel::Project { path, fields } => if path.len() == 0 {
            row_mark(h, object_cells(b, h, st.members, span(start, st.pos), dialect))
        } else {
            key_spine(path, mark)
        },
        DemandModel::Filter { path, predicate, project } => if path.len() == 0 {
            row_mark(h, object_cells(b, h, st.members, span(start, st.pos), dialect))
        } else {
            key_spine(path, mark)
        },
        DemandModel::Oracle(o) => match o {
            OracleModel::HasKey(name) => MarkModel::HasKey(lookup(st.members, name) is Some),
            OracleModel::MemberNames => MarkModel::Names(names_in(st.members)),
            OracleModel::MemberCount => MarkModel::Count(st.members.len() as int),
            OracleModel::Count => MarkModel::Count(st.members.len() as int),
            _ => mark,
        },
    }
}

/// A path's mark at an object's end: what the member it names answered, if there is one.
pub open spec fn key_spine(path: Seq<StepModel>, mark: MarkModel) -> MarkModel {
    if !(mark is Missing) || (path.len() > 0 && path[0] is Key) {
        mark
    } else {
        MarkModel::Mismatch(ValueKind::Object)
    }
}

/// No cells for any of `n` hits.
pub open spec fn no_cells(n: nat) -> Seq<Seq<crate::walk::marks::ColumnCell>> {
    Seq::new(n, |i: int| Seq::empty())
}

/// The batch a row hit's cells make.
pub open spec fn row_mark(h: DemandModel, cells: Seq<crate::walk::marks::ColumnCell>) -> MarkModel {
    MarkModel::Rows(BatchModel { fields: row_fields(row_shape(h)->0), cells })
}

/// The batches the row hits' cells make.
pub open spec fn row_marks(hits: Seq<DemandModel>, cells: Seq<Seq<crate::walk::marks::ColumnCell>>) -> Seq<MarkModel> {
    Seq::new(hits.len(), |i: int| row_mark(hits[i], cells[i]))
}

/// The cells an object contributes to each row hit.
pub open spec fn object_rows(
    b: Seq<u8>,
    hits: Seq<DemandModel>,
    members: Seq<(Seq<u8>, ByteRange)>,
    object: ByteRange,
    dialect: Dialect,
) -> Seq<Seq<crate::walk::marks::ColumnCell>> {
    hits.map_values(|h: DemandModel| object_cells(b, h, members, object, dialect))
}

/// The cells an element that is no object contributes to each row hit.
pub open spec fn other_rows(hits: Seq<DemandModel>) -> Seq<Seq<crate::walk::marks::ColumnCell>> {
    hits.map_values(
        |h: DemandModel|
            match h {
                DemandModel::Project { path, fields } => absent_row(fields.len()),
                _ => Seq::empty(),
            },
    )
}

/// More cells for each hit.
pub open spec fn appended(
    cells: Seq<Seq<crate::walk::marks::ColumnCell>>,
    more: Seq<Seq<crate::walk::marks::ColumnCell>>,
) -> Seq<Seq<crate::walk::marks::ColumnCell>> {
    Seq::new(cells.len(), |i: int| cells[i] + more[i])
}

/// The object at `start` read as one row: where it ends and the last-wins
/// members the hits touch. Touched values are demanded, the others are not.
pub open spec fn row_object(b: Seq<u8>, start: int, hits: Seq<DemandModel>, ctx: WalkCtx, depth: int) -> Result<
    (int, Seq<(Seq<u8>, ByteRange)>),
    Error,
> {
    if depth >= ctx.max {
        Err(at(ErrorKind::Limit, start))
    } else {
        row_members(b, start + 1, true, Seq::empty(), hits, ctx, depth + 1)
    }
}

/// Check of a member's value inside a row.
pub open spec fn row_check(hits: Seq<DemandModel>, name: Seq<u8>, ctx: WalkCtx) -> Check {
    if wanted(hits, name) {
        ctx.demanded()
    } else {
        ctx.unread()
    }
}

/// The member loop of a row.
pub open spec fn row_members(
    b: Seq<u8>,
    pos: int,
    first: bool,
    found: Seq<(Seq<u8>, ByteRange)>,
    hits: Seq<DemandModel>,
    ctx: WalkCtx,
    depth: int,
) -> Result<(int, Seq<(Seq<u8>, ByteRange)>), Error>
    decreases b.len() - pos,
{
    match next_at(b, pos, ctx.dialect, RBRACE, first) {
        Err(error) => Err(error),
        Ok(NextAt::Close(e)) => Ok((e, found)),
        Ok(NextAt::Item(p)) => match key_text(b, p, ctx.dialect) {
            Err(error) => Err(error),
            Ok((key_end, name)) => match after_colon(b, key_end, ctx.dialect) {
                Err(error) => Err(error),
                Ok(v) => match value_end(b, v, ctx.under(row_check(hits, name, ctx)), depth) {
                    Err(error) => Err(error),
                    Ok(e) => if pos < e <= b.len() {
                        row_members(
                            b,
                            e,
                            false,
                            if wanted(hits, name) {
                                inserted(found, name, span(v, e))
                            } else {
                                found
                            },
                            hits,
                            ctx,
                            depth,
                        )
                    } else {
                        Ok((e, found))
                    },
                },
            },
        },
    }
}

/// One element of a row loop: where it ends and the cells it contributes.
#[verifier::opaque]
pub open spec fn row_element(b: Seq<u8>, p: int, hits: Seq<DemandModel>, ctx: WalkCtx, depth: int) -> Result<
    (int, Seq<Seq<crate::walk::marks::ColumnCell>>),
    Error,
> {
    if p < b.len() && b[p] == LBRACE {
        match row_object(b, p, hits, ctx, depth) {
            Err(error) => Err(error),
            Ok((e, found)) => Ok((e, object_rows(b, hits, found, span(p, e), ctx.dialect))),
        }
    } else {
        match value_end(b, p, ctx.under(ctx.unread()), depth) {
            Err(error) => Err(error),
            Ok(e) => Ok((e, other_rows(hits))),
        }
    }
}

/// The row loop over an array's elements.
pub open spec fn rows(b: Seq<u8>, st: RowState, hits: Seq<DemandModel>, ctx: WalkCtx, depth: int) -> Result<RowState, Error>
    decreases b.len() - st.pos,
{
    match next_at(b, st.pos, ctx.dialect, RBRACKET, st.first) {
        Err(error) => Err(error),
        Ok(NextAt::Close(e)) => Ok(RowState { pos: e, ..st }),
        Ok(NextAt::Item(p)) => match row_element(b, p, hits, ctx, depth) {
            Err(error) => Err(error),
            Ok((e, more)) => if st.pos <= p < e <= b.len() {
                rows(b, RowState { pos: e, first: false, cells: appended(st.cells, more) }, hits, ctx, depth)
            } else {
                Ok(st)
            },
        },
    }
}

} // verus!
