//! What a request asks of a document: demands, paths, windows and predicates.

use vstd::prelude::*;

use crate::text::{bytes_of, copy_names, names_of};
use crate::value::{json, Json, Value};

verus! {

/// Semantic dial of a scan.
#[derive(Clone, Copy, Debug, PartialEq, Eq, Structural)]
pub enum Strictness {
    /// Value-check every byte.
    Strict,
    /// Value-check what is demanded, locate the rest.
    Structure,
    /// Locate everything.
    Lazy,
}

/// One step of a path.
#[derive(Clone, Debug, PartialEq, Eq)]
pub enum Step {
    /// An object member.
    Key(String),
    /// An array element; a negative index counts from the end.
    Index(i64),
}

/// [`Step`] over byte sequences.
pub enum StepModel {
    /// An object member.
    Key(Seq<u8>),
    /// An array element.
    Index(i64),
}

/// What a step is.
pub open spec fn step_model(step: Step) -> StepModel {
    match step {
        Step::Key(name) => StepModel::Key(bytes_of(name)),
        Step::Index(i) => StepModel::Index(i),
    }
}

/// What several steps are.
pub open spec fn steps_model(steps: Seq<Step>) -> Seq<StepModel> {
    steps.map_values(|s: Step| step_model(s))
}

impl Step {
    /// A member step.
    #[must_use]
    pub fn key(name: &str) -> (r: Step)
        ensures
            step_model(r) == StepModel::Key(vstd::utf8::encode_utf8(name@)),
    {
        Step::Key(name.to_owned())
    }

    /// An element step.
    #[must_use]
    pub fn index(index: i64) -> (r: Step)
        ensures
            r == Step::Index(index),
    {
        Step::Index(index)
    }
}

/// A path from a document's root.
#[derive(Clone, Debug, PartialEq, Eq)]
pub struct Path {
    /// Steps, outermost first.
    pub steps: Vec<Step>,
}

impl Path {
    /// The empty path.
    #[must_use]
    pub fn root() -> (r: Path)
        ensures
            r.steps@.len() == 0,
    {
        Path { steps: Vec::new() }
    }

    /// The path of one member step.
    #[must_use]
    pub fn key(name: &str) -> (r: Path)
        ensures
            steps_model(r.steps@) == seq![StepModel::Key(vstd::utf8::encode_utf8(name@))],
    {
        let mut steps: Vec<Step> = Vec::new();
        steps.push(Step::key(name));
        assert(steps_model(steps@) =~= seq![StepModel::Key(vstd::utf8::encode_utf8(name@))]);
        Path { steps }
    }
}

/// A window of array elements; a missing bound is open and a negative one
/// counts from the end.
#[derive(Clone, Copy, Debug, PartialEq, Eq, Structural)]
pub struct Range {
    /// First element.
    pub start: Option<i64>,
    /// One past the last element.
    pub end: Option<i64>,
}

/// A bound among `len` elements, clamped to them.
pub open spec fn clamped(bound: int, len: int) -> int {
    if bound < 0 {
        if len + bound < 0 {
            0
        } else {
            len + bound
        }
    } else if bound > len {
        len
    } else {
        bound
    }
}

impl Range {
    /// First element of the window among `len` elements.
    pub open spec fn from(self, len: int) -> int {
        match self.start {
            Some(i) => clamped(i as int, len),
            None => 0,
        }
    }

    /// One past the last element of the window among `len` elements.
    pub open spec fn to(self, len: int) -> int {
        let end = match self.end {
            Some(i) => clamped(i as int, len),
            None => len,
        };
        if end < self.from(len) {
            self.from(len)
        } else {
            end
        }
    }

    /// The window's element positions among `len` elements.
    #[must_use]
    pub fn window(&self, len: usize) -> (r: (usize, usize))
        ensures
            r.0 == self.from(len as int),
            r.1 == self.to(len as int),
            r.0 <= r.1 <= len,
    {
        let from: usize = match self.start {
            Some(i) => clamp_bound(i, len),
            None => 0,
        };
        let end: usize = match self.end {
            Some(i) => clamp_bound(i, len),
            None => len,
        };
        if end < from {
            (from, from)
        } else {
            (from, end)
        }
    }
}

fn clamp_bound(bound: i64, len: usize) -> (r: usize)
    ensures
        r == clamped(bound as int, len as int),
        r <= len,
{
    let at: i128 = if bound < 0 {
        len as i128 + bound as i128
    } else {
        bound as i128
    };
    if at < 0 {
        0
    } else if at > len as i128 {
        len
    } else {
        at as usize
    }
}

/// A row condition.
#[derive(Debug, PartialEq, Eq)]
pub enum Predicate {
    /// The field equals the value.
    Eq {
        /// Member name.
        field: String,
        /// Operand.
        value: Value,
    },
    /// The field is absent or differs from the value.
    Ne {
        /// Member name.
        field: String,
        /// Operand.
        value: Value,
    },
    /// The field orders above the value.
    Gt {
        /// Member name.
        field: String,
        /// Operand.
        value: Value,
    },
    /// The field orders below the value.
    Lt {
        /// Member name.
        field: String,
        /// Operand.
        value: Value,
    },
    /// The field orders at or above the value.
    Ge {
        /// Member name.
        field: String,
        /// Operand.
        value: Value,
    },
    /// The field orders at or below the value.
    Le {
        /// Member name.
        field: String,
        /// Operand.
        value: Value,
    },
    /// Both hold.
    And(Box<Predicate>, Box<Predicate>),
    /// One holds.
    Or(Box<Predicate>, Box<Predicate>),
    /// It does not hold.
    Not(Box<Predicate>),
}

/// An ordering a predicate asks for.
#[derive(Clone, Copy, Debug, PartialEq, Eq, Structural)]
pub enum Asks {
    /// Above.
    Gt,
    /// Below.
    Lt,
    /// At or above.
    Ge,
    /// At or below.
    Le,
}

/// [`Predicate`] over sequences.
pub enum PredicateModel {
    /// The field equals the value.
    Eq(Seq<u8>, Json),
    /// The field is absent or differs from the value.
    Ne(Seq<u8>, Json),
    /// The field orders against the value.
    Order(Seq<u8>, Asks, Json),
    /// Both hold.
    And(Box<PredicateModel>, Box<PredicateModel>),
    /// One holds.
    Or(Box<PredicateModel>, Box<PredicateModel>),
    /// It does not hold.
    Not(Box<PredicateModel>),
}

/// What a predicate is.
pub open spec fn predicate_model(p: Predicate) -> PredicateModel
    decreases p,
{
    match p {
        Predicate::Eq { field, value } => PredicateModel::Eq(bytes_of(field), json(value)),
        Predicate::Ne { field, value } => PredicateModel::Ne(bytes_of(field), json(value)),
        Predicate::Gt { field, value } => PredicateModel::Order(bytes_of(field), Asks::Gt, json(value)),
        Predicate::Lt { field, value } => PredicateModel::Order(bytes_of(field), Asks::Lt, json(value)),
        Predicate::Ge { field, value } => PredicateModel::Order(bytes_of(field), Asks::Ge, json(value)),
        Predicate::Le { field, value } => PredicateModel::Order(bytes_of(field), Asks::Le, json(value)),
        Predicate::And(a, b) => PredicateModel::And(Box::new(predicate_model(*a)), Box::new(predicate_model(*b))),
        Predicate::Or(a, b) => PredicateModel::Or(Box::new(predicate_model(*a)), Box::new(predicate_model(*b))),
        Predicate::Not(a) => PredicateModel::Not(Box::new(predicate_model(*a))),
    }
}

/// A question the walk answers without materializing a value.
#[derive(Clone, Debug, PartialEq, Eq)]
pub enum Oracle {
    /// Kind of the value.
    Kind,
    /// Elements of an array or distinct members of an object.
    Count,
    /// Nodes of the subtree, itself included.
    DescendCount,
    /// Decoded UTF-8 length of a string.
    StringByteLength,
    /// Whether an object has the member.
    HasKey {
        /// Member name.
        key: String,
    },
    /// Distinct member names of an object.
    MemberNames,
    /// Distinct members of an object.
    MemberCount,
}

/// [`Oracle`] over byte sequences.
pub enum OracleModel {
    /// Kind of the value.
    Kind,
    /// Elements of an array or distinct members of an object.
    Count,
    /// Nodes of the subtree, itself included.
    DescendCount,
    /// Decoded UTF-8 length of a string.
    StringByteLength,
    /// Whether an object has the member.
    HasKey(Seq<u8>),
    /// Distinct member names of an object.
    MemberNames,
    /// Distinct members of an object.
    MemberCount,
}

/// What an oracle is.
pub open spec fn oracle_model(o: Oracle) -> OracleModel {
    match o {
        Oracle::Kind => OracleModel::Kind,
        Oracle::Count => OracleModel::Count,
        Oracle::DescendCount => OracleModel::DescendCount,
        Oracle::StringByteLength => OracleModel::StringByteLength,
        Oracle::HasKey { key } => OracleModel::HasKey(bytes_of(key)),
        Oracle::MemberNames => OracleModel::MemberNames,
        Oracle::MemberCount => OracleModel::MemberCount,
    }
}

/// One unit of demanded work.
#[derive(Debug, PartialEq, Eq)]
pub enum Demand {
    /// The whole value.
    Whole,
    /// The value a path leads to, then what `nested` asks of it.
    Path {
        /// Steps to follow.
        steps: Vec<Step>,
        /// What to ask there; the whole value when absent.
        nested: Option<Box<Demand>>,
    },
    /// Every element of an array.
    Collection {
        /// Member names to project.
        fields: Option<Vec<String>>,
        /// What to ask of each element.
        nested: Option<Box<Demand>>,
    },
    /// A window of an array's elements.
    Slice {
        /// The window.
        range: Range,
        /// What to ask of each element.
        nested: Option<Box<Demand>>,
    },
    /// Named members of each object of the array a path leads to.
    Project {
        /// Where the array is.
        path: Path,
        /// Member names.
        fields: Vec<String>,
    },
    /// The objects of an array that a condition holds for.
    Filter {
        /// Where the array is.
        path: Path,
        /// The condition.
        predicate: Predicate,
        /// Member names to project; the whole object when empty.
        project: Vec<String>,
    },
    /// A question the walk answers.
    Oracle(Oracle),
}

impl Demand {
    /// The whole value a path leads to.
    #[must_use]
    pub fn path(steps: Vec<Step>) -> (r: Demand)
        ensures
            demand_model(r) == (DemandModel::Path { steps: steps_model(steps@), nested: None }),
    {
        Demand::Path { steps, nested: None }
    }
}

/// [`Demand`] over sequences.
pub enum DemandModel {
    /// The whole value.
    Whole,
    /// The value a path leads to.
    Path {
        /// Steps to follow.
        steps: Seq<StepModel>,
        /// What to ask there.
        nested: Option<Box<DemandModel>>,
    },
    /// Every element of an array.
    Collection {
        /// Member names to project.
        keys: Option<Seq<Seq<u8>>>,
        /// What to ask of each element.
        nested: Option<Box<DemandModel>>,
    },
    /// A window of an array's elements.
    Slice {
        /// The window.
        range: Range,
        /// What to ask of each element.
        nested: Option<Box<DemandModel>>,
    },
    /// Named members of each object.
    Project {
        /// Where the array is.
        path: Seq<StepModel>,
        /// Member names.
        fields: Seq<Seq<u8>>,
    },
    /// The objects a condition holds for.
    Filter {
        /// Where the array is.
        path: Seq<StepModel>,
        /// The condition.
        predicate: PredicateModel,
        /// Member names to project.
        project: Seq<Seq<u8>>,
    },
    /// A question the walk answers.
    Oracle(OracleModel),
}

/// What a nested demand is.
pub open spec fn nested_model(nested: Option<Box<Demand>>) -> Option<Box<DemandModel>>
    decreases nested,
{
    match nested {
        Some(d) => Some(Box::new(demand_model(*d))),
        None => None,
    }
}

/// What a demand is.
pub open spec fn demand_model(d: Demand) -> DemandModel
    decreases d,
{
    match d {
        Demand::Whole => DemandModel::Whole,
        Demand::Path { steps, nested } => DemandModel::Path {
            steps: steps_model(steps@),
            nested: nested_model(nested),
        },
        Demand::Collection { fields, nested } => DemandModel::Collection {
            keys: match fields {
                Some(names) => Some(names_of(names@)),
                None => None,
            },
            nested: nested_model(nested),
        },
        Demand::Slice { range, nested } => DemandModel::Slice { range, nested: nested_model(nested) },
        Demand::Project { path, fields } => DemandModel::Project {
            path: steps_model(path.steps@),
            fields: names_of(fields@),
        },
        Demand::Filter { path, predicate, project } => DemandModel::Filter {
            path: steps_model(path.steps@),
            predicate: predicate_model(predicate),
            project: names_of(project@),
        },
        Demand::Oracle(o) => DemandModel::Oracle(oracle_model(o)),
    }
}

/// What several demands are.
pub open spec fn demands_model(demands: Seq<Demand>) -> Seq<DemandModel> {
    demands.map_values(|d: Demand| demand_model(d))
}

/// What a nested demand asks: the whole value when nothing is nested.
pub open spec fn nested_or_whole(nested: Option<Box<DemandModel>>) -> DemandModel {
    match nested {
        Some(d) => *d,
        None => DemandModel::Whole,
    }
}

/// A spent path is what it nests, to a fixed point.
pub open spec fn flattened(d: DemandModel) -> DemandModel
    decreases d,
{
    match d {
        DemandModel::Path { steps, nested } => if steps.len() == 0 {
            match nested {
                Some(inner) => flattened(*inner),
                None => DemandModel::Whole,
            }
        } else {
            d
        },
        _ => d,
    }
}

/// A borrowed demand with the steps already taken dropped.
#[derive(Clone, Copy)]
pub enum Lens<'a> {
    /// The whole value.
    Whole,
    /// The value a path leads to.
    Path {
        /// Steps to follow.
        steps: &'a [Step],
        /// What to ask there.
        nested: Option<&'a Demand>,
    },
    /// Every element of an array.
    Collection {
        /// Member names to project.
        keys: Option<&'a [String]>,
        /// What to ask of each element.
        nested: Option<&'a Demand>,
    },
    /// A window of an array's elements.
    Slice {
        /// The window.
        range: Range,
        /// What to ask of each element.
        nested: Option<&'a Demand>,
    },
    /// Named members of each object.
    Project {
        /// Where the array is.
        path: &'a [Step],
        /// Member names.
        fields: &'a [String],
    },
    /// The objects a condition holds for.
    Filter {
        /// Where the array is.
        path: &'a [Step],
        /// The condition.
        predicate: &'a Predicate,
        /// Member names to project.
        project: &'a [String],
    },
    /// A question the walk answers.
    Oracle(&'a Oracle),
}

/// What a borrowed nested demand is.
pub open spec fn borrowed_nested(nested: Option<&Demand>) -> Option<Box<DemandModel>> {
    match nested {
        Some(d) => Some(Box::new(demand_model(*d))),
        None => None,
    }
}

impl<'a> Lens<'a> {
    /// What this lens is.
    pub open spec fn model(self) -> DemandModel {
        match self {
            Lens::Whole => DemandModel::Whole,
            Lens::Path { steps, nested } => DemandModel::Path {
                steps: steps_model(steps@),
                nested: borrowed_nested(nested),
            },
            Lens::Collection { keys, nested } => DemandModel::Collection {
                keys: match keys {
                    Some(names) => Some(names_of(names@)),
                    None => None,
                },
                nested: borrowed_nested(nested),
            },
            Lens::Slice { range, nested } => DemandModel::Slice { range, nested: borrowed_nested(nested) },
            Lens::Project { path, fields } => DemandModel::Project {
                path: steps_model(path@),
                fields: names_of(fields@),
            },
            Lens::Filter { path, predicate, project } => DemandModel::Filter {
                path: steps_model(path@),
                predicate: predicate_model(*predicate),
                project: names_of(project@),
            },
            Lens::Oracle(o) => DemandModel::Oracle(oracle_model(*o)),
        }
    }

    /// The lens of a demand.
    pub fn from_demand(demand: &'a Demand) -> (r: Lens<'a>)
        ensures
            r.model() == demand_model(*demand),
    {
        match demand {
            Demand::Whole => Lens::Whole,
            Demand::Path { steps, nested } => Lens::Path { steps: steps.as_slice(), nested: borrow_nested(nested) },
            Demand::Collection { fields, nested } => Lens::Collection {
                keys: match fields {
                    Some(names) => Some(names.as_slice()),
                    None => None,
                },
                nested: borrow_nested(nested),
            },
            Demand::Slice { range, nested } => Lens::Slice { range: *range, nested: borrow_nested(nested) },
            Demand::Project { path, fields } => Lens::Project {
                path: path.steps.as_slice(),
                fields: fields.as_slice(),
            },
            Demand::Filter { path, predicate, project } => Lens::Filter {
                path: path.steps.as_slice(),
                predicate,
                project: project.as_slice(),
            },
            Demand::Oracle(o) => Lens::Oracle(o),
        }
    }

    /// The lens of a nested demand; the whole value when nothing is nested.
    pub fn from_nested(nested: Option<&'a Demand>) -> (r: Lens<'a>)
        ensures
            r.model() == nested_or_whole(borrowed_nested(nested)),
    {
        match nested {
            Some(d) => Lens::from_demand(d),
            None => Lens::Whole,
        }
    }

    /// A spent path is what it nests, to a fixed point.
    pub fn flatten(self) -> (r: Lens<'a>)
        ensures
            r.model() == flattened(self.model()),
    {
        match self {
            Lens::Path { steps, nested } => {
                if steps.len() == 0 {
                    match nested {
                        Some(d) => flatten_demand(d),
                        None => Lens::Whole,
                    }
                } else {
                    self
                }
            },
            _ => self,
        }
    }
}

fn flatten_demand<'a>(demand: &'a Demand) -> (r: Lens<'a>)
    ensures
        r.model() == flattened(demand_model(*demand)),
    decreases *demand,
{
    match demand {
        Demand::Path { steps, nested } => {
            if steps.len() == 0 {
                match nested {
                    Some(inner) => flatten_demand(inner),
                    None => Lens::Whole,
                }
            } else {
                Lens::from_demand(demand)
            }
        },
        _ => Lens::from_demand(demand),
    }
}

fn borrow_nested<'a>(nested: &'a Option<Box<Demand>>) -> (r: Option<&'a Demand>)
    ensures
        borrowed_nested(r) == nested_model(*nested),
{
    match nested {
        Some(d) => Some(&**d),
        None => None,
    }
}

/// What several lenses are.
pub open spec fn lenses_model(lenses: Seq<Lens>) -> Seq<DemandModel> {
    lenses.map_values(|v: Lens| v.model())
}

/// The lenses of several demands.
pub fn lenses_of<'a>(demands: &'a [Demand]) -> (r: Vec<Lens<'a>>)
    ensures
        lenses_model(r@) == demands_model(demands@),
{
    let mut out: Vec<Lens<'a>> = Vec::new();
    let mut i: usize = 0;
    while i < demands.len()
        invariant
            i <= demands@.len(),
            out@.len() == i,
            forall|k: int| 0 <= k < i ==> (#[trigger] out@[k]).model() == demand_model(demands@[k]),
        decreases demands@.len() - i,
    {
        out.push(Lens::from_demand(&demands[i]));
        i = i + 1;
    }
    assert(lenses_model(out@) =~= demands_model(demands@));
    out
}


/// The first `n` steps of a path.
pub(crate) fn copy_steps(steps: &Vec<Step>, n: usize) -> (r: Vec<Step>)
    requires
        n <= steps@.len(),
    ensures
        steps_model(r@) == steps_model(steps@).take(n as int),
{
    let mut out: Vec<Step> = Vec::new();
    let mut i: usize = 0;
    while i < n
        invariant
            i <= n <= steps@.len(),
            steps_model(out@) == steps_model(steps@).take(i as int),
        decreases n - i,
    {
        let ghost before = out@;
        let step = match &steps[i] {
            Step::Key(name) => Step::Key(name.clone()),
            Step::Index(index) => Step::Index(*index),
        };
        out.push(step);
        proof {
            assert(step_model(step) == step_model(steps@[i as int]));
            assert(steps_model(out@) =~= steps_model(before).push(step_model(step)));
            assert(steps_model(steps@).take(i + 1) =~= steps_model(steps@).take(i as int).push(
                step_model(steps@[i as int]),
            ));
        }
        i += 1;
    }
    proof {
        assert(steps_model(out@) =~= steps_model(steps@).take(n as int));
    }
    out
}

impl Predicate {
    /// The same condition.
    pub fn copied(&self) -> (r: Predicate)
        ensures
            predicate_model(r) == predicate_model(*self),
        decreases *self,
    {
        match self {
            Predicate::Eq { field, value } => Predicate::Eq { field: field.clone(), value: value.copied() },
            Predicate::Ne { field, value } => Predicate::Ne { field: field.clone(), value: value.copied() },
            Predicate::Gt { field, value } => Predicate::Gt { field: field.clone(), value: value.copied() },
            Predicate::Lt { field, value } => Predicate::Lt { field: field.clone(), value: value.copied() },
            Predicate::Ge { field, value } => Predicate::Ge { field: field.clone(), value: value.copied() },
            Predicate::Le { field, value } => Predicate::Le { field: field.clone(), value: value.copied() },
            Predicate::And(a, b) => Predicate::And(Box::new(a.copied()), Box::new(b.copied())),
            Predicate::Or(a, b) => Predicate::Or(Box::new(a.copied()), Box::new(b.copied())),
            Predicate::Not(a) => Predicate::Not(Box::new(a.copied())),
        }
    }
}

impl Clone for Predicate {
    fn clone(&self) -> (r: Self)
        ensures
            predicate_model(r) == predicate_model(*self),
    {
        self.copied()
    }
}

impl Path {
    fn copied(&self) -> (r: Path)
        ensures
            steps_model(r.steps@) == steps_model(self.steps@),
    {
        let steps = copy_steps(&self.steps, self.steps.len());
        proof {
            let model = steps_model(self.steps@);
            assert(model.take(model.len() as int) =~= model);
        }
        Path { steps }
    }
}

impl Oracle {
    fn copied(&self) -> (r: Oracle)
        ensures
            oracle_model(r) == oracle_model(*self),
    {
        match self {
            Oracle::Kind => Oracle::Kind,
            Oracle::Count => Oracle::Count,
            Oracle::DescendCount => Oracle::DescendCount,
            Oracle::StringByteLength => Oracle::StringByteLength,
            Oracle::HasKey { key } => Oracle::HasKey { key: key.clone() },
            Oracle::MemberNames => Oracle::MemberNames,
            Oracle::MemberCount => Oracle::MemberCount,
        }
    }
}

fn copy_nested(nested: &Option<Box<Demand>>) -> (r: Option<Box<Demand>>)
    ensures
        nested_model(r) == nested_model(*nested),
    decreases *nested,
{
    match nested {
        Some(d) => Some(Box::new(d.copied())),
        None => None,
    }
}

impl Demand {
    /// The same demand.
    pub fn copied(&self) -> (r: Demand)
        ensures
            demand_model(r) == demand_model(*self),
        decreases *self,
    {
        match self {
            Demand::Whole => Demand::Whole,
            Demand::Path { steps, nested } => {
                let copy = copy_steps(steps, steps.len());
                proof {
                    let model = steps_model(steps@);
                    assert(model.take(model.len() as int) =~= model);
                }
                Demand::Path { steps: copy, nested: copy_nested(nested) }
            },
            Demand::Collection { fields, nested } => Demand::Collection {
                fields: match fields {
                    Some(names) => Some(copy_names(names.as_slice())),
                    None => None,
                },
                nested: copy_nested(nested),
            },
            Demand::Slice { range, nested } => Demand::Slice { range: *range, nested: copy_nested(nested) },
            Demand::Project { path, fields } => Demand::Project {
                path: path.copied(),
                fields: copy_names(fields.as_slice()),
            },
            Demand::Filter { path, predicate, project } => Demand::Filter {
                path: path.copied(),
                predicate: predicate.copied(),
                project: copy_names(project.as_slice()),
            },
            Demand::Oracle(oracle) => Demand::Oracle(oracle.copied()),
        }
    }
}

impl Clone for Demand {
    fn clone(&self) -> (r: Self)
        ensures
            demand_model(r) == demand_model(*self),
    {
        self.copied()
    }
}

/// The same demands.
pub fn copy_demands(demands: &[Demand]) -> (r: Vec<Demand>)
    ensures
        demands_model(r@) == demands_model(demands@),
{
    let mut out: Vec<Demand> = Vec::new();
    let mut i: usize = 0;
    while i < demands.len()
        invariant
            i <= demands@.len(),
            out@.len() == i,
            forall|k: int| 0 <= k < i ==> demand_model(#[trigger] out@[k]) == demand_model(demands@[k]),
        decreases demands@.len() - i,
    {
        out.push(demands[i].copied());
        i += 1;
    }
    proof {
        assert(demands_model(out@) =~= demands_model(demands@));
    }
    out
}

} // verus!
