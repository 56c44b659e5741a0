//! Which hits reach a child, and what a node's hits ask of it.

use vstd::prelude::*;

use crate::demand::{flattened, lenses_model, oracle_model, steps_model, DemandModel, Lens, Oracle, OracleModel, Step, StepModel};
use crate::text::{same_bytes, text_bytes};
use crate::value::ValueKind;
use crate::walk::marks::{marks_model, Mark};
use crate::walk::model::{
    all_rows, array_hits, bounded_end, collects_all, enter_array, enter_object, enters, flat, flat_row, beside,
    beside_marks, keeps_members, needs_spans, set_aside, keeps_spans, kept, needs_container, object_hits, one_element,
    only_located, prefix_window, rank, slice_replays, wants_whole, Env,
};

verus! {

/// One more candidate keeps its hit when it has one.
pub proof fn kept_step(opts: Seq<Option<DemandModel>>, i: int)
    requires
        0 <= i < opts.len(),
    ensures
        kept(opts.take(i + 1)) == (match opts[i] {
            Some(d) => kept(opts.take(i)).push(d),
            None => kept(opts.take(i)),
        }),
        rank(opts, i + 1) == rank(opts, i) + (if opts[i] is Some {
            1int
        } else {
            0
        }),
{
    assert(opts.take(i + 1).drop_last() =~= opts.take(i));
}

/// A hit that is there keeps its place among the kept ones.
pub proof fn rank_in_range(opts: Seq<Option<DemandModel>>, i: int)
    requires
        0 <= i < opts.len(),
        opts[i] is Some,
    ensures
        0 <= rank(opts, i) < kept(opts).len(),
    decreases opts.len() - i,
{
    kept_step(opts, i);
    rank_grows(opts, i + 1, opts.len() as int);
    assert(opts.take(opts.len() as int) =~= opts);
}

proof fn rank_grows(opts: Seq<Option<DemandModel>>, i: int, j: int)
    requires
        0 <= i <= j <= opts.len(),
    ensures
        rank(opts, i) <= rank(opts, j),
    decreases j - i,
{
    if i < j {
        kept_step(opts, i);
        rank_grows(opts, i + 1, j);
    }
}

fn steps_tail<'a>(steps: &'a [Step]) -> (r: &'a [Step])
    requires
        steps@.len() > 0,
    ensures
        r@ == steps@.skip(1),
        steps_model(r@) == steps_model(steps@).skip(1),
{
    let r: &'a [Step] = vstd::slice::slice_subrange(steps, 1, steps.len());
    assert(r@ =~= steps@.skip(1));
    assert(steps_model(r@) =~= steps_model(steps@).skip(1));
    r
}

fn first_index(steps: &[Step]) -> (r: Option<i64>)
    ensures
        match r {
            Some(i) => steps@.len() > 0 && steps_model(steps@)[0] == StepModel::Index(i),
            None => steps@.len() == 0 || !(steps_model(steps@)[0] is Index),
        },
{
    if steps.len() == 0 {
        return None;
    }
    match &steps[0] {
        Step::Index(i) => Some(*i),
        Step::Key(_) => None,
    }
}

fn index_is(steps: &[Step], index: usize) -> (r: bool)
    ensures
        r == (steps@.len() > 0 && (steps_model(steps@)[0] matches StepModel::Index(i) && i == index)),
{
    match first_index(steps) {
        Some(i) => i >= 0 && i as i128 == index as i128,
        None => false,
    }
}

fn key_is(steps: &[Step], key: &[u8]) -> (r: bool)
    ensures
        r == (steps@.len() > 0 && steps_model(steps@)[0] == StepModel::Key(key@)),
{
    if steps.len() == 0 {
        return false;
    }
    match &steps[0] {
        Step::Index(_) => false,
        Step::Key(name) => same_bytes(text_bytes(name), key),
    }
}

/// What a path asks after its first step.
pub fn step_into<'a>(steps: &'a [Step], nested: Option<&'a crate::demand::Demand>) -> (r: Lens<'a>)
    requires
        steps@.len() > 0,
    ensures
        r.model() == crate::walk::model::after_step(steps_model(steps@), crate::demand::borrowed_nested(nested)),
{
    if steps.len() == 1 {
        Lens::from_nested(nested)
    } else {
        Lens::Path { steps: steps_tail(steps), nested }
    }
}

/// The row lens after its path's first step.
pub fn row_step_into<'a>(lens: Lens<'a>) -> (r: Lens<'a>)
    requires
        lens.model() matches DemandModel::Project { path, fields } ==> path.len() > 0,
        lens.model() matches DemandModel::Filter { path, predicate, project } ==> path.len() > 0,
    ensures
        lens.model() matches DemandModel::Project { path, fields } ==> r.model() == (DemandModel::Project {
            path: path.skip(1),
            fields,
        }),
        lens.model() matches DemandModel::Filter { path, predicate, project } ==> r.model() == (DemandModel::Filter {
            path: path.skip(1),
            predicate,
            project,
        }),
{
    match lens {
        Lens::Project { path, fields } => {
            assert(steps_model(path@).len() == path@.len());
            Lens::Project { path: steps_tail(path), fields }
        },
        Lens::Filter { path, predicate, project } => {
            assert(steps_model(path@).len() == path@.len());
            Lens::Filter { path: steps_tail(path), predicate, project }
        },
        other => other,
    }
}

/// The lens an array element at `index` gets from an array's lens.
pub fn into_element<'a>(lens: Lens<'a>, index: usize) -> (r: Option<Lens<'a>>)
    ensures
        match enter_array(lens.model(), index as int) {
            Some(d) => r is Some && r->0.model() == d,
            None => r is None,
        },
{
    match lens {
        Lens::Collection { keys, nested } => match nested {
            Some(d) => Some(Lens::from_demand(d)),
            None => match keys {
                Some(names) => {
                    let empty: &'a [Step] = empty_steps();
                    Some(Lens::Project { path: empty, fields: names })
                },
                None => None,
            },
        },
        Lens::Slice { range: _, nested } => Some(Lens::from_nested(nested)),
        Lens::Project { path, fields } => {
            assert(steps_model(path@).len() == path@.len());
            if path.len() == 0 {
                Some(lens)
            } else if index_is(path, index) {
                Some(Lens::Project { path: steps_tail(path), fields })
            } else {
                None
            }
        },
        Lens::Filter { path, predicate, project } => {
            assert(steps_model(path@).len() == path@.len());
            if path.len() == 0 {
                Some(lens)
            } else if index_is(path, index) {
                Some(Lens::Filter { path: steps_tail(path), predicate, project })
            } else {
                None
            }
        },
        Lens::Path { steps, nested } => {
            assert(steps_model(steps@).len() == steps@.len());
            if index_is(steps, index) {
                Some(step_into(steps, nested))
            } else {
                None
            }
        },
        _ => None,
    }
}

fn empty_steps<'a>() -> (r: &'a [Step])
    ensures
        steps_model(r@) == Seq::<StepModel>::empty(),
{
    let r: &'a [Step] = &[];
    assert(steps_model(r@) =~= Seq::<StepModel>::empty());
    r
}

/// The lens the value of the member `key` gets from an object's lens.
pub fn into_member<'a>(lens: Lens<'a>, key: &[u8]) -> (r: Option<Lens<'a>>)
    ensures
        match enter_object(lens.model(), key@) {
            Some(d) => r is Some && r->0.model() == d,
            None => r is None,
        },
{
    match lens {
        Lens::Path { steps, nested } => {
            assert(steps_model(steps@).len() == steps@.len());
            if key_is(steps, key) {
                Some(step_into(steps, nested))
            } else {
                None
            }
        },
        Lens::Project { path, fields } => {
            assert(steps_model(path@).len() == path@.len());
            if key_is(path, key) {
                Some(Lens::Project { path: steps_tail(path), fields })
            } else {
                None
            }
        },
        Lens::Filter { path, predicate, project } => {
            assert(steps_model(path@).len() == path@.len());
            if key_is(path, key) {
                Some(Lens::Filter { path: steps_tail(path), predicate, project })
            } else {
                None
            }
        },
        _ => None,
    }
}

/// Whether `reached` says which candidates have a hit.
pub open spec fn marks_reached(reached: Seq<bool>, opts: Seq<Option<DemandModel>>) -> bool {
    reached.len() == opts.len() && forall|i: int|
        0 <= i < opts.len() ==> #[trigger] reached[i] == (opts[i] is Some)
}

/// The hits an element at `index` gets, and which array hits they come from.
pub fn element_hits<'a>(hits: &[Lens<'a>], index: usize) -> (r: (Vec<Lens<'a>>, Vec<bool>))
    ensures
        lenses_model(r.0@) == kept(array_hits(lenses_model(hits@), index as int)),
        marks_reached(r.1@, array_hits(lenses_model(hits@), index as int)),
{
    let ghost opts = array_hits(lenses_model(hits@), index as int);
    let mut out: Vec<Lens<'a>> = Vec::new();
    let mut reached: Vec<bool> = Vec::new();
    let mut i: usize = 0;
    assert(lenses_model(out@) =~= kept(opts.take(0)));
    while i < hits.len()
        invariant
            i <= hits@.len(),
            opts == array_hits(lenses_model(hits@), index as int),
            lenses_model(out@) == kept(opts.take(i as int)),
            reached@.len() == i,
            forall|k: int| 0 <= k < i ==> #[trigger] reached@[k] == (opts[k] is Some),
        decreases hits@.len() - i,
    {
        proof {
            kept_step(opts, i as int);
        }
        let ghost before = out@;
        match into_element(hits[i], index) {
            Some(lens) => {
                out.push(lens);
                reached.push(true);
                assert(lenses_model(out@) =~= lenses_model(before).push(lens.model()));
            },
            None => {
                reached.push(false);
            },
        }
        i = i + 1;
    }
    assert(opts.take(i as int) =~= opts);
    (out, reached)
}

/// The hits a member's value gets, and which object hits they come from.
pub fn member_hits<'a>(hits: &[Lens<'a>], key: &[u8]) -> (r: (Vec<Lens<'a>>, Vec<bool>))
    ensures
        lenses_model(r.0@) == kept(object_hits(lenses_model(hits@), key@)),
        marks_reached(r.1@, object_hits(lenses_model(hits@), key@)),
{
    let ghost opts = object_hits(lenses_model(hits@), key@);
    let mut out: Vec<Lens<'a>> = Vec::new();
    let mut reached: Vec<bool> = Vec::new();
    let mut i: usize = 0;
    assert(lenses_model(out@) =~= kept(opts.take(0)));
    while i < hits.len()
        invariant
            i <= hits@.len(),
            opts == object_hits(lenses_model(hits@), key@),
            lenses_model(out@) == kept(opts.take(i as int)),
            reached@.len() == i,
            forall|k: int| 0 <= k < i ==> #[trigger] reached@[k] == (opts[k] is Some),
        decreases hits@.len() - i,
    {
        proof {
            kept_step(opts, i as int);
        }
        let ghost before = out@;
        match into_member(hits[i], key) {
            Some(lens) => {
                out.push(lens);
                reached.push(true);
                assert(lenses_model(out@) =~= lenses_model(before).push(lens.model()));
            },
            None => {
                reached.push(false);
            },
        }
        i = i + 1;
    }
    assert(opts.take(i as int) =~= opts);
    (out, reached)
}

/// Each lens with spent paths unwrapped.
pub fn flat_lenses<'a>(hits: &[Lens<'a>]) -> (r: Vec<Lens<'a>>)
    ensures
        lenses_model(r@) == flat(lenses_model(hits@)),
        r@.len() == hits@.len(),
{
    let mut out: Vec<Lens<'a>> = Vec::new();
    let mut i: usize = 0;
    while i < hits.len()
        invariant
            i <= hits@.len(),
            out@.len() == i,
            forall|k: int| 0 <= k < i ==> (#[trigger] out@[k]).model() == flattened(hits@[k].model()),
        decreases hits@.len() - i,
    {
        out.push(hits[i].flatten());
        i = i + 1;
    }
    assert(lenses_model(out@) =~= flat(lenses_model(hits@)));
    out
}

fn lens_is_flat_row(lens: Lens<'_>) -> (r: bool)
    ensures
        r == flat_row(lens.model()),
{
    match lens {
        Lens::Project { path, fields: _ } => path.len() == 0,
        Lens::Filter { path, predicate: _, project: _ } => path.len() == 0,
        _ => false,
    }
}

fn oracle_needs_container(o: &Oracle) -> (r: bool)
    ensures
        r == (crate::demand::oracle_model(*o) is HasKey || crate::demand::oracle_model(*o) is MemberNames
            || crate::demand::oracle_model(*o) is MemberCount),
{
    match o {
        Oracle::HasKey { key: _ } => true,
        Oracle::MemberNames => true,
        Oracle::MemberCount => true,
        _ => false,
    }
}

fn lens_needs_container(lens: Lens<'_>) -> (r: bool)
    ensures
        r == needs_container(lens.model()),
{
    match lens {
        Lens::Path { steps, nested: _ } => steps.len() > 0,
        Lens::Whole => false,
        Lens::Oracle(o) => oracle_needs_container(o),
        _ => true,
    }
}

fn lens_counts(lens: Lens<'_>) -> (r: bool)
    ensures
        r == (lens.model() == DemandModel::Oracle(OracleModel::Count)),
{
    match lens {
        Lens::Oracle(o) => match o {
            Oracle::Count => true,
            _ => false,
        },
        _ => false,
    }
}

fn lens_collects_all(lens: Lens<'_>) -> (r: bool)
    ensures
        r == (lens.model() matches DemandModel::Oracle(o) && (o is HasKey || o is MemberNames || o is MemberCount
            || o is Count)),
{
    match lens {
        Lens::Oracle(o) => match o {
            Oracle::HasKey { key: _ } => true,
            Oracle::MemberNames => true,
            Oracle::MemberCount => true,
            Oracle::Count => true,
            _ => false,
        },
        _ => false,
    }
}

/// Whether a slice's rows are rebuilt from its windowed elements.
pub fn lens_slice_replays(lens: Lens<'_>) -> (r: bool)
    ensures
        r == slice_replays(lens.model()),
{
    match lens {
        Lens::Slice { range: _, nested } => match Lens::from_nested(nested).flatten() {
            Lens::Whole => false,
            Lens::Project { path, fields: _ } => path.len() > 0,
            _ => true,
        },
        _ => false,
    }
}

/// Whether a hit is answered from an array's element spans.
pub fn lens_needs_spans(lens: Lens<'_>) -> (r: bool)
    ensures
        r == needs_spans(lens.model()),
{
    match lens {
        Lens::Path { steps, nested: _ } => match first_index(steps) {
            Some(i) => i < 0,
            None => false,
        },
        Lens::Project { path, fields: _ } => match first_index(path) {
            Some(i) => i < 0,
            None => false,
        },
        Lens::Filter { path, predicate: _, project: _ } => match first_index(path) {
            Some(i) => i < 0,
            None => false,
        },
        _ => lens_slice_replays(lens),
    }
}

/// What a node's hits ask of it, read off once.
pub struct Survey {
    /// Every hit is a row demand on the node itself.
    pub all_rows: bool,
    /// Some hit wants the whole value.
    pub whole: bool,
    /// Every hit is an oracle or the whole value.
    pub only_located: bool,
    /// Some hit is answered inside a container.
    pub inside: bool,
    /// Some hit counts.
    pub counts: bool,
    /// No hit leads into an element array or maps it.
    pub one_value: bool,
    /// Element spans are kept.
    pub spans: bool,
    /// Every member is needed.
    pub collects_all: bool,
    /// Members are kept.
    pub members: bool,
}

impl Survey {
    /// Whether this survey is true of `hits`.
    pub open spec fn of_hits(self, hits: Seq<DemandModel>) -> bool {
        &&& self.all_rows == all_rows(hits)
        &&& self.whole == wants_whole(hits)
        &&& self.only_located == only_located(hits)
        &&& forall|kind: ValueKind| #[trigger]
            enters(hits, kind) == (self.inside || (kind == ValueKind::Object && self.counts))
        &&& self.one_value == one_element(hits)
        &&& self.spans == keeps_spans(hits)
        &&& self.collects_all == collects_all(hits)
        &&& self.members == keeps_members(hits)
    }

    /// Read off what `hits` ask.
    pub fn of(hits: &[Lens<'_>]) -> (r: Survey)
        ensures
            r.of_hits(lenses_model(hits@)),
    {
        let ghost model = lenses_model(hits@);
        let mut s: Survey = Survey {
            all_rows: true,
            whole: false,
            only_located: true,
            inside: false,
            counts: false,
            one_value: true,
            spans: false,
            collects_all: false,
            members: false,
        };
        let mut i: usize = 0;
        while i < hits.len()
            invariant
                i <= hits@.len(),
                model == lenses_model(hits@),
                s.all_rows == (forall|k: int| 0 <= k < i ==> flat_row(#[trigger] model[k])),
                s.whole == (exists|k: int| 0 <= k < i && #[trigger] model[k] is Whole),
                s.only_located == (forall|k: int| 0 <= k < i ==> (#[trigger] model[k] is Oracle || model[k] is Whole)),
                s.inside == (exists|k: int| 0 <= k < i && needs_container(#[trigger] model[k])),
                s.counts == (exists|k: int|
                    0 <= k < i && #[trigger] model[k] == DemandModel::Oracle(OracleModel::Count)),
                s.one_value == (forall|k: int|
                    0 <= k < i ==> !(#[trigger] model[k] is Path || model[k] is Collection || model[k] is Slice)),
                s.spans == (exists|k: int| 0 <= k < i && needs_spans(#[trigger] model[k])),
                s.collects_all == (exists|k: int|
                    0 <= k < i && (#[trigger] model[k] matches DemandModel::Oracle(o) && (o is HasKey
                        || o is MemberNames || o is MemberCount || o is Count))),
                s.members == (exists|k: int| 0 <= k < i && (flat_row(#[trigger] model[k]) || model[k] is Oracle)),
            decreases hits@.len() - i,
        {
            let lens: Lens<'_> = hits[i];
            assert(model[i as int] == lens.model());
            let is_row: bool = lens_is_flat_row(lens);
            let is_whole: bool = matches!(lens, Lens::Whole);
            let is_oracle: bool = matches!(lens, Lens::Oracle(_));
            s.all_rows = s.all_rows && is_row;
            s.whole = s.whole || is_whole;
            s.only_located = s.only_located && (is_oracle || is_whole);
            s.inside = s.inside || lens_needs_container(lens);
            s.counts = s.counts || lens_counts(lens);
            s.one_value = s.one_value && !matches!(lens, Lens::Path { .. } | Lens::Collection { .. } | Lens::Slice { .. });
            s.spans = s.spans || lens_needs_spans(lens);
            s.collects_all = s.collects_all || lens_collects_all(lens);
            s.members = s.members || is_row || is_oracle;
            i = i + 1;
        }
        s
    }
}

/// The elements every hit's window needs, when all are bounded.
pub fn window_prefix(hits: &[Lens<'_>]) -> (r: Option<usize>)
    ensures
        match prefix_window(lenses_model(hits@)) {
            Some(n) => r matches Some(m) && (m == n || (m == usize::MAX && n >= usize::MAX)),
            None => r is None,
        },
{
    let ghost model = lenses_model(hits@);
    let mut needed: Option<usize> = None;
    let mut i: usize = 0;
    while i < hits.len()
        invariant
            i <= hits@.len(),
            model == lenses_model(hits@),
            i > 0 ==> match prefix_window(model.take(i as int)) {
                Some(n) => needed matches Some(m) && (m == n || (m == usize::MAX && n >= usize::MAX)),
                None => false,
            },
            i == 0 ==> needed is None,
            forall|k: int| 0 <= k < i ==> bounded_end(#[trigger] model[k]) is Some,
        decreases hits@.len() - i,
    {
        proof {
            assert(model.take(i + 1).drop_last() =~= model.take(i as int));
            assert(model.take(i + 1).last() == model[i as int]);
        }
        let end: Option<i64> = match hits[i] {
            Lens::Slice { range, nested: _ } => match range.end {
                Some(e) => {
                    let negative_start: bool = match range.start {
                        Some(s) => s < 0,
                        None => false,
                    };
                    if e < 0 || negative_start {
                        None
                    } else {
                        Some(e)
                    }
                },
                None => None,
            },
            _ => None,
        };
        match end {
            None => {
                proof {
                    no_prefix(model, i as int);
                }
                return None;
            },
            Some(e) => {
                let bound: usize = if e as i128 > usize::MAX as i128 {
                    usize::MAX
                } else {
                    e as usize
                };
                needed = match needed {
                    None => Some(bound),
                    Some(most) => Some(
                        if most > bound {
                            most
                        } else {
                            bound
                        },
                    ),
                };
            },
        }
        i = i + 1;
    }
    assert(model.take(i as int) =~= model);
    needed
}

/// One unbounded hit forces the full walk.
proof fn no_prefix(hits: Seq<DemandModel>, i: int)
    requires
        0 <= i < hits.len(),
        bounded_end(hits[i]) is None,
    ensures
        prefix_window(hits) is None,
    decreases hits.len(),
{
    if i < hits.len() - 1 {
        no_prefix(hits.drop_last(), i);
    }
}

/// The hits and marks as they stand at an array: in element position, those that take it
/// as one row are answered, and set aside for `stand_in`.
pub fn set_rows_aside<'a>(hits: &[Lens<'a>], marks: &mut Vec<Mark>, env: Env, stand_in: &'a Oracle) -> (r: Vec<Lens<'a>>)
    requires
        old(marks)@.len() == hits@.len(),
        oracle_model(*stand_in) == OracleModel::MemberCount,
    ensures
        r@.len() == hits@.len(),
        lenses_model(r@) == beside(lenses_model(hits@), env),
        final(marks)@.len() == hits@.len(),
        marks_model(final(marks)@) == beside_marks(lenses_model(hits@), marks_model(old(marks)@), env),
{
    let ghost model = lenses_model(hits@);
    let ghost before = marks_model(marks@);
    let ghost done = beside_marks(model, before, env);
    let mut out: Vec<Lens<'a>> = Vec::new();
    let mut i: usize = 0;
    while i < hits.len()
        invariant
            i <= hits@.len(),
            out@.len() == i,
            marks@.len() == hits@.len(),
            before.len() == hits@.len(),
            model == lenses_model(hits@),
            oracle_model(*stand_in) == OracleModel::MemberCount,
            done == beside_marks(model, before, env),
            forall|k: int| 0 <= k < i ==> (#[trigger] out@[k]).model() == set_aside(model[k], env),
            forall|k: int| 0 <= k < i ==> (#[trigger] marks@[k])@ == done[k],
            forall|k: int| i <= k < hits@.len() ==> (#[trigger] marks@[k])@ == before[k],
        decreases hits@.len() - i,
    {
        let lens: Lens<'a> = hits[i];
        assert(model[i as int] == lens.model());
        if env.element && matches!(lens, Lens::Project { .. } | Lens::Filter { .. }) {
            marks.set(i, Mark::Mismatch(ValueKind::Array));
            out.push(Lens::Oracle(stand_in));
        } else {
            out.push(lens);
        }
        i = i + 1;
    }
    assert(lenses_model(out@) =~= beside(model, env));
    assert(marks_model(marks@) =~= done);
    out
}

} // verus!
