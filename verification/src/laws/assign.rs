//! An assigned value is read back, and a cleared container is empty.

use vstd::prelude::*;

use crate::answer::AnswerModel;
use crate::ascii::{LBRACE, LBRACKET, RBRACE, RBRACKET};
use crate::demand::StepModel;
use crate::dialect::Dialect;
use crate::edit::apply::{any_fact, demands_of, edited, located_spans, locating, plan_of, planned_edit, planned_edits, writes_fact};
use crate::edit::dom::{updated, Change};
use crate::edit::plan::{compact_under, plain_splice, planned_splice, replacement};
use crate::edit::request::{at_path, edit_demand, EditModel};
use crate::edit::splice::{apply_order, conflicted, first_conflict, first_outside, spliced, SpliceModel};
use crate::encode::{written, written_items, written_members, EncodeOptions};
use crate::error::Error;
use crate::framing::text_start;
use crate::laws::forms::{no_room, unbounded};
use crate::laws::local::{trivia_is_local, value_start};
use crate::laws::parse::parse_agrees_with_strict_skip;
use crate::laws::paths::{answer_fits, path_answers_are_placed, read_at_lower_depth, reads_at, spot, text_value, tree_at};
use crate::laws::replace::{is_start, opens_as, spot_reads, swapped, trivia_before, value_swapped};
use crate::laws::round_trip::{distinct_keys, unsorted_is_arranged, value_reads_back};
use crate::laws::strings::stands_at;
use crate::laws::tokens::written_start;
use crate::lex::stop_sets::{is_space, run_end, run_end_facts, Ws};
use crate::lex::skip::MAX_NESTING;
use crate::lex::ws::{token_end, trivia_end, trivia_end_bounds, trivia_end_here};
use crate::scan::{scanned, strict_root};
use crate::tape::{built, Room};
use crate::value::{well_formed, ByteRange, Json};

verus! {

/// A compact text does not depend on the depth it is written at.
pub(crate) proof fn compact_at_lower_depth(j: Json, opts: EncodeOptions, depth: int, lower: int)
    requires
        !opts.pretty,
        lower <= depth,
        written(j, opts, depth) is Ok,
    ensures
        written(j, opts, lower) == written(j, opts, depth),
    decreases j, 1nat, 0nat,
{
    match j {
        Json::Array(items) => {
            compact_items(j, items.len(), opts, depth, lower);
        },
        Json::Object(members) => {
            compact_members(j, members.len(), opts, depth, lower);
        },
        _ => {},
    }
}

proof fn compact_items(j: Json, n: nat, opts: EncodeOptions, depth: int, lower: int)
    requires
        !opts.pretty,
        lower <= depth,
        j is Array,
        n <= j->Array_0.len(),
        written_items(j, n, opts, depth) is Ok,
    ensures
        written_items(j, n, opts, lower) == written_items(j, n, opts, depth),
    decreases j, 0nat, n,
{
    if n > 0 {
        compact_items(j, (n - 1) as nat, opts, depth, lower);
        compact_at_lower_depth(j->Array_0[n - 1], opts, depth + 1, lower + 1);
    }
}

proof fn compact_members(j: Json, n: nat, opts: EncodeOptions, depth: int, lower: int)
    requires
        !opts.pretty,
        lower <= depth,
        j is Object,
        n <= j->Object_0.len(),
        written_members(j, n, opts, depth) is Ok,
    ensures
        written_members(j, n, opts, lower) == written_members(j, n, opts, depth),
    decreases j, 0nat, n,
{
    if n > 0 {
        compact_members(j, (n - 1) as nat, opts, depth, lower);
        let k = crate::encode::written_order(j->Object_0, opts)[n - 1];
        if 0 <= k < j->Object_0.len() {
            compact_at_lower_depth(j->Object_0[k].1, opts, depth + 1, lower + 1);
        }
    }
}

/// The splice an assignment makes.
pub(crate) open spec fn assigned_text(b: Seq<u8>, s: ByteRange, w: Seq<u8>) -> Seq<u8> {
    b.subrange(0, s.start as int) + w + b.subrange(s.end as int, b.len() as int)
}

proof fn assigned_is_swapped(b: Seq<u8>, s: ByteRange, w: Seq<u8>)
    requires
        s.start < s.end <= b.len(),
        w.len() > 0,
    ensures
        swapped(b, s.start as int, s.end as int, assigned_text(b, s, w), w.len() - (s.end - s.start)),
        stands_at(assigned_text(b, s, w), s.start as int, w),
{
    let o = assigned_text(b, s, w);
    let at = s.start as int;
    let to = s.end as int;
    let d = w.len() - (to - at);
    assert forall|i: int| 0 <= i < at implies #[trigger] b[i] == o[i + 0] by {}
    assert forall|i: int| to <= i < b.len() implies #[trigger] b[i] == o[i + d] by {}
    assert forall|i: int| 0 <= i < w.len() implies o[at + i] == w[i] by {}
}

/// A trailing boundary is kept.
pub(crate) proof fn boundary_is_kept(b: Seq<u8>, at: int, to: int, o: Seq<u8>, d: int, dialect: Dialect)
    requires
        swapped(b, at, to, o, d),
        token_end(b, to, dialect),
    ensures
        token_end(o, to + d, dialect),
{
    if to < b.len() {
        assert(b[to] == o[to + d]);
    }
}

/// A text keeps its start when a value in it is replaced.
pub(crate) proof fn start_is_kept(b: Seq<u8>, at: int, to: int, o: Seq<u8>, d: int, dialect: Dialect, pos: int, depth: int)
    requires
        swapped(b, at, to, o, d),
        is_start(o[at]),
        o[at] < 0x80,
        trivia_end(b, text_start(b), dialect) == Ok::<int, Error>(pos),
        pos <= at,
        pos < b.len(),
        b[pos] < 0x80,
    ensures
        text_start(o) == text_start(b),
        trivia_end(o, text_start(o), dialect) == Ok::<int, Error>(pos),
{
    let from = text_start(b);
    trivia_end_bounds(b, from, dialect);
    run_end_facts::<Ws>(b, from);
    if from == 3 {
        assert(b[0] == o[0] && b[1] == o[1] && b[2] == o[2]);
    } else {
        if at > 0 {
            assert(b[0] == o[0]);
            if pos > 0 {
                assert(b[0] < 0x80) by {
                    if !(is_space(b[0])) {
                        assert(run_end::<Ws>(b, 0) == 0);
                    }
                }
            }
        }
    }
    trivia_before(b, at, to, o, d, from, dialect);
}

/// A text whose value reads is strictly valid.
pub(crate) proof fn read_text_is_strict(o: Seq<u8>, dialect: Dialect)
    requires
        text_value(o, dialect) is Ok,
    ensures
        strict_root(o, dialect) is Ok,
{
    trivia_end_bounds(o, text_start(o), dialect);
    let pos = trivia_end(o, text_start(o), dialect)->Ok_0;
    parse_agrees_with_strict_skip(o, pos, dialect, 0);
}

/// The boundary behind the value of a text.
proof fn text_ends_at_a_boundary(b: Seq<u8>, e: int, dialect: Dialect)
    requires
        0 <= e <= b.len(),
        trivia_end(b, e, dialect) == Ok::<int, Error>(b.len() as int),
    ensures
        token_end(b, e, dialect),
{
    run_end_facts::<Ws>(b, e);
}

/// Replacing what a path leads to by the text of a value replaces it in the value
/// read.
pub(crate) proof fn assigned_text_reads(b: Seq<u8>, dialect: Dialect, path: Seq<StepModel>, j: Json, v: Json, s: ByteRange)
    requires
        b.len() <= usize::MAX,
        well_formed(v),
        distinct_keys(v),
        text_value(b, dialect) == Ok::<Json, Error>(j),
        tree_at(j, path) is Some,
        spot(b, trivia_end(b, text_start(b), dialect)->Ok_0, dialect, 0, path) == Some(s.start as int),
        s.start < s.end <= b.len(),
        built(b, s.start as int, unbounded(dialect), no_room(), 0) matches Ok((e, _, _)) && e == s.end,
        written(v, compact_under(dialect), path.len() as int) is Ok,
    ensures
        replacement(v, dialect) matches Ok(w) && updated(j, path, Change::Put(v)) matches Some(new) && text_value(
            assigned_text(b, s, w),
            dialect,
        ) == Ok::<Json, Error>(new),
{
    let depth = path.len() as int;
    compact_at_lower_depth(v, compact_under(dialect), depth, 0);
    let w = replacement(v, dialect)->Ok_0;
    written_start(v, compact_under(dialect), 0);
    let o = assigned_text(b, s, w);
    let at = s.start as int;
    let to = s.end as int;
    let d = w.len() - (to - at);
    assigned_is_swapped(b, s, w);
    let pos = trivia_end(b, text_start(b), dialect)->Ok_0;
    let e = built(b, pos, unbounded(dialect), no_room(), 0)->Ok_0.0;
    text_facts(b, dialect);
    place_facts(b, pos, dialect, path, at);
    spliced_value_reads(b, at, to, o, d, dialect, depth, v, w);
    value_swapped(b, at, to, o, d, pos, dialect, 0, path, e, j, v);
    start_is_kept(b, at, to, o, d, dialect, pos, depth);
    end_is_kept(b, at, to, o, d, e, dialect);
    let new = updated(j, path, Change::Put(v))->0;
    text_reads(o, pos, e + d, new, dialect);
}

/// What a text that reads holds of its ends.
pub(crate) proof fn text_facts(b: Seq<u8>, dialect: Dialect)
    requires
        text_value(b, dialect) is Ok,
    ensures
        trivia_end(b, text_start(b), dialect) matches Ok(pos) && 0 <= pos < b.len() && b[pos] < 0x80 && (built(
            b,
            pos,
            unbounded(dialect),
            no_room(),
            0,
        ) matches Ok((e, j, room)) && room == no_room() && pos < e <= b.len() && text_value(b, dialect) == Ok::<Json, Error>(j)
            && token_end(b, e, dialect) && trivia_end(b, e, dialect) == Ok::<int, Error>(b.len() as int)),
{
    let from = text_start(b);
    trivia_end_bounds(b, from, dialect);
    let pos = trivia_end(b, from, dialect)->Ok_0;
    parse_agrees_with_strict_skip(b, pos, dialect, 0);
    let e = built(b, pos, unbounded(dialect), no_room(), 0)->Ok_0.0;
    value_start(b, pos, dialect, 0);
    trivia_end_bounds(b, e, dialect);
    text_ends_at_a_boundary(b, e, dialect);
}

/// What stands at the end of a path ends at a boundary, and reads at its depth.
pub(crate) proof fn place_facts(b: Seq<u8>, pos: int, dialect: Dialect, path: Seq<StepModel>, at: int)
    requires
        0 <= pos < b.len(),
        built(b, pos, unbounded(dialect), no_room(), 0) matches Ok((e, j, room)) && room == no_room() && token_end(b, e, dialect)
            && tree_at(j, path) is Some,
        spot(b, pos, dialect, 0, path) == Some(at),
    ensures
        built(b, at, unbounded(dialect), no_room(), path.len() as int) is Ok,
        built(b, at, unbounded(dialect), no_room(), path.len() as int) == built(b, at, unbounded(dialect), no_room(), 0),
        token_end(b, built(b, at, unbounded(dialect), no_room(), 0)->Ok_0.0, dialect),
{
    spot_reads(b, pos, dialect, 0, path);
    read_at_lower_depth(b, at, dialect, path.len() as int, 0);
}

/// The text of a value reads as the value where it is spliced in.
proof fn spliced_value_reads(
    b: Seq<u8>,
    at: int,
    to: int,
    o: Seq<u8>,
    d: int,
    dialect: Dialect,
    depth: int,
    v: Json,
    w: Seq<u8>,
)
    requires
        swapped(b, at, to, o, d),
        well_formed(v),
        distinct_keys(v),
        written(v, compact_under(dialect), depth) == Ok::<Seq<u8>, Error>(w),
        d == w.len() - (to - at),
        stands_at(o, at, w),
        token_end(b, to, dialect),
    ensures
        built(o, at, unbounded(dialect), no_room(), depth) == Ok::<(int, Json, Room), Error>((to + d, v, no_room())),
        is_start(o[at]) && o[at] < 0x80,
{
    boundary_is_kept(b, at, to, o, d, dialect);
    value_reads_back(o, at, v, compact_under(dialect), depth);
    unsorted_is_arranged(v, compact_under(dialect));
    value_start(o, at, dialect, depth);
}

pub(crate) proof fn end_is_kept(b: Seq<u8>, at: int, to: int, o: Seq<u8>, d: int, e: int, dialect: Dialect)
    requires
        swapped(b, at, to, o, d),
        to <= e <= b.len(),
        trivia_end(b, e, dialect) == Ok::<int, Error>(b.len() as int),
    ensures
        trivia_end(o, e + d, dialect) == Ok::<int, Error>(o.len() as int),
{
    trivia_is_local(b, to, b.len() as int, o, d, e, dialect);
}

pub(crate) proof fn text_reads(o: Seq<u8>, pos: int, e: int, j: Json, dialect: Dialect)
    requires
        trivia_end(o, text_start(o), dialect) == Ok::<int, Error>(pos),
        built(o, pos, unbounded(dialect), no_room(), 0) == Ok::<(int, Json, Room), Error>((e, j, no_room())),
        trivia_end(o, e, dialect) == Ok::<int, Error>(o.len() as int),
    ensures
        text_value(o, dialect) == Ok::<Json, Error>(j),
{
}

/// The text with the bytes `[from, to)` replaced by others.
pub(crate) open spec fn exchanged(b: Seq<u8>, from: int, to: int, w: Seq<u8>) -> Seq<u8> {
    b.subrange(0, from) + w + b.subrange(to, b.len() as int)
}

/// The plan of one edit with one splice.
pub(crate) proof fn edit_is_one_splice(
    b: Seq<u8>,
    dialect: Dialect,
    e: EditModel,
    path: Seq<StepModel>,
    s: ByteRange,
    from: int,
    to: int,
    w: Seq<u8>,
)
    requires
        0 <= from <= to <= b.len(),
        s.start < s.end <= b.len(),
        !(e is Fact),
        edit_demand(e, dialect) == Some(at_path(path)),
        planned_splice(b, 0, e, Some(s), dialect) == Ok::<Seq<SpliceModel>, Error>(seq![plain_splice(0, from, to, w)]),
        scanned(b, locating(seq![e], dialect, false)) matches Ok((answers, _)) && answers.len() == 1 && (
        answers[0] matches AnswerModel::Document(found) && found.root == s),
    ensures
        plan_of(b, seq![e], dialect, false) matches Ok((splices, _)) && splices.len() == 1 && spliced(
            b,
            splices,
            0,
            b.len() as int,
        ) == exchanged(b, from, to, w),
{
    reveal(plan_of);
    reveal(planned_edit);
    let edits = seq![e];
    assert(!any_fact(edits)) by {
        assert forall|i: int| 0 <= i < edits.len() implies !writes_fact(#[trigger] edits[i]) by {}
    }
    let answers = scanned(b, locating(edits, dialect, false))->Ok_0.0;
    reveal_with_fuel(located_spans, 2);
    reveal_with_fuel(demands_of, 2);
    reveal_with_fuel(planned_edits, 2);
    let spans = located_spans(b, answers, 0, edits, 1, dialect);
    assert(spans == Ok::<Seq<Option<ByteRange>>, Error>(Seq::<Option<ByteRange>>::empty().push(Some(s))));
    let one = seq![plain_splice(0, from, to, w)];
    assert(Seq::<SpliceModel>::empty() + one =~= one);
    assert(planned_edits(b, edits, spans->Ok_0, 1, dialect, Seq::empty())->Ok_0.0 == one);
    reveal_with_fuel(apply_order, 2);
    assert(one.drop_last() =~= Seq::<SpliceModel>::empty());
    assert(apply_order(one) =~= one);
    reveal_with_fuel(first_conflict, 2);
    reveal_with_fuel(first_outside, 2);
    assert(!conflicted(one, 0));
    reveal_with_fuel(spliced, 3);
}

/// What a strict scan finds for an edit at a path.
pub(crate) proof fn edit_is_located(b: Seq<u8>, dialect: Dialect, e: EditModel, path: Seq<StepModel>, j: Json) -> (s: ByteRange)
    requires
        b.len() <= usize::MAX,
        edit_demand(e, dialect) == Some(at_path(path)),
        text_value(b, dialect) == Ok::<Json, Error>(j),
        tree_at(j, path) is Some,
    ensures
        scanned(b, locating(seq![e], dialect, false)) matches Ok((answers, _)) && answers.len() == 1 && (
        answers[0] matches AnswerModel::Document(found) && found.root == s),
        spot(b, trivia_end(b, text_start(b), dialect)->Ok_0, dialect, 0, path) == Some(s.start as int),
        reads_at(b, s, tree_at(j, path)->0, dialect),
{
    let edits = seq![e];
    let ask = locating(edits, dialect, false);
    reveal_with_fuel(demands_of, 2);
    assert(ask.demands =~= seq![at_path(path)]);
    path_answers_are_placed(b, ask, j);
    let answers = scanned(b, ask)->Ok_0.0;
    let x = tree_at(j, path)->0;
    assert(answer_fits(answers[0], Some(x), dialect));
    answers[0]->Document_0.root
}

/// An edit that replaces what it finds by the text of a value.
proof fn replaced_value_is_read_back(
    b: Seq<u8>,
    dialect: Dialect,
    e: EditModel,
    path: Seq<StepModel>,
    j: Json,
    v: Json,
    s: ByteRange,
)
    requires
        b.len() <= usize::MAX,
        !(e is Fact),
        edit_demand(e, dialect) == Some(at_path(path)),
        well_formed(v),
        distinct_keys(v),
        text_value(b, dialect) == Ok::<Json, Error>(j),
        tree_at(j, path) is Some,
        written(v, compact_under(dialect), path.len() as int) is Ok,
        replacement(v, dialect) matches Ok(w) ==> planned_splice(b, 0, e, Some(s), dialect) == Ok::<Seq<SpliceModel>, Error>(
            seq![plain_splice(0, s.start as int, s.end as int, w)],
        ),
        scanned(b, locating(seq![e], dialect, false)) matches Ok((answers, _)) && answers.len() == 1 && (
        answers[0] matches AnswerModel::Document(found) && found.root == s),
        spot(b, trivia_end(b, text_start(b), dialect)->Ok_0, dialect, 0, path) == Some(s.start as int),
        reads_at(b, s, tree_at(j, path)->0, dialect),
    ensures
        edited(b, seq![e], dialect) matches Ok(out) && updated(j, path, Change::Put(v)) matches Some(new) && text_value(out, dialect)
            == Ok::<Json, Error>(new),
{
    assigned_text_reads(b, dialect, path, j, v, s);
    let w = replacement(v, dialect)->Ok_0;
    edit_is_one_splice(b, dialect, e, path, s, s.start as int, s.end as int, w);
    read_text_is_strict(assigned_text(b, s, w), dialect);
}

/// A value assigned to what a path leads to is what the text then holds there, with
/// the rest as it was. The assignment succeeds wherever the value can be written at
/// the depth of the path.
pub proof fn assigned_value_is_read_back(b: Seq<u8>, dialect: Dialect, path: Seq<StepModel>, j: Json, v: Json)
    requires
        b.len() <= usize::MAX,
        well_formed(v),
        distinct_keys(v),
        text_value(b, dialect) == Ok::<Json, Error>(j),
        tree_at(j, path) is Some,
        written(v, compact_under(dialect), path.len() as int) is Ok,
    ensures
        edited(b, seq![EditModel::Assign(path, v)], dialect) matches Ok(out) && updated(j, path, Change::Put(v)) matches Some(new)
            && text_value(out, dialect) == Ok::<Json, Error>(new),
{
    let e = EditModel::Assign(path, v);
    let s = edit_is_located(b, dialect, e, path, j);
    replaced_value_is_read_back(b, dialect, e, path, j, v, s);
}

/// The empty value of a container's kind.
pub open spec fn emptied(j: Json) -> Json {
    match j {
        Json::Object(_) => Json::Object(Seq::empty()),
        _ => Json::Array(Seq::empty()),
    }
}

/// Emptying a container is putting an empty one in its place.
proof fn emptying_puts_an_empty_one(j: Json, path: Seq<StepModel>)
    requires
        tree_at(j, path) matches Some(x) && (x is Array || x is Object),
    ensures
        updated(j, path, Change::Empty) == updated(j, path, Change::Put(emptied(tree_at(j, path)->0))),
    decreases path.len(),
{
    if path.len() > 0 {
        match (path[0], j) {
            (StepModel::Key(name), Json::Object(members)) => {
                if let Some(i) = crate::value::last_member(members, name) {
                    emptying_puts_an_empty_one(members[i].1, path.skip(1));
                }
            },
            (StepModel::Index(index), Json::Array(items)) => {
                if let Some(i) = crate::value::resolved(items.len() as int, index as int) {
                    emptying_puts_an_empty_one(items[i], path.skip(1));
                }
            },
            _ => {},
        }
    }
}

proof fn empty_is_written(j: Json, dialect: Dialect, depth: int)
    requires
        depth < MAX_NESTING,
    ensures
        written(emptied(j), compact_under(dialect), depth) == Ok::<Seq<u8>, Error>(
            if j is Object {
                seq![LBRACE, RBRACE]
            } else {
                seq![LBRACKET, RBRACKET]
            },
        ),
        well_formed(emptied(j)),
        distinct_keys(emptied(j)),
{
    let none = Seq::<u8>::empty();
    assert(seq![LBRACE] + none + none + seq![RBRACE] =~= seq![LBRACE, RBRACE]);
    assert(seq![LBRACKET] + none + none + seq![RBRACKET] =~= seq![LBRACKET, RBRACKET]);
}

/// A cleared container is empty in the text, with the rest as it was.
pub proof fn cleared_container_is_empty(b: Seq<u8>, dialect: Dialect, path: Seq<StepModel>, j: Json)
    requires
        b.len() <= usize::MAX,
        text_value(b, dialect) == Ok::<Json, Error>(j),
        tree_at(j, path) matches Some(x) && (x is Array || x is Object),
    ensures
        edited(b, seq![EditModel::Clear(path)], dialect) matches Ok(out) && updated(j, path, Change::Empty) matches Some(new)
            && text_value(out, dialect) == Ok::<Json, Error>(new),
{
    let e = EditModel::Clear(path);
    let x = tree_at(j, path)->0;
    let s = edit_is_located(b, dialect, e, path, j);
    let at = s.start as int;
    opens_as(b, at, dialect, 0);
    value_start(b, at, dialect, 0);
    trivia_end_here(b, at, dialect);
    text_facts(b, dialect);
    let pos = trivia_end(b, text_start(b), dialect)->Ok_0;
    place_facts(b, pos, dialect, path, at);
    opens_as(b, at, dialect, path.len() as int);
    empty_is_written(x, dialect, 0);
    empty_is_written(x, dialect, path.len() as int);
    emptying_puts_an_empty_one(j, path);
    replaced_value_is_read_back(b, dialect, e, path, j, emptied(x), s);
}

/// What was put at the end of a path is what the path then leads to.
pub proof fn put_is_found(j: Json, path: Seq<StepModel>, v: Json)
    ensures
        updated(j, path, Change::Put(v)) matches Some(new) ==> tree_at(new, path) == Some(v),
    decreases path.len(),
{
    if path.len() > 0 {
        match (path[0], j) {
            (StepModel::Key(name), Json::Object(members)) => {
                crate::value::last_member_facts(members, name);
                if let Some(i) = crate::value::last_member(members, name) {
                    put_is_found(members[i].1, path.skip(1), v);
                    if let Some(x) = updated(members[i].1, path.skip(1), Change::Put(v)) {
                        let after = members.update(i, (members[i].0, x));
                        crate::value::last_member_facts(after, name);
                        assert(after[i].0 == name);
                        let k = crate::value::last_member(after, name)->0;
                        if k != i {
                            assert(after[k] == members[k]);
                        }
                    }
                }
            },
            (StepModel::Index(index), Json::Array(items)) => {
                if let Some(i) = crate::value::resolved(items.len() as int, index as int) {
                    put_is_found(items[i], path.skip(1), v);
                }
            },
            _ => {},
        }
    }
}

} // verus!
