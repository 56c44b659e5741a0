//! A path answer is the value the path leads to in the parsed tree.

use vstd::prelude::*;

use crate::answer::{AnswerModel, DocumentModel};
use crate::ascii::{LBRACE, LBRACKET, RBRACE, RBRACKET};
use crate::demand::{DemandModel, StepModel};
use crate::dialect::Dialect;
use crate::error::{at, Error, ErrorKind};
use crate::framing::text_start;
use crate::laws::forms::{every_form_reads_the_same, no_room, read_answer, read_span, reads_as, unbounded};
use crate::laws::local::{cut, items_unfold, members_unfold, settles, text_reads_the_same_behind, value_reads_the_same_alone};
use crate::laws::locate::valid_value_is_located;
use crate::laws::parse::{parse_agrees_with_strict_skip, strict_ctx};
use crate::lex::skip::{items, member_value_at, members, next_at, value, value_end, Check, Ctx, NextAt, MAX_NESTING};
use crate::lex::ws::{trivia_end, trivia_end_bounds, trivia_end_settles};
use crate::materialize::{parsed, Form};
use crate::scan::{any_filters_container, filters_container, root_env, scanned, Ask, JsonInput};
use crate::tape::{built, built_items, built_key, built_members, built_scalar, key_position, merged, Room};
use crate::value::{last_member, last_member_facts, resolved, span, span_bytes, ByteRange, Json, ValueKind};
use crate::walk::hits::rank_in_range;
use crate::walk::marks::MarkModel;
use crate::walk::model::{
    after_step, array, array_hits, array_mark, beside, beside_marks, child, element_env, elements, enters, finish_array, finish_object,
    flat, kept, kind_at, located, member_env, next_element, next_member, node, node_of, object,
    object_hits, object_mark, one_element, opened, oracles, prefix_window, rank, spans_for, takes_row, terminal_marks, ArrayState, Env,
    MemberState, WalkCtx, Walked,
};

verus! {

/// The value a path leads to: a name leads to the last member of that name, an index
/// to the element at that position, and one below zero to the element that many places
/// before the end.
pub open spec fn tree_at(j: Json, steps: Seq<StepModel>) -> Option<Json>
    decreases steps.len(),
{
    if steps.len() == 0 {
        Some(j)
    } else {
        match (steps[0], j) {
            (StepModel::Key(name), Json::Object(members)) => match last_member(members, name) {
                Some(i) => tree_at(members[i].1, steps.skip(1)),
                None => None,
            },
            (StepModel::Index(index), Json::Array(items)) => if 0 <= index < items.len() {
                tree_at(items[index as int], steps.skip(1))
            } else if -items.len() <= index < 0 {
                tree_at(items[items.len() + index], steps.skip(1))
            } else {
                None
            },
            _ => None,
        }
    }
}

/// Whether a demand is for the value a path leads to.
pub open spec fn is_path(h: DemandModel) -> bool {
    match h {
        DemandModel::Whole => true,
        DemandModel::Path { nested, .. } => nested is None,
        _ => false,
    }
}

/// Whether every demand is for the value a path leads to.
pub open spec fn all_paths(hits: Seq<DemandModel>) -> bool {
    forall|i: int| 0 <= i < hits.len() ==> is_path(#[trigger] hits[i])
}

/// The path of a demand.
pub open spec fn steps_of(h: DemandModel) -> Seq<StepModel> {
    match h {
        DemandModel::Path { steps, .. } => steps,
        _ => Seq::empty(),
    }
}

/// Whether the value at a span reads as `x`, with trivia that reads behind it.
pub open spec fn reads_at(b: Seq<u8>, s: ByteRange, x: Json, dialect: Dialect) -> bool {
    &&& s.start < s.end <= b.len()
    &&& built(b, s.start as int, unbounded(dialect), no_room(), 0) == Ok::<(int, Json, Room), Error>(
        (s.end as int, x, no_room()),
    )
    &&& settles(b, s.end as int, dialect)
}

/// Where the items of an array start, from `pos` on, after those in `done`.
pub open spec fn item_starts(b: Seq<u8>, pos: int, dialect: Dialect, depth: int, done: Seq<int>) -> Seq<int>
    decreases b.len() - pos,
{
    match next_at(b, pos, dialect, RBRACKET, done.len() == 0) {
        Ok(NextAt::Item(p)) => match built(b, p, unbounded(dialect), no_room(), depth) {
            Ok((e, _, _)) => if pos < e <= b.len() {
                item_starts(b, e, dialect, depth, done.push(p))
            } else {
                done
            },
            Err(_) => done,
        },
        _ => done,
    }
}

/// The names of an object's members and where their values start, from `pos` on,
/// after those in `done`.
pub open spec fn member_starts(b: Seq<u8>, pos: int, dialect: Dialect, depth: int, done: Seq<(Seq<u8>, int)>) -> Seq<
    (Seq<u8>, int),
>
    decreases b.len() - pos,
{
    match next_at(b, pos, dialect, RBRACE, done.len() == 0) {
        Ok(NextAt::Item(p)) => match built_key(b, p, unbounded(dialect), no_room()) {
            Ok((v, name, _)) => match built(b, v, unbounded(dialect), no_room(), depth) {
                Ok((e, _, _)) => if pos < e <= b.len() {
                    member_starts(b, e, dialect, depth, done.push((name, v)))
                } else {
                    done
                },
                Err(_) => done,
            },
            Err(_) => done,
        },
        _ => done,
    }
}

/// Where the value of the last member of a name starts.
pub open spec fn last_start(members: Seq<(Seq<u8>, int)>, name: Seq<u8>) -> Option<int>
    decreases members.len(),
{
    if members.len() == 0 {
        None
    } else if members.last().0 == name {
        Some(members.last().1)
    } else {
        last_start(members.drop_last(), name)
    }
}

/// Where the value that a path leads to starts, from the value at `start`.
pub open spec fn spot(b: Seq<u8>, start: int, dialect: Dialect, depth: int, steps: Seq<StepModel>) -> Option<int>
    decreases steps.len(),
{
    if steps.len() == 0 {
        Some(start)
    } else {
        match steps[0] {
            StepModel::Index(index) => {
                let starts = item_starts(b, start + 1, dialect, depth + 1, Seq::empty());
                if 0 <= index < starts.len() {
                    spot(b, starts[index as int], dialect, depth + 1, steps.skip(1))
                } else if -starts.len() <= index < 0 {
                    spot(b, starts[starts.len() + index], dialect, depth + 1, steps.skip(1))
                } else {
                    None
                }
            },
            StepModel::Key(name) => match last_start(
                member_starts(b, start + 1, dialect, depth + 1, Seq::empty()),
                name,
            ) {
                Some(v) => spot(b, v, dialect, depth + 1, steps.skip(1)),
                None => None,
            },
        }
    }
}

/// Whether a mark is the answer of a lookup: the span of what was found at `place`,
/// or that nothing was.
pub open spec fn mark_fits(b: Seq<u8>, dialect: Dialect, mark: MarkModel, found: Option<Json>, place: Option<int>) -> bool {
    match found {
        Some(x) => mark matches MarkModel::Span(s) && reads_at(b, s, x, dialect) && place == Some(s.start as int),
        None => mark is Missing || mark is Mismatch,
    }
}

/// What is accepted at a depth is accepted at a lower one.
pub(crate) proof fn skip_at_lower_depth(b: Seq<u8>, pos: int, ctx: Ctx, depth: int, lower: int)
    requires
        lower <= depth,
    ensures
        value(b, pos, ctx, depth) is Ok ==> value(b, pos, ctx, lower) == value(b, pos, ctx, depth),
    decreases b.len() - pos, 0nat,
{
    if 0 <= pos < b.len() && (b[pos] == LBRACKET || b[pos] == LBRACE) {
        items_at_lower_depth(b, pos + 1, ctx, depth + 1, lower + 1, true);
        members_at_lower_depth(b, pos + 1, ctx, depth + 1, lower + 1, true);
    }
}

proof fn items_at_lower_depth(b: Seq<u8>, pos: int, ctx: Ctx, depth: int, lower: int, first: bool)
    requires
        lower <= depth,
    ensures
        items(b, pos, ctx, depth, first) is Ok ==> items(b, pos, ctx, lower, first) == items(b, pos, ctx, depth, first),
    decreases b.len() - pos, 1nat,
{
    match next_at(b, pos, ctx.dialect, RBRACKET, first) {
        Ok(NextAt::Item(p)) => if pos <= p <= b.len() {
            skip_at_lower_depth(b, p, ctx, depth, lower);
            match value(b, p, ctx, depth) {
                Ok((e, _)) => if p < e <= b.len() {
                    items_at_lower_depth(b, e, ctx, depth, lower, false);
                },
                Err(_) => {},
            }
        },
        _ => {},
    }
}

proof fn members_at_lower_depth(b: Seq<u8>, pos: int, ctx: Ctx, depth: int, lower: int, first: bool)
    requires
        lower <= depth,
    ensures
        members(b, pos, ctx, depth, first) is Ok ==> members(b, pos, ctx, lower, first) == members(b, pos, ctx, depth, first),
    decreases b.len() - pos, 1nat,
{
    match next_at(b, pos, ctx.dialect, RBRACE, first) {
        Ok(NextAt::Item(p)) => match member_value_at(b, p, ctx.check, ctx.dialect) {
            Ok(v) => if pos <= p < v <= b.len() {
                skip_at_lower_depth(b, v, ctx, depth, lower);
                match value(b, v, ctx, depth) {
                    Ok((e, _)) => if v < e <= b.len() {
                        members_at_lower_depth(b, e, ctx, depth, lower, false);
                    },
                    Err(_) => {},
                }
            },
            Err(_) => {},
        },
        _ => {},
    }
}

/// What is read at a depth is read at a lower one.
pub(crate) proof fn read_at_lower_depth(b: Seq<u8>, pos: int, dialect: Dialect, depth: int, lower: int)
    requires
        lower <= depth,
    ensures
        built(b, pos, unbounded(dialect), no_room(), depth) is Ok ==> built(b, pos, unbounded(dialect), no_room(), lower)
            == built(b, pos, unbounded(dialect), no_room(), depth),
    decreases b.len() - pos, 0nat,
{
    if pos < b.len() && (b[pos] == LBRACKET || b[pos] == LBRACE) {
        read_items_at_lower_depth(b, pos + 1, dialect, depth + 1, lower + 1, Seq::empty());
        read_members_at_lower_depth(b, pos + 1, dialect, depth + 1, lower + 1, Seq::empty());
    }
}

proof fn read_items_at_lower_depth(b: Seq<u8>, pos: int, dialect: Dialect, depth: int, lower: int, done: Seq<Json>)
    requires
        lower <= depth,
    ensures
        built_items(b, pos, unbounded(dialect), no_room(), depth, done) is Ok ==> built_items(
            b,
            pos,
            unbounded(dialect),
            no_room(),
            lower,
            done,
        ) == built_items(b, pos, unbounded(dialect), no_room(), depth, done),
    decreases b.len() - pos, 1nat,
{
    match next_at(b, pos, dialect, RBRACKET, done.len() == 0) {
        Ok(NextAt::Item(p)) => if pos <= p <= b.len() {
            read_at_lower_depth(b, p, dialect, depth, lower);
            crate::laws::forms::built_unbounded(b, p, unbounded(dialect), no_room(), depth);
            match built(b, p, unbounded(dialect), no_room(), depth) {
                Ok((e, item, _)) => if p < e <= b.len() {
                    read_items_at_lower_depth(b, e, dialect, depth, lower, done.push(item));
                },
                Err(_) => {},
            }
        },
        _ => {},
    }
}

proof fn read_members_at_lower_depth(
    b: Seq<u8>,
    pos: int,
    dialect: Dialect,
    depth: int,
    lower: int,
    done: Seq<(Seq<u8>, Json)>,
)
    requires
        lower <= depth,
    ensures
        built_members(b, pos, unbounded(dialect), no_room(), depth, done) is Ok ==> built_members(
            b,
            pos,
            unbounded(dialect),
            no_room(),
            lower,
            done,
        ) == built_members(b, pos, unbounded(dialect), no_room(), depth, done),
    decreases b.len() - pos, 1nat,
{
    match next_at(b, pos, dialect, RBRACE, done.len() == 0) {
        Ok(NextAt::Item(p)) => {
            reveal(built_key);
            match built_key(b, p, unbounded(dialect), no_room()) {
                Ok((v, key, keyed)) => if pos < v <= b.len() {
                    read_at_lower_depth(b, v, dialect, depth, lower);
                    crate::laws::forms::built_unbounded(b, v, unbounded(dialect), no_room(), depth);
                    match built(b, v, unbounded(dialect), no_room(), depth) {
                        Ok((e, read, _)) => if v < e <= b.len() {
                            read_members_at_lower_depth(b, e, dialect, depth, lower, merged(done, key, read));
                        },
                        Err(_) => {},
                    }
                },
                Err(_) => {},
            }
        },
        _ => {},
    }
}

/// A value that reads is skipped to its end under every check, at its depth or a
/// lower one.
pub(crate) proof fn read_value_is_skipped(b: Seq<u8>, start: int, ctx: WalkCtx, check: Check, depth: int, lower: int)
    requires
        0 <= start <= b.len(),
        ctx.max == MAX_NESTING,
        lower <= depth,
        built(b, start, unbounded(ctx.dialect), no_room(), depth) is Ok,
    ensures
        value_end(b, start, ctx.under(check), lower) == Ok::<int, Error>(
            built(b, start, unbounded(ctx.dialect), no_room(), depth)->Ok_0.0,
        ),
        start < built(b, start, unbounded(ctx.dialect), no_room(), depth)->Ok_0.0 <= b.len(),
        built(b, start, unbounded(ctx.dialect), no_room(), depth)->Ok_0.2 == no_room(),
{
    parse_agrees_with_strict_skip(b, start, ctx.dialect, depth);
    skip_at_lower_depth(b, start, strict_ctx(ctx.dialect), depth, lower);
    valid_value_is_located(b, start, MAX_NESTING, ctx.dialect, lower);
}


/// A kept hit stands at its rank.
pub(crate) proof fn kept_at_rank(opts: Seq<Option<DemandModel>>, i: int)
    requires
        0 <= i < opts.len(),
        opts[i] is Some,
    ensures
        0 <= rank(opts, i) < kept(opts).len(),
        kept(opts)[rank(opts, i)] == opts[i]->0,
    decreases opts.len(),
{
    rank_in_range(opts, i);
    let head = opts.drop_last();
    if i == opts.len() - 1 {
        assert(opts.take(i) =~= head);
    } else {
        assert(head[i] == opts[i]);
        kept_at_rank(head, i);
        assert(head.take(i) =~= opts.take(i));
    }
}

proof fn kept_are_paths(opts: Seq<Option<DemandModel>>)
    requires
        forall|i: int| 0 <= i < opts.len() ==> ((#[trigger] opts[i]) matches Some(d) ==> is_path(d)),
    ensures
        all_paths(kept(opts)),
    decreases opts.len(),
{
    if opts.len() > 0 {
        let rest = opts.drop_last();
        assert forall|i: int| 0 <= i < rest.len() implies ((#[trigger] rest[i]) matches Some(d) ==> is_path(d)) by {
            assert(rest[i] == opts[i]);
        }
        kept_are_paths(rest);
        assert(opts.last() == opts[opts.len() - 1]);
    }
}

proof fn array_hits_are_paths(hits: Seq<DemandModel>, index: int)
    requires
        all_paths(hits),
    ensures
        all_paths(kept(array_hits(hits, index))),
{
    let opts = array_hits(hits, index);
    assert forall|i: int| 0 <= i < opts.len() implies ((#[trigger] opts[i]) matches Some(d) ==> is_path(d)) by {
        assert(is_path(hits[i]));
    }
    kept_are_paths(opts);
}

proof fn object_hits_are_paths(hits: Seq<DemandModel>, name: Seq<u8>)
    requires
        all_paths(hits),
    ensures
        all_paths(kept(object_hits(hits, name))),
{
    let opts = object_hits(hits, name);
    assert forall|i: int| 0 <= i < opts.len() implies ((#[trigger] opts[i]) matches Some(d) ==> is_path(d)) by {
        assert(is_path(hits[i]));
    }
    kept_are_paths(opts);
}

/// Paths ask no oracle.
proof fn paths_ask_no_oracle(
    b: Seq<u8>,
    start: int,
    kind: ValueKind,
    hits: Seq<DemandModel>,
    n: nat,
    entering: bool,
    ctx: WalkCtx,
    depth: int,
)
    requires
        all_paths(hits),
        n <= hits.len(),
    ensures
        oracles(b, start, kind, hits, n, entering, ctx, depth) matches Ok((marks, reach)) && reach == start && marks.len() == n
            && forall|i: int| 0 <= i < n ==> #[trigger] marks[i] == MarkModel::Missing,
    decreases n,
{
    if n > 0 {
        paths_ask_no_oracle(b, start, kind, hits, (n - 1) as nat, entering, ctx, depth);
        assert(is_path(hits[n - 1]));
    }
}

/// What a walk found for every hit.
spec fn all_fit(
    b: Seq<u8>,
    dialect: Dialect,
    hits: Seq<DemandModel>,
    marks: Seq<MarkModel>,
    j: Json,
    start: int,
    depth: int,
) -> bool {
    &&& marks.len() == hits.len()
    &&& forall|i: int|
        0 <= i < hits.len() ==> mark_fits(
            b,
            dialect,
            #[trigger] marks[i],
            tree_at(j, steps_of(hits[i])),
            spot(b, start, dialect, depth, steps_of(hits[i])),
        )
}

/// Whether a walk of a value that reads as `j` and ends at `e` found what every
/// path leads to.
spec fn finds(
    b: Seq<u8>,
    dialect: Dialect,
    hits: Seq<DemandModel>,
    walked: Result<Walked, Error>,
    j: Json,
    e: int,
    start: int,
    depth: int,
) -> bool {
    match walked {
        Ok(w) => !w.stopped && w.end == e && all_fit(b, dialect, hits, w.marks, j, start, depth),
        Err(_) => false,
    }
}

/// What a walk needs to know of the value at `start`.
spec fn reads(b: Seq<u8>, start: int, ctx: WalkCtx, depth: int, lower: int, j: Json, e: int) -> bool {
    &&& 0 <= start < b.len() <= usize::MAX
    &&& ctx.max == MAX_NESTING
    &&& 0 <= lower <= depth
    &&& built(b, start, unbounded(ctx.dialect), no_room(), depth) == Ok::<(int, Json, Room), Error>((e, j, no_room()))
    &&& settles(b, e, ctx.dialect)
}

/// An element loop's mark of one path, `done` elements in.
spec fn element_fits(
    b: Seq<u8>,
    dialect: Dialect,
    h: DemandModel,
    mark: MarkModel,
    done: Seq<Json>,
    starts: Seq<int>,
    depth: int,
) -> bool {
    match h {
        DemandModel::Path { steps, .. } => steps.len() > 0 ==> match steps[0] {
            StepModel::Key(_) => mark is Missing,
            StepModel::Index(i) => if 0 <= i < done.len() {
                mark_fits(
                    b,
                    dialect,
                    mark,
                    tree_at(done[i as int], steps.skip(1)),
                    spot(b, starts[i as int], dialect, depth, steps.skip(1)),
                )
            } else {
                mark is Missing
            },
        },
        _ => true,
    }
}

spec fn elements_fit(
    b: Seq<u8>,
    dialect: Dialect,
    hits: Seq<DemandModel>,
    marks: Seq<MarkModel>,
    done: Seq<Json>,
    starts: Seq<int>,
    depth: int,
) -> bool {
    &&& marks.len() == hits.len()
    &&& forall|i: int| 0 <= i < hits.len() ==> element_fits(b, dialect, hits[i], #[trigger] marks[i], done, starts, depth)
}

/// Where spans start.
spec fn starts_of(spans: Seq<ByteRange>) -> Seq<int> {
    Seq::new(spans.len(), |k: int| spans[k].start as int)
}

/// Whether a span past `start` is that of a value read at a depth.
spec fn span_read(b: Seq<u8>, dialect: Dialect, start: int, s: ByteRange, x: Json, depth: int) -> bool {
    &&& start < s.start < s.end <= b.len()
    &&& trivia_end(b, s.start as int, dialect) == Ok::<int, Error>(s.start as int)
    &&& built(b, s.start as int, unbounded(dialect), no_room(), depth) == Ok::<(int, Json, Room), Error>(
        (s.end as int, x, no_room()),
    )
    &&& settles(b, s.end as int, dialect)
}

/// Whether element spans are those of the elements read.
spec fn spans_read(b: Seq<u8>, dialect: Dialect, start: int, spans: Seq<ByteRange>, done: Seq<Json>, depth: int) -> bool {
    &&& spans.len() == done.len()
    &&& forall|k: int| 0 <= k < done.len() ==> span_read(b, dialect, start, #[trigger] spans[k], done[k], depth)
}

/// A member loop's mark of one path, after the members in `done`.
spec fn member_fits(
    b: Seq<u8>,
    dialect: Dialect,
    h: DemandModel,
    mark: MarkModel,
    done: Seq<(Seq<u8>, Json)>,
    places: Seq<(Seq<u8>, int)>,
    depth: int,
) -> bool {
    match h {
        DemandModel::Path { steps, .. } => steps.len() > 0 ==> match steps[0] {
            StepModel::Index(_) => mark is Missing,
            StepModel::Key(name) => {
                let k = key_position(done, name, 0);
                if k < done.len() {
                    mark_fits(
                        b,
                        dialect,
                        mark,
                        tree_at(done[k].1, steps.skip(1)),
                        match last_start(places, name) {
                            Some(v) => spot(b, v, dialect, depth, steps.skip(1)),
                            None => None,
                        },
                    )
                } else {
                    mark is Missing
                }
            },
        },
        _ => true,
    }
}

spec fn members_fit(
    b: Seq<u8>,
    dialect: Dialect,
    hits: Seq<DemandModel>,
    marks: Seq<MarkModel>,
    done: Seq<(Seq<u8>, Json)>,
    places: Seq<(Seq<u8>, int)>,
    depth: int,
) -> bool {
    &&& marks.len() == hits.len()
    &&& forall|i: int| 0 <= i < hits.len() ==> member_fits(b, dialect, hits[i], #[trigger] marks[i], done, places, depth)
}

pub(crate) proof fn position_of(done: Seq<(Seq<u8>, Json)>, key: Seq<u8>, i: int)
    requires
        0 <= i <= done.len(),
    ensures
        i <= key_position(done, key, i) <= done.len(),
        key_position(done, key, i) < done.len() ==> done[key_position(done, key, i)].0 == key,
        forall|k: int| i <= k < key_position(done, key, i) ==> (#[trigger] done[k]).0 != key,
    decreases done.len() - i,
{
    if i < done.len() && done[i].0 != key {
        position_of(done, key, i + 1);
    }
}

pub(crate) proof fn position_is(done: Seq<(Seq<u8>, Json)>, key: Seq<u8>, i: int, at: int)
    requires
        0 <= i <= at <= done.len(),
        at < done.len() ==> done[at].0 == key,
        forall|k: int| i <= k < at ==> (#[trigger] done[k]).0 != key,
    ensures
        key_position(done, key, i) == at,
    decreases at - i,
{
    if i < at {
        assert(done[i].0 != key);
        position_is(done, key, i + 1, at);
    }
}

/// Merging a member changes the lookup of its own name only.
pub(crate) proof fn merged_lookup(done: Seq<(Seq<u8>, Json)>, key: Seq<u8>, value: Json, name: Seq<u8>)
    ensures
        ({
            let after = merged(done, key, value);
            let k = key_position(after, name, 0);
            &&& name == key ==> k < after.len() && after[k].1 == value
            &&& name != key ==> (k < after.len() <==> key_position(done, name, 0) < done.len())
            &&& name != key && k < after.len() ==> after[k] == done[key_position(done, name, 0)]
        }),
{
    let after = merged(done, key, value);
    position_of(done, key, 0);
    position_of(done, name, 0);
    let at_key = key_position(done, key, 0);
    let at_name = key_position(done, name, 0);
    if name == key {
        assert forall|k: int| 0 <= k < at_key implies (#[trigger] after[k]).0 != key by {
            assert(after[k] == done[k]);
        }
        position_is(after, key, 0, at_key);
    } else if at_name < done.len() {
        assert(after[at_name] == done[at_name]);
        assert forall|k: int| 0 <= k < at_name implies (#[trigger] after[k]).0 != name by {
            if k != at_key {
                assert(after[k] == done[k]);
            }
        }
        position_is(after, name, 0, at_name);
    } else {
        assert forall|k: int| 0 <= k < after.len() implies (#[trigger] after[k]).0 != name by {
            if k != at_key {
                assert(after[k] == done[k]);
            }
        }
        position_is(after, name, 0, after.len() as int);
    }
}

/// With distinct names the first member of a name is the last.
pub(crate) proof fn only_member(members: Seq<(Seq<u8>, Json)>, name: Seq<u8>)
    requires
        forall|i: int, k: int| 0 <= i < k < members.len() ==> (#[trigger] members[i]).0 != (#[trigger] members[k]).0,
    ensures
        last_member(members, name) == (if key_position(members, name, 0) < members.len() {
            Some(key_position(members, name, 0))
        } else {
            None
        }),
{
    position_of(members, name, 0);
    last_member_facts(members, name);
    match last_member(members, name) {
        Some(i) => {
            let k = key_position(members, name, 0);
            if k < members.len() && k < i {
                assert(members[k].0 != members[i].0);
            }
        },
        None => {},
    }
}


/// The whole value is found where it stands.
proof fn whole_fits(b: Seq<u8>, start: int, ctx: WalkCtx, depth: int, lower: int, j: Json, e: int)
    requires
        reads(b, start, ctx, depth, lower, j, e),
    ensures
        start < e <= b.len(),
        mark_fits(b, ctx.dialect, MarkModel::Span(span(start, e)), Some(j), Some(start)),
{
    read_value_is_skipped(b, start, ctx, Check::Values, depth, lower);
    read_at_lower_depth(b, start, ctx.dialect, depth, 0);
}

/// A walk finds what every path leads to.
proof fn walk_finds(
    b: Seq<u8>,
    pos: int,
    start: int,
    hits: Seq<DemandModel>,
    ctx: WalkCtx,
    depth: int,
    lower: int,
    env: Env,
    j: Json,
    e: int,
)
    requires
        0 <= pos <= start,
        trivia_end(b, pos, ctx.dialect) == Ok::<int, Error>(start),
        reads(b, start, ctx, depth, lower, j, e),
        all_paths(hits),
    ensures
        finds(b, ctx.dialect, hits, node(b, pos, hits, ctx, lower, env), j, e, start, depth),
    decreases b.len() - pos, 6nat, 0nat,
{
    read_value_is_skipped(b, start, ctx, ctx.unread(), depth, lower);
    if hits.len() > 0 {
        reveal(built_scalar);
        let kind = kind_at(b[start], ctx.dialect);
        assert(kind is Some);
        assert forall|i: int| 0 <= i < hits.len() implies is_path(#[trigger] flat(hits)[i]) && steps_of(flat(hits)[i])
            =~= steps_of(hits[i]) by {
            assert(is_path(hits[i]));
        }
        node_of_finds(b, start, kind->0, flat(hits), ctx, depth, lower, env, j, e);
        let w = node_of(b, start, kind->0, flat(hits), ctx, lower, env)->Ok_0;
        assert forall|i: int| 0 <= i < hits.len() implies mark_fits(
            b,
            ctx.dialect,
            #[trigger] w.marks[i],
            tree_at(j, steps_of(hits[i])),
            spot(b, start, ctx.dialect, depth, steps_of(hits[i])),
        ) by {
            assert(steps_of(flat(hits)[i]) == steps_of(hits[i]));
        }
    }
}

/// Paths are not set aside.
proof fn nothing_set_aside(hits: Seq<DemandModel>, answered: Seq<MarkModel>, env: Env)
    requires
        all_paths(hits),
        answered.len() == hits.len(),
    ensures
        beside(hits, env) == hits,
        beside_marks(hits, answered, env) == answered,
{
    assert forall|k: int| 0 <= k < hits.len() implies !takes_row(#[trigger] hits[k]) by {
        assert(is_path(hits[k]));
    }
    assert(beside(hits, env) =~= hits);
    assert(beside_marks(hits, answered, env) =~= answered);
}

proof fn node_of_finds(
    b: Seq<u8>,
    start: int,
    kind: ValueKind,
    hits: Seq<DemandModel>,
    ctx: WalkCtx,
    depth: int,
    lower: int,
    env: Env,
    j: Json,
    e: int,
)
    requires
        reads(b, start, ctx, depth, lower, j, e),
        kind_at(b[start], ctx.dialect) == Some(kind),
        all_paths(hits),
        hits.len() > 0,
        forall|i: int| 0 <= i < hits.len() ==> ((#[trigger] hits[i]) is Path ==> steps_of(hits[i]).len() > 0),
    ensures
        finds(b, ctx.dialect, hits, node_of(b, start, kind, hits, ctx, lower, env), j, e, start, depth),
    decreases b.len() - start, 5nat, 0nat,
{
    paths_ask_no_oracle(b, start, kind, hits, hits.len(), enters(hits, kind), ctx, lower);
    let answered = oracles(b, start, kind, hits, hits.len(), enters(hits, kind), ctx, lower)->Ok_0.0;
    read_value_is_skipped(b, start, ctx, ctx.demanded(), depth, lower);
    whole_fits(b, start, ctx, depth, lower, j, e);
    assert(is_path(hits[0]));
    if exists|i: int| 0 <= i < hits.len() && #[trigger] hits[i] is Path {
        let i = choose|i: int| 0 <= i < hits.len() && #[trigger] hits[i] is Path;
        assert(crate::walk::model::needs_container(hits[i]));
        assert(enters(hits, kind));
        assert(!one_element(hits));
        nothing_set_aside(hits, answered, env);
        if kind == ValueKind::Array {
            array_finds(b, start, hits, answered, ctx, depth, lower, env, j, e);
        } else if kind == ValueKind::Object {
            object_finds(b, start, hits, answered, ctx, depth, lower, env, j, e);
        } else {
            reveal(built_scalar);
            let marks = terminal_marks(hits, answered, start, e, kind);
            assert forall|k: int| 0 <= k < hits.len() implies mark_fits(
                b,
                ctx.dialect,
                #[trigger] marks[k],
                tree_at(j, steps_of(hits[k])),
                spot(b, start, ctx.dialect, depth, steps_of(hits[k])),
            ) by {
                assert(is_path(hits[k]));
                assert(hits[k] is Path ==> steps_of(hits[k]).len() > 0);
            }
        }
    } else {
        assert(!enters(hits, kind)) by {
            assert forall|k: int| 0 <= k < hits.len() implies !(crate::walk::model::needs_container(#[trigger] hits[k]) || hits[k]
                is Oracle) by {
                assert(is_path(hits[k]));
            }
        }
        assert(crate::walk::model::only_located(hits)) by {
            assert forall|k: int| 0 <= k < hits.len() implies (#[trigger] hits[k] is Oracle || hits[k] is Whole) by {
                assert(is_path(hits[k]));
            }
        }
        reveal(located);
        let marks = terminal_marks(hits, answered, start, e, kind);
        assert forall|k: int| 0 <= k < hits.len() implies mark_fits(
            b,
            ctx.dialect,
            #[trigger] marks[k],
            tree_at(j, steps_of(hits[k])),
            spot(b, start, ctx.dialect, depth, steps_of(hits[k])),
        ) by {
            assert(is_path(hits[k]));
        }
    }
}

/// A container's child finds what the paths that reach it lead to.
proof fn child_finds(
    b: Seq<u8>,
    p: int,
    reaching: Seq<DemandModel>,
    hits: Seq<DemandModel>,
    ctx: WalkCtx,
    depth: int,
    lower: int,
    env: Env,
    j: Json,
    e: int,
)
    requires
        trivia_end(b, p, ctx.dialect) == Ok::<int, Error>(p),
        reads(b, p, ctx, depth, lower, j, e),
        all_paths(reaching),
    ensures
        finds(b, ctx.dialect, reaching, child(b, p, reaching, hits, ctx, lower, env), j, e, p, depth),
        p < e <= b.len(),
    decreases b.len() - p, 7nat, 0nat,
{
    read_value_is_skipped(b, p, ctx, ctx.demanded(), depth, lower);
    read_value_is_skipped(b, p, ctx, ctx.unread(), depth, lower);
    if reaching.len() > 0 {
        walk_finds(b, p, p, reaching, ctx, depth, lower, env, j, e);
    }
}

proof fn array_finds(
    b: Seq<u8>,
    start: int,
    hits: Seq<DemandModel>,
    answered: Seq<MarkModel>,
    ctx: WalkCtx,
    depth: int,
    lower: int,
    env: Env,
    j: Json,
    e: int,
)
    requires
        reads(b, start, ctx, depth, lower, j, e),
        b[start] == LBRACKET,
        all_paths(hits),
        hits.len() > 0,
        forall|i: int| 0 <= i < hits.len() ==> ((#[trigger] hits[i]) is Path ==> steps_of(hits[i]).len() > 0),
        answered.len() == hits.len(),
        forall|i: int| 0 <= i < hits.len() ==> #[trigger] answered[i] == MarkModel::Missing,
    ensures
        finds(b, ctx.dialect, hits, array(b, start, hits, answered, ctx, lower, env), j, e, start, depth),
    decreases b.len() - start, 4nat, 0nat,
{
    assert(is_path(hits[0]));
    assert(!crate::walk::model::all_rows(hits)) by {
        assert(!crate::walk::model::flat_row(hits[0]));
    }
    assert(is_path(hits[hits.len() - 1]));
    assert(prefix_window(hits) is None);
    let read = j->Array_0;
    let first = ArrayState {
        pos: start + 1,
        idx: 0,
        spans: Seq::empty(),
        marks: opened(hits, answered),
        stopped: false,
    };
    assert forall|i: int| 0 <= i < hits.len() implies element_fits(
        b,
        ctx.dialect,
        hits[i],
        #[trigger] first.marks[i],
        Seq::empty(),
        Seq::empty(),
        depth + 1,
    ) by {
        assert(is_path(hits[i]));
    }
    assert(starts_of(first.spans) =~= Seq::<int>::empty());
    elements_find(b, start, first, hits, ctx, depth + 1, lower + 1, Seq::empty(), read, e);
    let st = elements(b, first, hits, ctx, lower + 1, None)->Ok_0;
    finish_array_finds(b, start, hits, hits.len(), st, ctx, depth, lower, env, j, e);
}

proof fn elements_find(
    b: Seq<u8>,
    start: int,
    st: ArrayState,
    hits: Seq<DemandModel>,
    ctx: WalkCtx,
    depth: int,
    lower: int,
    done: Seq<Json>,
    read: Seq<Json>,
    e: int,
)
    requires
        0 <= start < st.pos <= b.len() <= usize::MAX,
        ctx.max == MAX_NESTING,
        0 <= lower <= depth,
        all_paths(hits),
        built_items(b, st.pos, unbounded(ctx.dialect), no_room(), depth, done) == Ok::<(int, Seq<Json>, Room), Error>(
            (e, read, no_room()),
        ),
        st.idx == done.len(),
        !st.stopped,
        elements_fit(b, ctx.dialect, hits, st.marks, done, starts_of(st.spans), depth),
        spans_read(b, ctx.dialect, start, st.spans, done, depth),
    ensures
        elements(b, st, hits, ctx, lower, None) matches Ok(last) && !last.stopped && last.pos == e && last.idx == read.len()
            && elements_fit(b, ctx.dialect, hits, last.marks, read, starts_of(last.spans), depth) && item_starts(
            b,
            st.pos,
            ctx.dialect,
            depth,
            starts_of(st.spans),
        ) == starts_of(last.spans) && spans_read(
            b,
            ctx.dialect,
            start,
            last.spans,
            read,
            depth,
        ),
    decreases b.len() - st.pos, 8nat, 0nat,
{
    items_unfold(b, st.pos, ctx.dialect, depth, done);
    match next_at(b, st.pos, ctx.dialect, RBRACKET, done.len() == 0) {
        Ok(NextAt::Item(p)) => {
            let (end, item, left) = built(b, p, unbounded(ctx.dialect), no_room(), depth)->Ok_0;
            let opts = array_hits(hits, st.idx);
            array_hits_are_paths(hits, st.idx);
            child_finds(b, p, kept(opts), hits, ctx, depth, lower, element_env(), item, end);
            let w = child(b, p, kept(opts), hits, ctx, lower, element_env())->Ok_0;
            let next = next_element(st, hits, opts, w, p);
            let more = done.push(item);
            assert(starts_of(next.spans) =~= starts_of(st.spans).push(p));
            assert forall|i: int| 0 <= i < hits.len() implies element_fits(
                b,
                ctx.dialect,
                hits[i],
                #[trigger] next.marks[i],
                more,
                starts_of(next.spans),
                depth,
            ) by {
                assert(is_path(hits[i]));
                assert(element_fits(b, ctx.dialect, hits[i], st.marks[i], done, starts_of(st.spans), depth));
                if opts[i] is Some {
                    kept_at_rank(opts, i);
                    assert(mark_fits(
                        b,
                        ctx.dialect,
                        w.marks[rank(opts, i)],
                        tree_at(item, steps_of(opts[i]->0)),
                        spot(b, p, ctx.dialect, depth, steps_of(opts[i]->0)),
                    ));
                    assert(steps_of(opts[i]->0) =~= steps_of(hits[i]).skip(1));
                }
            }
            assert forall|k: int| 0 <= k < more.len() implies span_read(
                b,
                ctx.dialect,
                start,
                #[trigger] next.spans[k],
                more[k],
                depth,
            ) by {
                if k < done.len() {
                    assert(next.spans[k] == st.spans[k]);
                }
            }
            elements_find(b, start, next, hits, ctx, depth, lower, more, read, e);
        },
        _ => {},
    }
}

proof fn finish_array_finds(
    b: Seq<u8>,
    start: int,
    hits: Seq<DemandModel>,
    n: nat,
    st: ArrayState,
    ctx: WalkCtx,
    depth: int,
    lower: int,
    env: Env,
    j: Json,
    e: int,
)
    requires
        reads(b, start, ctx, depth, lower, j, e),
        j is Array,
        all_paths(hits),
        n <= hits.len(),
        forall|i: int| 0 <= i < hits.len() ==> ((#[trigger] hits[i]) is Path ==> steps_of(hits[i]).len() > 0),
        st.pos == e,
        st.idx == j->Array_0.len(),
        elements_fit(b, ctx.dialect, hits, st.marks, j->Array_0, starts_of(st.spans), depth + 1),
        starts_of(st.spans) == item_starts(b, start + 1, ctx.dialect, depth + 1, Seq::empty()),
        spans_read(b, ctx.dialect, start, st.spans, j->Array_0, depth + 1),
    ensures
        finish_array(b, start, hits, n, st, ctx, lower, env) matches Ok(marks) && marks.len() == n && forall|i: int|
            0 <= i < n ==> mark_fits(
                b,
                ctx.dialect,
                #[trigger] marks[i],
                tree_at(j, steps_of(hits[i])),
                spot(b, start, ctx.dialect, depth, steps_of(hits[i])),
            ),
    decreases b.len() - start, 3nat, n,
{
    if n > 0 {
        finish_array_finds(b, start, hits, (n - 1) as nat, st, ctx, depth, lower, env, j, e);
        let i = n - 1;
        assert(is_path(hits[i]));
        assert(element_fits(b, ctx.dialect, hits[i], st.marks[i], j->Array_0, starts_of(st.spans), depth + 1));
        let spans = spans_for(hits[i], st.spans);
        array_mark_finds(b, start, hits, i, spans, st, ctx, depth, lower, env, j, e);
    }
}

proof fn array_mark_finds(
    b: Seq<u8>,
    start: int,
    hits: Seq<DemandModel>,
    i: int,
    spans: Seq<ByteRange>,
    st: ArrayState,
    ctx: WalkCtx,
    depth: int,
    lower: int,
    env: Env,
    j: Json,
    e: int,
)
    requires
        reads(b, start, ctx, depth, lower, j, e),
        j is Array,
        0 <= i < hits.len(),
        is_path(hits[i]),
        hits[i] is Path ==> steps_of(hits[i]).len() > 0,
        st.pos == e,
        st.idx == j->Array_0.len(),
        element_fits(b, ctx.dialect, hits[i], st.marks[i], j->Array_0, starts_of(st.spans), depth + 1),
        starts_of(st.spans) == item_starts(b, start + 1, ctx.dialect, depth + 1, Seq::empty()),
        spans_read(b, ctx.dialect, start, st.spans, j->Array_0, depth + 1),
        spans == spans_for(hits[i], st.spans),
    ensures
        array_mark(b, start, hits[i], st.marks[i], spans, st, ctx, lower, env) matches Ok(mark) && mark_fits(
            b,
            ctx.dialect,
            mark,
            tree_at(j, steps_of(hits[i])),
            spot(b, start, ctx.dialect, depth, steps_of(hits[i])),
        ),
    decreases b.len() - start, 2nat, 0nat,
{
    whole_fits(b, start, ctx, depth, lower, j, e);
    match hits[i] {
        DemandModel::Path { steps, nested } => match steps[0] {
            StepModel::Index(index) => {
                let read = j->Array_0;
                if index < 0 {
                    assert(crate::walk::model::from_end(steps));
                }
                match resolved(st.idx, index as int) {
                    Some(k) => {
                        assert(0 <= k < read.len());
                        if k < spans.len() {
                            assert(span_read(b, ctx.dialect, start, st.spans[k], read[k], depth + 1));
                            let h = after_step(steps, nested);
                            let s = spans[k];
                            walk_finds(
                                b,
                                s.start as int,
                                s.start as int,
                                seq![h],
                                ctx,
                                depth + 1,
                                lower,
                                Env { element: env.element, may_stop: false, lane: false },
                                read[k],
                                s.end as int,
                            );
                            assert(steps_of(h) =~= steps.skip(1));
                            let w = node(
                                b,
                                s.start as int,
                                seq![h],
                                ctx,
                                lower,
                                Env { element: env.element, may_stop: false, lane: false },
                            )->Ok_0;
                            assert(mark_fits(
                                b,
                                ctx.dialect,
                                w.marks[0],
                                tree_at(read[k], steps_of(seq![h][0])),
                                spot(b, s.start as int, ctx.dialect, depth + 1, steps_of(seq![h][0])),
                            ));
                        }
                    },
                    None => {},
                }
            },
            StepModel::Key(_) => {},
        },
        _ => {},
    }
}

proof fn object_finds(
    b: Seq<u8>,
    start: int,
    hits: Seq<DemandModel>,
    answered: Seq<MarkModel>,
    ctx: WalkCtx,
    depth: int,
    lower: int,
    env: Env,
    j: Json,
    e: int,
)
    requires
        reads(b, start, ctx, depth, lower, j, e),
        b[start] == LBRACE,
        all_paths(hits),
        hits.len() > 0,
        forall|i: int| 0 <= i < hits.len() ==> ((#[trigger] hits[i]) is Path ==> steps_of(hits[i]).len() > 0),
        answered.len() == hits.len(),
        forall|i: int| 0 <= i < hits.len() ==> #[trigger] answered[i] == MarkModel::Missing,
    ensures
        finds(b, ctx.dialect, hits, object(b, start, hits, answered, ctx, lower, env), j, e, start, depth),
    decreases b.len() - start, 4nat, 0nat,
{
    assert(is_path(hits[0]));
    assert(!crate::walk::model::all_rows(hits)) by {
        assert(!crate::walk::model::flat_row(hits[0]));
    }
    let read = j->Object_0;
    let first = MemberState { pos: start + 1, first: true, marks: answered, members: Seq::empty(), stopped: false };
    assert forall|i: int| 0 <= i < hits.len() implies member_fits(
        b,
        ctx.dialect,
        hits[i],
        #[trigger] first.marks[i],
        Seq::empty(),
        Seq::empty(),
        depth + 1,
    ) by {}
    object_members_find(b, first, hits, ctx, depth + 1, lower + 1, env, Seq::empty(), Seq::empty(), read, e);
    let st = crate::walk::model::members(b, first, hits, ctx, lower + 1, env)->Ok_0;
    crate::laws::parse::read_object_is_distinct(b, start, ctx.dialect, depth);
    finish_object_finds(b, start, hits, hits.len(), st, ctx, depth, lower, env, j, e);
}

proof fn object_members_find(
    b: Seq<u8>,
    st: MemberState,
    hits: Seq<DemandModel>,
    ctx: WalkCtx,
    depth: int,
    lower: int,
    env: Env,
    done: Seq<(Seq<u8>, Json)>,
    places: Seq<(Seq<u8>, int)>,
    read: Seq<(Seq<u8>, Json)>,
    e: int,
)
    requires
        0 < st.pos <= b.len() <= usize::MAX,
        ctx.max == MAX_NESTING,
        0 <= lower <= depth,
        all_paths(hits),
        built_members(b, st.pos, unbounded(ctx.dialect), no_room(), depth, done) == Ok::<
            (int, Seq<(Seq<u8>, Json)>, Room),
            Error,
        >((e, read, no_room())),
        st.first == (done.len() == 0),
        !st.stopped,
        st.members.len() == 0,
        members_fit(b, ctx.dialect, hits, st.marks, done, places, depth),
        done.len() == 0 <==> places.len() == 0,
    ensures
        crate::walk::model::members(b, st, hits, ctx, lower, env) matches Ok(last) && !last.stopped && last.pos == e
            && last.members.len() == 0 && members_fit(
            b,
            ctx.dialect,
            hits,
            last.marks,
            read,
            member_starts(b, st.pos, ctx.dialect, depth, places),
            depth,
        ),
    decreases b.len() - st.pos, 8nat, 0nat,
{
    members_unfold(b, st.pos, ctx.dialect, depth, done);
    match next_at(b, st.pos, ctx.dialect, RBRACE, done.len() == 0) {
        Ok(NextAt::Item(p)) => {
            let (v, name, keyed) = built_key(b, p, unbounded(ctx.dialect), no_room())->Ok_0;
            let (end, value, left) = built(b, v, unbounded(ctx.dialect), no_room(), depth)->Ok_0;
            reveal(built_key);
            let opts = object_hits(hits, name);
            object_hits_are_paths(hits, name);
            let inner = member_env(env, opts, hits);
            child_finds(b, v, kept(opts), hits, ctx, depth, lower, inner, value, end);
            let w = child(b, v, kept(opts), hits, ctx, lower, inner)->Ok_0;
            let next = next_member(st, hits, opts, name, w, v);
            assert(!crate::walk::model::keeps_members(hits)) by {
                assert forall|i: int| 0 <= i < hits.len() implies !(crate::walk::model::flat_row(#[trigger] hits[i]) || hits[i]
                    is Oracle) by {
                    assert(is_path(hits[i]));
                }
            }
            let more = merged(done, name, value);
            position_of(done, name, 0);
            assert(more.len() != 0);
            let grown = places.push((name, v));
            assert(grown.drop_last() =~= places);
            assert forall|i: int| 0 <= i < hits.len() implies member_fits(
                b,
                ctx.dialect,
                hits[i],
                #[trigger] next.marks[i],
                more,
                grown,
                depth,
            ) by {
                assert(is_path(hits[i]));
                assert(member_fits(b, ctx.dialect, hits[i], st.marks[i], done, places, depth));
                if steps_of(hits[i]).len() > 0 {
                    match steps_of(hits[i])[0] {
                        StepModel::Key(other) => merged_lookup(done, name, value, other),
                        _ => {},
                    }
                }
                if opts[i] is Some {
                    kept_at_rank(opts, i);
                    assert(mark_fits(
                        b,
                        ctx.dialect,
                        w.marks[rank(opts, i)],
                        tree_at(value, steps_of(opts[i]->0)),
                        spot(b, v, ctx.dialect, depth, steps_of(opts[i]->0)),
                    ));
                    assert(steps_of(opts[i]->0) =~= steps_of(hits[i]).skip(1));
                }
            }
            object_members_find(b, next, hits, ctx, depth, lower, env, more, grown, read, e);
        },
        _ => {},
    }
}

proof fn finish_object_finds(
    b: Seq<u8>,
    start: int,
    hits: Seq<DemandModel>,
    n: nat,
    st: MemberState,
    ctx: WalkCtx,
    depth: int,
    lower: int,
    env: Env,
    j: Json,
    e: int,
)
    requires
        reads(b, start, ctx, depth, lower, j, e),
        j is Object,
        forall|i: int, k: int|
            0 <= i < k < j->Object_0.len() ==> (#[trigger] j->Object_0[i]).0 != (#[trigger] j->Object_0[k]).0,
        all_paths(hits),
        n <= hits.len(),
        forall|i: int| 0 <= i < hits.len() ==> ((#[trigger] hits[i]) is Path ==> steps_of(hits[i]).len() > 0),
        st.pos == e,
        st.members.len() == 0,
        members_fit(b, ctx.dialect, hits, st.marks, j->Object_0, member_starts(b, start + 1, ctx.dialect, depth + 1, Seq::empty()), depth + 1),
    ensures
        forall|i: int|
            0 <= i < n ==> mark_fits(
                b,
                ctx.dialect,
                #[trigger] finish_object(b, start, hits, st, ctx.dialect)[i],
                tree_at(j, steps_of(hits[i])),
                spot(b, start, ctx.dialect, depth, steps_of(hits[i])),
            ),
    decreases b.len() - start, 3nat, n,
{
    if n > 0 {
        finish_object_finds(b, start, hits, (n - 1) as nat, st, ctx, depth, lower, env, j, e);
        let i = n - 1;
        assert(is_path(hits[i]));
        assert(member_fits(b, ctx.dialect, hits[i], st.marks[i], j->Object_0, member_starts(b, start + 1, ctx.dialect, depth + 1, Seq::empty()), depth + 1));
        object_mark_finds(b, start, hits[i], st.marks[i], st, ctx, depth, lower, env, j, e);
    }
}

proof fn object_mark_finds(
    b: Seq<u8>,
    start: int,
    h: DemandModel,
    mark: MarkModel,
    st: MemberState,
    ctx: WalkCtx,
    depth: int,
    lower: int,
    env: Env,
    j: Json,
    e: int,
)
    requires
        reads(b, start, ctx, depth, lower, j, e),
        j is Object,
        forall|i: int, k: int|
            0 <= i < k < j->Object_0.len() ==> (#[trigger] j->Object_0[i]).0 != (#[trigger] j->Object_0[k]).0,
        is_path(h),
        h is Path ==> steps_of(h).len() > 0,
        st.pos == e,
        st.members.len() == 0,
        member_fits(b, ctx.dialect, h, mark, j->Object_0, member_starts(b, start + 1, ctx.dialect, depth + 1, Seq::empty()), depth + 1),
    ensures
        mark_fits(
            b,
            ctx.dialect,
            object_mark(b, start, h, mark, st, ctx.dialect),
            tree_at(j, steps_of(h)),
            spot(b, start, ctx.dialect, depth, steps_of(h)),
        ),
{
    whole_fits(b, start, ctx, depth, lower, j, e);
    match h {
        DemandModel::Path { steps, nested } => match steps[0] {
            StepModel::Key(name) => {
                let read = j->Object_0;
                only_member(read, name);
                position_of(read, name, 0);
                let k = key_position(read, name, 0);
                assert(tree_at(j, steps) == (if k < read.len() {
                    tree_at(read[k].1, steps.skip(1))
                } else {
                    None
                }));
            },
            StepModel::Index(_) => {
                assert(tree_at(j, steps) is None);
            },
        },
        _ => {},
    }
}

/// The value of a text: one value with nothing but trivia around it.
pub open spec fn text_value(b: Seq<u8>, dialect: Dialect) -> Result<Json, Error> {
    match trivia_end(b, text_start(b), dialect) {
        Err(error) => Err(error),
        Ok(pos) => match built(b, pos, unbounded(dialect), no_room(), 0) {
            Err(error) => Err(error),
            Ok((end, j, _)) => match trivia_end(b, end, dialect) {
                Err(error) => Err(error),
                Ok(tail) => if tail < b.len() {
                    Err(at(ErrorKind::TrailingContent, tail))
                } else {
                    Ok(j)
                },
            },
        },
    }
}

/// A parse of a text, into whatever form, is its value; a form may only run out of
/// 32-bit ids besides.
pub proof fn parse_reads_the_text_value(b: Seq<u8>, dialect: Dialect, form: Form, j: Json)
    requires
        b.len() <= usize::MAX,
        text_value(b, dialect) == Ok::<Json, Error>(j),
    ensures
        reads_as(parsed(b, dialect, form), Ok(j)),
{
    let from = text_start(b);
    let s = ByteRange { start: from as usize, end: b.len() as usize };
    let d = DocumentModel { source: b, root: s, grammar: None, facts: Seq::empty() };
    trivia_end_bounds(b, from, dialect);
    let pos = trivia_end(b, from, dialect)->Ok_0;
    parse_agrees_with_strict_skip(b, pos, dialect, 0);
    let e = built(b, pos, unbounded(dialect), no_room(), 0)->Ok_0.0;
    trivia_end_bounds(b, e, dialect);
    text_reads_the_same_behind(b, from, dialect);
    assert(span_bytes(b, s) == cut(b, from, b.len() as int));
    every_form_reads_the_same(AnswerModel::Document(d), dialect, form);
}

/// Whether an answer is that of a lookup: a document that reads as what was found,
/// or that nothing was.
pub open spec fn answer_fits(answer: AnswerModel, found: Option<Json>, dialect: Dialect) -> bool {
    match found {
        Some(x) => {
            &&& answer matches AnswerModel::Document(d) && reads_at(d.source, d.root, x, dialect)
            &&& read_answer(answer, dialect) == Ok::<Json, Error>(x)
        },
        None => answer is Missing || answer is Mismatch,
    }
}

proof fn span_answer_reads(b: Seq<u8>, s: ByteRange, x: Json, dialect: Dialect)
    requires
        reads_at(b, s, x, dialect),
    ensures
        read_span(b, s, dialect) == Ok::<Json, Error>(x),
{
    value_reads_the_same_alone(b, s.start as int, dialect);
    assert(span_bytes(b, s) == cut(b, s.start as int, s.end as int));
}

/// Whether what was found is at its place in the text.
pub(crate) open spec fn answer_placed(b: Seq<u8>, answer: AnswerModel, found: Option<Json>, place: Option<int>) -> bool {
    found is Some ==> (answer matches AnswerModel::Document(d) && d.source == b && place == Some(d.root.start as int))
}

/// Path answers, and where they stand.
pub(crate) proof fn path_answers_are_placed(b: Seq<u8>, ask: Ask, j: Json)
    requires
        b.len() <= usize::MAX,
        ask.input == JsonInput::Text,
        ask.ctx.max == MAX_NESTING,
        all_paths(ask.demands),
        text_value(b, ask.ctx.dialect) == Ok::<Json, Error>(j),
    ensures
        scanned(b, ask) matches Ok((answers, issues)) && issues.len() == 0 && answers.len() == ask.demands.len() && forall|i: int|
            0 <= i < answers.len() ==> answer_fits(
                #[trigger] answers[i],
                tree_at(j, steps_of(ask.demands[i])),
                ask.ctx.dialect,
            ),
        forall|i: int|
            0 <= i < ask.demands.len() ==> answer_placed(
                b,
                #[trigger] scanned(b, ask)->Ok_0.0[i],
                tree_at(j, steps_of(ask.demands[i])),
                spot(b, trivia_end(b, text_start(b), ask.ctx.dialect)->Ok_0, ask.ctx.dialect, 0, steps_of(ask.demands[i])),
            ),
{
    let dialect = ask.ctx.dialect;
    let from = text_start(b);
    trivia_end_bounds(b, from, dialect);
    let pos = trivia_end(b, from, dialect)->Ok_0;
    parse_agrees_with_strict_skip(b, pos, dialect, 0);
    let e = built(b, pos, unbounded(dialect), no_room(), 0)->Ok_0.0;
    trivia_end_settles(b, from, dialect);
    reveal(settles);
    walk_finds(b, pos, pos, ask.demands, ask.ctx, 0, 0, root_env(ask), j, e);
    assert(!any_filters_container(ask.demands)) by {
        assert forall|i: int| 0 <= i < ask.demands.len() implies !filters_container(#[trigger] ask.demands[i]) by {
            assert(is_path(ask.demands[i]));
        }
    }
    let w = node(b, pos, ask.demands, ask.ctx, 0, root_env(ask))->Ok_0;
    let answers = scanned(b, ask)->Ok_0.0;
    assert forall|i: int| 0 <= i < answers.len() implies answer_fits(
        #[trigger] answers[i],
        tree_at(j, steps_of(ask.demands[i])),
        dialect,
    ) by {
        if let Some(x) = tree_at(j, steps_of(ask.demands[i])) {
            if let MarkModel::Span(s) = w.marks[i] {
                span_answer_reads(b, s, x, dialect);
            }
        }
    }
    assert forall|i: int| 0 <= i < answers.len() implies answer_placed(
        b,
        #[trigger] answers[i],
        tree_at(j, steps_of(ask.demands[i])),
        spot(b, pos, dialect, 0, steps_of(ask.demands[i])),
    ) by {
        assert(w.marks[i] == w.marks[i]);
    }
}

/// A path demand answers with what a lookup in the parsed value finds: the value
/// the path leads to, or that there is none. This holds in any dialect, at any
/// strictness and whatever other paths are asked for.
pub proof fn path_answers_are_lookups(b: Seq<u8>, ask: Ask, j: Json)
    requires
        b.len() <= usize::MAX,
        ask.input == JsonInput::Text,
        ask.ctx.max == MAX_NESTING,
        all_paths(ask.demands),
        text_value(b, ask.ctx.dialect) == Ok::<Json, Error>(j),
    ensures
        scanned(b, ask) matches Ok((answers, issues)) && issues.len() == 0 && answers.len() == ask.demands.len() && forall|i: int|
            0 <= i < answers.len() ==> answer_fits(
                #[trigger] answers[i],
                tree_at(j, steps_of(ask.demands[i])),
                ask.ctx.dialect,
            ),
{
    path_answers_are_placed(b, ask, j);
}

} // verus!
