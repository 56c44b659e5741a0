//! An index below zero counts from the end of the array.

use vstd::prelude::*;

use crate::answer::AnswerModel;
use crate::ascii::RBRACKET;
use crate::demand::StepModel;
use crate::dialect::Dialect;
use crate::edit::request::at_path;
use crate::error::Error;
use crate::framing::text_start;
use crate::laws::forms::{no_room, unbounded};
use crate::laws::local::items_unfold;
use crate::laws::assign::text_facts;
use crate::laws::paths::{
    answer_fits, answer_placed, item_starts, last_start, member_starts, path_answers_are_placed, read_at_lower_depth, reads_at, spot, steps_of,
    text_value, tree_at,
};
use crate::laws::replace::{opens_as, spot_reads, stands, starts_read};
use crate::lex::skip::{next_at, NextAt, MAX_NESTING};
use crate::lex::ws::trivia_end;
use crate::scan::{scanned, Ask, JsonInput};
use crate::tape::{built, built_items};
use crate::value::{last_member, ByteRange, Json};

verus! {

/// The scan of `like` for nothing but the value at the end of a path.
pub open spec fn asked_at(like: Ask, steps: Seq<StepModel>) -> Ask {
    Ask { demands: seq![at_path(steps)], ..like }
}

/// Where the value that a scan for one path found stands.
pub open spec fn found_at(b: Seq<u8>, ask: Ask) -> Option<ByteRange> {
    match scanned(b, ask) {
        Ok((answers, _)) => match answers[0] {
            AnswerModel::Document(d) => Some(d.root),
            _ => None,
        },
        Err(_) => None,
    }
}

/// Whether a scan gave one answer, that of a lookup that found this.
pub open spec fn one_answer(
    told: Result<(Seq<AnswerModel>, Seq<Error>), Error>,
    found: Option<Json>,
    dialect: Dialect,
) -> bool {
    told matches Ok((answers, issues)) && issues.len() == 0 && answers.len() == 1 && answer_fits(answers[0], found, dialect)
}

/// The place of a longer path is a step from the place of the shorter one.
pub(crate) proof fn spot_steps_on(b: Seq<u8>, start: int, dialect: Dialect, depth: int, before: Seq<StepModel>, step: StepModel)
    requires
        spot(b, start, dialect, depth, before) is Some,
    ensures
        spot(b, start, dialect, depth, before.push(step)) == spot(
            b,
            spot(b, start, dialect, depth, before)->0,
            dialect,
            depth + before.len(),
            seq![step],
        ),
    decreases before.len(),
{
    let all = before.push(step);
    if before.len() == 0 {
        assert(all =~= seq![step]);
    } else {
        assert(all.skip(1) =~= before.skip(1).push(step));
        assert(all[0] == before[0]);
        match before[0] {
            StepModel::Index(index) => {
                let starts = item_starts(b, start + 1, dialect, depth + 1, Seq::empty());
                let k = if index < 0 {
                    starts.len() + index
                } else {
                    index as int
                };
                spot_steps_on(b, starts[k], dialect, depth + 1, before.skip(1), step);
            },
            StepModel::Key(name) => {
                let v = last_start(member_starts(b, start + 1, dialect, depth + 1, Seq::empty()), name)->0;
                spot_steps_on(b, v, dialect, depth + 1, before.skip(1), step);
            },
        }
    }
}

/// What a longer path leads to is a step from what the shorter one leads to.
pub(crate) proof fn tree_steps_on(j: Json, before: Seq<StepModel>, step: StepModel)
    ensures
        tree_at(j, before.push(step)) == (match tree_at(j, before) {
            Some(x) => tree_at(x, seq![step]),
            None => None,
        }),
    decreases before.len(),
{
    let all = before.push(step);
    if before.len() == 0 {
        assert(all =~= seq![step]);
    } else {
        assert(all.skip(1) =~= before.skip(1).push(step));
        assert(all[0] == before[0]);
        match (before[0], j) {
            (StepModel::Index(index), Json::Array(items)) => {
                if -items.len() <= index < items.len() {
                    let k = if index < 0 {
                        items.len() + index
                    } else {
                        index as int
                    };
                    tree_steps_on(items[k], before.skip(1), step);
                }
            },
            (StepModel::Key(name), Json::Object(members)) => {
                if let Some(k) = last_member(members, name) {
                    tree_steps_on(members[k].1, before.skip(1), step);
                }
            },
            _ => {},
        }
    }
}

/// Each item of an array ends before the later ones start.
proof fn starts_apart(b: Seq<u8>, pos: int, dialect: Dialect, depth: int, done: Seq<Json>, starts: Seq<int>)
    requires
        0 <= pos <= b.len(),
        starts.len() == done.len(),
        built_items(b, pos, unbounded(dialect), no_room(), depth, done) is Ok,
    ensures
        ({
            let all = item_starts(b, pos, dialect, depth, starts);
            forall|i: int, k: int|
                #![trigger all[i], all[k]]
                done.len() <= i < k < all.len() ==> built(b, all[i], unbounded(dialect), no_room(), depth)->Ok_0.0 <= all[k]
        }),
    decreases b.len() - pos,
{
    items_unfold(b, pos, dialect, depth, done);
    if let Ok(NextAt::Item(p)) = next_at(b, pos, dialect, RBRACKET, done.len() == 0) {
        let (m, item, _) = built(b, p, unbounded(dialect), no_room(), depth)->Ok_0;
        starts_apart(b, m, dialect, depth, done.push(item), starts.push(p));
        starts_read(b, m, dialect, depth, done.push(item), starts.push(p));
        starts_read(b, pos, dialect, depth, done, starts);
        let all = item_starts(b, pos, dialect, depth, starts);
        let read = built_items(b, m, unbounded(dialect), no_room(), depth, done.push(item))->Ok_0.1;
        assert(all == item_starts(b, m, dialect, depth, starts.push(p)));
        assert forall|i: int, k: int|
            #![trigger all[i], all[k]]
            done.len() <= i < k < all.len() implies built(b, all[i], unbounded(dialect), no_room(), depth)->Ok_0.0 <= all[k] by {
            assert(stands(b, m, dialect, depth, true, all[k], read[k]));
            if i == done.len() {
                assert(all[i] == starts.push(p)[i]);
            }
        }
    }
}

/// What a scan for one path finds.
#[verifier::rlimit(60)]
pub(crate) proof fn path_is_found(b: Seq<u8>, like: Ask, j: Json, steps: Seq<StepModel>)
    requires
        b.len() <= usize::MAX,
        like.input == JsonInput::Text,
        like.ctx.max == MAX_NESTING,
        text_value(b, like.ctx.dialect) == Ok::<Json, Error>(j),
        tree_at(j, steps) is Some,
    ensures
        one_answer(scanned(b, asked_at(like, steps)), tree_at(j, steps), like.ctx.dialect),
        found_at(b, asked_at(like, steps)) matches Some(s) && reads_at(b, s, tree_at(j, steps)->0, like.ctx.dialect) && spot(
            b,
            trivia_end(b, text_start(b), like.ctx.dialect)->Ok_0,
            like.ctx.dialect,
            0,
            steps,
        ) == Some(s.start as int),
{
    let ask = asked_at(like, steps);
    path_answers_are_placed(b, ask, j);
    assert(steps_of(ask.demands[0]) == steps);
    let answers = scanned(b, ask)->Ok_0.0;
    assert(answer_fits(answers[0], tree_at(j, steps), like.ctx.dialect));
    assert(answer_placed(
        b,
        scanned(b, ask)->Ok_0.0[0],
        tree_at(j, steps),
        spot(b, trivia_end(b, text_start(b), like.ctx.dialect)->Ok_0, like.ctx.dialect, 0, steps),
    ));
}

/// Where the elements of the array at the end of a path start, each behind the end of
/// the one before.
pub(crate) proof fn elements_are_placed(b: Seq<u8>, dialect: Dialect, j: Json, before: Seq<StepModel>, items: Seq<Json>) -> (starts: Seq<int>)
    requires
        text_value(b, dialect) == Ok::<Json, Error>(j),
        tree_at(j, before) == Some(Json::Array(items)),
        spot(b, trivia_end(b, text_start(b), dialect)->Ok_0, dialect, 0, before) is Some,
    ensures
        starts.len() == items.len(),
        forall|x: int, y: int|
            #![trigger starts[x], starts[y]]
            0 <= x < y < starts.len() ==> built(b, starts[x], unbounded(dialect), no_room(), 0)->Ok_0.0 <= starts[y],
        forall|i: i64|
            -items.len() <= i < items.len() ==> #[trigger] spot(
                b,
                trivia_end(b, text_start(b), dialect)->Ok_0,
                dialect,
                0,
                before.push(StepModel::Index(i)),
            ) == Some(
                starts[if i < 0 {
                    items.len() + i
                } else {
                    i as int
                }],
            ),
{
    let pos = trivia_end(b, text_start(b), dialect)->Ok_0;
    text_facts(b, dialect);
    spot_reads(b, pos, dialect, 0, before);
    let open = spot(b, pos, dialect, 0, before)->0;
    let depth = before.len() as int;
    opens_as(b, open, dialect, depth);
    let none = Seq::<Json>::empty();
    starts_read(b, open + 1, dialect, depth + 1, none, Seq::empty());
    starts_apart(b, open + 1, dialect, depth + 1, none, Seq::empty());
    let starts = item_starts(b, open + 1, dialect, depth + 1, Seq::empty());
    assert forall|x: int, y: int|
        #![trigger starts[x], starts[y]]
        0 <= x < y < starts.len() implies built(b, starts[x], unbounded(dialect), no_room(), 0)->Ok_0.0 <= starts[y] by {
        assert(stands(b, open + 1, dialect, depth + 1, false, starts[x], items[x]));
        read_at_lower_depth(b, starts[x], dialect, depth + 1, 0);
    }
    assert forall|i: i64| -items.len() <= i < items.len() implies #[trigger] spot(
        b,
        pos,
        dialect,
        0,
        before.push(StepModel::Index(i)),
    ) == Some(
        starts[if i < 0 {
            items.len() + i
        } else {
            i as int
        }],
    ) by {
        spot_steps_on(b, pos, dialect, 0, before, StepModel::Index(i));
        one_step(b, open, dialect, depth, i, starts);
    }
    starts
}

pub(crate) proof fn one_step(b: Seq<u8>, open: int, dialect: Dialect, depth: int, i: i64, starts: Seq<int>)
    requires
        starts == item_starts(b, open + 1, dialect, depth + 1, Seq::empty()),
        -starts.len() <= i < starts.len(),
    ensures
        spot(b, open, dialect, depth, seq![StepModel::Index(i)]) == Some(
            starts[if i < 0 {
                starts.len() + i
            } else {
                i as int
            }],
        ),
{
    let last = seq![StepModel::Index(i)];
    assert(last.skip(1) =~= Seq::<StepModel>::empty());
    reveal_with_fuel(spot, 2);
}

pub(crate) proof fn index_leads_to(j: Json, before: Seq<StepModel>, items: Seq<Json>, i: i64)
    requires
        tree_at(j, before) == Some(Json::Array(items)),
    ensures
        0 <= i < items.len() ==> tree_at(j, before.push(StepModel::Index(i))) == Some(items[i as int]),
        -items.len() <= i < 0 ==> tree_at(j, before.push(StepModel::Index(i))) == Some(items[items.len() + i]),
        i < -items.len() || items.len() <= i ==> tree_at(j, before.push(StepModel::Index(i))) is None,
{
    let last = seq![StepModel::Index(i)];
    tree_steps_on(j, before, StepModel::Index(i));
    assert(last.skip(1) =~= Seq::<StepModel>::empty());
    reveal_with_fuel(tree_at, 2);
}

/// An index below zero names the element that many places before the end: a scan by
/// `i` answers with the element at position `len + i`, the same value at the same place
/// as a scan by `len + i`.
pub proof fn negative_index_counts_from_the_end(
    b: Seq<u8>,
    like: Ask,
    j: Json,
    before: Seq<StepModel>,
    items: Seq<Json>,
    i: i64,
)
    requires
        b.len() <= usize::MAX,
        like.input == JsonInput::Text,
        like.ctx.max == MAX_NESTING,
        text_value(b, like.ctx.dialect) == Ok::<Json, Error>(j),
        tree_at(j, before) == Some(Json::Array(items)),
        items.len() <= i64::MAX,
        -items.len() <= i < 0,
    ensures
        ({
            let back = asked_at(like, before.push(StepModel::Index(i)));
            let forth = asked_at(like, before.push(StepModel::Index((items.len() + i) as i64)));
            &&& one_answer(scanned(b, back), Some(items[items.len() + i]), like.ctx.dialect)
            &&& found_at(b, back) is Some
            &&& found_at(b, back) == found_at(b, forth)
        }),
{
    let forth = (items.len() + i) as i64;
    index_leads_to(j, before, items, i);
    index_leads_to(j, before, items, forth);
    path_is_found(b, like, j, before);
    path_is_found(b, like, j, before.push(StepModel::Index(i)));
    path_is_found(b, like, j, before.push(StepModel::Index(forth)));
    let starts = elements_are_placed(b, like.ctx.dialect, j, before, items);
}

/// Indices name different elements in the order of the text, and indices below zero
/// do so too: the element of a lower one ends before that of a higher one begins.
pub proof fn indices_name_elements_in_order(
    b: Seq<u8>,
    like: Ask,
    j: Json,
    before: Seq<StepModel>,
    items: Seq<Json>,
    i: i64,
    k: i64,
)
    requires
        b.len() <= usize::MAX,
        like.input == JsonInput::Text,
        like.ctx.max == MAX_NESTING,
        text_value(b, like.ctx.dialect) == Ok::<Json, Error>(j),
        tree_at(j, before) == Some(Json::Array(items)),
        -items.len() <= i < k < items.len(),
        0 <= i || k < 0,
    ensures
        found_at(b, asked_at(like, before.push(StepModel::Index(i)))) matches Some(s) && (found_at(
            b,
            asked_at(like, before.push(StepModel::Index(k))),
        ) matches Some(t) && s.start < s.end <= t.start),
{
    index_leads_to(j, before, items, i);
    index_leads_to(j, before, items, k);
    path_is_found(b, like, j, before);
    path_is_found(b, like, j, before.push(StepModel::Index(i)));
    path_is_found(b, like, j, before.push(StepModel::Index(k)));
    let starts = elements_are_placed(b, like.ctx.dialect, j, before, items);
}

/// An index outside `-len .. len` names nothing.
pub proof fn index_out_of_range_finds_nothing(
    b: Seq<u8>,
    like: Ask,
    j: Json,
    before: Seq<StepModel>,
    items: Seq<Json>,
    i: i64,
)
    requires
        b.len() <= usize::MAX,
        like.input == JsonInput::Text,
        like.ctx.max == MAX_NESTING,
        text_value(b, like.ctx.dialect) == Ok::<Json, Error>(j),
        tree_at(j, before) == Some(Json::Array(items)),
        i < -items.len() || items.len() <= i,
    ensures
        scanned(b, asked_at(like, before.push(StepModel::Index(i)))) is Ok,
        found_at(b, asked_at(like, before.push(StepModel::Index(i)))) is None,
{
    let steps = before.push(StepModel::Index(i));
    let ask = asked_at(like, steps);
    index_leads_to(j, before, items, i);
    path_answers_are_placed(b, ask, j);
    assert(steps_of(ask.demands[0]) == steps);
    assert(answer_fits(scanned(b, ask)->Ok_0.0[0], None, like.ctx.dialect));
}

} // verus!
