//! A text with one value replaced reads as the value with that part replaced.

use vstd::prelude::*;

use crate::ascii::{LBRACE, LBRACKET, RBRACE, RBRACKET, SLASH};
use crate::demand::StepModel;
use crate::dialect::Dialect;
use crate::edit::dom::{updated, Change};
use crate::error::Error;
use crate::laws::forms::{no_room, unbounded};
use crate::laws::local::{
    block_is_local, comment_is_local, copied, items_are_local, items_unfold, members_are_local, members_unfold,
    merged_is_not_empty, read_is_local, run_is_local, value_start,
};
use crate::laws::paths::{item_starts, last_start, member_starts, only_member, position_is, position_of, spot, tree_at};
use crate::laws::round_trip::{item_step, member_step};
use crate::lex::skip::{next_at, NextAt, MAX_NESTING};
use crate::lex::stop_sets::{is_space, run_end, run_end_facts, NdjsonFrame, StopSet, Ws};
use crate::lex::ws::{comment_end, comment_end_bounds, token_end, trivia_end, trivia_end_bounds};
use crate::tape::{built, built_items, built_key, built_members, built_scalar, key_position, merged, Room};
use crate::value::{resolved, Json};

verus! {

/// Whether `o` is `b` with the bytes `[at, to)` replaced by others, so that the rest
/// stands `d` further on.
pub open spec fn swapped(b: Seq<u8>, at: int, to: int, o: Seq<u8>, d: int) -> bool {
    &&& 0 <= at < to <= b.len()
    &&& at < to + d
    &&& o.len() == b.len() + d
    &&& copied(b, 0, at, o, 0)
    &&& copied(b, to, b.len() as int, o, d)
}

/// Whether a byte is neither trivia nor a closer.
pub(crate) open spec fn is_start(byte: u8) -> bool {
    Ws::stops(byte) && !is_space(byte) && byte != SLASH && byte != RBRACKET && byte != RBRACE
}

/// Trivia up to the replaced value is as it was.
pub(crate) proof fn trivia_before(b: Seq<u8>, at: int, to: int, o: Seq<u8>, d: int, pos: int, dialect: Dialect)
    requires
        swapped(b, at, to, o, d),
        is_start(o[at]),
        0 <= pos <= at,
    ensures
        trivia_end(b, pos, dialect) matches Ok(e) ==> (e <= at ==> trivia_end(o, pos, dialect) == Ok::<int, Error>(e)),
    decreases at - pos,
{
    run_end_facts::<Ws>(b, pos);
    trivia_end_bounds(b, pos, dialect);
    let p = run_end::<Ws>(b, pos);
    run_is_local::<Ws>(b, 0, at, o, 0, pos);
    if dialect.comments() && p < b.len() && b[p] == SLASH {
        comment_end_bounds(b, p);
        if let Ok(ce) = comment_end(b, p) {
            trivia_end_bounds(b, ce, dialect);
            if ce <= at {
                assert(b[p] == o[p + 0]);
                if ce < at {
                    comment_is_local(b, 0, at, o, 0, p);
                } else {
                    comment_to_value(b, at, to, o, d, p, dialect);
                }
                trivia_before(b, at, to, o, d, ce, dialect);
            }
        }
    } else if p < at {
        assert(b[p] == o[p + 0]);
    }
}

/// A comment that ends right before the replaced value is as it was.
proof fn comment_to_value(b: Seq<u8>, at: int, to: int, o: Seq<u8>, d: int, p: int, dialect: Dialect)
    requires
        swapped(b, at, to, o, d),
        0 <= p < at,
        comment_end(b, p) == Ok::<int, Error>(at),
        b[p] == SLASH,
    ensures
        trivia_end(b, at, dialect) == Ok::<int, Error>(at) ==> comment_end(o, p) == Ok::<int, Error>(at),
{
    comment_end_bounds(b, p);
    trivia_end_bounds(b, at, dialect);
    assert(b[p + 1] == o[p + 1 + 0]);
    run_end_facts::<NdjsonFrame>(b, p + 2);
    block_is_local(b, 0, at, o, 0, p + 2);
}

/// What comes next in a container up to the replaced value is as it was.
pub(crate) proof fn next_before(b: Seq<u8>, at: int, to: int, o: Seq<u8>, d: int, pos: int, dialect: Dialect, closer: u8, first: bool)
    requires
        swapped(b, at, to, o, d),
        is_start(o[at]),
        0 <= pos <= at,
        closer == RBRACKET || closer == RBRACE,
    ensures
        next_at(b, pos, dialect, closer, first) matches Ok(NextAt::Item(p)) ==> (p <= at ==> next_at(
            o,
            pos,
            dialect,
            closer,
            first,
        ) == Ok::<NextAt, Error>(NextAt::Item(p))),
{
    reveal(next_at);
    trivia_before(b, at, to, o, d, pos, dialect);
    trivia_end_bounds(b, pos, dialect);
    if let Ok(p) = trivia_end(b, pos, dialect) {
        if p < at {
            assert(b[p] == o[p + 0]);
            trivia_before(b, at, to, o, d, p + 1, dialect);
            trivia_end_bounds(b, p + 1, dialect);
            if let Ok(q) = trivia_end(b, p + 1, dialect) {
                if q < at {
                    assert(b[q] == o[q + 0]);
                }
            }
        } else if p < b.len() {
            trivia_end_bounds(b, p + 1, dialect);
        }
    }
}

/// A value is followed by a token boundary in its container.
pub(crate) proof fn next_is_a_boundary(b: Seq<u8>, pos: int, dialect: Dialect, closer: u8)
    requires
        0 <= pos <= b.len(),
        closer == RBRACKET || closer == RBRACE,
        next_at(b, pos, dialect, closer, false) is Ok,
    ensures
        token_end(b, pos, dialect),
        next_at(b, pos, dialect, closer, false) matches Ok(NextAt::Item(p)) ==> pos < p,
{
    reveal(next_at);
    run_end_facts::<Ws>(b, pos);
    trivia_end_bounds(b, pos, dialect);
    let p = trivia_end(b, pos, dialect)->Ok_0;
    if b[p] != closer {
        trivia_end_bounds(b, p + 1, dialect);
    }
}

/// A key that leads to the replaced value, or before it, is as it was.
pub(crate) proof fn key_before(b: Seq<u8>, at: int, to: int, o: Seq<u8>, d: int, p: int, dialect: Dialect)
    requires
        swapped(b, at, to, o, d),
        is_start(o[at]),
        0 <= p < at,
    ensures
        built_key(b, p, unbounded(dialect), no_room()) matches Ok((v, key, _)) ==> (v <= at ==> built_key(
            o,
            p,
            unbounded(dialect),
            no_room(),
        ) == Ok::<(int, Seq<u8>, Room), Error>((v, key, no_room()))),
{
    crate::laws::local::built_key_is(b, p, dialect);
    crate::laws::local::built_key_is(o, p, dialect);
    crate::laws::local::key_of_is_local(b, 0, at, o, 0, p, dialect);
    if let Ok((end, _)) = crate::laws::local::key_of(b, p, dialect) {
        colon_before(b, at, to, o, d, end, dialect);
    }
}

proof fn colon_before(b: Seq<u8>, at: int, to: int, o: Seq<u8>, d: int, end: int, dialect: Dialect)
    requires
        swapped(b, at, to, o, d),
        is_start(o[at]),
        0 <= end <= b.len(),
    ensures
        crate::laws::local::led_to(b, end, dialect) matches Ok(v) ==> end < v && (v <= at ==> crate::laws::local::led_to(
            o,
            end,
            dialect,
        ) == Ok::<int, Error>(v)),
{
    reveal(crate::laws::local::led_to);
    trivia_end_bounds(b, end, dialect);
    if let Ok(c) = trivia_end(b, end, dialect) {
        if c < b.len() {
            trivia_end_bounds(b, c + 1, dialect);
        }
        if c < at {
            assert(b[c] == o[c + 0]);
            trivia_before(b, at, to, o, d, end, dialect);
            trivia_before(b, at, to, o, d, c + 1, dialect);
        }
    }
}

/// A value before the replaced one is as it was.
proof fn value_before(b: Seq<u8>, at: int, to: int, o: Seq<u8>, d: int, p: int, e: int, j: Json, dialect: Dialect, depth: int)
    requires
        swapped(b, at, to, o, d),
        0 <= p < e < at,
        token_end(b, e, dialect),
        built(b, p, unbounded(dialect), no_room(), depth) == Ok::<(int, Json, Room), Error>((e, j, no_room())),
    ensures
        built(o, p, unbounded(dialect), no_room(), depth) == Ok::<(int, Json, Room), Error>((e, j, no_room())),
{
    assert(b[e] == o[e + 0]);
    assert(copied(b, 0, e, o, 0));
    read_is_local(b, 0, e, o, 0, p, dialect, depth);
}

/// Whether the value at `at`, no earlier than `pos`, reads as `x` and ends at a token
/// boundary.
pub(crate) open spec fn stands(b: Seq<u8>, pos: int, dialect: Dialect, depth: int, later: bool, at: int, x: Json) -> bool {
    &&& pos <= at < b.len()
    &&& later ==> pos < at
    &&& built(b, at, unbounded(dialect), no_room(), depth) is Ok
    &&& built(b, at, unbounded(dialect), no_room(), depth)->Ok_0.1 == x
    &&& built(b, at, unbounded(dialect), no_room(), depth)->Ok_0.2 == no_room()
    &&& token_end(b, built(b, at, unbounded(dialect), no_room(), depth)->Ok_0.0, dialect)
}

/// The items of an array stand where they start, one after the other.
pub(crate) proof fn starts_read(b: Seq<u8>, pos: int, dialect: Dialect, depth: int, done: Seq<Json>, starts: Seq<int>)
    requires
        0 <= pos <= b.len(),
        starts.len() == done.len(),
        built_items(b, pos, unbounded(dialect), no_room(), depth, done) is Ok,
    ensures
        ({
            let read = built_items(b, pos, unbounded(dialect), no_room(), depth, done)->Ok_0.1;
            let all = item_starts(b, pos, dialect, depth, starts);
            &&& all.len() == read.len() >= done.len()
            &&& forall|i: int| 0 <= i < done.len() ==> #[trigger] all[i] == starts[i]
            &&& forall|i: int| 0 <= i < done.len() ==> #[trigger] read[i] == done[i]
            &&& forall|i: int|
                done.len() <= i < read.len() ==> stands(b, pos, dialect, depth, done.len() > 0, #[trigger] all[i], read[i])
        }),
    decreases b.len() - pos,
{
    items_unfold(b, pos, dialect, depth, done);
    if let Ok(NextAt::Item(p)) = next_at(b, pos, dialect, RBRACKET, done.len() == 0) {
        let (m, item, _) = built(b, p, unbounded(dialect), no_room(), depth)->Ok_0;
        let more = done.push(item);
        let next = starts.push(p);
        starts_read(b, m, dialect, depth, more, next);
        items_unfold(b, m, dialect, depth, more);
        next_is_a_boundary(b, m, dialect, RBRACKET);
        if done.len() > 0 {
            next_is_a_boundary(b, pos, dialect, RBRACKET);
        }
        let read = built_items(b, pos, unbounded(dialect), no_room(), depth, done)->Ok_0.1;
        let all = item_starts(b, pos, dialect, depth, starts);
        assert(all == item_starts(b, m, dialect, depth, next));
        assert(read == built_items(b, m, unbounded(dialect), no_room(), depth, more)->Ok_0.1);
        assert forall|i: int| 0 <= i < done.len() implies #[trigger] all[i] == starts[i] by {
            assert(all[i] == next[i]);
        }
        assert forall|i: int| 0 <= i < done.len() implies #[trigger] read[i] == done[i] by {
            assert(read[i] == more[i]);
        }
        assert forall|i: int| done.len() <= i < read.len() implies stands(
            b,
            pos,
            dialect,
            depth,
            done.len() > 0,
            #[trigger] all[i],
            read[i],
        ) by {
            if i == done.len() {
                assert(all[i] == next[i]);
                assert(read[i] == more[i]);
            } else {
                assert(stands(b, m, dialect, depth, true, all[i], read[i]));
            }
        }
    }
}

/// Other items before leave the items read as they are.
proof fn items_with(o: Seq<u8>, pos: int, dialect: Dialect, depth: int, done: Seq<Json>, k: int, x: Json)
    requires
        0 <= pos <= o.len(),
        0 <= k < done.len(),
        built_items(o, pos, unbounded(dialect), no_room(), depth, done) is Ok,
    ensures
        ({
            let (e, read, _) = built_items(o, pos, unbounded(dialect), no_room(), depth, done)->Ok_0;
            k < read.len() && built_items(o, pos, unbounded(dialect), no_room(), depth, done.update(k, x)) == Ok::<
                (int, Seq<Json>, Room),
                Error,
            >((e, read.update(k, x), no_room()))
        }),
    decreases o.len() - pos,
{
    items_unfold(o, pos, dialect, depth, done);
    if let Ok(NextAt::Item(p)) = next_at(o, pos, dialect, RBRACKET, false) {
        let (m, item, _) = built(o, p, unbounded(dialect), no_room(), depth)->Ok_0;
        items_with(o, m, dialect, depth, done.push(item), k, x);
        assert(done.push(item).update(k, x) =~= done.update(k, x).push(item));
        item_step(o, pos, p, m, item, dialect, depth, done.update(k, x));
    }
}

/// Items read with item `k` replaced.
proof fn items_swapped(
    b: Seq<u8>,
    at: int,
    to: int,
    o: Seq<u8>,
    d: int,
    pos: int,
    dialect: Dialect,
    depth: int,
    done: Seq<Json>,
    starts: Seq<int>,
    k: int,
    x: Json,
)
    requires
        swapped(b, at, to, o, d),
        is_start(o[at]),
        0 <= pos <= b.len(),
        starts.len() == done.len() <= k,
        built_items(b, pos, unbounded(dialect), no_room(), depth, done) is Ok,
        k < item_starts(b, pos, dialect, depth, starts).len(),
        item_starts(b, pos, dialect, depth, starts)[k] <= at,
        built(b, item_starts(b, pos, dialect, depth, starts)[k], unbounded(dialect), no_room(), depth) matches Ok((m, _, _)) && to
            <= m && built(o, item_starts(b, pos, dialect, depth, starts)[k], unbounded(dialect), no_room(), depth) == Ok::<
            (int, Json, Room),
            Error,
        >((m + d, x, no_room())),
    ensures
        ({
            let (e, read, _) = built_items(b, pos, unbounded(dialect), no_room(), depth, done)->Ok_0;
            k < read.len() && to <= e && built_items(o, pos, unbounded(dialect), no_room(), depth, done) == Ok::<
                (int, Seq<Json>, Room),
                Error,
            >((e + d, read.update(k, x), no_room()))
        }),
    decreases b.len() - pos,
{
    let first = done.len() == 0;
    let (e, read, _) = built_items(b, pos, unbounded(dialect), no_room(), depth, done)->Ok_0;
    let all = item_starts(b, pos, dialect, depth, starts);
    items_unfold(b, pos, dialect, depth, done);
    starts_read(b, pos, dialect, depth, done, starts);
    let p = next_at(b, pos, dialect, RBRACKET, first)->Ok_0->Item_0;
    let (m, item, _) = built(b, p, unbounded(dialect), no_room(), depth)->Ok_0;
    assert(all == item_starts(b, m, dialect, depth, starts.push(p)));
    starts_read(b, m, dialect, depth, done.push(item), starts.push(p));
    assert(all[done.len() as int] == starts.push(p)[done.len() as int]);
    assert(stands(b, pos, dialect, depth, done.len() > 0, all[k], read[k]));
    if k == done.len() {
        next_before(b, at, to, o, d, pos, dialect, RBRACKET, first);
        crate::laws::parse::items_agree(b, m, dialect, depth, done.push(item));
        crate::lex::skip::items_bounds(b, m, crate::laws::parse::strict_ctx(dialect), depth, false);
        items_are_local(b, to, b.len() as int, o, d, m, dialect, depth, done.push(item));
        items_with(o, m + d, dialect, depth, done.push(item), k, x);
        assert(done.push(item).update(k, x) =~= done.push(x));
        item_step(o, pos, p, m + d, x, dialect, depth, done);
    } else {
        assert(stands(b, m, dialect, depth, true, all[k], read[k]));
        items_unfold(b, m, dialect, depth, done.push(item));
        next_is_a_boundary(b, m, dialect, RBRACKET);
        next_before(b, at, to, o, d, pos, dialect, RBRACKET, first);
        value_before(b, at, to, o, d, p, m, item, dialect, depth);
        items_swapped(b, at, to, o, d, m, dialect, depth, done.push(item), starts.push(p), k, x);
        item_step(o, pos, p, m, item, dialect, depth, done);
    }
}

proof fn pushed_start(places: Seq<(Seq<u8>, int)>, key: Seq<u8>, v: int, name: Seq<u8>)
    ensures
        last_start(places.push((key, v)), name) == (if key == name {
            Some(v)
        } else {
            last_start(places, name)
        }),
{
    assert(places.push((key, v)).drop_last() =~= places);
}

/// Members that follow stand behind.
proof fn later_starts(
    b: Seq<u8>,
    pos: int,
    dialect: Dialect,
    depth: int,
    done: Seq<(Seq<u8>, Json)>,
    places: Seq<(Seq<u8>, int)>,
    name: Seq<u8>,
)
    requires
        0 <= pos <= b.len(),
        done.len() == 0 <==> places.len() == 0,
        built_members(b, pos, unbounded(dialect), no_room(), depth, done) is Ok,
    ensures
        last_start(member_starts(b, pos, dialect, depth, places), name) == last_start(places, name) || (last_start(
            member_starts(b, pos, dialect, depth, places),
            name,
        ) matches Some(v) && v > pos),
    decreases b.len() - pos,
{
    members_unfold(b, pos, dialect, depth, done);
    if let Ok(NextAt::Item(p)) = next_at(b, pos, dialect, RBRACE, done.len() == 0) {
        let (v, key, _) = built_key(b, p, unbounded(dialect), no_room())->Ok_0;
        let (m, x, _) = built(b, v, unbounded(dialect), no_room(), depth)->Ok_0;
        merged_is_not_empty(done, key, x);
        later_starts(b, m, dialect, depth, merged(done, key, x), places.push((key, v)), name);
        pushed_start(places, key, v, name);
        assert(member_starts(b, pos, dialect, depth, places) == member_starts(b, m, dialect, depth, places.push((key, v))));
    }
}

/// Merging a member keeps the place of another, and what it holds does not matter.
proof fn merged_beside(done: Seq<(Seq<u8>, Json)>, key: Seq<u8>, value: Json, name: Seq<u8>, x: Json)
    requires
        key != name,
        key_position(done, name, 0) < done.len(),
    ensures
        ({
            let k = key_position(done, name, 0);
            &&& key_position(merged(done, key, value), name, 0) == k
            &&& k < merged(done, key, value).len()
            &&& merged(done, key, value)[k] == done[k]
            &&& merged(done.update(k, (name, x)), key, value) == merged(done, key, value).update(k, (name, x))
        }),
{
    let k = key_position(done, name, 0);
    position_of(done, name, 0);
    position_of(done, key, 0);
    let at = key_position(done, key, 0);
    let after = merged(done, key, value);
    let other = done.update(k, (name, x));
    assert(at != k);
    assert forall|i: int| 0 <= i < k implies (#[trigger] after[i]).0 != name by {
        if i != at {
            assert(after[i] == done[i]);
        }
    }
    position_is(after, name, 0, k);
    assert forall|i: int| 0 <= i < at implies (#[trigger] other[i]).0 != key by {
        if i != k {
            assert(other[i] == done[i]);
        }
    }
    if at < done.len() {
        assert(other[at] == done[at]);
    }
    position_is(other, key, 0, at);
    assert(merged(other, key, value) =~= after.update(k, (name, x)));
}

/// Merging the same name twice keeps the later value.
proof fn merged_again(done: Seq<(Seq<u8>, Json)>, name: Seq<u8>, value: Json, x: Json)
    ensures
        ({
            let after = merged(done, name, value);
            let k = key_position(after, name, 0);
            &&& k < after.len()
            &&& after[k] == (name, value)
            &&& merged(done, name, x) == after.update(k, (name, x))
        }),
{
    let after = merged(done, name, value);
    position_of(done, name, 0);
    let at = key_position(done, name, 0);
    assert forall|i: int| 0 <= i < at implies (#[trigger] after[i]).0 != name by {
        assert(after[i] == done[i]);
    }
    position_is(after, name, 0, at);
    assert(merged(done, name, x) =~= after.update(at, (name, x)));
}

/// What a member holds does not matter to the other members read.
proof fn members_with(
    b: Seq<u8>,
    pos: int,
    dialect: Dialect,
    depth: int,
    done: Seq<(Seq<u8>, Json)>,
    places: Seq<(Seq<u8>, int)>,
    name: Seq<u8>,
    x: Json,
)
    requires
        0 <= pos <= b.len(),
        places.len() > 0,
        key_position(done, name, 0) < done.len(),
        last_start(member_starts(b, pos, dialect, depth, places), name) matches Some(v) && v <= pos,
        built_members(b, pos, unbounded(dialect), no_room(), depth, done) is Ok,
    ensures
        ({
            let (e, read, _) = built_members(b, pos, unbounded(dialect), no_room(), depth, done)->Ok_0;
            let k = key_position(done, name, 0);
            &&& key_position(read, name, 0) == k < read.len()
            &&& read[k] == done[k]
            &&& built_members(b, pos, unbounded(dialect), no_room(), depth, done.update(k, (name, x))) == Ok::<
                (int, Seq<(Seq<u8>, Json)>, Room),
                Error,
            >((e, read.update(k, (name, x)), no_room()))
        }),
    decreases b.len() - pos,
{
    members_unfold(b, pos, dialect, depth, done);
    let k = key_position(done, name, 0);
    position_of(done, name, 0);
    if let Ok(NextAt::Item(p)) = next_at(b, pos, dialect, RBRACE, false) {
        let (v, key, _) = built_key(b, p, unbounded(dialect), no_room())->Ok_0;
        let (m, value, _) = built(b, v, unbounded(dialect), no_room(), depth)->Ok_0;
        let more = merged(done, key, value);
        merged_is_not_empty(done, key, value);
        let grown = places.push((key, v));
        assert(member_starts(b, pos, dialect, depth, places) == member_starts(b, m, dialect, depth, grown));
        pushed_start(places, key, v, name);
        later_starts(b, m, dialect, depth, more, grown, name);
        assert(key != name);
        merged_beside(done, key, value, name, x);
        members_with(b, m, dialect, depth, more, grown, name, x);
        member_step(b, pos, p, v, m, key, value, dialect, depth, done.update(k, (name, x)));
    }
}

/// Members read with the value at `v0`, that of the last member of a name, replaced.
proof fn members_swapped(
    b: Seq<u8>,
    at: int,
    to: int,
    o: Seq<u8>,
    d: int,
    pos: int,
    dialect: Dialect,
    depth: int,
    done: Seq<(Seq<u8>, Json)>,
    places: Seq<(Seq<u8>, int)>,
    name: Seq<u8>,
    v0: int,
    x: Json,
)
    requires
        swapped(b, at, to, o, d),
        is_start(o[at]),
        0 <= pos <= b.len(),
        pos <= v0 <= at,
        done.len() == 0 <==> places.len() == 0,
        last_start(places, name) matches Some(u) ==> u < pos,
        last_start(member_starts(b, pos, dialect, depth, places), name) == Some(v0),
        built_members(b, pos, unbounded(dialect), no_room(), depth, done) is Ok,
        built(b, v0, unbounded(dialect), no_room(), depth) matches Ok((m, _, _)) && to <= m && built(
            o,
            v0,
            unbounded(dialect),
            no_room(),
            depth,
        ) == Ok::<(int, Json, Room), Error>((m + d, x, no_room())),
    ensures
        ({
            let (e, read, _) = built_members(b, pos, unbounded(dialect), no_room(), depth, done)->Ok_0;
            let k = key_position(read, name, 0);
            &&& k < read.len()
            &&& to <= e
            &&& built_members(o, pos, unbounded(dialect), no_room(), depth, done) == Ok::<
                (int, Seq<(Seq<u8>, Json)>, Room),
                Error,
            >((e + d, read.update(k, (name, x)), no_room()))
        }),
    decreases b.len() - pos,
{
    let first = done.len() == 0;
    members_unfold(b, pos, dialect, depth, done);
    let p = next_at(b, pos, dialect, RBRACE, first)->Ok_0->Item_0;
    let (v, key, _) = built_key(b, p, unbounded(dialect), no_room())->Ok_0;
    let (m, value, _) = built(b, v, unbounded(dialect), no_room(), depth)->Ok_0;
    let more = merged(done, key, value);
    merged_is_not_empty(done, key, value);
    let grown = places.push((key, v));
    assert(member_starts(b, pos, dialect, depth, places) == member_starts(b, m, dialect, depth, grown));
    pushed_start(places, key, v, name);
    later_starts(b, m, dialect, depth, more, grown, name);
    next_before(b, at, to, o, d, pos, dialect, RBRACE, first);
    key_before(b, at, to, o, d, p, dialect);
    if v0 > m {
        members_unfold(b, m, dialect, depth, more);
        next_is_a_boundary(b, m, dialect, RBRACE);
        value_before(b, at, to, o, d, v, m, value, dialect, depth);
        members_swapped(b, at, to, o, d, m, dialect, depth, more, grown, name, v0, x);
        member_step(o, pos, p, v, m, key, value, dialect, depth, done);
    } else {
        assert(key == name && v == v0);
        last_member_swapped(b, at, to, o, d, m, dialect, depth, done, grown, name, value, x);
        member_step(o, pos, p, v, m + d, name, x, dialect, depth, done);
    }
}

/// The members behind the replaced one.
proof fn last_member_swapped(
    b: Seq<u8>,
    at: int,
    to: int,
    o: Seq<u8>,
    d: int,
    m: int,
    dialect: Dialect,
    depth: int,
    done: Seq<(Seq<u8>, Json)>,
    places: Seq<(Seq<u8>, int)>,
    name: Seq<u8>,
    value: Json,
    x: Json,
)
    requires
        swapped(b, at, to, o, d),
        to <= m <= b.len(),
        places.len() > 0,
        last_start(member_starts(b, m, dialect, depth, places), name) matches Some(v) && v <= m,
        built_members(b, m, unbounded(dialect), no_room(), depth, merged(done, name, value)) is Ok,
    ensures
        ({
            let (e, read, _) = built_members(b, m, unbounded(dialect), no_room(), depth, merged(done, name, value))->Ok_0;
            let k = key_position(read, name, 0);
            &&& k < read.len()
            &&& to <= e
            &&& built_members(o, m + d, unbounded(dialect), no_room(), depth, merged(done, name, x)) == Ok::<
                (int, Seq<(Seq<u8>, Json)>, Room),
                Error,
            >((e + d, read.update(k, (name, x)), no_room()))
        }),
{
    let more = merged(done, name, value);
    merged_again(done, name, value, x);
    members_with(b, m, dialect, depth, more, places, name, x);
    let k = key_position(more, name, 0);
    let other = more.update(k, (name, x));
    position_of(more, name, 0);
    assert(other.len() > 0);
    assert(merged(done, name, x) == other);
    crate::laws::parse::members_agree(b, m, dialect, depth, other);
    crate::lex::skip::members_bounds(b, m, crate::laws::parse::strict_ctx(dialect), depth, false);
    members_are_local(b, to, b.len() as int, o, d, m, dialect, depth, other);
}

/// The value of the last member of a name is what the object holds under it.
proof fn last_start_reads(
    b: Seq<u8>,
    pos: int,
    dialect: Dialect,
    depth: int,
    done: Seq<(Seq<u8>, Json)>,
    places: Seq<(Seq<u8>, int)>,
    name: Seq<u8>,
    v0: int,
)
    requires
        0 <= pos <= b.len(),
        pos <= v0,
        done.len() == 0 <==> places.len() == 0,
        last_start(places, name) matches Some(u) ==> u < pos,
        last_start(member_starts(b, pos, dialect, depth, places), name) == Some(v0),
        built_members(b, pos, unbounded(dialect), no_room(), depth, done) is Ok,
    ensures
        ({
            let read = built_members(b, pos, unbounded(dialect), no_room(), depth, done)->Ok_0.1;
            let k = key_position(read, name, 0);
            &&& k < read.len()
            &&& stands(b, pos, dialect, depth, true, v0, read[k].1)
        }),
    decreases b.len() - pos,
{
    members_unfold(b, pos, dialect, depth, done);
    let p = next_at(b, pos, dialect, RBRACE, done.len() == 0)->Ok_0->Item_0;
    let (v, key, _) = built_key(b, p, unbounded(dialect), no_room())->Ok_0;
    let (m, value, _) = built(b, v, unbounded(dialect), no_room(), depth)->Ok_0;
    let more = merged(done, key, value);
    merged_is_not_empty(done, key, value);
    let grown = places.push((key, v));
    assert(member_starts(b, pos, dialect, depth, places) == member_starts(b, m, dialect, depth, grown));
    pushed_start(places, key, v, name);
    later_starts(b, m, dialect, depth, more, grown, name);
    if v0 > m {
        last_start_reads(b, m, dialect, depth, more, grown, name, v0);
    } else {
        members_unfold(b, m, dialect, depth, more);
        next_is_a_boundary(b, m, dialect, RBRACE);
        merged_again(done, name, value, value);
        members_with(b, m, dialect, depth, more, grown, name, value);
    }
}

/// What a value at a depth reads as, with the part at the end of a path replaced.
pub(crate) proof fn value_swapped(
    b: Seq<u8>,
    at: int,
    to: int,
    o: Seq<u8>,
    d: int,
    start: int,
    dialect: Dialect,
    depth: int,
    steps: Seq<StepModel>,
    e: int,
    j: Json,
    v: Json,
)
    requires
        swapped(b, at, to, o, d),
        0 <= start < b.len(),
        0 <= depth,
        built(b, start, unbounded(dialect), no_room(), depth) == Ok::<(int, Json, Room), Error>((e, j, no_room())),
        tree_at(j, steps) is Some,
        spot(b, start, dialect, depth, steps) == Some(at),
        built(b, at, unbounded(dialect), no_room(), depth + steps.len()) matches Ok((m, _, _)) && m == to,
        built(o, at, unbounded(dialect), no_room(), depth + steps.len()) == Ok::<(int, Json, Room), Error>(
            (to + d, v, no_room()),
        ),
    ensures
        start <= at,
        to <= e,
        updated(j, steps, Change::Put(v)) matches Some(new) && built(o, start, unbounded(dialect), no_room(), depth) == Ok::<
            (int, Json, Room),
            Error,
        >((e + d, new, no_room())),
    decreases steps.len(), 1nat,
{
    if steps.len() > 0 {
        value_start(o, at, dialect, depth + steps.len());
        match (steps[0], j) {
            (StepModel::Index(index), Json::Array(items)) => {
                array_swapped(b, at, to, o, d, start, dialect, depth, steps, e, items, v, index);
            },
            (StepModel::Key(name), Json::Object(members)) => {
                object_swapped(b, at, to, o, d, start, dialect, depth, steps, e, members, v, name);
            },
            _ => {},
        }
    }
}

proof fn array_swapped(
    b: Seq<u8>,
    at: int,
    to: int,
    o: Seq<u8>,
    d: int,
    start: int,
    dialect: Dialect,
    depth: int,
    steps: Seq<StepModel>,
    e: int,
    items: Seq<Json>,
    v: Json,
    index: i64,
)
    requires
        swapped(b, at, to, o, d),
        is_start(o[at]),
        0 <= start < b.len(),
        0 <= depth,
        steps.len() > 0,
        steps[0] == StepModel::Index(index),
        built(b, start, unbounded(dialect), no_room(), depth) == Ok::<(int, Json, Room), Error>(
            (e, Json::Array(items), no_room()),
        ),
        tree_at(Json::Array(items), steps) is Some,
        spot(b, start, dialect, depth, steps) == Some(at),
        built(b, at, unbounded(dialect), no_room(), depth + steps.len()) matches Ok((m, _, _)) && m == to,
        built(o, at, unbounded(dialect), no_room(), depth + steps.len()) == Ok::<(int, Json, Room), Error>(
            (to + d, v, no_room()),
        ),
    ensures
        start <= at,
        to <= e,
        updated(Json::Array(items), steps, Change::Put(v)) matches Some(new) && built(
            o,
            start,
            unbounded(dialect),
            no_room(),
            depth,
        ) == Ok::<(int, Json, Room), Error>((e + d, new, no_room())),
    decreases steps.len(), 0nat,
{
    opens_as(b, start, dialect, depth);
    let none = Seq::<Json>::empty();
    let starts = item_starts(b, start + 1, dialect, depth + 1, Seq::empty());
    starts_read(b, start + 1, dialect, depth + 1, none, Seq::empty());
    let k = resolved(items.len() as int, index as int)->0;
    let p = starts[k];
    assert(stands(b, start + 1, dialect, depth + 1, false, p, items[k]));
    let rest = steps.skip(1);
    let m = built(b, p, unbounded(dialect), no_room(), depth + 1)->Ok_0.0;
    value_swapped(b, at, to, o, d, p, dialect, depth + 1, rest, m, items[k], v);
    let x = updated(items[k], rest, Change::Put(v))->0;
    items_swapped(b, at, to, o, d, start + 1, dialect, depth + 1, none, Seq::empty(), k, x);
    assert(b[start] == o[start + 0]);
}

proof fn object_swapped(
    b: Seq<u8>,
    at: int,
    to: int,
    o: Seq<u8>,
    d: int,
    start: int,
    dialect: Dialect,
    depth: int,
    steps: Seq<StepModel>,
    e: int,
    members: Seq<(Seq<u8>, Json)>,
    v: Json,
    name: Seq<u8>,
)
    requires
        swapped(b, at, to, o, d),
        is_start(o[at]),
        0 <= start < b.len(),
        0 <= depth,
        steps.len() > 0,
        steps[0] == StepModel::Key(name),
        built(b, start, unbounded(dialect), no_room(), depth) == Ok::<(int, Json, Room), Error>(
            (e, Json::Object(members), no_room()),
        ),
        tree_at(Json::Object(members), steps) is Some,
        spot(b, start, dialect, depth, steps) == Some(at),
        built(b, at, unbounded(dialect), no_room(), depth + steps.len()) matches Ok((m, _, _)) && m == to,
        built(o, at, unbounded(dialect), no_room(), depth + steps.len()) == Ok::<(int, Json, Room), Error>(
            (to + d, v, no_room()),
        ),
    ensures
        start <= at,
        to <= e,
        updated(Json::Object(members), steps, Change::Put(v)) matches Some(new) && built(
            o,
            start,
            unbounded(dialect),
            no_room(),
            depth,
        ) == Ok::<(int, Json, Room), Error>((e + d, new, no_room())),
    decreases steps.len(), 0nat,
{
    opens_as(b, start, dialect, depth);
    crate::laws::parse::read_object_is_distinct(b, start, dialect, depth);
    only_member(members, name);
    let none = Seq::<(Seq<u8>, Json)>::empty();
    let places = member_starts(b, start + 1, dialect, depth + 1, Seq::empty());
    let v0 = last_start(places, name)->0;
    later_starts(b, start + 1, dialect, depth + 1, none, Seq::empty(), name);
    last_start_reads(b, start + 1, dialect, depth + 1, none, Seq::empty(), name, v0);
    position_of(members, name, 0);
    let k = key_position(members, name, 0);
    let rest = steps.skip(1);
    let m = built(b, v0, unbounded(dialect), no_room(), depth + 1)->Ok_0.0;
    value_swapped(b, at, to, o, d, v0, dialect, depth + 1, rest, m, members[k].1, v);
    let x = updated(members[k].1, rest, Change::Put(v))->0;
    members_swapped(b, at, to, o, d, start + 1, dialect, depth + 1, none, Seq::empty(), name, v0, x);
    assert(b[start] == o[start + 0]);
}

/// A container that reads opens as its kind says.
pub(crate) proof fn opens_as(b: Seq<u8>, start: int, dialect: Dialect, depth: int)
    requires
        0 <= start < b.len(),
        built(b, start, unbounded(dialect), no_room(), depth) is Ok,
    ensures
        built(b, start, unbounded(dialect), no_room(), depth)->Ok_0.1 is Array ==> b[start] == LBRACKET && depth < MAX_NESTING
            && built_items(b, start + 1, unbounded(dialect), no_room(), depth + 1, Seq::empty()) is Ok && built(
            b,
            start,
            unbounded(dialect),
            no_room(),
            depth,
        )->Ok_0.1->Array_0 == built_items(b, start + 1, unbounded(dialect), no_room(), depth + 1, Seq::empty())->Ok_0.1 && built(
            b,
            start,
            unbounded(dialect),
            no_room(),
            depth,
        )->Ok_0.0 == built_items(b, start + 1, unbounded(dialect), no_room(), depth + 1, Seq::empty())->Ok_0.0,
        built(b, start, unbounded(dialect), no_room(), depth)->Ok_0.1 is Object ==> b[start] == LBRACE && depth < MAX_NESTING
            && built_members(b, start + 1, unbounded(dialect), no_room(), depth + 1, Seq::empty()) is Ok && built(
            b,
            start,
            unbounded(dialect),
            no_room(),
            depth,
        )->Ok_0.1->Object_0 == built_members(b, start + 1, unbounded(dialect), no_room(), depth + 1, Seq::empty())->Ok_0.1,
{
    reveal(built_scalar);
}

/// What stands at the end of a path reads as what the path leads to.
pub(crate) proof fn spot_reads(b: Seq<u8>, start: int, dialect: Dialect, depth: int, steps: Seq<StepModel>)
    requires
        0 <= start < b.len(),
        0 <= depth,
        built(b, start, unbounded(dialect), no_room(), depth) matches Ok((e, j, room)) && room == no_room() && token_end(
            b,
            e,
            dialect,
        ) && tree_at(j, steps) is Some,
        spot(b, start, dialect, depth, steps) is Some,
    ensures
        stands(
            b,
            start,
            dialect,
            depth + steps.len(),
            false,
            spot(b, start, dialect, depth, steps)->0,
            tree_at(built(b, start, unbounded(dialect), no_room(), depth)->Ok_0.1, steps)->0,
        ),
    decreases steps.len(),
{
    if steps.len() > 0 {
        let j = built(b, start, unbounded(dialect), no_room(), depth)->Ok_0.1;
        opens_as(b, start, dialect, depth);
        let rest = steps.skip(1);
        match (steps[0], j) {
            (StepModel::Index(index), Json::Array(items)) => {
                let starts = item_starts(b, start + 1, dialect, depth + 1, Seq::empty());
                starts_read(b, start + 1, dialect, depth + 1, Seq::empty(), Seq::empty());
                let k = resolved(items.len() as int, index as int)->0;
                assert(stands(b, start + 1, dialect, depth + 1, false, starts[k], items[k]));
                spot_reads(b, starts[k], dialect, depth + 1, rest);
            },
            (StepModel::Key(name), Json::Object(members)) => {
                crate::laws::parse::read_object_is_distinct(b, start, dialect, depth);
                only_member(members, name);
                let none = Seq::<(Seq<u8>, Json)>::empty();
                let v0 = last_start(member_starts(b, start + 1, dialect, depth + 1, Seq::empty()), name)->0;
                later_starts(b, start + 1, dialect, depth + 1, none, Seq::empty(), name);
                last_start_reads(b, start + 1, dialect, depth + 1, none, Seq::empty(), name, v0);
                spot_reads(b, v0, dialect, depth + 1, rest);
            },
            _ => {},
        }
    }
}

} // verus!
