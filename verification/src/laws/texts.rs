//! What surrounds a value, what an escape stands for, how deep a value goes, and how keys
//! are sorted.

use vstd::prelude::*;

use crate::ascii::{LBRACE, LBRACKET, RBRACE, RBRACKET};
use crate::dialect::Dialect;
use crate::encode::{key_at_most, placed, sorted_positions, written_order, EncodeOptions};
use crate::error::Error;
use crate::framing::text_start;
use crate::laws::assign::text_facts;
use crate::laws::forms::{no_room, unbounded};
use crate::laws::local::{copied, items_unfold, members_unfold, read_is_local, trivia_is_local};
use crate::laws::paths::{position_of, text_value};
use crate::laws::replace::opens_as;
use crate::laws::round_trip::written_order_is_a_permutation;
use crate::lex::skip::{next_at, NextAt};
use crate::lex::stop_sets::{is_space, run_end, run_end_facts, run_end_is, StopSet, Ws};
use crate::lex::string::escape;
use crate::lex::ws::trivia_end;
use crate::tape::{built, built_items, built_key, built_members, built_scalar, key_position, merged};
use crate::value::Json;

verus! {

/// Each short escape stands for its character.
pub proof fn short_escapes_stand_for_their_characters(b: Seq<u8>, pos: int, json5: bool)
    requires
        0 <= pos < b.len(),
    ensures
        b[pos] == 0x22 ==> escape(b, pos, json5) == Ok::<(int, Seq<u8>), Error>((pos + 1, seq![0x22u8])),
        b[pos] == 0x5c ==> escape(b, pos, json5) == Ok::<(int, Seq<u8>), Error>((pos + 1, seq![0x5cu8])),
        b[pos] == 0x2f ==> escape(b, pos, json5) == Ok::<(int, Seq<u8>), Error>((pos + 1, seq![0x2fu8])),
        b[pos] == 0x62 ==> escape(b, pos, json5) == Ok::<(int, Seq<u8>), Error>((pos + 1, seq![0x08u8])),
        b[pos] == 0x66 ==> escape(b, pos, json5) == Ok::<(int, Seq<u8>), Error>((pos + 1, seq![0x0cu8])),
        b[pos] == 0x6e ==> escape(b, pos, json5) == Ok::<(int, Seq<u8>), Error>((pos + 1, seq![0x0au8])),
        b[pos] == 0x72 ==> escape(b, pos, json5) == Ok::<(int, Seq<u8>), Error>((pos + 1, seq![0x0du8])),
        b[pos] == 0x74 ==> escape(b, pos, json5) == Ok::<(int, Seq<u8>), Error>((pos + 1, seq![0x09u8])),
{
}

/// Trivia behind whitespace is the trivia that stands there.
proof fn trivia_behind_space(o: Seq<u8>, from: int, to: int, dialect: Dialect)
    requires
        0 <= from <= to <= o.len(),
        forall|i: int| from <= i < to ==> is_space(#[trigger] o[i]),
    ensures
        trivia_end(o, from, dialect) == trivia_end(o, to, dialect),
{
    run_end_facts::<Ws>(o, to);
    let q = run_end::<Ws>(o, to);
    assert forall|i: int| from <= i < q implies !Ws::stops(#[trigger] o[i]) by {
        if i < to {
            assert(is_space(o[i]));
        }
    }
    run_end_is::<Ws>(o, from, q);
}

/// The value of a text stands as well behind other bytes that are passed.
proof fn text_reads_behind(b: Seq<u8>, o: Seq<u8>, d: int, dialect: Dialect, j: Json)
    requires
        text_start(b) == 0,
        text_value(b, dialect) == Ok::<Json, Error>(j),
        d >= 0,
        o.len() == b.len() + d,
        copied(b, 0, b.len() as int, o, d),
        trivia_end(o, text_start(o), dialect) == trivia_end(o, d, dialect),
    ensures
        text_value(o, dialect) == Ok::<Json, Error>(j),
{
    let n = b.len() as int;
    text_facts(b, dialect);
    let pos = trivia_end(b, 0, dialect)->Ok_0;
    let e = built(b, pos, unbounded(dialect), no_room(), 0)->Ok_0.0;
    trivia_is_local(b, 0, n, o, d, 0, dialect);
    read_is_local(b, 0, n, o, d, pos, dialect, 0);
    trivia_is_local(b, 0, n, o, d, e, dialect);
}

/// A byte-order mark in front of a text changes nothing of its value.
pub proof fn byte_order_mark_is_passed(b: Seq<u8>, dialect: Dialect, j: Json)
    requires
        text_start(b) == 0,
        text_value(b, dialect) == Ok::<Json, Error>(j),
    ensures
        text_value(seq![0xefu8, 0xbb, 0xbf] + b, dialect) == Ok::<Json, Error>(j),
{
    let o = seq![0xefu8, 0xbb, 0xbf] + b;
    assert forall|i: int| 0 <= i < b.len() implies #[trigger] b[i] == o[i + 3] by {}
    text_reads_behind(b, o, 3, dialect, j);
}

/// Whitespace in front of a text changes nothing of its value.
pub proof fn leading_whitespace_is_passed(space: Seq<u8>, b: Seq<u8>, dialect: Dialect, j: Json)
    requires
        text_start(b) == 0,
        text_value(b, dialect) == Ok::<Json, Error>(j),
        forall|i: int|
            0 <= i < space.len() ==> (#[trigger] space[i] == 0x20 || space[i] == 0x09 || space[i] == 0x0a || space[i] == 0x0d),
    ensures
        text_value(space + b, dialect) == Ok::<Json, Error>(j),
{
    let o = space + b;
    let d = space.len() as int;
    assert forall|i: int| 0 <= i < b.len() implies #[trigger] b[i] == o[i + d] by {}
    assert forall|i: int| 0 <= i < d implies is_space(#[trigger] o[i]) by {
        assert(o[i] == space[i]);
    }
    text_facts(b, dialect);
    if d > 0 {
        assert(o[0] == space[0]);
    } else {
        assert(o =~= b);
    }
    trivia_behind_space(o, 0, d, dialect);
    text_reads_behind(b, o, d, dialect, j);
}

/// Whether containers are nested in a value no deeper than `n`.
pub open spec fn nested_within(j: Json, n: int) -> bool
    decreases j,
{
    match j {
        Json::Array(items) => n > 0 && forall|i: int| 0 <= i < items.len() ==> nested_within(#[trigger] items[i], n - 1),
        Json::Object(members) => n > 0 && forall|i: int|
            0 <= i < members.len() ==> nested_within((#[trigger] members[i]).1, n - 1),
        _ => true,
    }
}

proof fn read_is_nested_within(b: Seq<u8>, pos: int, dialect: Dialect, depth: int)
    requires
        0 <= pos < b.len(),
        built(b, pos, unbounded(dialect), no_room(), depth) is Ok,
    ensures
        nested_within(built(b, pos, unbounded(dialect), no_room(), depth)->Ok_0.1, 256 - depth),
    decreases b.len() - pos, 0nat,
{
    opens_as(b, pos, dialect, depth);
    if b[pos] == LBRACKET {
        items_are_nested_within(b, pos + 1, dialect, depth + 1, Seq::empty());
    } else if b[pos] == LBRACE {
        members_are_nested_within(b, pos + 1, dialect, depth + 1, Seq::empty());
    } else {
        reveal(built_scalar);
    }
}

proof fn items_are_nested_within(b: Seq<u8>, pos: int, dialect: Dialect, depth: int, done: Seq<Json>)
    requires
        0 <= pos <= b.len(),
        built_items(b, pos, unbounded(dialect), no_room(), depth, done) is Ok,
        forall|i: int| 0 <= i < done.len() ==> nested_within(#[trigger] done[i], 256 - depth),
    ensures
        ({
            let all = built_items(b, pos, unbounded(dialect), no_room(), depth, done)->Ok_0.1;
            forall|i: int| 0 <= i < all.len() ==> nested_within(#[trigger] all[i], 256 - depth)
        }),
    decreases b.len() - pos, 1nat,
{
    items_unfold(b, pos, dialect, depth, done);
    if let Ok(NextAt::Item(p)) = next_at(b, pos, dialect, RBRACKET, done.len() == 0) {
        let (m, item, _) = built(b, p, unbounded(dialect), no_room(), depth)->Ok_0;
        read_is_nested_within(b, p, dialect, depth);
        items_are_nested_within(b, m, dialect, depth, done.push(item));
    }
}

proof fn members_are_nested_within(b: Seq<u8>, pos: int, dialect: Dialect, depth: int, done: Seq<(Seq<u8>, Json)>)
    requires
        0 <= pos <= b.len(),
        built_members(b, pos, unbounded(dialect), no_room(), depth, done) is Ok,
        forall|i: int| 0 <= i < done.len() ==> nested_within((#[trigger] done[i]).1, 256 - depth),
    ensures
        ({
            let all = built_members(b, pos, unbounded(dialect), no_room(), depth, done)->Ok_0.1;
            forall|i: int| 0 <= i < all.len() ==> nested_within((#[trigger] all[i]).1, 256 - depth)
        }),
    decreases b.len() - pos, 1nat,
{
    members_unfold(b, pos, dialect, depth, done);
    if let Ok(NextAt::Item(p)) = next_at(b, pos, dialect, RBRACE, done.len() == 0) {
        let (v, key, _) = built_key(b, p, unbounded(dialect), no_room())->Ok_0;
        let (m, x, _) = built(b, v, unbounded(dialect), no_room(), depth)->Ok_0;
        read_is_nested_within(b, v, dialect, depth);
        position_of(done, key, 0);
        let more = merged(done, key, x);
        assert forall|i: int| 0 <= i < more.len() implies nested_within((#[trigger] more[i]).1, 256 - depth) by {
            if i < done.len() && i != key_position(done, key, 0) {
                assert(more[i] == done[i]);
            }
        }
        members_are_nested_within(b, m, dialect, depth, more);
    }
}

/// A text that is read nests no more than 256 containers.
pub proof fn text_nests_at_most_256_containers(b: Seq<u8>, dialect: Dialect, j: Json)
    requires
        text_value(b, dialect) == Ok::<Json, Error>(j),
    ensures
        nested_within(j, 256),
{
    text_facts(b, dialect);
    read_is_nested_within(b, trivia_end(b, text_start(b), dialect)->Ok_0, dialect, 0);
}

/// Whether one key stands before another byte by byte: it goes on as the other does up to
/// where it ends, or up to a smaller byte.
pub open spec fn stands_before(a: Seq<u8>, c: Seq<u8>) -> bool {
    exists|n: int|
        0 <= n <= a.len() && n <= c.len() && #[trigger] a.take(n) == c.take(n) && (n == a.len() || (n < c.len() && a[n] < c[n]))
}

proof fn at_most_stands_before(a: Seq<u8>, c: Seq<u8>)
    requires
        key_at_most(a, c),
    ensures
        stands_before(a, c),
    decreases a.len(),
{
    if a.len() == 0 {
        assert(a.take(0) =~= c.take(0));
    } else if a[0] != c[0] {
        assert(a.take(0) =~= c.take(0));
    } else {
        at_most_stands_before(a.skip(1), c.skip(1));
        let n = choose|n: int|
            0 <= n <= a.skip(1).len() && n <= c.skip(1).len() && #[trigger] a.skip(1).take(n) == c.skip(1).take(n) && (n == a.skip(
                1,
            ).len() || (n < c.skip(1).len() && a.skip(1)[n] < c.skip(1)[n]));
        assert(a.take(n + 1) =~= c.take(n + 1)) by {
            assert forall|i: int| 0 <= i < n + 1 implies #[trigger] a.take(n + 1)[i] == c.take(n + 1)[i] by {
                if i > 0 {
                    assert(a.skip(1).take(n)[i - 1] == c.skip(1).take(n)[i - 1]);
                }
            }
        }
    }
}

proof fn at_most_goes_on(a: Seq<u8>, c: Seq<u8>, e: Seq<u8>)
    requires
        key_at_most(a, c),
        key_at_most(c, e),
    ensures
        key_at_most(a, e),
    decreases a.len(),
{
    if a.len() > 0 && c.len() > 0 && e.len() > 0 && a[0] == c[0] && c[0] == e[0] {
        at_most_goes_on(a.skip(1), c.skip(1), e.skip(1));
    }
}

proof fn one_is_at_most(a: Seq<u8>, c: Seq<u8>)
    ensures
        key_at_most(a, c) || key_at_most(c, a),
    decreases a.len(),
{
    if a.len() > 0 && c.len() > 0 && a[0] == c[0] {
        one_is_at_most(a.skip(1), c.skip(1));
    }
}

/// Whether positions go up by key.
spec fn going_up(sorted: Seq<int>, members: Seq<(Seq<u8>, Json)>) -> bool {
    forall|i: int, k: int|
        #![trigger sorted[i], sorted[k]]
        0 <= i < k < sorted.len() ==> key_at_most(members[sorted[i]].0, members[sorted[k]].0)
}

proof fn placed_goes_up(sorted: Seq<int>, members: Seq<(Seq<u8>, Json)>, i: int)
    requires
        going_up(sorted, members),
    ensures
        going_up(placed(sorted, members, i), members),
        forall|q: int|
            0 <= q < placed(sorted, members, i).len() ==> (#[trigger] placed(sorted, members, i)[q] == i || sorted.contains(
                placed(sorted, members, i)[q],
            )),
    decreases sorted.len(),
{
    let all = placed(sorted, members, i);
    if sorted.len() == 0 {
    } else if key_at_most(members[sorted.last()].0, members[i].0) {
        let n = sorted.len() - 1;
        assert forall|x: int, y: int| #![trigger all[x], all[y]] 0 <= x < y < all.len() implies key_at_most(
            members[all[x]].0,
            members[all[y]].0,
        ) by {
            if y < sorted.len() {
                assert(key_at_most(members[sorted[x]].0, members[sorted[y]].0));
            } else if x < n {
                assert(key_at_most(members[sorted[x]].0, members[sorted[n]].0));
                at_most_goes_on(members[sorted[x]].0, members[sorted[n]].0, members[i].0);
            }
        }
        assert forall|q: int| 0 <= q < all.len() implies (#[trigger] all[q] == i || sorted.contains(all[q])) by {
            if q < sorted.len() {
                assert(sorted[q] == all[q]);
            }
        }
    } else {
        let last = sorted.last();
        let n = sorted.len() - 1;
        let front = sorted.drop_last();
        assert forall|x: int, y: int| #![trigger front[x], front[y]] 0 <= x < y < front.len() implies key_at_most(
            members[front[x]].0,
            members[front[y]].0,
        ) by {
            assert(key_at_most(members[sorted[x]].0, members[sorted[y]].0));
        }
        placed_goes_up(front, members, i);
        one_is_at_most(members[last].0, members[i].0);
        let inner = placed(front, members, i);
        assert forall|q: int| 0 <= q < inner.len() implies key_at_most(members[#[trigger] inner[q]].0, members[last].0) && (inner[q] == i
            || sorted.contains(inner[q])) by {
            if inner[q] != i {
                let x = choose|x: int| 0 <= x < front.len() && front[x] == inner[q];
                assert(sorted[x] == inner[q]);
                assert(key_at_most(members[sorted[x]].0, members[sorted[n]].0));
            }
        }
        assert forall|x: int, y: int| #![trigger all[x], all[y]] 0 <= x < y < all.len() implies key_at_most(
            members[all[x]].0,
            members[all[y]].0,
        ) by {
            assert(all[x] == inner[x]);
            if y < inner.len() {
                assert(all[y] == inner[y]);
                assert(key_at_most(members[inner[x]].0, members[inner[y]].0));
            }
        }
        assert forall|q: int| 0 <= q < all.len() implies (#[trigger] all[q] == i || sorted.contains(all[q])) by {
            if q < inner.len() {
                assert(all[q] == inner[q]);
            } else {
                assert(sorted[n] == last);
            }
        }
    }
}

proof fn sorted_goes_up(members: Seq<(Seq<u8>, Json)>, n: nat)
    ensures
        going_up(sorted_positions(members, n), members),
    decreases n,
{
    if n > 0 {
        sorted_goes_up(members, (n - 1) as nat);
        placed_goes_up(sorted_positions(members, (n - 1) as nat), members, n - 1);
    }
}

/// Sorted keys are written in the order of their bytes.
pub proof fn sorted_keys_go_up(members: Seq<(Seq<u8>, Json)>, opts: EncodeOptions, i: int, k: int)
    requires
        opts.sort_keys,
        0 <= i < k < members.len(),
    ensures
        stands_before(members[written_order(members, opts)[i]].0, members[written_order(members, opts)[k]].0),
{
    written_order_is_a_permutation(members, opts);
    sorted_goes_up(members, members.len());
    let order = written_order(members, opts);
    assert(key_at_most(members[order[i]].0, members[order[k]].0));
    at_most_stands_before(members[order[i]].0, members[order[k]].0);
}

/// Keys that are not sorted are written in the order that they have.
pub proof fn unsorted_keys_keep_their_order(members: Seq<(Seq<u8>, Json)>, opts: EncodeOptions, i: int)
    requires
        !opts.sort_keys,
        0 <= i < members.len(),
    ensures
        written_order(members, opts).len() == members.len(),
        written_order(members, opts)[i] == i,
{
}

} // verus!
