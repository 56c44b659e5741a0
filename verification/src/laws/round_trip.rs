//! A written value reads back as itself.

use vstd::prelude::*;
use vstd::utf8::valid_utf8;

use crate::ascii::{COLON, COMMA, LBRACE, LBRACKET, QUOTE, RBRACE, RBRACKET, SLASH, SPACE};
use crate::dialect::Dialect;
use crate::encode::{
    placed, pretty_break, separator, sorted_positions, written, written_items, written_key, written_members,
    written_order, written_string, EncodeOptions,
};
use crate::error::Error;
use crate::laws::forms::{no_room, unbounded};
use crate::laws::strings::{stands_at, stands_split, written_string_reads_back};
use crate::laws::tokens::{
    blanks_are_skipped, breaks_are_blank, finite_number_reads_back, literal_reads_back, non_finite_reads_back, written_start,
};
use crate::lex::skip::{after_colon, next_at, NextAt};
use crate::lex::stop_sets::is_space;
use crate::lex::string::opens_string;
use crate::lex::ws::{token_end, trivia_end_here};
use crate::number::Num;
use crate::tape::{built, built_items, built_key, built_members, built_scalar, key_position, merged, Room};
use crate::value::{well_formed, Json};

verus! {

/// Whether no object has two members of one name.
pub open spec fn distinct_keys(j: Json) -> bool
    decreases j,
{
    match j {
        Json::Array(items) => forall|i: int| 0 <= i < items.len() ==> distinct_keys(#[trigger] items[i]),
        Json::Object(members) => {
            &&& forall|i: int, k: int|
                0 <= i < k < members.len() ==> (#[trigger] members[i]).0 != (#[trigger] members[k]).0
            &&& forall|i: int| 0 <= i < members.len() ==> distinct_keys((#[trigger] members[i]).1)
        },
        _ => true,
    }
}

/// A value with the members of every object in the order they are written in.
pub open spec fn arranged(j: Json, opts: EncodeOptions) -> Json
    decreases j,
{
    match j {
        Json::Array(items) => Json::Array(
            Seq::new(
                items.len(),
                |i: int|
                    if 0 <= i < items.len() {
                        arranged(items[i], opts)
                    } else {
                        Json::Null
                    },
            ),
        ),
        Json::Object(members) => Json::Object(
            Seq::new(
                members.len(),
                |i: int|
                    {
                        let k = written_order(members, opts)[i];
                        if 0 <= k < members.len() {
                            (members[k].0, arranged(members[k].1, opts))
                        } else {
                            (Seq::empty(), Json::Null)
                        }
                    },
            ),
        ),
        _ => j,
    }
}

/// Without sorting, values are written in their own order.
pub proof fn unsorted_is_arranged(j: Json, opts: EncodeOptions)
    requires
        !opts.sort_keys,
    ensures
        arranged(j, opts) == j,
    decreases j,
{
    match j {
        Json::Array(items) => {
            assert forall|i: int| 0 <= i < items.len() implies arranged(items[i], opts) == items[i] by {
                unsorted_is_arranged(items[i], opts);
            }
            assert(arranged(j, opts)->Array_0 =~= items);
        },
        Json::Object(members) => {
            assert forall|i: int| 0 <= i < members.len() implies arranged(members[i].1, opts) == members[i].1 by {
                unsorted_is_arranged(members[i].1, opts);
            }
            assert(arranged(j, opts)->Object_0 =~= members);
        },
        _ => {},
    }
}

/// Placing a position keeps positions below it and adds it once.
proof fn placed_facts(sorted: Seq<int>, members: Seq<(Seq<u8>, Json)>, i: int)
    requires
        0 <= i,
        forall|k: int| 0 <= k < sorted.len() ==> 0 <= #[trigger] sorted[k] < i,
        sorted.no_duplicates(),
    ensures
        placed(sorted, members, i).len() == sorted.len() + 1,
        forall|k: int| 0 <= k < placed(sorted, members, i).len() ==> 0 <= #[trigger] placed(sorted, members, i)[k] <= i,
        placed(sorted, members, i).no_duplicates(),
        forall|k: int|
            0 <= k < placed(sorted, members, i).len() ==> (#[trigger] placed(sorted, members, i)[k]) == i || sorted.contains(
                placed(sorted, members, i)[k],
            ),
    decreases sorted.len(),
{
    let out = placed(sorted, members, i);
    if sorted.len() == 0 || crate::encode::key_at_most(members[sorted.last()].0, members[i].0) {
        assert(out == sorted.push(i));
        assert forall|k: int| 0 <= k < out.len() implies (#[trigger] out[k]) == i || sorted.contains(out[k]) by {
            if k < sorted.len() {
                assert(sorted[k] == out[k]);
            }
        }
    } else {
        let head = sorted.drop_last();
        placed_facts(head, members, i);
        let rest = placed(head, members, i);
        assert(out == rest.push(sorted.last()));
        assert forall|k: int| 0 <= k < out.len() implies ((#[trigger] out[k]) == i || sorted.contains(out[k])) && 0 <= out[k]
            <= i by {
            if k < rest.len() {
                assert(rest[k] == i || head.contains(rest[k]));
                if head.contains(rest[k]) {
                    let w = choose|w: int| 0 <= w < head.len() && head[w] == rest[k];
                    assert(sorted[w] == rest[k]);
                }
            } else {
                assert(sorted[sorted.len() - 1] == out[k]);
            }
        }
        assert forall|x: int, y: int| 0 <= x < y < out.len() implies out[x] != out[y] by {
            if y == rest.len() {
                assert(rest[x] == i || head.contains(rest[x]));
                if head.contains(rest[x]) {
                    let w = choose|w: int| 0 <= w < head.len() && head[w] == rest[x];
                    assert(sorted[w] != sorted[sorted.len() - 1]);
                }
            } else {
                assert(rest[x] != rest[y]);
            }
        }
    }
}

proof fn sorted_positions_facts(members: Seq<(Seq<u8>, Json)>, n: nat)
    ensures
        sorted_positions(members, n).len() == n,
        forall|k: int| 0 <= k < n ==> 0 <= #[trigger] sorted_positions(members, n)[k] < n,
        sorted_positions(members, n).no_duplicates(),
    decreases n,
{
    if n > 0 {
        sorted_positions_facts(members, (n - 1) as nat);
        placed_facts(sorted_positions(members, (n - 1) as nat), members, n - 1);
    }
}

/// The written order names every member once.
pub proof fn written_order_is_a_permutation(members: Seq<(Seq<u8>, Json)>, opts: EncodeOptions)
    ensures
        written_order(members, opts).len() == members.len(),
        forall|k: int| 0 <= k < members.len() ==> 0 <= #[trigger] written_order(members, opts)[k] < members.len(),
        written_order(members, opts).no_duplicates(),
{
    sorted_positions_facts(members, members.len());
}

/// The next child of a container stands behind its separator and line break.
proof fn child_stands(b: Seq<u8>, q: int, sep: Seq<u8>, brk: Seq<u8>, closer: u8, first: bool, dialect: Dialect)
    requires
        stands_at(b, q, sep + brk),
        first ==> sep == Seq::<u8>::empty(),
        !first ==> sep == seq![COMMA],
        forall|i: int| 0 <= i < brk.len() ==> is_space(#[trigger] brk[i]),
        closer == RBRACKET || closer == RBRACE,
        q + sep.len() + brk.len() < b.len(),
        !is_space(b[q + sep.len() + brk.len()]),
        b[q + sep.len() + brk.len()] != SLASH,
        b[q + sep.len() + brk.len()] != closer,
    ensures
        next_at(b, q, dialect, closer, first) == Ok::<NextAt, Error>(NextAt::Item(q + sep.len() + brk.len())),
{
    reveal(next_at);
    stands_split(b, q, sep, brk);
    blanks_are_skipped(b, q + sep.len(), brk, dialect);
    if !first {
        assert(b[q + 0] == sep[0]);
        trivia_end_here(b, q, dialect);
    }
}

/// The closer of a container stands behind its line break.
proof fn closer_stands(b: Seq<u8>, q: int, brk: Seq<u8>, closer: u8, first: bool, dialect: Dialect)
    requires
        stands_at(b, q, brk + seq![closer]),
        forall|i: int| 0 <= i < brk.len() ==> is_space(#[trigger] brk[i]),
        closer == RBRACKET || closer == RBRACE,
    ensures
        next_at(b, q, dialect, closer, first) == Ok::<NextAt, Error>(NextAt::Close(q + brk.len() + 1)),
{
    reveal(next_at);
    stands_split(b, q, brk, seq![closer]);
    assert(b[q + brk.len() + 0] == seq![closer][0]);
    blanks_are_skipped(b, q, brk, dialect);
}

/// The closing part of a container with `n` children.
pub open spec fn closing(n: int, opts: EncodeOptions, depth: int) -> Seq<u8> {
    if n > 0 {
        pretty_break(opts, depth)
    } else {
        Seq::empty()
    }
}

/// The bytes of a prefix of an array's items are a prefix of its bytes.
proof fn items_prefix(j: Json, n: nat, m: nat, opts: EncodeOptions, depth: int) -> (rest: Seq<u8>)
    requires
        j is Array,
        n <= m <= j->Array_0.len(),
        written_items(j, m, opts, depth) is Ok,
    ensures
        written_items(j, n, opts, depth) is Ok,
        written_items(j, m, opts, depth)->Ok_0 == written_items(j, n, opts, depth)->Ok_0 + rest,
        n < m && n > 0 ==> rest.len() > 0 && rest[0] == COMMA,
    decreases m - n,
{
    if n == m {
        let rest = Seq::<u8>::empty();
        assert(written_items(j, m, opts, depth)->Ok_0 =~= written_items(j, n, opts, depth)->Ok_0 + rest);
        rest
    } else {
        let before = items_prefix(j, n, (m - 1) as nat, opts, depth);
        let last = separator(m - 1) + pretty_break(opts, depth + 1) + written(j->Array_0[m - 1], opts, depth + 1)->Ok_0;
        let rest = before + last;
        assert(written_items(j, m, opts, depth)->Ok_0 =~= written_items(j, n, opts, depth)->Ok_0 + rest);
        rest
    }
}

/// The bytes of a prefix of an object's members are a prefix of its bytes.
proof fn members_prefix(j: Json, n: nat, m: nat, opts: EncodeOptions, depth: int) -> (rest: Seq<u8>)
    requires
        j is Object,
        n <= m <= j->Object_0.len(),
        written_members(j, m, opts, depth) is Ok,
    ensures
        written_members(j, n, opts, depth) is Ok,
        written_members(j, m, opts, depth)->Ok_0 == written_members(j, n, opts, depth)->Ok_0 + rest,
        n < m && n > 0 ==> rest.len() > 0 && rest[0] == COMMA,
    decreases m - n,
{
    if n == m {
        let rest = Seq::<u8>::empty();
        assert(written_members(j, m, opts, depth)->Ok_0 =~= written_members(j, n, opts, depth)->Ok_0 + rest);
        rest
    } else {
        let members = j->Object_0;
        written_order_is_a_permutation(members, opts);
        let k = written_order(members, opts)[m - 1];
        let before = members_prefix(j, n, (m - 1) as nat, opts, depth);
        let last = separator(m - 1) + pretty_break(opts, depth + 1) + written_key(members[k].0, opts) + written(
            members[k].1,
            opts,
            depth + 1,
        )->Ok_0;
        let rest = before + last;
        assert(written_members(j, m, opts, depth)->Ok_0 =~= written_members(j, n, opts, depth)->Ok_0 + rest);
        rest
    }
}

/// What follows a child is a token boundary.
proof fn boundary_after_child(b: Seq<u8>, q: int, rest: Seq<u8>, brk: Seq<u8>, closer: u8, last: bool, dialect: Dialect)
    requires
        stands_at(b, q, rest + brk + seq![closer]),
        forall|i: int| 0 <= i < brk.len() ==> is_space(#[trigger] brk[i]),
        closer == RBRACKET || closer == RBRACE,
        last ==> rest.len() == 0,
        !last ==> rest.len() > 0 && rest[0] == COMMA,
    ensures
        token_end(b, q, dialect),
{
    let s = rest + brk + seq![closer];
    assert(b[q + 0] == s[0]);
    if last {
        if brk.len() > 0 {
            assert(s[0] == brk[0]);
        } else {
            assert(s[0] == closer);
        }
    }
}


/// A key that no member has comes behind them.
proof fn new_key_is_pushed(members: Seq<(Seq<u8>, Json)>, key: Seq<u8>, value: Json)
    requires
        forall|i: int| 0 <= i < members.len() ==> (#[trigger] members[i]).0 != key,
    ensures
        merged(members, key, value) == members.push((key, value)),
{
    absent_position(members, key, 0);
}

proof fn absent_position(members: Seq<(Seq<u8>, Json)>, key: Seq<u8>, i: int)
    requires
        0 <= i <= members.len(),
        forall|k: int| 0 <= k < members.len() ==> (#[trigger] members[k]).0 != key,
    ensures
        key_position(members, key, i) == members.len(),
    decreases members.len() - i,
{
    if i < members.len() {
        assert(members[i].0 != key);
        absent_position(members, key, i + 1);
    }
}

/// A written key and its colon read back.
pub(crate) proof fn key_reads_back(b: Seq<u8>, r: int, key: Seq<u8>, opts: EncodeOptions, first_byte: u8)
    requires
        valid_utf8(key),
        stands_at(b, r, written_key(key, opts)),
        r + written_key(key, opts).len() < b.len(),
        b[r + written_key(key, opts).len()] == first_byte,
        !is_space(first_byte),
        first_byte != SLASH,
    ensures
        built_key(b, r, unbounded(opts.dialect), no_room()) == Ok::<(int, Seq<u8>, Room), Error>(
            (r + written_key(key, opts).len(), key, no_room()),
        ),
        b[r] == QUOTE,
        r < b.len(),
{
    reveal(built_key);
    let quoted = written_string(key, opts.ascii);
    let gap = if opts.pretty {
        seq![SPACE]
    } else {
        Seq::<u8>::empty()
    };
    assert(written_key(key, opts) =~= quoted + (seq![COLON] + gap));
    stands_split(b, r, quoted, seq![COLON] + gap);
    written_string_reads_back(b, r, key, opts.ascii, opts.dialect);
    let e = r + quoted.len();
    stands_split(b, e, seq![COLON], gap);
    assert(b[e + 0] == seq![COLON][0]);
    trivia_end_here(b, e, opts.dialect);
    blanks_are_skipped(b, e + 1, gap, opts.dialect);
    assert(after_colon(b, e, opts.dialect) == Ok::<int, Error>(e + 1 + gap.len()));
    assert(opens_string(b[r], opts.dialect));
}

/// A value written at `depth` reads back as itself, member order aside.
pub(crate) proof fn value_reads_back(b: Seq<u8>, p: int, j: Json, opts: EncodeOptions, depth: int)
    requires
        well_formed(j),
        distinct_keys(j),
        written(j, opts, depth) is Ok,
        stands_at(b, p, written(j, opts, depth)->Ok_0),
        token_end(b, p + written(j, opts, depth)->Ok_0.len(), opts.dialect),
    ensures
        built(b, p, unbounded(opts.dialect), no_room(), depth) == Ok::<(int, Json, Room), Error>(
            (p + written(j, opts, depth)->Ok_0.len(), arranged(j, opts), no_room()),
        ),
    decreases j, 1nat, 0nat,
{
    let s = written(j, opts, depth)->Ok_0;
    written_start(j, opts, depth);
    assert(b[p + 0] == s[0]);
    match j {
        Json::Null | Json::Bool(_) => {
            literal_reads_back(b, p, j, s, opts.dialect);
        },
        Json::Number(Num::Finite(spelling)) => {
            crate::lex::number::number_end_bounds(spelling, 0, Dialect::Rfc8259);
            finite_number_reads_back(b, p, spelling, opts.dialect);
            reveal(built_scalar);
        },
        Json::Number(Num::NonFinite(value)) => {
            non_finite_reads_back(b, p, value);
        },
        Json::Str(text) => {
            reveal(built_scalar);
            written_string_reads_back(b, p, text, opts.ascii, opts.dialect);
        },
        Json::Array(items) => {
            array_reads_back(b, p, j, items, opts, depth);
        },
        Json::Object(members) => {
            object_reads_back(b, p, j, members, opts, depth);
        },
    }
}

proof fn array_reads_back(b: Seq<u8>, p: int, j: Json, items: Seq<Json>, opts: EncodeOptions, depth: int)
    requires
        j == Json::Array(items),
        well_formed(j),
        distinct_keys(j),
        written(j, opts, depth) is Ok,
        stands_at(b, p, written(j, opts, depth)->Ok_0),
    ensures
        built(b, p, unbounded(opts.dialect), no_room(), depth) == Ok::<(int, Json, Room), Error>(
            (p + written(j, opts, depth)->Ok_0.len(), arranged(j, opts), no_room()),
        ),
    decreases j, 0nat, items.len() + 1,
{
    let n = items.len();
    let body = written_items(j, n, opts, depth)->Ok_0;
    let brk = closing(n as int, opts, depth);
    let s = written(j, opts, depth)->Ok_0;
    assert(s =~= seq![LBRACKET] + (body + (brk + seq![RBRACKET])));
    stands_split(b, p, seq![LBRACKET], body + (brk + seq![RBRACKET]));
    assert(b[p + 0] == seq![LBRACKET][0]);
    stands_split(b, p + 1, body, brk + seq![RBRACKET]);
    items_read_back(b, p, j, items, n, opts, depth);
    breaks_are_blank(opts, depth);
    let all = arranged(j, opts)->Array_0;
    assert(all.take(n as int) =~= all);
    closer_stands(b, p + 1 + body.len(), brk, RBRACKET, n == 0, opts.dialect);
}

/// The first `n` items of a written array read back.
proof fn items_read_back(b: Seq<u8>, p: int, j: Json, items: Seq<Json>, n: nat, opts: EncodeOptions, depth: int)
    requires
        j == Json::Array(items),
        n <= items.len(),
        well_formed(j),
        distinct_keys(j),
        written(j, opts, depth) is Ok,
        stands_at(b, p, written(j, opts, depth)->Ok_0),
    ensures
        written_items(j, n, opts, depth) is Ok,
        built_items(b, p + 1, unbounded(opts.dialect), no_room(), depth + 1, Seq::empty()) == built_items(
            b,
            p + 1 + written_items(j, n, opts, depth)->Ok_0.len(),
            unbounded(opts.dialect),
            no_room(),
            depth + 1,
            arranged(j, opts)->Array_0.take(n as int),
        ),
    decreases j, 0nat, n,
{
    let len = items.len();
    let body = written_items(j, len, opts, depth)->Ok_0;
    let all = arranged(j, opts)->Array_0;
    if n == 0 {
        assert(all.take(0) =~= Seq::<Json>::empty());
        let rest = items_prefix(j, 0, len, opts, depth);
    } else {
        let m = (n - 1) as nat;
        items_read_back(b, p, j, items, m, opts, depth);
        item_layout(b, p, j, items, n, opts, depth);
        let q = p + 1 + written_items(j, m, opts, depth)->Ok_0.len();
        let item = items[n - 1];
        let sep = separator(n - 1);
        let line = pretty_break(opts, depth + 1);
        let r = q + sep.len() + line.len();
        breaks_are_blank(opts, depth + 1);
        child_stands(b, q, sep, line, RBRACKET, m == 0, opts.dialect);
        value_reads_back(b, r, item, opts, depth + 1);
        let e = r + written(item, opts, depth + 1)->Ok_0.len();
        item_step(b, q, r, e, arranged(item, opts), opts.dialect, depth + 1, all.take(m as int));
        assert(all.take(n as int) =~= all.take(m as int).push(arranged(item, opts)));
    }
}

/// One item read.
pub(crate) proof fn item_step(b: Seq<u8>, q: int, r: int, e: int, item: Json, dialect: Dialect, depth: int, done: Seq<Json>)
    requires
        next_at(b, q, dialect, RBRACKET, done.len() == 0) == Ok::<NextAt, Error>(NextAt::Item(r)),
        built(b, r, unbounded(dialect), no_room(), depth) == Ok::<(int, Json, Room), Error>((e, item, no_room())),
        q <= r < e <= b.len(),
    ensures
        built_items(b, q, unbounded(dialect), no_room(), depth, done) == built_items(
            b,
            e,
            unbounded(dialect),
            no_room(),
            depth,
            done.push(item),
        ),
{
}

/// A container's text, grouped around one child.
proof fn regrouped(opener: u8, before: Seq<u8>, sep: Seq<u8>, line: Seq<u8>, child: Seq<u8>, rest: Seq<u8>, brk: Seq<u8>, closer: u8)
    ensures
        seq![opener] + ((before + sep + line + child) + rest) + brk + seq![closer] == seq![opener] + (before + ((sep + line)
            + (child + (rest + brk + seq![closer])))),
{
    assert(seq![opener] + ((before + sep + line + child) + rest) + brk + seq![closer] =~= seq![opener] + (before + ((sep
        + line) + (child + (rest + brk + seq![closer])))));
}

/// Where one child of a container stands, from how its text is grouped.
proof fn child_layout(
    b: Seq<u8>,
    p: int,
    opener: u8,
    before: Seq<u8>,
    sep: Seq<u8>,
    line: Seq<u8>,
    child: Seq<u8>,
    rest: Seq<u8>,
    brk: Seq<u8>,
    closer: u8,
)
    requires
        stands_at(b, p, seq![opener] + ((before + sep + line + child) + rest) + brk + seq![closer]),
    ensures
        stands_at(b, p + 1 + before.len(), sep + line),
        stands_at(b, p + 1 + before.len() + sep.len() + line.len(), child),
        stands_at(
            b,
            p + 1 + before.len() + sep.len() + line.len() + child.len(),
            rest + brk + seq![closer],
        ),
{
    regrouped(opener, before, sep, line, child, rest, brk, closer);
    let tail = rest + brk + seq![closer];
    stands_split(b, p, seq![opener], before + ((sep + line) + (child + tail)));
    stands_split(b, p + 1, before, (sep + line) + (child + tail));
    stands_split(b, p + 1 + before.len(), sep + line, child + tail);
    stands_split(b, p + 1 + before.len() + sep.len() + line.len(), child, tail);
}

/// Where item `n - 1` of a written array stands.
proof fn item_layout(b: Seq<u8>, p: int, j: Json, items: Seq<Json>, n: nat, opts: EncodeOptions, depth: int)
    requires
        j == Json::Array(items),
        1 <= n <= items.len(),
        well_formed(j),
        written(j, opts, depth) is Ok,
        stands_at(b, p, written(j, opts, depth)->Ok_0),
    ensures
        ({
            let q = p + 1 + written_items(j, (n - 1) as nat, opts, depth)->Ok_0.len();
            let sep = separator(n - 1);
            let line = pretty_break(opts, depth + 1);
            let r = q + sep.len() + line.len();
            let text = written(items[n - 1], opts, depth + 1)->Ok_0;
            &&& 0 <= q <= r < r + text.len() <= b.len()
            &&& written(items[n - 1], opts, depth + 1) is Ok
            &&& written_items(j, n, opts, depth) is Ok
            &&& stands_at(b, q, sep + line)
            &&& stands_at(b, r, text)
            &&& token_end(b, r + text.len(), opts.dialect)
            &&& r + text.len() == p + 1 + written_items(j, n, opts, depth)->Ok_0.len()
            &&& !is_space(b[r]) && b[r] != SLASH && b[r] != RBRACKET
        }),
{
    let len = items.len();
    let rest = items_prefix(j, n, len, opts, depth);
    let brk = closing(len as int, opts, depth);
    let s = written(j, opts, depth)->Ok_0;
    let before = written_items(j, (n - 1) as nat, opts, depth)->Ok_0;
    let item = items[n - 1];
    let text = written(item, opts, depth + 1)->Ok_0;
    let sep = separator(n - 1);
    let line = pretty_break(opts, depth + 1);
    assert(written_items(j, n, opts, depth)->Ok_0 == before + sep + line + text);
    assert(s == seq![LBRACKET] + ((before + sep + line + text) + rest) + brk + seq![RBRACKET]);
    child_layout(b, p, LBRACKET, before, sep, line, text, rest, brk, RBRACKET);
    let r = p + 1 + before.len() + sep.len() + line.len();
    breaks_are_blank(opts, depth);
    written_start(item, opts, depth + 1);
    assert(b[r + 0] == text[0]);
    boundary_after_child(b, r + text.len(), rest, brk, RBRACKET, n == len, opts.dialect);
}

proof fn object_reads_back(b: Seq<u8>, p: int, j: Json, members: Seq<(Seq<u8>, Json)>, opts: EncodeOptions, depth: int)
    requires
        j == Json::Object(members),
        well_formed(j),
        distinct_keys(j),
        written(j, opts, depth) is Ok,
        stands_at(b, p, written(j, opts, depth)->Ok_0),
    ensures
        built(b, p, unbounded(opts.dialect), no_room(), depth) == Ok::<(int, Json, Room), Error>(
            (p + written(j, opts, depth)->Ok_0.len(), arranged(j, opts), no_room()),
        ),
    decreases j, 0nat, members.len() + 1,
{
    let n = members.len();
    let body = written_members(j, n, opts, depth)->Ok_0;
    let brk = closing(n as int, opts, depth);
    let s = written(j, opts, depth)->Ok_0;
    assert(s =~= seq![LBRACE] + (body + (brk + seq![RBRACE])));
    stands_split(b, p, seq![LBRACE], body + (brk + seq![RBRACE]));
    assert(b[p + 0] == seq![LBRACE][0]);
    stands_split(b, p + 1, body, brk + seq![RBRACE]);
    members_read_back(b, p, j, members, n, opts, depth);
    breaks_are_blank(opts, depth);
    let all = arranged(j, opts)->Object_0;
    assert(all.take(n as int) =~= all);
    closer_stands(b, p + 1 + body.len(), brk, RBRACE, n == 0, opts.dialect);
}

/// The first `n` members of a written object read back.
proof fn members_read_back(
    b: Seq<u8>,
    p: int,
    j: Json,
    members: Seq<(Seq<u8>, Json)>,
    n: nat,
    opts: EncodeOptions,
    depth: int,
)
    requires
        j == Json::Object(members),
        n <= members.len(),
        well_formed(j),
        distinct_keys(j),
        written(j, opts, depth) is Ok,
        stands_at(b, p, written(j, opts, depth)->Ok_0),
    ensures
        written_members(j, n, opts, depth) is Ok,
        built_members(b, p + 1, unbounded(opts.dialect), no_room(), depth + 1, Seq::empty()) == built_members(
            b,
            p + 1 + written_members(j, n, opts, depth)->Ok_0.len(),
            unbounded(opts.dialect),
            no_room(),
            depth + 1,
            arranged(j, opts)->Object_0.take(n as int),
        ),
    decreases j, 0nat, n,
{
    let len = members.len();
    let all = arranged(j, opts)->Object_0;
    if n == 0 {
        assert(all.take(0) =~= Seq::<(Seq<u8>, Json)>::empty());
        let rest = members_prefix(j, 0, len, opts, depth);
    } else {
        let m = (n - 1) as nat;
        members_read_back(b, p, j, members, m, opts, depth);
        member_layout(b, p, j, members, n, opts, depth);
        written_order_is_a_permutation(members, opts);
        let order = written_order(members, opts);
        let k = order[n - 1];
        let key = members[k].0;
        let value = members[k].1;
        let q = p + 1 + written_members(j, m, opts, depth)->Ok_0.len();
        let sep = separator(n - 1);
        let line = pretty_break(opts, depth + 1);
        let r = q + sep.len() + line.len();
        let v = r + written_key(key, opts).len();
        breaks_are_blank(opts, depth + 1);
        key_reads_back(b, r, key, opts, b[v]);
        child_stands(b, q, sep, line, RBRACE, m == 0, opts.dialect);
        value_reads_back(b, v, value, opts, depth + 1);
        let e = v + written(value, opts, depth + 1)->Ok_0.len();
        let done = all.take(m as int);
        assert forall|i: int| 0 <= i < done.len() implies (#[trigger] done[i]).0 != key by {
            assert(done[i].0 == members[order[i]].0);
            assert(order[i] != order[n - 1]);
            if order[i] < k {
                assert(members[order[i]].0 != members[k].0);
            } else {
                assert(members[k].0 != members[order[i]].0);
            }
        }
        new_key_is_pushed(done, key, arranged(value, opts));
        member_step(b, q, r, v, e, key, arranged(value, opts), opts.dialect, depth + 1, done);
        assert(all.take(n as int) =~= done.push((key, arranged(value, opts))));
    }
}

/// One member read.
pub(crate) proof fn member_step(
    b: Seq<u8>,
    q: int,
    r: int,
    v: int,
    e: int,
    key: Seq<u8>,
    value: Json,
    dialect: Dialect,
    depth: int,
    done: Seq<(Seq<u8>, Json)>,
)
    requires
        next_at(b, q, dialect, RBRACE, done.len() == 0) == Ok::<NextAt, Error>(NextAt::Item(r)),
        built_key(b, r, unbounded(dialect), no_room()) == Ok::<(int, Seq<u8>, Room), Error>((v, key, no_room())),
        built(b, v, unbounded(dialect), no_room(), depth) == Ok::<(int, Json, Room), Error>((e, value, no_room())),
        q <= r < v < e <= b.len(),
    ensures
        built_members(b, q, unbounded(dialect), no_room(), depth, done) == built_members(
            b,
            e,
            unbounded(dialect),
            no_room(),
            depth,
            merged(done, key, value),
        ),
{
}

/// The text of the first `n` members, grouped around the last of them.
proof fn member_text(j: Json, members: Seq<(Seq<u8>, Json)>, n: nat, opts: EncodeOptions, depth: int)
    requires
        j == Json::Object(members),
        1 <= n <= members.len(),
        written_members(j, n, opts, depth) is Ok,
    ensures
        ({
            let k = written_order(members, opts)[n - 1];
            &&& 0 <= k < members.len()
            &&& written(members[k].1, opts, depth + 1) is Ok
            &&& written_members(j, (n - 1) as nat, opts, depth) is Ok
            &&& written_members(j, n, opts, depth)->Ok_0 == written_members(j, (n - 1) as nat, opts, depth)->Ok_0 + separator(
                n - 1,
            ) + pretty_break(opts, depth + 1) + (written_key(members[k].0, opts) + written(
                members[k].1,
                opts,
                depth + 1,
            )->Ok_0)
        }),
{
    written_order_is_a_permutation(members, opts);
    let k = written_order(members, opts)[n - 1];
    let lead = written_members(j, (n - 1) as nat, opts, depth)->Ok_0 + separator(n - 1) + pretty_break(opts, depth + 1);
    let keyed = written_key(members[k].0, opts);
    let text = written(members[k].1, opts, depth + 1)->Ok_0;
    assert((lead + keyed) + text =~= lead + (keyed + text));
}

/// Where the member written in place `n - 1` of an object stands.
proof fn member_layout(
    b: Seq<u8>,
    p: int,
    j: Json,
    members: Seq<(Seq<u8>, Json)>,
    n: nat,
    opts: EncodeOptions,
    depth: int,
)
    requires
        j == Json::Object(members),
        1 <= n <= members.len(),
        well_formed(j),
        written(j, opts, depth) is Ok,
        stands_at(b, p, written(j, opts, depth)->Ok_0),
    ensures
        ({
            let k = written_order(members, opts)[n - 1];
            let q = p + 1 + written_members(j, (n - 1) as nat, opts, depth)->Ok_0.len();
            let sep = separator(n - 1);
            let line = pretty_break(opts, depth + 1);
            let r = q + sep.len() + line.len();
            let keyed = written_key(members[k].0, opts);
            let v = r + keyed.len();
            let text = written(members[k].1, opts, depth + 1)->Ok_0;
            &&& 0 <= k < members.len()
            &&& 0 <= q <= r < v < v + text.len() <= b.len()
            &&& written(members[k].1, opts, depth + 1) is Ok
            &&& written_members(j, n, opts, depth) is Ok
            &&& stands_at(b, q, sep + line)
            &&& stands_at(b, r, keyed)
            &&& stands_at(b, v, text)
            &&& token_end(b, v + text.len(), opts.dialect)
            &&& v + text.len() == p + 1 + written_members(j, n, opts, depth)->Ok_0.len()
            &&& !is_space(b[v]) && b[v] != SLASH
            &&& b[r] == QUOTE
        }),
{
    let len = members.len();
    let rest = members_prefix(j, n, len, opts, depth);
    written_order_is_a_permutation(members, opts);
    let k = written_order(members, opts)[n - 1];
    let brk = closing(len as int, opts, depth);
    let s = written(j, opts, depth)->Ok_0;
    let before = written_members(j, (n - 1) as nat, opts, depth)->Ok_0;
    let value = members[k].1;
    let text = written(value, opts, depth + 1)->Ok_0;
    let keyed = written_key(members[k].0, opts);
    let sep = separator(n - 1);
    let line = pretty_break(opts, depth + 1);
    member_text(j, members, n, opts, depth);
    assert(s == seq![LBRACE] + ((before + sep + line + (keyed + text)) + rest) + brk + seq![RBRACE]);
    child_layout(b, p, LBRACE, before, sep, line, keyed + text, rest, brk, RBRACE);
    let r = p + 1 + before.len() + sep.len() + line.len();
    stands_split(b, r, keyed, text);
    let v = r + keyed.len();
    breaks_are_blank(opts, depth);
    written_start(value, opts, depth + 1);
    assert(b[v + 0] == text[0]);
    assert(b[r + 0] == keyed[0]);
    boundary_after_child(b, v + text.len(), rest, brk, RBRACE, n == len, opts.dialect);
}

/// What is written is read back: under the grammar it was written for, the text
/// of a value parses to that value, digit for digit and member for member. Only
/// sorting the keys changes the order of members.
pub proof fn written_value_reads_back(j: Json, opts: EncodeOptions)
    requires
        well_formed(j),
        distinct_keys(j),
    ensures
        written(j, opts, 0) matches Ok(text) ==> crate::laws::forms::read_text(text, opts.dialect) == Ok::<Json, Error>(
            arranged(j, opts),
        ),
        !opts.sort_keys ==> arranged(j, opts) == j,
{
    reveal(crate::tape::built_text);
    if let Ok(text) = written(j, opts, 0) {
        assert(stands_at(text, 0, text));
        written_start(j, opts, 0);
        trivia_end_here(text, 0, opts.dialect);
        value_reads_back(text, 0, j, opts, 0);
        trivia_end_here(text, text.len() as int, opts.dialect);
    }
    if !opts.sort_keys {
        unsorted_is_arranged(j, opts);
    }
}

} // verus!
