//! An inserted value is where it was put, and nothing else changes.

use vstd::prelude::*;
use vstd::utf8::valid_utf8;

use crate::ascii::{QUOTE, COLON, COMMA, LBRACE, LBRACKET, SLASH};
use crate::demand::StepModel;
use crate::dialect::Dialect;
use crate::edit::apply::edited;
use crate::edit::dom::{updated, Change};
use crate::edit::members::{container_at, inline_end, last_with_key, line_blanks_end, members_from, members_of, ContainerKind, MemberModel};
use crate::edit::plan::{appended, compact_under, filled_slot, plain_splice, planned_insert, planned_splice, replacement};
use crate::edit::request::EditModel;
use crate::edit::splice::SpliceModel;
use crate::encode::{written, written_key, written_string};
use crate::error::Error;
use crate::framing::text_start;
use crate::laws::assign::{compact_at_lower_depth, edit_is_located, edit_is_one_splice, exchanged, read_text_is_strict};
use crate::laws::deletes::{gathered_without, container_is_exchanged, first_is, moved_slot};
use crate::laws::forms::{no_room, unbounded};
use crate::laws::local::{
    block_is_local, built_key_is_local, copied, next_is_local, read_is_local, trivia_is_local, value_start,
};
use crate::laws::filters::{array_starts_are_slots, begins};
use crate::laws::indices::{asked_at, found_at, index_leads_to, one_step, path_is_found, spot_steps_on};
use crate::laws::paths::{item_starts, member_starts, position_of, read_at_lower_depth, spot, text_value, tree_at};
use crate::scan::strict_ask;
use crate::laws::round_trip::{key_reads_back, distinct_keys, unsorted_is_arranged, value_reads_back};
use crate::laws::slots::{
    gathered, member_starts_are_slots, member_values, members_are_gathered, named_starts, pairs, some_members,
    blanks_are_space, next_is_separated,
    behind, closer, collected_as, comes_next, container_value, element_values, found_container_is_laid, glue_start, laid, laid_container_reads, slot_ends_at_a_boundary,
    slot_is_followed, slot_reads, slots_are_collected, Slot,
};
use crate::laws::strings::stands_at;
use crate::laws::tokens::written_start;
use crate::lex::skip::{next_at, NextAt, MAX_NESTING};
use crate::laws::replace::next_is_a_boundary;
use crate::lex::stop_sets::{run_end_is, StopSet, Ws};
use crate::lex::ws::{comment_end, comment_end_bounds, token_end, trivia_end, trivia_end_bounds, trivia_end_here};
use crate::tape::{built, key_position, Room};
use crate::value::{well_formed, ByteRange, Json};

verus! {

/// Whether `o` is `b` with the bytes `[x, y)` replaced by others, so that the rest stands
/// `d` further on.
pub(crate) open spec fn put_between(b: Seq<u8>, x: int, y: int, o: Seq<u8>, d: int) -> bool {
    &&& 0 <= x <= y <= b.len()
    &&& x <= y + d
    &&& o.len() == b.len() + d
    &&& copied(b, 0, x, o, 0)
    &&& copied(b, y, b.len() as int, o, d)
}

/// Slots with those from position `k` up to `m` replaced by a fresh one, the later ones
/// `d` further on.
pub(crate) open spec fn with_fresh(slots: Seq<Slot>, k: int, m: int, fresh: Slot, d: int) -> Seq<Slot> {
    Seq::new(
        (k + 1 + slots.len() - m) as nat,
        |i: int|
            if i < k {
                slots[i]
            } else if i == k {
                fresh
            } else {
                moved_slot(slots[i - 1 - k + m], d)
            },
    )
}

/// Whether a fresh slot fits among others in the text that has it.
pub(crate) open spec fn fits_in(
    b: Seq<u8>,
    x: int,
    y: int,
    o: Seq<u8>,
    d: int,
    open: int,
    close: int,
    kind: ContainerKind,
    slots: Seq<Slot>,
    k: int,
    m: int,
    fresh: Slot,
    dialect: Dialect,
    depth: int,
) -> bool {
    &&& put_between(b, x, y, o, d)
    &&& laid(b, open, close, kind, slots, dialect, depth)
    &&& 0 <= k <= m <= slots.len()
    &&& open < x
    &&& y < close <= b.len()
    &&& k > 0 ==> slots[k - 1].end <= x && token_end(o, slots[k - 1].end, dialect) && slots[k - 1].end < fresh.at
    &&& m < slots.len() ==> y <= slots[m].at && fresh.end < slots[m].at + d
    &&& slot_reads(o, fresh, kind, dialect, depth)
    &&& open < fresh.at
    &&& next_at(o, behind(open, slots, k), dialect, closer(kind), k == 0) == Ok::<NextAt, Error>(NextAt::Item(fresh.at))
    &&& next_at(o, fresh.end, dialect, closer(kind), false) == Ok::<NextAt, Error>(
        if m < slots.len() {
            NextAt::Item(slots[m].at + d)
        } else {
            NextAt::Close(close + d)
        },
    )
}

/// The other slots read as they did beside a fresh one.
#[verifier::rlimit(60)]
proof fn beside_fresh_reads(
    b: Seq<u8>,
    x: int,
    y: int,
    o: Seq<u8>,
    d: int,
    open: int,
    close: int,
    kind: ContainerKind,
    slots: Seq<Slot>,
    k: int,
    m: int,
    fresh: Slot,
    dialect: Dialect,
    depth: int,
    i: int,
)
    requires
        fits_in(b, x, y, o, d, open, close, kind, slots, k, m, fresh, dialect, depth),
        0 <= i < slots.len(),
        i < k || m <= i,
    ensures
        slot_reads(b, slots[i], kind, dialect, depth),
        open < slots[i].at < slots[i].end < close,
        i < k ==> slots[i].end <= x && slots[i].end < fresh.at && slot_reads(o, slots[i], kind, dialect, depth),
        i >= m ==> y <= slots[i].at && fresh.end < slots[i].at + d && slot_reads(o, moved_slot(slots[i], d), kind, dialect, depth),
{
    let n = b.len() as int;
    let s = slots[i];
    slot_is_followed(b, open, close, kind, slots, dialect, depth, i);
    if i < k {
        slot_ends_at_a_boundary(b, open, close, kind, slots, dialect, depth, i);
        if i < k - 1 {
            slot_is_followed(b, open, close, kind, slots, dialect, depth, k - 1);
            assert(slots[i].end < slots[k - 1].at);
            assert(b[s.end] == o[s.end + 0]);
        }
        assert(copied(b, 0, s.end, o, 0));
        read_is_local(b, 0, s.end, o, 0, s.value, dialect, depth);
        built_key_is_local(b, 0, s.end, o, 0, s.at, dialect);
    } else {
        if i > m {
            slot_is_followed(b, open, close, kind, slots, dialect, depth, m);
            assert(slots[m].end < slots[i].at);
        }
        read_is_local(b, y, n, o, d, s.value, dialect, depth);
        built_key_is_local(b, y, n, o, d, s.at, dialect);
    }
}

/// What comes next in the text that has a fresh slot.
#[verifier::rlimit(60)]
proof fn next_beside_fresh(
    b: Seq<u8>,
    x: int,
    y: int,
    o: Seq<u8>,
    d: int,
    open: int,
    close: int,
    kind: ContainerKind,
    slots: Seq<Slot>,
    k: int,
    m: int,
    fresh: Slot,
    dialect: Dialect,
    depth: int,
    i: int,
)
    requires
        fits_in(b, x, y, o, d, open, close, kind, slots, k, m, fresh, dialect, depth),
        0 <= i <= with_fresh(slots, k, m, fresh, d).len(),
    ensures
        ({
            let all = with_fresh(slots, k, m, fresh, d);
            next_at(o, behind(open, all, i), dialect, closer(kind), i == 0) == Ok::<NextAt, Error>(
                if i < all.len() {
                    NextAt::Item(all[i].at)
                } else {
                    NextAt::Close(close + d)
                },
            )
        }),
{
    let all = with_fresh(slots, k, m, fresh, d);
    let n = b.len() as int;
    if i < k {
        beside_fresh_reads(b, x, y, o, d, open, close, kind, slots, k, m, fresh, dialect, depth, i);
        assert(behind(open, all, i) == behind(open, slots, i));
        if i > 0 {
            beside_fresh_reads(b, x, y, o, d, open, close, kind, slots, k, m, fresh, dialect, depth, i - 1);
            assert(slots[i - 1].end < slots[i].at);
        }
        assert(comes_next(b, open, kind, slots, dialect, i));
        next_is_local(b, 0, x, o, 0, behind(open, slots, i), dialect, closer(kind), i == 0);
    } else if i == k {
        assert(behind(open, all, i) == behind(open, slots, k));
    } else if i == k + 1 {
        assert(behind(open, all, i) == fresh.end);
    } else {
        let q = i - 1 - k + m;
        assert(all[i - 1] == moved_slot(slots[q - 1], d));
        beside_fresh_reads(b, x, y, o, d, open, close, kind, slots, k, m, fresh, dialect, depth, q - 1);
        assert(behind(open, slots, q) == slots[q - 1].end);
        if q < slots.len() {
            beside_fresh_reads(b, x, y, o, d, open, close, kind, slots, k, m, fresh, dialect, depth, q);
            assert(comes_next(b, open, kind, slots, dialect, q));
        }
        next_is_local(b, y, n, o, d, slots[q - 1].end, dialect, closer(kind), false);
    }
}

/// The slots with a fresh one lie in the text that has it.
#[verifier::rlimit(60)]
pub(crate) proof fn fresh_slot_lies(
    b: Seq<u8>,
    x: int,
    y: int,
    o: Seq<u8>,
    d: int,
    open: int,
    close: int,
    kind: ContainerKind,
    slots: Seq<Slot>,
    k: int,
    m: int,
    fresh: Slot,
    dialect: Dialect,
    depth: int,
)
    requires
        fits_in(b, x, y, o, d, open, close, kind, slots, k, m, fresh, dialect, depth),
    ensures
        laid(o, open, close + d, kind, with_fresh(slots, k, m, fresh, d), dialect, depth),
{
    let all = with_fresh(slots, k, m, fresh, d);
    assert forall|i: int| 0 <= i < all.len() implies slot_reads(o, #[trigger] all[i], kind, dialect, depth) && open < all[i].at by {
        if i < k {
            beside_fresh_reads(b, x, y, o, d, open, close, kind, slots, k, m, fresh, dialect, depth, i);
        } else if i > k {
            beside_fresh_reads(b, x, y, o, d, open, close, kind, slots, k, m, fresh, dialect, depth, i - 1 - k + m);
        }
    }
    assert forall|i: int, q: int| #![trigger all[i], all[q]] 0 <= i < q < all.len() implies all[i].end < all[q].at by {
        if i != k {
            let from = if i < k {
                i
            } else {
                i - 1 - k + m
            };
            beside_fresh_reads(b, x, y, o, d, open, close, kind, slots, k, m, fresh, dialect, depth, from);
        }
        if q != k {
            let to = if q < k {
                q
            } else {
                q - 1 - k + m
            };
            beside_fresh_reads(b, x, y, o, d, open, close, kind, slots, k, m, fresh, dialect, depth, to);
            if i != k {
                let from = if i < k {
                    i
                } else {
                    i - 1 - k + m
                };
                assert(slots[from].end < slots[to].at);
            }
        }
    }
    assert forall|i: int| 0 <= i < all.len() implies #[trigger] comes_next(o, open, kind, all, dialect, i) by {
        next_beside_fresh(b, x, y, o, d, open, close, kind, slots, k, m, fresh, dialect, depth, i);
    }
    next_beside_fresh(b, x, y, o, d, open, close, kind, slots, k, m, fresh, dialect, depth, all.len() as int);
}

/// What follows a separator.
proof fn next_behind_comma(o: Seq<u8>, pos: int, c: int, q: int, dialect: Dialect, close: u8)
    requires
        close != COMMA,
        trivia_end(o, pos, dialect) == Ok::<int, Error>(c),
        c < o.len(),
        o[c] == COMMA,
        trivia_end(o, c + 1, dialect) == Ok::<int, Error>(q),
        q < o.len(),
        o[q] != close,
    ensures
        next_at(o, pos, dialect, close, false) == Ok::<NextAt, Error>(NextAt::Item(q)),
{
    reveal(next_at);
}

/// What closes.
proof fn next_is_closer(o: Seq<u8>, pos: int, c: int, dialect: Dialect, close: u8)
    requires
        trivia_end(o, pos, dialect) == Ok::<int, Error>(c),
        c < o.len(),
        o[c] == close,
    ensures
        next_at(o, pos, dialect, close, false) == Ok::<NextAt, Error>(NextAt::Close(c + 1)),
{
    reveal(next_at);
}

/// A text with other bytes in place of some.
pub(crate) proof fn exchanged_is_put(b: Seq<u8>, x: int, y: int, w: Seq<u8>)
    requires
        0 <= x <= y <= b.len(),
    ensures
        put_between(b, x, y, exchanged(b, x, y, w), w.len() - (y - x)),
        stands_at(exchanged(b, x, y, w), x, w),
{
    let o = exchanged(b, x, y, w);
    let d = w.len() - (y - x);
    assert forall|i: int| 0 <= i < x implies #[trigger] b[i] == o[i + 0] by {}
    assert forall|i: int| y <= i < b.len() implies #[trigger] b[i] == o[i + d] by {}
    assert forall|i: int| 0 <= i < w.len() implies o[x + i] == #[trigger] w[i] by {}
}

/// What stands at a position of a text also stands there in part.
pub(crate) proof fn part_stands(o: Seq<u8>, x: int, w: Seq<u8>, from: int, part: Seq<u8>)
    requires
        stands_at(o, x, w),
        0 <= from,
        from + part.len() <= w.len(),
        forall|i: int| 0 <= i < part.len() ==> w[from + i] == #[trigger] part[i],
    ensures
        stands_at(o, x + from, part),
{
    assert forall|i: int| 0 <= i < part.len() implies o[x + from + i] == #[trigger] part[i] by {
        assert(o[x + (from + i)] == w[from + i]);
    }
}

/// A written value reads where it stands, in front of a token boundary.
pub(crate) proof fn written_reads(o: Seq<u8>, at: int, v: Json, w: Seq<u8>, dialect: Dialect, depth: int)
    requires
        well_formed(v),
        distinct_keys(v),
        written(v, compact_under(dialect), depth) == Ok::<Seq<u8>, Error>(w),
        stands_at(o, at, w),
        token_end(o, at + w.len(), dialect),
    ensures
        built(o, at, unbounded(dialect), no_room(), depth) == Ok::<(int, Json, Room), Error>((at + w.len(), v, no_room())),
        w.len() > 0,
        trivia_end(o, at, dialect) == Ok::<int, Error>(at),
        o[at] != crate::ascii::RBRACE && o[at] != crate::ascii::RBRACKET && o[at] != COMMA,
{
    value_reads_back(o, at, v, compact_under(dialect), depth);
    unsorted_is_arranged(v, compact_under(dialect));
    written_start(v, compact_under(dialect), depth);
    assert(o[at + 0] == w[0]);
    value_start(o, at, dialect, depth);
    trivia_end_here(o, at, dialect);
}

/// The slot of a fresh element.
pub(crate) open spec fn fresh_element(at: int, w: Seq<u8>, v: Json) -> Slot {
    Slot { at, value: at, end: at + w.len(), key: Seq::empty(), read: v }
}

/// A fresh element in front of another.
#[verifier::rlimit(60)]
proof fn element_fits_in_front(
    b: Seq<u8>,
    open: int,
    close: int,
    slots: Seq<Slot>,
    k: int,
    v: Json,
    w: Seq<u8>,
    dialect: Dialect,
    depth: int,
)
    requires
        laid(b, open, close, ContainerKind::Array, slots, dialect, depth),
        0 <= k < slots.len(),
        well_formed(v),
        distinct_keys(v),
        written(v, compact_under(dialect), depth) == Ok::<Seq<u8>, Error>(w),
    ensures
        ({
            let x = glue_start(b, open, slots, k, dialect);
            let piece = w + seq![COMMA];
            &&& open < x <= b.len()
            &&& fits_in(
                b,
                x,
                x,
                exchanged(b, x, x, piece),
                piece.len() as int,
                open,
                close,
                ContainerKind::Array,
                slots,
                k,
                k,
                fresh_element(x, w, v),
                dialect,
                depth,
            )
        }),
{
    let kind = ContainerKind::Array;
    let n = b.len() as int;
    let x = glue_start(b, open, slots, k, dialect);
    let piece = w + seq![COMMA];
    let d = piece.len() as int;
    slot_is_followed(b, open, close, kind, slots, dialect, depth, k);
    if k > 0 {
        slot_is_followed(b, open, close, kind, slots, dialect, depth, k - 1);
        slot_ends_at_a_boundary(b, open, close, kind, slots, dialect, depth, k - 1);
    }
    let o = exchanged(b, x, x, piece);
    exchanged_is_put(b, x, x, piece);
    part_stands(o, x, piece, 0, w);
    let c = x + w.len();
    assert(o[x + w.len()] == piece[w.len() as int]);
    written_reads(o, x, v, w, dialect, depth);
    let p = behind(open, slots, k);
    fresh_is_next(b, x, o, d, p, k == 0, dialect, closer(kind));
    other_is_next(b, x, o, d, c, slots[k].at, dialect, closer(kind));
    if k > 0 {
        assert(b[p] == o[p + 0]);
    }
}

proof fn fresh_is_next(b: Seq<u8>, x: int, o: Seq<u8>, d: int, p: int, first: bool, dialect: Dialect, close: u8)
    requires
        close != COMMA,
        put_between(b, x, x, o, d),
        if first {
            p == x
        } else {
            0 <= p < x && trivia_end(b, p, dialect) == Ok::<int, Error>(x - 1) && b[x - 1] == COMMA
        },
        trivia_end(o, x, dialect) == Ok::<int, Error>(x),
        x < o.len(),
        o[x] != close,
    ensures
        next_at(o, p, dialect, close, first) == Ok::<NextAt, Error>(NextAt::Item(x)),
{
    if first {
        first_is(o, x, x, dialect, close);
    } else {
        trivia_is_local(b, 0, x, o, 0, p, dialect);
        assert(b[x - 1] == o[x - 1 + 0]);
        next_behind_comma(o, p, x - 1, x, dialect, close);
    }
}

proof fn other_is_next(b: Seq<u8>, x: int, o: Seq<u8>, d: int, c: int, at: int, dialect: Dialect, close: u8)
    requires
        close != COMMA,
        put_between(b, x, x, o, d),
        0 <= c,
        c + 1 == x + d,
        o[c] == COMMA,
        trivia_end(b, x, dialect) == Ok::<int, Error>(at),
        at < b.len(),
        b[at] != close,
    ensures
        next_at(o, c, dialect, close, false) == Ok::<NextAt, Error>(NextAt::Item(at + d)),
{
    trivia_end_here(o, c, dialect);
    trivia_end_bounds(b, x, dialect);
    trivia_is_local(b, x, b.len() as int, o, d, x, dialect);
    assert(b[at] == o[at + d]);
    next_behind_comma(o, c, c, at + d, dialect, close);
}

/// Whether a comment that runs to the end of its line stands behind a value on its line.
pub open spec fn line_comment_behind(b: Seq<u8>, pos: int) -> bool {
    let c = line_blanks_end(b, pos);
    c + 1 < b.len() && b[c] == SLASH && b[c + 1] == SLASH
}

/// Trivia up to the end of a same-line block comment ends there at a comma.
proof fn inline_is_kept(b: Seq<u8>, pos: int, x: int, o: Seq<u8>, dialect: Dialect)
    requires
        0 <= pos <= x < o.len(),
        x <= b.len(),
        inline_end(b, pos, dialect) == Ok::<int, Error>(x),
        dialect.comments() ==> !line_comment_behind(b, pos),
        copied(b, 0, x, o, 0),
        o[x] == COMMA,
    ensures
        trivia_end(o, pos, dialect) == Ok::<int, Error>(x),
        token_end(o, pos, dialect),
{
    let c = line_blanks_end(b, pos);
    blanks_are_space(b, pos);
    trivia_end_here(o, x, dialect);
    if dialect.comments() && c < b.len() && b[c] == SLASH {
        comment_end_bounds(b, c);
        assert(b[c] == o[c + 0]);
        assert(b[c + 1] == o[c + 1 + 0]);
        block_is_local(b, 0, x, o, 0, c + 2);
        assert(comment_end(o, c) == Ok::<int, Error>(x));
        assert forall|i: int| pos <= i < c implies !Ws::stops(#[trigger] o[i]) by {
            assert(b[i] == o[i + 0]);
        }
        run_end_is::<Ws>(o, pos, c);
        if pos < c {
            assert(b[pos] == o[pos + 0]);
        }
    }
}

/// A fresh slot behind the last.
#[verifier::rlimit(60)]
proof fn slot_fits_behind(
    b: Seq<u8>,
    open: int,
    close: int,
    kind: ContainerKind,
    slots: Seq<Slot>,
    x: int,
    piece: Seq<u8>,
    fresh: Slot,
    dialect: Dialect,
    depth: int,
)
    requires
        laid(b, open, close, kind, slots, dialect, depth),
        slots.len() > 0,
        inline_end(b, slots[slots.len() - 1].end, dialect) == Ok::<int, Error>(x),
        dialect.comments() ==> !line_comment_behind(b, slots[slots.len() - 1].end),
        slots[slots.len() - 1].end <= x <= close - 1,
        piece.len() > 0,
        piece[0] != closer(kind),
        fresh.at == x + 1,
        fresh.end == x + 1 + piece.len(),
        slot_reads(exchanged(b, x, close - 1, seq![COMMA] + piece), fresh, kind, dialect, depth),
        trivia_end(exchanged(b, x, close - 1, seq![COMMA] + piece), x + 1, dialect) == Ok::<int, Error>(x + 1),
    ensures
        fits_in(
            b,
            x,
            close - 1,
            exchanged(b, x, close - 1, seq![COMMA] + piece),
            1 + piece.len() - (close - 1 - x),
            open,
            close,
            kind,
            slots,
            slots.len() as int,
            slots.len() as int,
            fresh,
            dialect,
            depth,
        ),
{
    let k = slots.len() as int;
    let p = slots[k - 1].end;
    let y = close - 1;
    let all = seq![COMMA] + piece;
    let o = exchanged(b, x, y, all);
    let d = all.len() - (y - x);
    slot_is_followed(b, open, close, kind, slots, dialect, depth, k - 1);
    exchanged_is_put(b, x, y, all);
    assert(o[x + 0] == all[0]);
    assert(o[x + 1] == all[1]);
    inline_is_kept(b, p, x, o, dialect);
    next_behind_comma(o, p, x, x + 1, dialect, closer(kind));
    closer_ends_it(b, open, close, kind, slots, dialect, depth);
    assert(b[y] == o[y + d]);
    trivia_end_here(o, y + d, dialect);
    next_is_closer(o, y + d, y + d, dialect, closer(kind));
}

/// A container ends with its closer.
pub(crate) proof fn closer_ends_it(b: Seq<u8>, open: int, close: int, kind: ContainerKind, slots: Seq<Slot>, dialect: Dialect, depth: int)
    requires
        laid(b, open, close, kind, slots, dialect, depth),
    ensures
        open + 1 < close <= b.len(),
        b[close - 1] == closer(kind),
        slots.len() > 0 ==> slots[slots.len() - 1].end < close,
        slots.len() == 0 ==> trivia_end(b, open + 1, dialect) == Ok::<int, Error>(close - 1),
{
    let n = slots.len() as int;
    if n > 0 {
        slot_is_followed(b, open, close, kind, slots, dialect, depth, n - 1);
    }
    next_is_separated(b, behind(open, slots, n), dialect, closer(kind), n == 0);
}

/// A fresh element in an empty array.
#[verifier::rlimit(60)]
proof fn element_fits_alone(b: Seq<u8>, open: int, close: int, v: Json, w: Seq<u8>, dialect: Dialect, depth: int)
    requires
        laid(b, open, close, ContainerKind::Array, Seq::empty(), dialect, depth),
        well_formed(v),
        distinct_keys(v),
        written(v, compact_under(dialect), depth) == Ok::<Seq<u8>, Error>(w),
    ensures
        fits_in(
            b,
            open + 1,
            open + 1,
            exchanged(b, open + 1, open + 1, w),
            w.len() as int,
            open,
            close,
            ContainerKind::Array,
            Seq::empty(),
            0,
            0,
            fresh_element(open + 1, w, v),
            dialect,
            depth,
        ),
{
    let kind = ContainerKind::Array;
    let x = open + 1;
    let o = exchanged(b, x, x, w);
    let d = w.len() as int;
    closer_ends_it(b, open, close, kind, Seq::empty(), dialect, depth);
    exchanged_is_put(b, x, x, w);
    trivia_is_local(b, x, b.len() as int, o, d, x, dialect);
    assert(b[close - 1] == o[close - 1 + d]);
    next_is_closer(o, x + d, close - 1 + d, dialect, closer(kind));
    next_is_a_boundary(o, x + d, dialect, closer(kind));
    written_reads(o, x, v, w, dialect, depth);
    first_is(o, x, x, dialect, closer(kind));
}

/// The text with a fresh slot in the container that a path leads to reads as the value
/// with that container.
#[verifier::rlimit(60)]
pub(crate) proof fn fresh_text_reads(
    b: Seq<u8>,
    dialect: Dialect,
    before: Seq<StepModel>,
    j: Json,
    kind: ContainerKind,
    open: int,
    close: int,
    slots: Seq<Slot>,
    x: int,
    y: int,
    piece: Seq<u8>,
    k: int,
    m: int,
    fresh: Slot,
)
    requires
        text_value(b, dialect) == Ok::<Json, Error>(j),
        tree_at(j, before) is Some,
        spot(b, trivia_end(b, text_start(b), dialect)->Ok_0, dialect, 0, before) == Some(open),
        built(b, open, unbounded(dialect), no_room(), 0) matches Ok((e, _, _)) && e == close,
        before.len() < MAX_NESTING,
        b[open] == (if kind is Object {
            LBRACE
        } else {
            LBRACKET
        }),
        fits_in(
            b,
            x,
            y,
            exchanged(b, x, y, piece),
            piece.len() - (y - x),
            open,
            close,
            kind,
            slots,
            k,
            m,
            fresh,
            dialect,
            before.len() as int + 1,
        ),
    ensures
        updated(j, before, Change::Put(container_value(kind, with_fresh(slots, k, m, fresh, piece.len() - (y - x))))) matches Some(new)
            && text_value(exchanged(b, x, y, piece), dialect) == Ok::<Json, Error>(new),
{
    let o = exchanged(b, x, y, piece);
    let d = piece.len() - (y - x);
    let depth = before.len() as int;
    fresh_slot_lies(b, x, y, o, d, open, close, kind, slots, k, m, fresh, dialect, depth + 1);
    assert(b[open] == o[open + 0]);
    let all = with_fresh(slots, k, m, fresh, d);
    laid_container_reads(o, open, close + d, kind, all, dialect, depth);
    container_is_exchanged(b, open, close, o, d, dialect, before, j, container_value(kind, all));
}

/// What is planned for an insert is the filling of a slot among the collected members.
pub(crate) proof fn insert_is_planned(
    b: Seq<u8>,
    dialect: Dialect,
    path: Seq<StepModel>,
    kind: ContainerKind,
    s: ByteRange,
    ms: Seq<MemberModel>,
    v: Json,
    w: Seq<u8>,
)
    requires
        path.len() > 0,
        s.start < s.end <= b.len(),
        b[s.start as int] == (if kind is Object {
            LBRACE
        } else {
            LBRACKET
        }),
        members_from(b, s.start + 1, s.end as int, kind, dialect, Seq::empty()) == Ok::<Seq<MemberModel>, Error>(ms),
        path.last() is Key == kind is Object,
        replacement(v, dialect) == Ok::<Seq<u8>, Error>(w),
    ensures
        planned_splice(b, 0, EditModel::Insert(path, v), Some(s), dialect) == filled_slot(0, s, ms, path.last(), w),
{
    trivia_end_here(b, s.start as int, dialect);
    let e = EditModel::Insert(path, v);
    assert(planned_splice(b, 0, e, Some(s), dialect) == planned_insert(b, 0, path, v, Some(s), dialect));
    assert(container_at(b, s.start as int, dialect) == Ok::<Option<ContainerKind>, Error>(Some(kind)));
    assert(members_of(b, s, dialect) == Ok::<Seq<MemberModel>, Error>(ms));
}

/// Whether a path leads to a container with these slots.
pub(crate) open spec fn leads_to(
    b: Seq<u8>,
    dialect: Dialect,
    before: Seq<StepModel>,
    j: Json,
    kind: ContainerKind,
    open: int,
    close: int,
    slots: Seq<Slot>,
) -> bool {
    &&& text_value(b, dialect) == Ok::<Json, Error>(j)
    &&& tree_at(j, before) is Some
    &&& spot(b, trivia_end(b, text_start(b), dialect)->Ok_0, dialect, 0, before) == Some(open)
    &&& built(b, open, unbounded(dialect), no_room(), 0) matches Ok((e, _, _)) && e == close
    &&& before.len() < MAX_NESTING
    &&& b[open] == (if kind is Object {
        LBRACE
    } else {
        LBRACKET
    })
    &&& laid(b, open, close, kind, slots, dialect, before.len() as int + 1)
}

/// Whether the text that comes out reads as the value with another container.
pub(crate) open spec fn reads_with(o: Seq<u8>, dialect: Dialect, j: Json, before: Seq<StepModel>, container: Json) -> bool {
    updated(j, before, Change::Put(container)) matches Some(new) && text_value(o, dialect) == Ok::<Json, Error>(new)
}

#[verifier::rlimit(60)]
proof fn element_alone_reads(
    b: Seq<u8>,
    dialect: Dialect,
    before: Seq<StepModel>,
    j: Json,
    open: int,
    close: int,
    slots: Seq<Slot>,
    v: Json,
    w: Seq<u8>,
)
    requires
        leads_to(b, dialect, before, j, ContainerKind::Array, open, close, slots),
        slots.len() == 0,
        well_formed(v),
        distinct_keys(v),
        written(v, compact_under(dialect), before.len() as int + 1) == Ok::<Seq<u8>, Error>(w),
    ensures
        0 <= open < b.len(),
        reads_with(
            exchanged(b, open + 1, open + 1, w),
            dialect,
            j,
            before,
            Json::Array(element_values(slots).insert(0, v)),
        ),
{
    let kind = ContainerKind::Array;
    assert(slots =~= Seq::empty());
    element_fits_alone(b, open, close, v, w, dialect, before.len() as int + 1);
    let fresh = fresh_element(open + 1, w, v);
    fresh_text_reads(b, dialect, before, j, kind, open, close, slots, open + 1, open + 1, w, 0, 0, fresh);
    fresh_elements(slots, 0, fresh, w.len() as int);
}

#[verifier::rlimit(60)]
proof fn element_behind_reads(
    b: Seq<u8>,
    dialect: Dialect,
    before: Seq<StepModel>,
    j: Json,
    open: int,
    close: int,
    slots: Seq<Slot>,
    x: int,
    v: Json,
    w: Seq<u8>,
)
    requires
        leads_to(b, dialect, before, j, ContainerKind::Array, open, close, slots),
        slots.len() > 0,
        well_formed(v),
        distinct_keys(v),
        written(v, compact_under(dialect), before.len() as int + 1) == Ok::<Seq<u8>, Error>(w),
        inline_end(b, slots[slots.len() - 1].end, dialect) == Ok::<int, Error>(x),
        slots[slots.len() - 1].end <= x <= b.len(),
        trivia_end(b, x, dialect) == trivia_end(b, slots[slots.len() - 1].end, dialect),
        dialect.comments() ==> !line_comment_behind(b, slots[slots.len() - 1].end),
    ensures
        0 <= x <= close - 1 < b.len(),
        reads_with(
            exchanged(b, x, close - 1, seq![COMMA] + w),
            dialect,
            j,
            before,
            Json::Array(element_values(slots).insert(slots.len() as int, v)),
        ),
{
    let kind = ContainerKind::Array;
    let depth = before.len() as int + 1;
    let n = slots.len() as int;
    let piece = seq![COMMA] + w;
    closer_ends_it(b, open, close, kind, slots, dialect, depth);
    last_glue(b, open, close, kind, slots, dialect, depth, x);
    let o = exchanged(b, x, close - 1, piece);
    let fresh = fresh_element(x + 1, w, v);
    exchanged_is_put(b, x, close - 1, piece);
    part_stands(o, x, piece, 1, w);
    let d = piece.len() - (close - 1 - x);
    assert(b[close - 1] == o[close - 1 + d]);
    written_reads(o, x + 1, v, w, dialect, depth);
    assert(o[x + 1] == piece[1]);
    slot_fits_behind(b, open, close, kind, slots, x, w, fresh, dialect, depth);
    fresh_text_reads(b, dialect, before, j, kind, open, close, slots, x, close - 1, piece, n, n, fresh);
    fresh_elements(slots, n, fresh, d);
}

#[verifier::rlimit(60)]
proof fn element_in_front_reads(
    b: Seq<u8>,
    dialect: Dialect,
    before: Seq<StepModel>,
    j: Json,
    open: int,
    close: int,
    slots: Seq<Slot>,
    k: int,
    v: Json,
    w: Seq<u8>,
)
    requires
        leads_to(b, dialect, before, j, ContainerKind::Array, open, close, slots),
        0 <= k < slots.len(),
        well_formed(v),
        distinct_keys(v),
        written(v, compact_under(dialect), before.len() as int + 1) == Ok::<Seq<u8>, Error>(w),
    ensures
        0 <= glue_start(b, open, slots, k, dialect) <= b.len(),
        reads_with(
            exchanged(b, glue_start(b, open, slots, k, dialect), glue_start(b, open, slots, k, dialect), w + seq![COMMA]),
            dialect,
            j,
            before,
            Json::Array(element_values(slots).insert(k, v)),
        ),
{
    let kind = ContainerKind::Array;
    let x = glue_start(b, open, slots, k, dialect);
    let piece = w + seq![COMMA];
    let fresh = fresh_element(x, w, v);
    element_fits_in_front(b, open, close, slots, k, v, w, dialect, before.len() as int + 1);
    fresh_text_reads(b, dialect, before, j, kind, open, close, slots, x, x, piece, k, k, fresh);
    fresh_elements(slots, k, fresh, piece.len() as int);
}

/// The splice that puts a fresh element in, and what the text reads as with it.
#[verifier::rlimit(60)]
proof fn element_text_reads(
    b: Seq<u8>,
    dialect: Dialect,
    before: Seq<StepModel>,
    j: Json,
    s: ByteRange,
    slots: Seq<Slot>,
    ms: Seq<MemberModel>,
    k: int,
    v: Json,
    w: Seq<u8>,
) -> (cut: (int, int, Seq<u8>))
    requires
        leads_to(b, dialect, before, j, ContainerKind::Array, s.start as int, s.end as int, slots),
        ms.len() == slots.len(),
        forall|q: int|
            0 <= q < slots.len() ==> collected_as(
                #[trigger] ms[q],
                b,
                glue_start(b, s.start as int, slots, q, dialect),
                slots[q],
                ContainerKind::Array,
                dialect,
            ),
        0 <= k <= slots.len(),
        well_formed(v),
        distinct_keys(v),
        written(v, compact_under(dialect), before.len() as int + 1) == Ok::<Seq<u8>, Error>(w),
        k == slots.len() && k > 0 && dialect.comments() ==> !line_comment_behind(b, slots[k - 1].end),
    ensures
        0 <= cut.0 <= cut.1 <= b.len(),
        plain_splice(0, cut.0, cut.1, cut.2) == (if slots.len() == 0 {
            plain_splice(0, s.start + 1, s.start + 1, w)
        } else if k >= slots.len() {
            appended(0, s, ms, w)
        } else {
            plain_splice(0, ms[k].start, ms[k].start, w + seq![COMMA])
        }),
        reads_with(exchanged(b, cut.0, cut.1, cut.2), dialect, j, before, Json::Array(element_values(slots).insert(k, v))),
{
    let kind = ContainerKind::Array;
    let open = s.start as int;
    let close = s.end as int;
    if slots.len() == 0 {
        element_alone_reads(b, dialect, before, j, open, close, slots, v, w);
        (open + 1, open + 1, w)
    } else if k >= slots.len() {
        let n = slots.len() as int;
        let x = ms[n - 1].end;
        assert(collected_as(ms[n - 1], b, glue_start(b, open, slots, n - 1, dialect), slots[n - 1], kind, dialect));
        element_behind_reads(b, dialect, before, j, open, close, slots, x, v, w);
        (x, close - 1, seq![COMMA] + w)
    } else {
        let x = glue_start(b, open, slots, k, dialect);
        assert(collected_as(ms[k], b, x, slots[k], kind, dialect));
        element_in_front_reads(b, dialect, before, j, open, close, slots, k, v, w);
        (x, x, w + seq![COMMA])
    }
}

/// The end of the comment behind the last slot comes before the closer.
proof fn last_glue(b: Seq<u8>, open: int, close: int, kind: ContainerKind, slots: Seq<Slot>, dialect: Dialect, depth: int, x: int)
    requires
        laid(b, open, close, kind, slots, dialect, depth),
        slots.len() > 0,
        slots[slots.len() - 1].end <= x <= b.len(),
        trivia_end(b, x, dialect) == trivia_end(b, slots[slots.len() - 1].end, dialect),
    ensures
        x <= close - 1,
{
    slot_is_followed(b, open, close, kind, slots, dialect, depth, slots.len() - 1);
    trivia_end_bounds(b, x, dialect);
}

proof fn fresh_elements(slots: Seq<Slot>, k: int, fresh: Slot, d: int)
    requires
        0 <= k <= slots.len(),
    ensures
        element_values(with_fresh(slots, k, k, fresh, d)) == element_values(slots).insert(k, fresh.read),
{
    assert(element_values(with_fresh(slots, k, k, fresh, d)) =~= element_values(slots).insert(k, fresh.read));
}

/// An inserted element is at its place, and the others keep their values and their order:
/// the text that comes out reads as the value with the array with that one element more.
/// An index below zero names the place that many before the end. A value that goes behind
/// the last element must not land in a comment that runs to the end of a line.
#[verifier::rlimit(60)]
pub proof fn inserted_element_is_there(
    b: Seq<u8>,
    dialect: Dialect,
    before: Seq<StepModel>,
    index: i64,
    j: Json,
    items: Seq<Json>,
    v: Json,
)
    requires
        b.len() <= usize::MAX,
        well_formed(v),
        distinct_keys(v),
        text_value(b, dialect) == Ok::<Json, Error>(j),
        tree_at(j, before) == Some(Json::Array(items)),
        written(v, compact_under(dialect), before.len() as int + 1) is Ok,
        -items.len() <= index <= items.len(),
        index == items.len() && index > 0 && dialect.comments() ==> (found_at(
            b,
            asked_at(strict_ask(dialect, false), before.push(StepModel::Index(-1i64))),
        ) matches Some(last) && !line_comment_behind(b, last.end as int)),
    ensures
        ({
            let k = if index < 0 {
                items.len() + index
            } else {
                index as int
            };
            edited(b, seq![EditModel::Insert(before.push(StepModel::Index(index)), v)], dialect) matches Ok(out) && updated(
                j,
                before,
                Change::Put(Json::Array(items.insert(k, v))),
            ) matches Some(new) && text_value(out, dialect) == Ok::<Json, Error>(new)
        }),
{
    let step = StepModel::Index(index);
    let path = before.push(step);
    let e = EditModel::Insert(path, v);
    let kind = ContainerKind::Array;
    let depth = before.len() as int + 1;
    let k = if index < 0 {
        items.len() + index
    } else {
        index as int
    };
    assert(path.drop_last() =~= before);
    let s = edit_is_located(b, dialect, e, before, j);
    let slots = found_container_is_laid(b, dialect, before, j, kind, s.start as int);
    assert(element_values(slots).len() == slots.len());
    let ms = slots_are_collected(b, s.start as int, s.end as int, kind, slots, dialect, depth);
    let w = written(v, compact_under(dialect), depth)->Ok_0;
    compact_at_lower_depth(v, compact_under(dialect), depth, 0);
    insert_is_planned(b, dialect, path, kind, s, ms, v, w);
    if index == items.len() && index > 0 && dialect.comments() {
        last_element_is_found(b, dialect, before, j, items, s.start as int, slots);
    }
    let cut = element_text_reads(b, dialect, before, j, s, slots, ms, k, v, w);
    assert(filled_slot(0, s, ms, step, w) == Ok::<Seq<SpliceModel>, Error>(seq![plain_splice(0, cut.0, cut.1, cut.2)]));
    edit_is_one_splice(b, dialect, e, before, s, cut.0, cut.1, cut.2);
    read_text_is_strict(exchanged(b, cut.0, cut.1, cut.2), dialect);
}

/// The last element ends where the last slot does.
#[verifier::rlimit(60)]
proof fn last_element_is_found(
    b: Seq<u8>,
    dialect: Dialect,
    before: Seq<StepModel>,
    j: Json,
    items: Seq<Json>,
    open: int,
    slots: Seq<Slot>,
)
    requires
        b.len() <= usize::MAX,
        text_value(b, dialect) == Ok::<Json, Error>(j),
        tree_at(j, before) == Some(Json::Array(items)),
        items.len() > 0,
        items.len() == slots.len(),
        spot(b, trivia_end(b, text_start(b), dialect)->Ok_0, dialect, 0, before) == Some(open),
        built(b, open, unbounded(dialect), no_room(), 0) is Ok,
        laid(
            b,
            open,
            built(b, open, unbounded(dialect), no_room(), 0)->Ok_0.0,
            ContainerKind::Array,
            slots,
            dialect,
            before.len() as int + 1,
        ),
    ensures
        found_at(b, asked_at(strict_ask(dialect, false), before.push(StepModel::Index(-1i64)))) matches Some(last) && last.end
            == slots[slots.len() - 1].end,
{
    let depth = before.len() as int;
    let step = StepModel::Index(-1i64);
    let pos = trivia_end(b, text_start(b), dialect)->Ok_0;
    let close = built(b, open, unbounded(dialect), no_room(), 0)->Ok_0.0;
    index_leads_to(j, before, items, -1i64);
    path_is_found(b, strict_ask(dialect, false), j, before.push(step));
    spot_steps_on(b, pos, dialect, 0, before, step);
    assert(begins(slots, 0) =~= Seq::<int>::empty());
    array_starts_are_slots(b, open, close, slots, dialect, depth + 1, 0, Seq::empty());
    let starts = item_starts(b, open + 1, dialect, depth + 1, Seq::empty());
    one_step(b, open, dialect, depth, -1i64, starts);
    let n = slots.len() - 1;
    assert(slot_reads(b, slots[n], ContainerKind::Array, dialect, depth + 1));
    read_at_lower_depth(b, slots[n].value, dialect, depth + 1, 0);
}

/// The text of a fresh member.
pub(crate) open spec fn member_piece(name: Seq<u8>, w: Seq<u8>) -> Seq<u8> {
    written_string(name, false) + seq![COLON] + w
}

/// The slot of a fresh member.
pub(crate) open spec fn fresh_member(at: int, name: Seq<u8>, w: Seq<u8>, v: Json) -> Slot {
    let value = at + written_string(name, false).len() + 1;
    Slot { at, value, end: value + w.len(), key: name, read: v }
}

/// A fresh member reads where its text stands.
proof fn fresh_member_reads(o: Seq<u8>, at: int, name: Seq<u8>, v: Json, w: Seq<u8>, dialect: Dialect, depth: int)
    requires
        valid_utf8(name),
        well_formed(v),
        distinct_keys(v),
        written(v, compact_under(dialect), depth) == Ok::<Seq<u8>, Error>(w),
        stands_at(o, at, member_piece(name, w)),
        token_end(o, at + member_piece(name, w).len(), dialect),
    ensures
        slot_reads(o, fresh_member(at, name, w, v), ContainerKind::Object, dialect, depth),
        trivia_end(o, at, dialect) == Ok::<int, Error>(at),
        at < o.len(),
        o[at] == QUOTE,
        member_piece(name, w).len() > 0,
        member_piece(name, w)[0] == QUOTE,
{
    let opts = compact_under(dialect);
    let key = written_key(name, opts);
    let piece = member_piece(name, w);
    let value = at + key.len();
    assert(key =~= written_string(name, false) + seq![COLON]);
    part_stands(o, at, piece, 0, key);
    assert(forall|q: int| 0 <= q < w.len() ==> piece[key.len() + q] == #[trigger] w[q]);
    part_stands(o, at, piece, key.len() as int, w);
    written_reads(o, value, v, w, dialect, depth);
    value_start(o, value, dialect, depth);
    key_reads_back(o, at, name, opts, o[value]);
    trivia_end_here(o, at, dialect);
    assert(o[at + 0] == piece[0]);
}

/// Members with a fresh one at their end.
proof fn fresh_members(slots: Seq<Slot>, fresh: Slot, d: int)
    requires
        forall|i: int| 0 <= i < slots.len() ==> (#[trigger] slots[i]).key != fresh.key,
    ensures
        member_values(with_fresh(slots, slots.len() as int, slots.len() as int, fresh, d)) == member_values(slots).push(
            (fresh.key, fresh.read),
        ),
{
    let n = slots.len() as int;
    let all = with_fresh(slots, n, n, fresh, d);
    assert(all =~= slots.push(fresh));
    assert(slots.push(fresh).drop_last() =~= slots);
    members_are_gathered(slots);
    assert forall|i: int| 0 <= i < pairs(slots).len() implies (#[trigger] pairs(slots)[i]).0 != fresh.key by {
        assert(slots[i].key != fresh.key);
    }
    gathered_without(pairs(slots), fresh.key);
    position_of(member_values(slots), fresh.key, 0);
}

/// A fresh member in an empty object.
#[verifier::rlimit(60)]
proof fn member_alone_reads(
    b: Seq<u8>,
    dialect: Dialect,
    before: Seq<StepModel>,
    j: Json,
    open: int,
    close: int,
    slots: Seq<Slot>,
    name: Seq<u8>,
    v: Json,
    w: Seq<u8>,
)
    requires
        leads_to(b, dialect, before, j, ContainerKind::Object, open, close, slots),
        slots.len() == 0,
        valid_utf8(name),
        well_formed(v),
        distinct_keys(v),
        written(v, compact_under(dialect), before.len() as int + 1) == Ok::<Seq<u8>, Error>(w),
    ensures
        0 <= open + 1 <= close - 1 < b.len(),
        reads_with(
            exchanged(b, open + 1, close - 1, member_piece(name, w)),
            dialect,
            j,
            before,
            Json::Object(member_values(slots).push((name, v))),
        ),
{
    let kind = ContainerKind::Object;
    let depth = before.len() as int + 1;
    let x = open + 1;
    let y = close - 1;
    let piece = member_piece(name, w);
    let o = exchanged(b, x, y, piece);
    let d = piece.len() - (y - x);
    closer_ends_it(b, open, close, kind, slots, dialect, depth);
    exchanged_is_put(b, x, y, piece);
    assert(b[y] == o[y + d]);
    fresh_member_reads(o, x, name, v, w, dialect, depth);
    let fresh = fresh_member(x, name, w, v);
    first_is(o, x, x, dialect, closer(kind));
    trivia_end_here(o, y + d, dialect);
    next_is_closer(o, y + d, y + d, dialect, closer(kind));
    fresh_text_reads(b, dialect, before, j, kind, open, close, slots, x, y, piece, 0, 0, fresh);
    fresh_members(slots, fresh, d);
}

/// A fresh member behind the last.
#[verifier::rlimit(60)]
proof fn member_behind_reads(
    b: Seq<u8>,
    dialect: Dialect,
    before: Seq<StepModel>,
    j: Json,
    open: int,
    close: int,
    slots: Seq<Slot>,
    x: int,
    name: Seq<u8>,
    v: Json,
    w: Seq<u8>,
)
    requires
        leads_to(b, dialect, before, j, ContainerKind::Object, open, close, slots),
        slots.len() > 0,
        valid_utf8(name),
        well_formed(v),
        distinct_keys(v),
        written(v, compact_under(dialect), before.len() as int + 1) == Ok::<Seq<u8>, Error>(w),
        inline_end(b, slots[slots.len() - 1].end, dialect) == Ok::<int, Error>(x),
        slots[slots.len() - 1].end <= x <= b.len(),
        trivia_end(b, x, dialect) == trivia_end(b, slots[slots.len() - 1].end, dialect),
        dialect.comments() ==> !line_comment_behind(b, slots[slots.len() - 1].end),
        forall|i: int| 0 <= i < slots.len() ==> (#[trigger] slots[i]).key != name,
    ensures
        0 <= x <= close - 1 < b.len(),
        reads_with(
            exchanged(b, x, close - 1, seq![COMMA] + member_piece(name, w)),
            dialect,
            j,
            before,
            Json::Object(member_values(slots).push((name, v))),
        ),
{
    let kind = ContainerKind::Object;
    let depth = before.len() as int + 1;
    let n = slots.len() as int;
    let body = member_piece(name, w);
    let piece = seq![COMMA] + body;
    closer_ends_it(b, open, close, kind, slots, dialect, depth);
    last_glue(b, open, close, kind, slots, dialect, depth, x);
    let o = exchanged(b, x, close - 1, piece);
    let fresh = fresh_member(x + 1, name, w, v);
    exchanged_is_put(b, x, close - 1, piece);
    part_stands(o, x, piece, 1, body);
    let d = piece.len() - (close - 1 - x);
    assert(b[close - 1] == o[close - 1 + d]);
    fresh_member_reads(o, x + 1, name, v, w, dialect, depth);
    slot_fits_behind(b, open, close, kind, slots, x, body, fresh, dialect, depth);
    fresh_text_reads(b, dialect, before, j, kind, open, close, slots, x, close - 1, piece, n, n, fresh);
    fresh_members(slots, fresh, d);
}

/// Where the value of the last member ends of the object that a path leads to, as the
/// members stand in the text.
#[verifier::opaque]
pub open spec fn last_value_end(b: Seq<u8>, dialect: Dialect, path: Seq<StepModel>) -> int {
    let at = spot(b, trivia_end(b, text_start(b), dialect)->Ok_0, dialect, 0, path)->0;
    let starts = member_starts(b, at + 1, dialect, path.len() as int + 1, Seq::empty());
    built(b, starts[starts.len() - 1].1, unbounded(dialect), no_room(), 0)->Ok_0.0
}

proof fn last_slot_ends_it(b: Seq<u8>, dialect: Dialect, before: Seq<StepModel>, j: Json, open: int, close: int, slots: Seq<Slot>)
    requires
        leads_to(b, dialect, before, j, ContainerKind::Object, open, close, slots),
        slots.len() > 0,
    ensures
        last_value_end(b, dialect, before) == slots[slots.len() - 1].end,
{
    reveal(last_value_end);
    let depth = before.len() as int + 1;
    assert(named_starts(slots.take(0)) =~= Seq::<(Seq<u8>, int)>::empty());
    member_starts_are_slots(b, open, close, slots, dialect, depth, 0);
    let n = slots.len() - 1;
    assert(slot_reads(b, slots[n], ContainerKind::Object, dialect, depth));
    read_at_lower_depth(b, slots[n].value, dialect, depth, 0);
}

/// No collected member has a name that no slot has.
pub(crate) proof fn none_is_found(ms: Seq<MemberModel>, name: Seq<u8>)
    requires
        forall|i: int| 0 <= i < ms.len() ==> (#[trigger] ms[i]).key != Some(name),
    ensures
        last_with_key(ms, name) is None,
    decreases ms.len(),
{
    if ms.len() > 0 {
        assert(ms[ms.len() - 1].key != Some(name));
        assert forall|i: int| 0 <= i < ms.len() - 1 implies (#[trigger] ms.drop_last()[i]).key != Some(name) by {
            assert(ms.drop_last()[i] == ms[i]);
        }
        none_is_found(ms.drop_last(), name);
    }
}

/// The splice that puts a fresh member in, and what the text reads as with it.
#[verifier::rlimit(60)]
proof fn member_text_reads(
    b: Seq<u8>,
    dialect: Dialect,
    before: Seq<StepModel>,
    j: Json,
    s: ByteRange,
    slots: Seq<Slot>,
    ms: Seq<MemberModel>,
    name: Seq<u8>,
    v: Json,
    w: Seq<u8>,
) -> (cut: (int, int, Seq<u8>))
    requires
        leads_to(b, dialect, before, j, ContainerKind::Object, s.start as int, s.end as int, slots),
        ms.len() == slots.len(),
        forall|q: int|
            0 <= q < slots.len() ==> collected_as(
                #[trigger] ms[q],
                b,
                glue_start(b, s.start as int, slots, q, dialect),
                slots[q],
                ContainerKind::Object,
                dialect,
            ),
        valid_utf8(name),
        well_formed(v),
        distinct_keys(v),
        written(v, compact_under(dialect), before.len() as int + 1) == Ok::<Seq<u8>, Error>(w),
        forall|i: int| 0 <= i < slots.len() ==> (#[trigger] slots[i]).key != name,
        slots.len() > 0 && dialect.comments() ==> !line_comment_behind(b, slots[slots.len() - 1].end),
    ensures
        0 <= cut.0 <= cut.1 <= b.len(),
        plain_splice(0, cut.0, cut.1, cut.2) == appended(0, s, ms, member_piece(name, w)),
        reads_with(exchanged(b, cut.0, cut.1, cut.2), dialect, j, before, Json::Object(member_values(slots).push((name, v)))),
{
    let open = s.start as int;
    let close = s.end as int;
    if slots.len() == 0 {
        member_alone_reads(b, dialect, before, j, open, close, slots, name, v, w);
        (open + 1, close - 1, member_piece(name, w))
    } else {
        let n = slots.len() as int;
        let x = ms[n - 1].end;
        assert(collected_as(
            ms[n - 1],
            b,
            glue_start(b, open, slots, n - 1, dialect),
            slots[n - 1],
            ContainerKind::Object,
            dialect,
        ));
        member_behind_reads(b, dialect, before, j, open, close, slots, x, name, v, w);
        (x, close - 1, seq![COMMA] + member_piece(name, w))
    }
}

/// An inserted member of a new name stands behind the others, which keep their values and
/// their order: the text that comes out reads as the value with the object with that one
/// member more. It must not land in a comment that runs to the end of a line.
#[verifier::rlimit(60)]
pub proof fn inserted_member_is_there(
    b: Seq<u8>,
    dialect: Dialect,
    before: Seq<StepModel>,
    name: Seq<u8>,
    j: Json,
    members: Seq<(Seq<u8>, Json)>,
    v: Json,
)
    requires
        b.len() <= usize::MAX,
        valid_utf8(name),
        well_formed(v),
        distinct_keys(v),
        text_value(b, dialect) == Ok::<Json, Error>(j),
        tree_at(j, before) == Some(Json::Object(members)),
        written(v, compact_under(dialect), before.len() as int + 1) is Ok,
        forall|i: int| 0 <= i < members.len() ==> (#[trigger] members[i]).0 != name,
        members.len() > 0 && dialect.comments() ==> !line_comment_behind(b, last_value_end(b, dialect, before)),
    ensures
        edited(b, seq![EditModel::Insert(before.push(StepModel::Key(name)), v)], dialect) matches Ok(out) && updated(
            j,
            before,
            Change::Put(Json::Object(members.push((name, v)))),
        ) matches Some(new) && text_value(out, dialect) == Ok::<Json, Error>(new),
{
    let step = StepModel::Key(name);
    let path = before.push(step);
    let e = EditModel::Insert(path, v);
    let kind = ContainerKind::Object;
    let depth = before.len() as int + 1;
    assert(path.drop_last() =~= before);
    let s = edit_is_located(b, dialect, e, before, j);
    let slots = found_container_is_laid(b, dialect, before, j, kind, s.start as int);
    let ms = slots_are_collected(b, s.start as int, s.end as int, kind, slots, dialect, depth);
    let w = written(v, compact_under(dialect), depth)->Ok_0;
    compact_at_lower_depth(v, compact_under(dialect), depth, 0);
    insert_is_planned(b, dialect, path, kind, s, ms, v, w);
    no_slot_has_it(b, dialect, before, j, s.start as int, s.end as int, slots, members, name);
    assert forall|i: int| 0 <= i < ms.len() implies (#[trigger] ms[i]).key != Some(name) by {
        assert(collected_as(ms[i], b, glue_start(b, s.start as int, slots, i, dialect), slots[i], kind, dialect));
        assert(slots[i].key != name);
    }
    none_is_found(ms, name);
    let cut = member_text_reads(b, dialect, before, j, s, slots, ms, name, v, w);
    assert(filled_slot(0, s, ms, step, w) == Ok::<Seq<SpliceModel>, Error>(seq![plain_splice(0, cut.0, cut.1, cut.2)]));
    edit_is_one_splice(b, dialect, e, before, s, cut.0, cut.1, cut.2);
    read_text_is_strict(exchanged(b, cut.0, cut.1, cut.2), dialect);
}

/// A name that no member has is on no slot.
proof fn no_slot_has_it(
    b: Seq<u8>,
    dialect: Dialect,
    before: Seq<StepModel>,
    j: Json,
    open: int,
    close: int,
    slots: Seq<Slot>,
    members: Seq<(Seq<u8>, Json)>,
    name: Seq<u8>,
)
    requires
        leads_to(b, dialect, before, j, ContainerKind::Object, open, close, slots),
        members == member_values(slots),
        forall|i: int| 0 <= i < members.len() ==> (#[trigger] members[i]).0 != name,
    ensures
        forall|i: int| 0 <= i < slots.len() ==> (#[trigger] slots[i]).key != name,
        slots.len() > 0 ==> members.len() > 0 && last_value_end(b, dialect, before) == slots[slots.len() - 1].end,
{
    members_are_gathered(slots);
    assert forall|i: int| 0 <= i < slots.len() implies (#[trigger] slots[i]).key != name by {
        gathered_has(pairs(slots), i);
        let at = choose|at: int| 0 <= at < members.len() && (#[trigger] members[at]).0 == pairs(slots)[i].0;
        assert(members[at].0 != name);
    }
    if slots.len() > 0 {
        some_members(slots);
        last_slot_ends_it(b, dialect, before, j, open, close, slots);
    }
}

/// Gathering keeps every name.
pub(crate) proof fn gathered_has(list: Seq<(Seq<u8>, Json)>, i: int)
    requires
        0 <= i < list.len(),
    ensures
        exists|at: int| 0 <= at < gathered(list).len() && (#[trigger] gathered(list)[at]).0 == list[i].0,
    decreases list.len(),
{
    let front = list.drop_last();
    let done = gathered(front);
    let key = list.last().0;
    position_of(done, key, 0);
    let p = key_position(done, key, 0);
    if i == list.len() - 1 {
        assert(gathered(list)[p].0 == key);
    } else {
        gathered_has(front, i);
        let at = choose|at: int| 0 <= at < done.len() && (#[trigger] done[at]).0 == front[i].0;
        assert(gathered(list)[at].0 == list[i].0);
    }
}

} // verus!
