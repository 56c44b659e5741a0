//! A text of moderate size has room in every arena.

use vstd::prelude::*;
use vstd::utf8::encode_scalar;

use crate::ascii::{LBRACE, LBRACKET, QUOTE, RBRACE, RBRACKET};
use crate::dialect::Dialect;
use crate::laws::forms::{no_room, unbounded};
use crate::laws::local::{items_unfold, members_unfold};
use crate::laws::parse::parse_agrees_with_strict_skip;
use crate::lex::number::number_end_bounds;
use crate::lex::skip::{next_at, next_at_bounds, NextAt};
use crate::lex::string::{escape, four_hex, low_surrogate, paired, string_piece, string_piece_facts, string_rest, unicode_escape};
use crate::lex::{key_text, key_text_end};
use crate::materialize::{empty_room, parsed, Form};
use crate::tape::{
    built, built_items, built_key, built_members, built_scalar, built_text, key_position, merged, with_node, BuildCtx,
    Keep, Room,
};
use crate::value::{span_bytes, ByteRange, Json};

verus! {

/// Longest text whose every form fits 32-bit ids: payloads stand behind the source.
pub const ROOMY: u32 = 0x7fff_ffff;

/// Longest text that a form has room for: one that keeps no source has all the ids for its
/// payloads.
pub open spec fn room_for(form: Form) -> int {
    if form == Form::Owned {
        u32::MAX as int
    } else {
        ROOMY as int
    }
}

/// Whether what was placed so far fits the bytes that were read, with `extra` payload
/// bytes before them.
spec fn fits(room: Room, pos: int, extra: int) -> bool {
    &&& 0 <= room.nodes <= pos
    &&& 0 <= room.edges <= pos
    &&& 0 <= room.data <= extra + pos
}

/// Whether `left` holds at most `n` more of everything than `room`.
spec fn within(left: Room, room: Room, n: int) -> bool {
    &&& room.nodes <= left.nodes <= room.nodes + n
    &&& room.edges <= left.edges <= room.edges + n
    &&& room.data <= left.data <= room.data + n
}

/// Whether payloads of a text stay inside 32 bits.
spec fn roomy(b: Seq<u8>, keep: Keep, extra: int) -> bool {
    &&& 0 <= extra
    &&& extra + b.len() <= u32::MAX
    &&& match keep {
        Keep::Unbounded => false,
        Keep::Sliced(base) => 0 <= base && base + b.len() <= u32::MAX,
        Keep::Copied => true,
    }
}

proof fn scalar_is_short(scalar: u32)
    ensures
        encode_scalar(scalar).len() <= 4,
{
}

proof fn low_surrogate_is_short(b: Seq<u8>, pos: int, high: int)
    ensures
        low_surrogate(b, pos, high) matches Ok((next, text)) ==> next == pos + 6 && text.len() <= 4,
{
    scalar_is_short(paired(high, four_hex(b, pos + 2)) as u32);
}

proof fn unicode_escape_is_short(b: Seq<u8>, pos: int)
    ensures
        unicode_escape(b, pos) matches Ok((next, text)) ==> text.len() <= next - pos,
{
    scalar_is_short(four_hex(b, pos) as u32);
    low_surrogate_is_short(b, pos + 4, four_hex(b, pos));
}

/// An escape is no shorter than the text it stands for.
proof fn escape_is_short(b: Seq<u8>, pos: int)
    requires
        0 <= pos,
    ensures
        escape(b, pos, false) matches Ok((next, text)) ==> text.len() <= next - pos,
{
    unicode_escape_is_short(b, pos + 1);
}

/// A string is no shorter than its text.
proof fn rest_is_short(b: Seq<u8>, pos: int)
    requires
        0 <= pos <= b.len(),
    ensures
        string_rest(b, pos, QUOTE, false) matches Ok((end, text)) ==> text.len() <= end - pos,
    decreases b.len() - pos,
{
    if pos < b.len() && b[pos] != QUOTE {
        string_piece_facts(b, pos, QUOTE, false);
        escape_is_short(b, pos + 1);
        if let Ok((next, _)) = string_piece(b, pos, QUOTE, false) {
            rest_is_short(b, next);
        }
    }
}

proof fn scalar_fits(b: Seq<u8>, pos: int, ctx: BuildCtx, room: Room, extra: int)
    requires
        0 <= pos < b.len(),
        ctx.dialect != Dialect::Json5,
        roomy(b, ctx.keep, extra),
        fits(room, pos, extra),
    ensures
        built_scalar(b, pos, unbounded(ctx.dialect), no_room()) matches Ok((e, j, _)) ==> (pos < e <= b.len() ==> (built_scalar(
            b,
            pos,
            ctx,
            room,
        ) matches Ok((end, read, left)) && end == e && read == j && within(left, room, e - pos))),
{
    reveal(built_scalar);
    rest_is_short(b, pos + 1);
    number_end_bounds(b, pos, ctx.dialect);
}

proof fn key_fits(b: Seq<u8>, p: int, ctx: BuildCtx, room: Room, extra: int)
    requires
        0 <= p < b.len(),
        ctx.dialect != Dialect::Json5,
        roomy(b, ctx.keep, extra),
        fits(room, p, extra),
    ensures
        built_key(b, p, unbounded(ctx.dialect), no_room()) matches Ok((v, key, _)) ==> p + 2 <= v <= b.len() && (built_key(
            b,
            p,
            ctx,
            room,
        ) matches Ok((value_at, name, left)) && value_at == v && name == key && left.edges == room.edges && left.nodes
            == room.nodes + 1 && room.data <= left.data <= room.data + (v - p)),
{
    reveal(built_key);
    reveal(crate::lex::skip::member_value_at);
    rest_is_short(b, p + 1);
    key_text_end(b, p, ctx.dialect);
    crate::lex::skip::member_value_at_bounds(b, p, crate::lex::skip::Check::Values, ctx.dialect);
    if let Ok((ke, _)) = key_text(b, p, ctx.dialect) {
        crate::laws::local::colon_bounds(b, ke, ctx.dialect);
    }
}

/// A value that reads has room.
proof fn value_fits(b: Seq<u8>, pos: int, ctx: BuildCtx, room: Room, depth: int, extra: int)
    requires
        0 <= pos <= b.len(),
        ctx.dialect != Dialect::Json5,
        roomy(b, ctx.keep, extra),
        fits(room, pos, extra),
    ensures
        built(b, pos, unbounded(ctx.dialect), no_room(), depth) matches Ok((e, j, _)) ==> pos < e <= b.len() && (built(
            b,
            pos,
            ctx,
            room,
            depth,
        ) matches Ok((end, read, left)) && end == e && read == j && within(left, room, e - pos)),
    decreases b.len() - pos, 0nat,
{
    parse_agrees_with_strict_skip(b, pos, ctx.dialect, depth);
    if built(b, pos, unbounded(ctx.dialect), no_room(), depth) is Ok {
        if b[pos] == LBRACKET || b[pos] == LBRACE {
            let opened = with_node(room, ctx.keep)->Ok_0;
            if b[pos] == LBRACKET {
                items_fit(b, pos + 1, ctx, opened, depth + 1, extra, Seq::empty());
            } else {
                members_fit(b, pos + 1, ctx, opened, depth + 1, extra, Seq::empty());
            }
        } else {
            scalar_fits(b, pos, ctx, room, extra);
        }
    }
}

proof fn items_fit(b: Seq<u8>, pos: int, ctx: BuildCtx, room: Room, depth: int, extra: int, done: Seq<Json>)
    requires
        0 <= pos <= b.len(),
        ctx.dialect != Dialect::Json5,
        roomy(b, ctx.keep, extra),
        fits(room, pos, extra),
    ensures
        built_items(b, pos, unbounded(ctx.dialect), no_room(), depth, done) matches Ok((e, items, _)) ==> pos < e <= b.len()
            && (built_items(b, pos, ctx, room, depth, done) matches Ok((end, read, left)) && end == e && read == items && within(
            left,
            room,
            e - pos,
        ) && items.len() >= done.len() && left.edges + items.len() - done.len() <= room.edges + (e - pos) + (if done.len()
            == 0 {
            1int
        } else {
            0
        })),
    decreases b.len() - pos, 1nat,
{
    let first = done.len() == 0;
    next_at_bounds(b, pos, ctx.dialect, RBRACKET, first);
    if built_items(b, pos, unbounded(ctx.dialect), no_room(), depth, done) is Ok {
        items_unfold(b, pos, ctx.dialect, depth, done);
        match next_at(b, pos, ctx.dialect, RBRACKET, first) {
            Ok(NextAt::Item(p)) => {
                item_is_behind_a_comma(b, pos, ctx.dialect, RBRACKET, first);
                value_fits(b, p, ctx, room, depth, extra);
                let (m, item, left) = built(b, p, ctx, room, depth)->Ok_0;
                items_fit(b, m, ctx, left, depth, extra, done.push(item));
            },
            _ => {},
        }
    }
}

/// Every item but the first stands behind a comma.
proof fn item_is_behind_a_comma(b: Seq<u8>, pos: int, dialect: Dialect, closer: u8, first: bool)
    requires
        0 <= pos <= b.len(),
    ensures
        next_at(b, pos, dialect, closer, first) matches Ok(NextAt::Item(p)) ==> (!first ==> pos < p),
{
    reveal(next_at);
    crate::lex::ws::trivia_end_bounds(b, pos, dialect);
    if let Ok(p) = crate::lex::ws::trivia_end(b, pos, dialect) {
        if p < b.len() {
            crate::lex::ws::trivia_end_bounds(b, p + 1, dialect);
        }
    }
}

proof fn merged_by_one(members: Seq<(Seq<u8>, Json)>, key: Seq<u8>, value: Json)
    ensures
        members.len() <= merged(members, key, value).len() <= members.len() + 1,
{
    position_is_inside(members, key, 0);
}

proof fn position_is_inside(members: Seq<(Seq<u8>, Json)>, key: Seq<u8>, i: int)
    requires
        0 <= i <= members.len(),
    ensures
        i <= key_position(members, key, i) <= members.len(),
    decreases members.len() - i,
{
    if i < members.len() && members[i].0 != key {
        position_is_inside(members, key, i + 1);
    }
}

proof fn members_fit(
    b: Seq<u8>,
    pos: int,
    ctx: BuildCtx,
    room: Room,
    depth: int,
    extra: int,
    done: Seq<(Seq<u8>, Json)>,
)
    requires
        0 <= pos <= b.len(),
        ctx.dialect != Dialect::Json5,
        roomy(b, ctx.keep, extra),
        fits(room, pos, extra),
    ensures
        built_members(b, pos, unbounded(ctx.dialect), no_room(), depth, done) matches Ok((e, members, _)) ==> pos < e <= b.len()
            && (built_members(b, pos, ctx, room, depth, done) matches Ok((end, read, left)) && end == e && read == members && within(
            left,
            room,
            e - pos,
        ) && members.len() >= done.len() && left.edges + 2 * (members.len() - done.len()) <= room.edges + (e - pos)),
    decreases b.len() - pos, 1nat,
{
    let first = done.len() == 0;
    next_at_bounds(b, pos, ctx.dialect, RBRACE, first);
    if built_members(b, pos, unbounded(ctx.dialect), no_room(), depth, done) is Ok {
        members_unfold(b, pos, ctx.dialect, depth, done);
        match next_at(b, pos, ctx.dialect, RBRACE, first) {
            Ok(NextAt::Item(p)) => {
                key_fits(b, p, ctx, room, extra);
                let (v, key, keyed) = built_key(b, p, ctx, room)->Ok_0;
                value_fits(b, v, ctx, keyed, depth, extra);
                let (m, value, left) = built(b, v, ctx, keyed, depth)->Ok_0;
                merged_by_one(done, key, value);
                members_fit(b, m, ctx, left, depth, extra, merged(done, key, value));
            },
            _ => {},
        }
    }
}

/// A text that reads, up to 2 GiB of JSON with or without comments, runs out of no arena:
/// every form of it is read.
pub proof fn readable_text_has_room(b: Seq<u8>, dialect: Dialect, form: Form)
    requires
        b.len() <= room_for(form),
        b.len() <= usize::MAX,
        dialect != Dialect::Json5,
        crate::framing::text_start(b) == 0,
        crate::laws::forms::read_text(b, dialect) is Ok,
    ensures
        parsed(b, dialect, form) == crate::laws::forms::read_text(b, dialect),
{
    reveal(built_text);
    let slices = form != Form::Owned;
    let span = ByteRange { start: 0, end: b.len() as usize };
    assert(span_bytes(b, span) =~= b);
    let ctx = BuildCtx { dialect, keep: crate::tape::keep_at(slices, 0) };
    let room = empty_room(b, slices);
    let extra = room.data;
    crate::lex::ws::trivia_end_bounds(b, 0, dialect);
    let pos = crate::lex::ws::trivia_end(b, 0, dialect)->Ok_0;
    value_fits(b, pos, ctx, room, 0, extra);
}

} // verus!
