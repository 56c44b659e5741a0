//! Where a path leads in a text, however deep its values nest.

use vstd::prelude::*;

use crate::ascii::{APOSTROPHE, BACKSLASH, COMMA, DEL, LBRACE, LBRACKET, QUOTE, RBRACE, RBRACKET};
use crate::demand::StepModel;
use crate::dialect::Dialect;
use crate::error::Error;
use crate::laws::ends::{ends_at_reach, locating, member_is_at, reach};
use crate::laws::folds::{items_from, reach_bounds};
use crate::laws::levels::{array_is_cut_to_go_on, closes_at};
use crate::laws::locate::{key_is_located, read_string_is_located};
use crate::lex::skip::{
    after_colon, items, member_value_at, member_value_at_bounds, members, next_at, next_at_bounds, value,
    value_bounds, Check, Ctx, NextAt,
};
use crate::lex::string::{
    closing_quote_bounds, opens_string, string_piece, string_piece_facts, string_rest, string_text,
};
use crate::lex::ws::{trivia_end, trivia_end_bounds, trivia_end_settles};
use crate::lex::{key_end, key_end_bounds, key_text, key_text_end};
use crate::shard::cut::serial_elements;
use crate::shard::path::{
    array_from, element_start, first_member, has_escape, key_spelling, last_member_at, located_end, member_token,
    passed_value,
};
use crate::shard::tail::{array_shadow, later_key, object_shadow, shadow_from, Passed, Shadow};
use crate::walk::model::WalkCtx;

verus! {

/// Where no bound is met, it makes no difference how far it is.
proof fn free_depth(b: Seq<u8>, pos: int, ctx: Ctx, depth: int, more: int)
    requires
        0 <= pos <= b.len(),
        depth <= more <= pos - b.len(),
    ensures
        value(b, pos, ctx, depth) is Ok ==> value(b, pos, ctx, more) == value(b, pos, ctx, depth),
    decreases b.len() - pos, 0nat,
{
    if pos < b.len() && (b[pos] == LBRACKET || b[pos] == LBRACE) {
        free_items(b, pos + 1, ctx, depth + 1, more + 1, true);
        free_members(b, pos + 1, ctx, depth + 1, more + 1, true);
    }
}

proof fn free_items(b: Seq<u8>, pos: int, ctx: Ctx, depth: int, more: int, first: bool)
    requires
        0 <= pos <= b.len(),
        depth <= more <= pos - b.len(),
    ensures
        items(b, pos, ctx, depth, first) is Ok ==> items(b, pos, ctx, more, first) == items(b, pos, ctx, depth, first),
    decreases b.len() - pos, 1nat,
{
    next_at_bounds(b, pos, ctx.dialect, RBRACKET, first);
    if let Ok(NextAt::Item(p)) = next_at(b, pos, ctx.dialect, RBRACKET, first) {
        free_depth(b, p, ctx, depth, more);
        value_bounds(b, p, ctx, depth);
        if let Ok((e, _)) = value(b, p, ctx, depth) {
            free_items(b, e, ctx, depth, more, false);
        }
    }
}

proof fn free_members(b: Seq<u8>, pos: int, ctx: Ctx, depth: int, more: int, first: bool)
    requires
        0 <= pos <= b.len(),
        depth <= more <= pos - b.len(),
    ensures
        members(b, pos, ctx, depth, first) is Ok ==> members(b, pos, ctx, more, first) == members(b, pos, ctx, depth, first),
    decreases b.len() - pos, 1nat,
{
    next_at_bounds(b, pos, ctx.dialect, RBRACE, first);
    if let Ok(NextAt::Item(p)) = next_at(b, pos, ctx.dialect, RBRACE, first) {
        member_value_at_bounds(b, p, ctx.check, ctx.dialect);
        if let Ok(v) = member_value_at(b, p, ctx.check, ctx.dialect) {
            free_depth(b, v, ctx, depth, more);
            value_bounds(b, v, ctx, depth);
            if let Ok((e, _)) = value(b, v, ctx, depth) {
                free_members(b, e, ctx, depth, more, false);
            }
        }
    }
}

/// What was read at a depth without a bound ends at its reach.
proof fn reached(b: Seq<u8>, pos: int, ctx: WalkCtx, depth: int)
    requires
        0 <= pos <= b.len(),
        depth <= pos - b.len(),
    ensures
        value(b, pos, locating(ctx), depth) matches Ok((e, _)) ==> reach(b, pos, ctx) == Ok::<int, Error>(e),
{
    reveal(reach);
    free_depth(b, pos, locating(ctx), depth, pos - b.len());
}

proof fn items_close(b: Seq<u8>, pos: int, ctx: WalkCtx, depth: int, first: bool)
    requires
        0 <= pos <= b.len(),
        depth <= pos - b.len(),
    ensures
        items(b, pos, locating(ctx), depth, first) matches Ok((e, _)) ==> closes_at(b, pos, ctx, first) == Some(e),
    decreases b.len() - pos,
{
    next_at_bounds(b, pos, ctx.dialect, RBRACKET, first);
    if let Ok(NextAt::Item(p)) = next_at(b, pos, ctx.dialect, RBRACKET, first) {
        reached(b, p, ctx, depth);
        value_bounds(b, p, locating(ctx), depth);
        if let Ok((e, _)) = value(b, p, locating(ctx), depth) {
            items_close(b, e, ctx, depth, false);
        }
    }
}

/// An array that reads closes where it ends.
pub(crate) proof fn reach_closes(b: Seq<u8>, start: int, ctx: WalkCtx)
    requires
        0 <= start < b.len(),
        b[start] == LBRACKET,
        reach(b, start, ctx) is Ok,
    ensures
        closes_at(b, start + 1, ctx, true) == Some(reach(b, start, ctx)->Ok_0),
{
    reveal(reach);
    items_close(b, start + 1, ctx, start - b.len() + 1, true);
}

/// Where the object closes whose members go on at `pos`; none when they do not read.
pub open spec fn members_close(b: Seq<u8>, pos: int, ctx: WalkCtx, first: bool) -> Option<int>
    decreases b.len() - pos,
{
    match next_at(b, pos, ctx.dialect, RBRACE, first) {
        Ok(NextAt::Close(c)) => Some(c),
        Ok(NextAt::Item(p)) => match member_value_at(b, p, Check::Locate, ctx.dialect) {
            Ok(v) => match reach(b, v, ctx) {
                Ok(e) => if pos < e <= b.len() {
                    members_close(b, e, ctx, false)
                } else {
                    None
                },
                Err(_) => None,
            },
            Err(_) => None,
        },
        Err(_) => None,
    }
}

proof fn members_end(b: Seq<u8>, pos: int, ctx: WalkCtx, depth: int, first: bool)
    requires
        0 <= pos <= b.len(),
        depth <= pos - b.len(),
    ensures
        members(b, pos, locating(ctx), depth, first) matches Ok((e, _)) ==> members_close(b, pos, ctx, first) == Some(e),
    decreases b.len() - pos,
{
    next_at_bounds(b, pos, ctx.dialect, RBRACE, first);
    if let Ok(NextAt::Item(p)) = next_at(b, pos, ctx.dialect, RBRACE, first) {
        member_value_at_bounds(b, p, Check::Locate, ctx.dialect);
        if let Ok(v) = member_value_at(b, p, Check::Locate, ctx.dialect) {
            reached(b, v, ctx, depth);
            value_bounds(b, v, locating(ctx), depth);
            if let Ok((e, _)) = value(b, v, locating(ctx), depth) {
                members_end(b, e, ctx, depth, false);
            }
        }
    }
}

/// An object that reads closes where it ends.
pub(crate) proof fn object_closes(b: Seq<u8>, start: int, ctx: WalkCtx)
    requires
        0 <= start < b.len(),
        b[start] == LBRACE,
        reach(b, start, ctx) is Ok,
    ensures
        members_close(b, start + 1, ctx, true) == Some(reach(b, start, ctx)->Ok_0),
{
    reveal(reach);
    members_end(b, start + 1, ctx, start - b.len() + 1, true);
}

/// The value of the last member from `pos` on that has a name, else `found`.
pub open spec fn last_value(b: Seq<u8>, pos: int, ctx: WalkCtx, first: bool, name: Seq<u8>, found: Option<int>) -> Option<int>
    decreases b.len() - pos,
{
    match next_at(b, pos, ctx.dialect, RBRACE, first) {
        Ok(NextAt::Item(p)) => match key_text(b, p, ctx.dialect) {
            Ok((key_end, key)) => match after_colon(b, key_end, ctx.dialect) {
                Ok(v) => match reach(b, v, ctx) {
                    Ok(e) => if pos < e <= b.len() {
                        last_value(
                            b,
                            e,
                            ctx,
                            false,
                            name,
                            if key == name {
                                Some(v)
                            } else {
                                found
                            },
                        )
                    } else {
                        found
                    },
                    Err(_) => found,
                },
                Err(_) => found,
            },
            Err(_) => found,
        },
        _ => found,
    }
}

/// Whether every key from `pos` on reads.
pub open spec fn keys_read(b: Seq<u8>, pos: int, ctx: WalkCtx, first: bool) -> bool
    decreases b.len() - pos,
{
    next_at(b, pos, ctx.dialect, RBRACE, first) matches Ok(NextAt::Item(p)) ==> key_text(b, p, ctx.dialect) is Ok && (
    member_value_at(b, p, Check::Locate, ctx.dialect) matches Ok(v) ==> (reach(b, v, ctx) matches Ok(e) ==> (pos < e
        <= b.len() ==> keys_read(b, e, ctx, false))))
}

/// The value that a path leads to from `pos`: by the last member of a name, or by the
/// element of an index from the start.
pub open spec fn place(b: Seq<u8>, pos: int, steps: Seq<StepModel>, ctx: WalkCtx) -> Option<int>
    decreases steps.len(),
{
    match trivia_end(b, pos, ctx.dialect) {
        Err(_) => None,
        Ok(start) => if start >= b.len() {
            None
        } else if steps.len() == 0 {
            Some(start)
        } else {
            match steps[0] {
                StepModel::Key(name) => if b[start] != LBRACE {
                    None
                } else {
                    match last_value(b, start + 1, ctx, true, name, None) {
                        Some(v) => place(b, v, steps.skip(1), ctx),
                        None => None,
                    }
                },
                StepModel::Index(index) => {
                    let all = items_from(b, start + 1, ctx, true);
                    if b[start] == LBRACKET && 0 <= index < all.len() {
                        place(b, all[index as int], steps.skip(1), ctx)
                    } else {
                        None
                    }
                },
            }
        },
    }
}

/// A piece of text without an escape is its own bytes.
proof fn plain_piece(b: Seq<u8>, pos: int, quote: u8, json5: bool)
    requires
        0 <= pos < b.len(),
        b[pos] != quote,
        b[pos] != BACKSLASH,
        quote == QUOTE || quote == APOSTROPHE,
    ensures
        string_piece(b, pos, quote, json5) matches Ok((next, piece)) ==> pos < next <= b.len() && piece == b.subrange(pos, next),
{
    string_piece_facts(b, pos, quote, json5);
    if b[pos] == DEL {
        assert(seq![DEL] =~= b.subrange(pos, pos + 1));
    }
}

/// Text without an escape is its own bytes.
proof fn plain_text(b: Seq<u8>, pos: int, quote: u8, json5: bool, end: int, text: Seq<u8>)
    requires
        0 <= pos <= b.len(),
        quote == QUOTE || quote == APOSTROPHE,
        string_rest(b, pos, quote, json5) == Ok::<(int, Seq<u8>), Error>((end, text)),
        forall|i: int| pos <= i < end - 1 ==> #[trigger] b[i] != BACKSLASH,
    ensures
        text == b.subrange(pos, end - 1),
    decreases b.len() - pos,
{
    string_rest_bounds(b, pos, quote, json5);
    if b[pos] == quote {
        assert(b.subrange(pos, pos) =~= Seq::empty());
    } else {
        string_piece_facts(b, pos, quote, json5);
        let (next, piece) = string_piece(b, pos, quote, json5)->Ok_0;
        string_rest_bounds(b, next, quote, json5);
        let (_, more) = string_rest(b, next, quote, json5)->Ok_0;
        assert(b[pos] != BACKSLASH);
        plain_piece(b, pos, quote, json5);
        plain_text(b, next, quote, json5, end, more);
        assert(text == piece + more);
        assert(piece + more =~= b.subrange(pos, end - 1));
    }
}

proof fn string_rest_bounds(b: Seq<u8>, pos: int, quote: u8, json5: bool)
    requires
        0 <= pos <= b.len(),
        quote == QUOTE || quote == APOSTROPHE,
    ensures
        string_rest(b, pos, quote, json5) matches Ok((end, text)) ==> pos < end <= b.len(),
{
    read_string_is_located(b, pos, quote, json5);
    closing_quote_bounds(b, pos, quote);
}

/// A quoted key without an escape is its spelling.
proof fn plain_quoted(b: Seq<u8>, p: int, json5: bool, end: int, text: Seq<u8>)
    requires
        0 <= p < b.len(),
        b[p] == QUOTE || b[p] == APOSTROPHE,
        string_rest(b, p + 1, b[p], json5) == Ok::<(int, Seq<u8>), Error>((end, text)),
        !has_escape(key_spelling(b, p, end)),
    ensures
        key_spelling(b, p, end) == text,
{
    let spelling = key_spelling(b, p, end);
    string_rest_bounds(b, p + 1, b[p], json5);
    assert forall|i: int| p + 1 <= i < end - 1 implies #[trigger] b[i] != BACKSLASH by {
        assert(spelling[i - p - 1] == b[i]);
    }
    plain_text(b, p + 1, b[p], json5, end, text);
    assert(spelling =~= text);
}

/// A key without an escape is its spelling.
proof fn plain_key(b: Seq<u8>, p: int, dialect: Dialect)
    requires
        0 <= p < b.len(),
        key_text(b, p, dialect) is Ok,
        !has_escape(key_spelling(b, p, key_text(b, p, dialect)->Ok_0.0)),
    ensures
        key_spelling(b, p, key_text(b, p, dialect)->Ok_0.0) == key_text(b, p, dialect)->Ok_0.1,
{
    let (end, text) = key_text(b, p, dialect)->Ok_0;
    if opens_string(b[p], dialect) {
        assert(string_text(b, p, dialect) == Ok::<(int, Seq<u8>), Error>((end, text)));
        plain_quoted(b, p, dialect == Dialect::Json5, end, text);
    } else {
        assert(b[p] != QUOTE && b[p] != APOSTROPHE);
    }
}

/// Whether the members from `pos` on come, over keys without an escape, to one of a name
/// whose value is at `v`.
pub open spec fn comes_to(b: Seq<u8>, pos: int, first: bool, name: Seq<u8>, v: int, ctx: WalkCtx) -> bool
    decreases b.len() - pos,
{
    next_at(b, pos, ctx.dialect, RBRACE, first) matches Ok(NextAt::Item(p)) && (member_token(b, p, ctx.dialect) matches Ok(
        Some((spelling, u)),
    ) && !has_escape(spelling) && ((spelling == name && u == v) || (reach(b, u, ctx) matches Ok(e) && pos < e <= b.len()
        && comes_to(b, e, false, name, v, ctx))))
}

/// Whether no member from `pos` on has a name, and no key has an escape.
pub open spec fn lacks(b: Seq<u8>, pos: int, name: Seq<u8>, ctx: WalkCtx) -> bool
    decreases b.len() - pos,
{
    next_at(b, pos, ctx.dialect, RBRACE, false) matches Ok(NextAt::Item(p)) ==> (member_token(b, p, ctx.dialect) matches Ok(
        Some((spelling, u)),
    ) && !has_escape(spelling) && spelling != name && (reach(b, u, ctx) matches Ok(e) && pos < e <= b.len() && lacks(
        b,
        e,
        name,
        ctx,
    )))
}

/// Whether a search over members stands where the members go on.
spec fn stands(b: Seq<u8>, pos: int, first: bool, at: int, ctx: WalkCtx) -> bool {
    if first {
        at == pos
    } else {
        trivia_end(b, pos, ctx.dialect) matches Ok(q) && pos <= q < b.len() && b[q] == COMMA && at == q + 1
    }
}

/// A member's token is where the member is.
proof fn token_is_at(b: Seq<u8>, p: int, ctx: WalkCtx)
    requires
        0 <= p < b.len(),
    ensures
        member_token(b, p, ctx.dialect) matches Ok(Some((spelling, v))) ==> member_value_at(b, p, Check::Locate, ctx.dialect)
            == Ok::<int, Error>(v) && p < v <= b.len() && trivia_end(b, v, ctx.dialect) == Ok::<int, Error>(v),
{
    reveal(member_token);
    reveal(member_value_at);
    member_value_at_bounds(b, p, Check::Locate, ctx.dialect);
    key_end_bounds(b, p, Check::Locate, ctx.dialect);
    if let Ok(e) = key_end(b, p, Check::Locate, ctx.dialect) {
        trivia_end_bounds(b, e, ctx.dialect);
        if let Ok(c) = trivia_end(b, e, ctx.dialect) {
            if c < b.len() {
                trivia_end_bounds(b, c + 1, ctx.dialect);
                trivia_end_settles(b, c + 1, ctx.dialect);
            }
        }
    }
}

/// The member that a search finds first is one that the members come to.
proof fn first_is_found(b: Seq<u8>, pos: int, first: bool, at: int, name: Seq<u8>, wanted: u8, ctx: WalkCtx)
    requires
        0 <= pos <= b.len(),
        members_close(b, pos, ctx, first) is Some,
        stands(b, pos, first, at, ctx),
        first_member(b, at, name, wanted, ctx.max, ctx.dialect) matches Ok(Some(_)),
    ensures
        ({
            let v = first_member(b, at, name, wanted, ctx.max, ctx.dialect)->Ok_0->0;
            &&& pos < v < b.len()
            &&& b[v] == wanted
            &&& trivia_end(b, v, ctx.dialect) == Ok::<int, Error>(v)
            &&& comes_to(b, pos, first, name, v, ctx)
            &&& reach(b, v, ctx) is Ok
            &&& v < reach(b, v, ctx)->Ok_0 <= b.len()
            &&& members_close(b, reach(b, v, ctx)->Ok_0, ctx, false) == members_close(b, pos, ctx, first)
        }),
    decreases b.len() - pos,
{
    reveal(next_at);
    trivia_end_bounds(b, pos, ctx.dialect);
    next_at_bounds(b, pos, ctx.dialect, RBRACE, first);
    trivia_end_bounds(b, at, ctx.dialect);
    let p = trivia_end(b, at, ctx.dialect)->Ok_0;
    assert(next_at(b, pos, ctx.dialect, RBRACE, first) == Ok::<NextAt, Error>(NextAt::Item(p)));
    token_is_at(b, p, ctx);
    let (spelling, u) = member_token(b, p, ctx.dialect)->Ok_0->0;
    let e = reach(b, u, ctx)->Ok_0;
    reach_bounds(b, u, ctx);
    if !(spelling == name && u < b.len() && b[u] == wanted) {
        ends_at_reach(b, u, Check::Locate, ctx, 0);
        assert(ctx.under(Check::Locate) == locating(ctx));
        assert(located_end(b, u, Check::Locate, ctx.max, ctx.dialect) == Ok::<int, Error>(e));
        trivia_end_bounds(b, e, ctx.dialect);
        let q = trivia_end(b, e, ctx.dialect)->Ok_0;
        first_is_found(b, e, false, q + 1, name, wanted, ctx);
    }
}

/// An object that a walk outward passes has no later member of the name.
proof fn passed_object_lacks(b: Seq<u8>, pos: int, name: Seq<u8>, ctx: WalkCtx)
    requires
        0 <= pos <= b.len(),
        members_close(b, pos, ctx, false) is Some,
        object_shadow(b, pos, name, ctx.max, ctx.dialect) matches Ok(Passed::To(_)),
    ensures
        lacks(b, pos, name, ctx),
        object_shadow(b, pos, name, ctx.max, ctx.dialect)->Ok_0->To_0 == members_close(b, pos, ctx, false)->0,
    decreases b.len() - pos,
{
    reveal(next_at);
    trivia_end_bounds(b, pos, ctx.dialect);
    next_at_bounds(b, pos, ctx.dialect, RBRACE, false);
    let p = trivia_end(b, pos, ctx.dialect)->Ok_0;
    if b[p] == COMMA {
        trivia_end_bounds(b, p + 1, ctx.dialect);
        let q = trivia_end(b, p + 1, ctx.dialect)->Ok_0;
        reveal(later_key);
        reveal(member_token);
        key_end_bounds(b, q, Check::Locate, ctx.dialect);
        assert(q < b.len());
        let (spelling, v) = later_key(b, q, ctx.dialect)->Ok_0->0;
        assert(member_token(b, q, ctx.dialect) == Ok::<Option<(Seq<u8>, int)>, Error>(Some((spelling, v))));
        token_is_at(b, q, ctx);
        assert(b[q] != RBRACE) by {
            assert(key_end(b, q, Check::Locate, ctx.dialect) is Ok);
        }
        assert(next_at(b, pos, ctx.dialect, RBRACE, false) == Ok::<NextAt, Error>(NextAt::Item(q)));
        let e = reach(b, v, ctx)->Ok_0;
        reach_bounds(b, v, ctx);
        ends_at_reach(b, v, Check::Locate, ctx, 0);
        assert(ctx.under(Check::Locate) == locating(ctx));
        assert(located_end(b, v, Check::Locate, ctx.max, ctx.dialect) == Ok::<int, Error>(e));
        passed_object_lacks(b, e, name, ctx);
    }
}

/// An array that a walk outward passes is passed at its closer.
proof fn passed_array_closes(b: Seq<u8>, pos: int, ctx: WalkCtx)
    requires
        0 <= pos <= b.len(),
        closes_at(b, pos, ctx, false) is Some,
        array_shadow(b, pos, ctx.max, ctx.dialect) matches Ok(Passed::To(_)),
    ensures
        array_shadow(b, pos, ctx.max, ctx.dialect)->Ok_0->To_0 == closes_at(b, pos, ctx, false)->0,
    decreases b.len() - pos,
{
    reveal(next_at);
    trivia_end_bounds(b, pos, ctx.dialect);
    next_at_bounds(b, pos, ctx.dialect, RBRACKET, false);
    let p = trivia_end(b, pos, ctx.dialect)->Ok_0;
    if b[p] == COMMA {
        trivia_end_bounds(b, p + 1, ctx.dialect);
        trivia_end_settles(b, p + 1, ctx.dialect);
        let q = trivia_end(b, p + 1, ctx.dialect)->Ok_0;
        let e = located_end(b, q, Check::Locate, ctx.max, ctx.dialect)->Ok_0;
        ends_at_reach(b, q, Check::Locate, ctx, 0);
        assert(ctx.under(Check::Locate) == locating(ctx));
        value_bounds(b, q, locating(ctx), 0);
        assert(q < b.len() && b[q] != RBRACKET);
        assert(next_at(b, pos, ctx.dialect, RBRACKET, false) == Ok::<NextAt, Error>(NextAt::Item(q)));
        passed_array_closes(b, e, ctx);
    }
}

/// The element that a search finds is the one of its index.
proof fn element_is_found(b: Seq<u8>, pos: int, index: int, done: int, ctx: WalkCtx)
    requires
        0 <= pos <= b.len(),
        0 <= done <= index,
        closes_at(b, pos, ctx, done == 0) is Some,
        element_start(b, pos, index, done, ctx.max, ctx.dialect) matches Ok(Some(q)) && 0 <= q < b.len() && (b[q] == LBRACE || b[q]
            == LBRACKET),
    ensures
        ({
            let q = element_start(b, pos, index, done, ctx.max, ctx.dialect)->Ok_0->0;
            let all = items_from(b, pos, ctx, done == 0);
            &&& pos <= q
            &&& index - done < all.len()
            &&& all[index - done] == q
            &&& trivia_end(b, q, ctx.dialect) == Ok::<int, Error>(q)
            &&& reach(b, q, ctx) is Ok
            &&& q < reach(b, q, ctx)->Ok_0 <= b.len()
            &&& closes_at(b, reach(b, q, ctx)->Ok_0, ctx, false) == closes_at(b, pos, ctx, done == 0)
        }),
    decreases b.len() - pos,
{
    reveal(next_at);
    trivia_end_bounds(b, pos, ctx.dialect);
    trivia_end_settles(b, pos, ctx.dialect);
    next_at_bounds(b, pos, ctx.dialect, RBRACKET, done == 0);
    let p = trivia_end(b, pos, ctx.dialect)->Ok_0;
    if done > 0 {
        trivia_end_bounds(b, p + 1, ctx.dialect);
        trivia_end_settles(b, p + 1, ctx.dialect);
    }
    let q = if done > 0 {
        trivia_end(b, p + 1, ctx.dialect)->Ok_0
    } else {
        p
    };
    if done < index {
        ends_at_reach(b, q, Check::Locate, ctx, 0);
        assert(ctx.under(Check::Locate) == locating(ctx));
        value_bounds(b, q, locating(ctx), 0);
        let e = located_end(b, q, Check::Locate, ctx.max, ctx.dialect)->Ok_0;
        assert(q < b.len() && b[q] != RBRACKET);
        assert(next_at(b, pos, ctx.dialect, RBRACKET, done == 0) == Ok::<NextAt, Error>(NextAt::Item(q)));
        element_is_found(b, e, index, done + 1, ctx);
        let rest = items_from(b, e, ctx, false);
        assert((seq![q] + rest)[index - done] == rest[index - done - 1]);
    } else {
        assert(next_at(b, pos, ctx.dialect, RBRACKET, done == 0) == Ok::<NextAt, Error>(NextAt::Item(q)));
        reach_bounds(b, q, ctx);
    }
}

/// The opener of a value that can carry what comes behind the first of some steps.
pub open spec fn wanted_opener(steps: Seq<StepModel>) -> u8 {
    if steps.len() == 1 || steps[1] is Index {
        LBRACKET
    } else {
        LBRACE
    }
}

/// The value of the first member of the object at `pos` that can carry a path on.
pub open spec fn first_match(b: Seq<u8>, pos: int, steps: Seq<StepModel>, name: Seq<u8>, ctx: WalkCtx) -> int {
    first_member(b, pos + 1, name, wanted_opener(steps), ctx.max, ctx.dialect)->Ok_0->0
}

/// Whether a path leads from `pos` to `start` over members that no later one takes the
/// place of.
pub open spec fn clear_way(b: Seq<u8>, pos: int, steps: Seq<StepModel>, start: int, ctx: WalkCtx) -> bool
    decreases steps.len(),
{
    &&& 0 <= pos < b.len()
    &&& trivia_end(b, pos, ctx.dialect) == Ok::<int, Error>(pos)
    &&& if steps.len() == 0 {
        pos == start && b[start] == LBRACKET
    } else {
        match steps[0] {
            StepModel::Key(name) => {
                let v = first_match(b, pos, steps, name, ctx);
                b[pos] == LBRACE && comes_to(b, pos + 1, true, name, v, ctx) && reach(b, v, ctx) is Ok && lacks(
                    b,
                    reach(b, v, ctx)->Ok_0,
                    name,
                    ctx,
                ) && clear_way(b, v, steps.skip(1), start, ctx)
            },
            StepModel::Index(index) => {
                let all = items_from(b, pos + 1, ctx, true);
                b[pos] == LBRACKET && 0 <= index < all.len() && clear_way(b, all[index as int], steps.skip(1), start, ctx)
            },
        }
    }
}

/// [`clear_way`], one step at a time.
#[verifier::opaque]
pub(crate) open spec fn way_is_clear(b: Seq<u8>, pos: int, steps: Seq<StepModel>, start: int, ctx: WalkCtx) -> bool {
    clear_way(b, pos, steps, start, ctx)
}

/// Whether a walk outward from `pos` over the containers of `n` steps finds nothing.
#[verifier::opaque]
pub(crate) open spec fn outward_is_clear(b: Seq<u8>, pos: int, steps: Seq<StepModel>, n: nat, ctx: WalkCtx) -> bool {
    shadow_from(b, pos, steps, n, ctx.max, ctx.dialect) == Ok::<Shadow, Error>(Shadow::Clear)
}

/// Whether the steps from `i` on lead from `pos` to the array at `start`.
#[verifier::opaque]
pub(crate) open spec fn leads_to(b: Seq<u8>, pos: int, steps: Seq<StepModel>, i: int, last: bool, start: int, ctx: WalkCtx) -> bool {
    array_from(b, pos, steps, i, last, ctx.max, ctx.dialect) == Ok::<Option<int>, Error>(Some(start))
}

/// A walk outward that finds nothing passes the object around it.
proof fn object_is_passed(b: Seq<u8>, e: int, steps: Seq<StepModel>, n: nat, name: Seq<u8>, ctx: WalkCtx)
    requires
        0 < n <= steps.len(),
        steps[n - 1] == StepModel::Key(name),
        outward_is_clear(b, e, steps, n, ctx),
    ensures
        object_shadow(b, e, name, ctx.max, ctx.dialect) matches Ok(Passed::To(next)) && outward_is_clear(
            b,
            next,
            steps,
            (n - 1) as nat,
            ctx,
        ),
{
    reveal(outward_is_clear);
    found_is_not_clear(b, e, name, ctx);
}

/// A walk outward that finds nothing passes the array around it.
proof fn array_is_passed(b: Seq<u8>, e: int, steps: Seq<StepModel>, n: nat, ctx: WalkCtx)
    requires
        0 < n <= steps.len(),
        steps[n - 1] is Index,
        outward_is_clear(b, e, steps, n, ctx),
    ensures
        array_shadow(b, e, ctx.max, ctx.dialect) matches Ok(Passed::To(next)) && outward_is_clear(
            b,
            next,
            steps,
            (n - 1) as nat,
            ctx,
        ),
{
    reveal(outward_is_clear);
    found_array_is_not_clear(b, e, ctx);
}

proof fn key_is_clear(b: Seq<u8>, pos: int, rest: Seq<StepModel>, name: Seq<u8>, v: int, start: int, ctx: WalkCtx)
    requires
        0 <= pos < b.len(),
        rest.len() > 0,
        rest[0] == StepModel::Key(name),
        b[pos] == LBRACE,
        trivia_end(b, pos, ctx.dialect) == Ok::<int, Error>(pos),
        v == first_match(b, pos, rest, name, ctx),
        comes_to(b, pos + 1, true, name, v, ctx),
        reach(b, v, ctx) is Ok,
        lacks(b, reach(b, v, ctx)->Ok_0, name, ctx),
        way_is_clear(b, v, rest.skip(1), start, ctx),
    ensures
        way_is_clear(b, pos, rest, start, ctx),
{
    reveal(way_is_clear);
}

proof fn index_is_clear(b: Seq<u8>, pos: int, rest: Seq<StepModel>, q: int, start: int, ctx: WalkCtx)
    requires
        0 <= pos < b.len(),
        rest.len() > 0,
        rest[0] matches StepModel::Index(k) && 0 <= k < items_from(b, pos + 1, ctx, true).len() && items_from(b, pos + 1, ctx, true)[k as int]
            == q,
        b[pos] == LBRACKET,
        trivia_end(b, pos, ctx.dialect) == Ok::<int, Error>(pos),
        way_is_clear(b, q, rest.skip(1), start, ctx),
    ensures
        way_is_clear(b, pos, rest, start, ctx),
{
    reveal(way_is_clear);
}

/// The member that a first-match step leads to.
proof fn key_is_found(b: Seq<u8>, pos: int, steps: Seq<StepModel>, i: int, name: Seq<u8>, start: int, ctx: WalkCtx) -> (v: int)
    requires
        0 <= pos < b.len(),
        0 <= i < steps.len(),
        steps[i] == StepModel::Key(name),
        reach(b, pos, ctx) is Ok,
        leads_to(b, pos, steps, i, false, start, ctx),
    ensures
        b[pos] == LBRACE,
        pos < v < b.len(),
        v == first_match(b, pos, steps.skip(i), name, ctx),
        comes_to(b, pos + 1, true, name, v, ctx),
        trivia_end(b, v, ctx.dialect) == Ok::<int, Error>(v),
        reach(b, v, ctx) is Ok,
        v < reach(b, v, ctx)->Ok_0 <= b.len(),
        members_close(b, reach(b, v, ctx)->Ok_0, ctx, false) == Some(reach(b, pos, ctx)->Ok_0),
        leads_to(b, v, steps, i + 1, false, start, ctx),
{
    reveal(leads_to);
    let rest = steps.skip(i);
    assert(rest[0] == steps[i]);
    assert(i + 1 < steps.len() ==> rest[1] == steps[i + 1]);
    let v = first_match(b, pos, rest, name, ctx);
    object_closes(b, pos, ctx);
    first_is_found(b, pos + 1, true, pos + 1, name, wanted_opener(rest), ctx);
    v
}

/// The element that an index step leads to.
proof fn index_is_found(b: Seq<u8>, pos: int, steps: Seq<StepModel>, i: int, index: i64, start: int, last: bool, ctx: WalkCtx) -> (q: int)
    requires
        0 <= pos < b.len(),
        0 <= i < steps.len(),
        steps[i] == StepModel::Index(index),
        reach(b, pos, ctx) is Ok,
        leads_to(b, pos, steps, i, last, start, ctx),
    ensures
        b[pos] == LBRACKET,
        pos < q < b.len(),
        0 <= index < items_from(b, pos + 1, ctx, true).len(),
        items_from(b, pos + 1, ctx, true)[index as int] == q,
        trivia_end(b, q, ctx.dialect) == Ok::<int, Error>(q),
        reach(b, q, ctx) is Ok,
        q < reach(b, q, ctx)->Ok_0 <= b.len(),
        closes_at(b, reach(b, q, ctx)->Ok_0, ctx, false) == Some(reach(b, pos, ctx)->Ok_0),
        leads_to(b, q, steps, i + 1, last, start, ctx),
{
    reveal(leads_to);
    reach_closes(b, pos, ctx);
    let q = element_start(b, pos + 1, index as int, 0, ctx.max, ctx.dialect)->Ok_0->0;
    opens_next(b, q, steps, i + 1, ctx);
    element_bounds(b, pos + 1, index as int, 0, ctx);
    element_is_found(b, pos + 1, index as int, 0, ctx);
    q
}

proof fn array_itself_is_clear(b: Seq<u8>, pos: int, steps: Seq<StepModel>, last: bool, start: int, ctx: WalkCtx)
    requires
        0 <= pos < b.len() <= usize::MAX,
        trivia_end(b, pos, ctx.dialect) == Ok::<int, Error>(pos),
        reach(b, pos, ctx) is Ok,
        leads_to(b, pos, steps, steps.len() as int, last, start, ctx),
    ensures
        pos == start,
        b[pos] == LBRACKET,
        way_is_clear(b, pos, steps.skip(steps.len() as int), start, ctx),
        serial_elements(b, start + 1) matches Ok((_, e)) && e == reach(b, pos, ctx)->Ok_0,
{
    reveal(leads_to);
    reveal(way_is_clear);
    assert(steps.skip(steps.len() as int) =~= Seq::empty());
    reach_closes(b, pos, ctx);
    array_is_cut_to_go_on(b, pos, ctx, reach(b, pos, ctx)->Ok_0);
}

/// Where nothing takes the place of the first match, the way to it is clear.
pub(crate) proof fn first_way_is_clear(
    b: Seq<u8>,
    pos: int,
    steps: Seq<StepModel>,
    i: int,
    start: int,
    close: int,
    ctx: WalkCtx,
)
    requires
        0 <= pos < b.len() <= usize::MAX,
        0 <= i <= steps.len(),
        trivia_end(b, pos, ctx.dialect) == Ok::<int, Error>(pos),
        reach(b, pos, ctx) is Ok,
        leads_to(b, pos, steps, i, false, start, ctx),
        serial_elements(b, start + 1) matches Ok((_, e)) && e == close,
        outward_is_clear(b, close, steps, steps.len(), ctx),
    ensures
        way_is_clear(b, pos, steps.skip(i), start, ctx),
        outward_is_clear(b, reach(b, pos, ctx)->Ok_0, steps, i as nat, ctx),
    decreases steps.len() - i,
{
    if i == steps.len() {
        array_itself_is_clear(b, pos, steps, false, start, ctx);
    } else {
        let rest = steps.skip(i);
        assert(rest.skip(1) =~= steps.skip(i + 1));
        assert(rest[0] == steps[i]);
        match steps[i] {
            StepModel::Key(name) => {
                let v = key_is_found(b, pos, steps, i, name, start, ctx);
                first_way_is_clear(b, v, steps, i + 1, start, close, ctx);
                let e = reach(b, v, ctx)->Ok_0;
                object_is_passed(b, e, steps, (i + 1) as nat, name, ctx);
                passed_object_lacks(b, e, name, ctx);
                key_is_clear(b, pos, rest, name, v, start, ctx);
            },
            StepModel::Index(index) => {
                let q = index_is_found(b, pos, steps, i, index, start, false, ctx);
                first_way_is_clear(b, q, steps, i + 1, start, close, ctx);
                let e = reach(b, q, ctx)->Ok_0;
                array_is_passed(b, e, steps, (i + 1) as nat, ctx);
                passed_array_closes(b, e, ctx);
                index_is_clear(b, pos, rest, q, start, ctx);
            },
        }
    }
}

proof fn element_bounds(b: Seq<u8>, pos: int, index: int, done: int, ctx: WalkCtx)
    requires
        0 <= pos <= b.len(),
    ensures
        element_start(b, pos, index, done, ctx.max, ctx.dialect) matches Ok(Some(q)) ==> pos <= q <= b.len(),
    decreases b.len() - pos,
{
    trivia_end_bounds(b, pos, ctx.dialect);
    if let Ok(p) = trivia_end(b, pos, ctx.dialect) {
        if p < b.len() {
            trivia_end_bounds(b, p + 1, ctx.dialect);
        }
        let q = if done > 0 {
            trivia_end(b, p + 1, ctx.dialect)
        } else {
            Ok(p)
        };
        if let Ok(q) = q {
            if let Ok(e) = located_end(b, q, Check::Locate, ctx.max, ctx.dialect) {
                if pos < e <= b.len() {
                    element_bounds(b, e, index, done + 1, ctx);
                }
            }
        }
    }
}

/// What steps go on from is a container.
proof fn opens_next(b: Seq<u8>, pos: int, steps: Seq<StepModel>, i: int, ctx: WalkCtx)
    requires
        0 <= i <= steps.len(),
        array_from(b, pos, steps, i, false, ctx.max, ctx.dialect) matches Ok(Some(_)) || array_from(
            b,
            pos,
            steps,
            i,
            true,
            ctx.max,
            ctx.dialect,
        ) matches Ok(Some(_)),
    ensures
        pos < b.len(),
        b[pos] == LBRACE || b[pos] == LBRACKET,
{
}

proof fn found_is_not_clear(b: Seq<u8>, pos: int, name: Seq<u8>, ctx: WalkCtx)
    ensures
        object_shadow(b, pos, name, ctx.max, ctx.dialect) matches Ok(Passed::Found(shadow)) ==> shadow != Shadow::Clear,
    decreases b.len() - pos,
{
    if let Ok(p) = trivia_end(b, pos, ctx.dialect) {
        if let Ok(q) = trivia_end(b, p + 1, ctx.dialect) {
            if let Ok(Some((spelling, v))) = later_key(b, q, ctx.dialect) {
                if let Ok(e) = located_end(b, v, Check::Locate, ctx.max, ctx.dialect) {
                    if pos < e <= b.len() {
                        found_is_not_clear(b, e, name, ctx);
                    }
                }
            }
        }
    }
}

proof fn found_array_is_not_clear(b: Seq<u8>, pos: int, ctx: WalkCtx)
    ensures
        array_shadow(b, pos, ctx.max, ctx.dialect) matches Ok(Passed::Found(shadow)) ==> shadow != Shadow::Clear,
    decreases b.len() - pos,
{
    if let Ok(p) = trivia_end(b, pos, ctx.dialect) {
        if let Ok(q) = trivia_end(b, p + 1, ctx.dialect) {
            if let Ok(e) = located_end(b, q, Check::Locate, ctx.max, ctx.dialect) {
                if pos < e <= b.len() {
                    found_array_is_not_clear(b, e, ctx);
                }
            }
        }
    }
}

/// A member whose key has no escape, as it reads.
proof fn plain_member(b: Seq<u8>, p: int, ctx: WalkCtx, spelling: Seq<u8>, u: int)
    requires
        0 <= p < b.len(),
        key_text(b, p, ctx.dialect) is Ok,
        member_token(b, p, ctx.dialect) == Ok::<Option<(Seq<u8>, int)>, Error>(Some((spelling, u))),
        !has_escape(spelling),
    ensures
        key_text(b, p, ctx.dialect)->Ok_0.1 == spelling,
        after_colon(b, key_text(b, p, ctx.dialect)->Ok_0.0, ctx.dialect) == Ok::<int, Error>(u),
        member_value_at(b, p, Check::Locate, ctx.dialect) == Ok::<int, Error>(u),
        p < u <= b.len(),
        trivia_end(b, u, ctx.dialect) == Ok::<int, Error>(u),
{
    token_is_at(b, p, ctx);
    key_text_end(b, p, ctx.dialect);
    key_is_located(b, p, ctx.dialect);
    reveal(member_token);
    reveal(member_value_at);
    plain_key(b, p, ctx.dialect);
}

/// Where no member has a name, none takes the place of what was found.
proof fn lacking_keeps(b: Seq<u8>, pos: int, name: Seq<u8>, found: Option<int>, ctx: WalkCtx)
    requires
        0 <= pos <= b.len(),
        lacks(b, pos, name, ctx),
        keys_read(b, pos, ctx, false),
        members_close(b, pos, ctx, false) is Some,
    ensures
        last_value(b, pos, ctx, false, name, found) == found,
    decreases b.len() - pos,
{
    next_at_bounds(b, pos, ctx.dialect, RBRACE, false);
    if let Ok(NextAt::Item(p)) = next_at(b, pos, ctx.dialect, RBRACE, false) {
        key_text_end(b, p, ctx.dialect);
        let (spelling, u) = member_token(b, p, ctx.dialect)->Ok_0->0;
        plain_member(b, p, ctx, spelling, u);
        lacking_keeps(b, reach(b, u, ctx)->Ok_0, name, found, ctx);
    }
}

/// A member of a name with none behind it is the last of the name.
proof fn come_to_last(b: Seq<u8>, pos: int, first: bool, name: Seq<u8>, v: int, found: Option<int>, ctx: WalkCtx)
    requires
        0 <= pos <= b.len(),
        comes_to(b, pos, first, name, v, ctx),
        reach(b, v, ctx) is Ok,
        lacks(b, reach(b, v, ctx)->Ok_0, name, ctx),
        keys_read(b, pos, ctx, first),
        members_close(b, pos, ctx, first) is Some,
    ensures
        last_value(b, pos, ctx, first, name, found) == Some(v),
    decreases b.len() - pos,
{
    next_at_bounds(b, pos, ctx.dialect, RBRACE, first);
    let p = next_at(b, pos, ctx.dialect, RBRACE, first)->Ok_0->Item_0;
    key_text_end(b, p, ctx.dialect);
    let (spelling, u) = member_token(b, p, ctx.dialect)->Ok_0->0;
    plain_member(b, p, ctx, spelling, u);
    reach_bounds(b, u, ctx);
    let e = reach(b, u, ctx)->Ok_0;
    if spelling == name && u == v {
        lacking_keeps(b, e, name, Some(v), ctx);
    } else if spelling == name {
        come_to_last(b, e, false, name, v, Some(u), ctx);
    } else {
        come_to_last(b, e, false, name, v, found, ctx);
    }
}

/// What a value is passed to is its reach, whether it is cut or skipped.
proof fn value_is_passed(b: Seq<u8>, v: int, matching: bool, ctx: WalkCtx)
    requires
        0 <= v <= b.len() <= usize::MAX,
        trivia_end(b, v, ctx.dialect) == Ok::<int, Error>(v),
        reach(b, v, ctx) is Ok,
    ensures
        passed_value(b, v, matching, ctx.max, ctx.dialect) matches Ok(e) ==> e == reach(b, v, ctx)->Ok_0,
{
    reach_bounds(b, v, ctx);
    if matching && b[v] == LBRACKET {
        reach_closes(b, v, ctx);
        array_is_cut_to_go_on(b, v, ctx, reach(b, v, ctx)->Ok_0);
    } else {
        ends_at_reach(b, v, Check::Locate, ctx, 0);
        assert(ctx.under(Check::Locate) == locating(ctx));
    }
}

/// The member that a search finds last is the last.
proof fn last_is_found(b: Seq<u8>, pos: int, first: bool, at: int, name: Seq<u8>, found: Option<int>, v: int, ctx: WalkCtx)
    requires
        0 <= pos <= b.len() <= usize::MAX,
        members_close(b, pos, ctx, first) is Some,
        keys_read(b, pos, ctx, first),
        stands(b, pos, first, at, ctx),
        last_member_at(b, at, name, ctx.max, ctx.dialect, found) == Ok::<Option<int>, Error>(Some(v)),
    ensures
        last_value(b, pos, ctx, first, name, found) == Some(v),
        found != Some(v) ==> pos < v <= b.len() && trivia_end(b, v, ctx.dialect) == Ok::<int, Error>(v) && reach(b, v, ctx) is Ok,
    decreases b.len() - pos,
{
    reveal(next_at);
    trivia_end_bounds(b, pos, ctx.dialect);
    next_at_bounds(b, pos, ctx.dialect, RBRACE, first);
    trivia_end_bounds(b, at, ctx.dialect);
    let p = trivia_end(b, at, ctx.dialect)->Ok_0;
    if b[p] != RBRACE {
        assert(next_at(b, pos, ctx.dialect, RBRACE, first) == Ok::<NextAt, Error>(NextAt::Item(p)));
        let (spelling, u) = member_token(b, p, ctx.dialect)->Ok_0->0;
        plain_member(b, p, ctx, spelling, u);
        value_is_passed(b, u, spelling == name, ctx);
        reach_bounds(b, u, ctx);
        let e = reach(b, u, ctx)->Ok_0;
        trivia_end_bounds(b, e, ctx.dialect);
        let q = trivia_end(b, e, ctx.dialect)->Ok_0;
        let next = if spelling == name {
            Some(u)
        } else {
            found
        };
        if q < b.len() && b[q] == COMMA {
            last_is_found(b, e, false, q + 1, name, next, v, ctx);
        } else {
            assert(last_value(b, e, ctx, false, name, next) == next);
        }
    }
}

/// Whether the steps from `i` on lead from `pos` to the array at `start`: by the last
/// matches, or by the first ones over a clear way.
pub(crate) open spec fn way(b: Seq<u8>, pos: int, steps: Seq<StepModel>, i: int, last: bool, start: int, ctx: WalkCtx) -> bool {
    if last {
        leads_to(b, pos, steps, i, true, start, ctx)
    } else {
        way_is_clear(b, pos, steps.skip(i), start, ctx)
    }
}

/// The end of a way is the array.
pub(crate) proof fn way_ends(b: Seq<u8>, pos: int, steps: Seq<StepModel>, last: bool, start: int, ctx: WalkCtx)
    requires
        way(b, pos, steps, steps.len() as int, last, start, ctx),
    ensures
        pos == start,
        pos < b.len(),
        b[pos] == LBRACKET,
{
    reveal(leads_to);
    reveal(way_is_clear);
    assert(steps.skip(steps.len() as int) =~= Seq::empty());
}

/// A clear way begins at a value.
proof fn clear_way_begins(b: Seq<u8>, pos: int, rest: Seq<StepModel>, start: int, ctx: WalkCtx)
    requires
        way_is_clear(b, pos, rest, start, ctx),
    ensures
        0 <= pos < b.len(),
        trivia_end(b, pos, ctx.dialect) == Ok::<int, Error>(pos),
{
    reveal(way_is_clear);
}

/// A key step of a clear way.
proof fn clear_key(b: Seq<u8>, pos: int, rest: Seq<StepModel>, start: int, name: Seq<u8>, ctx: WalkCtx)
    requires
        rest.len() > 0,
        rest[0] == StepModel::Key(name),
        way_is_clear(b, pos, rest, start, ctx),
    ensures
        b[pos] == LBRACE,
        comes_to(b, pos + 1, true, name, first_match(b, pos, rest, name, ctx), ctx),
        reach(b, first_match(b, pos, rest, name, ctx), ctx) is Ok,
        lacks(b, reach(b, first_match(b, pos, rest, name, ctx), ctx)->Ok_0, name, ctx),
        way_is_clear(b, first_match(b, pos, rest, name, ctx), rest.skip(1), start, ctx),
{
    reveal(way_is_clear);
}

proof fn clear_way_takes_last(b: Seq<u8>, pos: int, rest: Seq<StepModel>, start: int, name: Seq<u8>, ctx: WalkCtx) -> (v: int)
    requires
        0 <= pos < b.len() <= usize::MAX,
        rest.len() > 0,
        rest[0] == StepModel::Key(name),
        reach(b, pos, ctx) is Ok,
        way_is_clear(b, pos, rest, start, ctx),
        b[pos] == LBRACE ==> keys_read(b, pos + 1, ctx, true),
    ensures
        b[pos] == LBRACE,
        last_value(b, pos + 1, ctx, true, name, None) == Some(v),
        pos < v < b.len(),
        trivia_end(b, v, ctx.dialect) == Ok::<int, Error>(v),
        way_is_clear(b, v, rest.skip(1), start, ctx),
{
    let v = first_match(b, pos, rest, name, ctx);
    clear_key(b, pos, rest, start, name, ctx);
    clear_way_begins(b, v, rest.skip(1), start, ctx);
    object_closes(b, pos, ctx);
    come_to_last(b, pos + 1, true, name, v, None, ctx);
    last_value_is_later(b, pos + 1, true, name, None, ctx);
    v
}

/// A key step that takes the last match.
proof fn last_key(b: Seq<u8>, pos: int, steps: Seq<StepModel>, i: int, start: int, name: Seq<u8>, ctx: WalkCtx) -> (v: int)
    requires
        0 <= i < steps.len(),
        steps[i] == StepModel::Key(name),
        leads_to(b, pos, steps, i, true, start, ctx),
    ensures
        pos < b.len(),
        b[pos] == LBRACE,
        last_member_at(b, pos + 1, name, ctx.max, ctx.dialect, None) == Ok::<Option<int>, Error>(Some(v)),
        leads_to(b, v, steps, i + 1, true, start, ctx),
{
    reveal(leads_to);
    last_member_at(b, pos + 1, name, ctx.max, ctx.dialect, None)->Ok_0->0
}

/// A key step of a way takes the last member of its name.
pub(crate) proof fn way_takes_last(
    b: Seq<u8>,
    pos: int,
    steps: Seq<StepModel>,
    i: int,
    last: bool,
    start: int,
    name: Seq<u8>,
    ctx: WalkCtx,
) -> (v: int)
    requires
        0 <= pos < b.len() <= usize::MAX,
        0 <= i < steps.len(),
        steps[i] == StepModel::Key(name),
        reach(b, pos, ctx) is Ok,
        way(b, pos, steps, i, last, start, ctx),
        b[pos] == LBRACE ==> keys_read(b, pos + 1, ctx, true),
    ensures
        b[pos] == LBRACE,
        last_value(b, pos + 1, ctx, true, name, None) == Some(v),
        pos < v < b.len(),
        trivia_end(b, v, ctx.dialect) == Ok::<int, Error>(v),
        way(b, v, steps, i + 1, last, start, ctx),
{
    if last {
        let v = last_key(b, pos, steps, i, start, name, ctx);
        object_closes(b, pos, ctx);
        last_is_found(b, pos + 1, true, pos + 1, name, None, v, ctx);
        reach_bounds(b, v, ctx);
        v
    } else {
        let rest = steps.skip(i);
        assert(rest.skip(1) =~= steps.skip(i + 1));
        assert(rest[0] == steps[i]);
        clear_way_takes_last(b, pos, rest, start, name, ctx)
    }
}

proof fn last_value_is_later(b: Seq<u8>, pos: int, first: bool, name: Seq<u8>, found: Option<int>, ctx: WalkCtx)
    requires
        0 <= pos <= b.len(),
        keys_read(b, pos, ctx, first),
    ensures
        last_value(b, pos, ctx, first, name, found) matches Some(v) ==> found == Some(v) || pos < v,
    decreases b.len() - pos,
{
    next_at_bounds(b, pos, ctx.dialect, RBRACE, first);
    if let Ok(NextAt::Item(p)) = next_at(b, pos, ctx.dialect, RBRACE, first) {
        key_text_end(b, p, ctx.dialect);
        if let Ok((key_end, key)) = key_text(b, p, ctx.dialect) {
            if let Ok(v) = after_colon(b, key_end, ctx.dialect) {
                member_is_at(b, p, ctx.dialect, key_end, key, v);
                if let Ok(e) = reach(b, v, ctx) {
                    if pos < e <= b.len() {
                        let next = if key == name {
                            Some(v)
                        } else {
                            found
                        };
                        last_value_is_later(b, e, false, name, next, ctx);
                    }
                }
            }
        }
    }
}

/// An index step of a clear way.
proof fn clear_index(b: Seq<u8>, pos: int, rest: Seq<StepModel>, start: int, index: i64, ctx: WalkCtx)
    requires
        rest.len() > 0,
        rest[0] == StepModel::Index(index),
        way_is_clear(b, pos, rest, start, ctx),
    ensures
        b[pos] == LBRACKET,
        0 <= index < items_from(b, pos + 1, ctx, true).len(),
        way_is_clear(b, items_from(b, pos + 1, ctx, true)[index as int], rest.skip(1), start, ctx),
{
    reveal(way_is_clear);
}

/// An index step of a way takes the element of its index.
pub(crate) proof fn way_takes_element(
    b: Seq<u8>,
    pos: int,
    steps: Seq<StepModel>,
    i: int,
    last: bool,
    start: int,
    index: i64,
    ctx: WalkCtx,
) -> (q: int)
    requires
        0 <= pos < b.len(),
        0 <= i < steps.len(),
        steps[i] == StepModel::Index(index),
        reach(b, pos, ctx) is Ok,
        way(b, pos, steps, i, last, start, ctx),
    ensures
        b[pos] == LBRACKET,
        0 <= index < items_from(b, pos + 1, ctx, true).len(),
        items_from(b, pos + 1, ctx, true)[index as int] == q,
        0 <= q < b.len(),
        trivia_end(b, q, ctx.dialect) == Ok::<int, Error>(q),
        way(b, q, steps, i + 1, last, start, ctx),
{
    if last {
        index_is_found(b, pos, steps, i, index, start, true, ctx)
    } else {
        let rest = steps.skip(i);
        assert(rest.skip(1) =~= steps.skip(i + 1));
        assert(rest[0] == steps[i]);
        clear_index(b, pos, rest, start, index, ctx);
        let q = items_from(b, pos + 1, ctx, true)[index as int];
        clear_way_begins(b, q, rest.skip(1), start, ctx);
        q
    }
}

} // verus!
