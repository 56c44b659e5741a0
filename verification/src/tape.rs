//! One-pass arena build: a span decoded into flat node and edge arenas.
//!
//! One builder and two payload strategies: an owned copy of every payload, or
//! source slices with a spill for what no slice spells.

use vstd::prelude::*;
use vstd::utf8::valid_utf8;

use crate::answer::Columns;
use crate::ascii::{APOSTROPHE, DOT, LBRACE, LBRACKET, MINUS, NINE, PLUS, QUOTE, RBRACE, RBRACKET, ZERO};
use crate::dialect::{Dialect, NonFinite};
use crate::encode::append;
use crate::error::{at, Error, ErrorKind};
use crate::lex::number::{
    integer_at, lex_number, non_finite_of, non_finite_value, normalize_json5_into, normalized, number_end,
    skip_rfc_integer,
};
use crate::lex::skip::{
    after_colon, literal_text, next_at, next_at_bounds, next_item, skip_colon, skip_scalar, spelling_end, starts_literal,
    starts_number, Check, Next, NextAt, MAX_NESTING,
};
use crate::lex::string::{
    opens_string, parse_string_into, plain_double_quoted, plain_end, plain_is_text, plain_key, string_text, string_text_facts,
};
use crate::lex::ws::{skip_trivia, trivia_end};
use crate::lex::{key_text, key_text_end, read_key_into};
use crate::number::{is_number, spells_number, Num, Number};
use crate::text::{bytes_of, names_of, same_bytes, text_bytes, text_copy};
use crate::value::{json, json_array, json_object, jsons, members_json, span_bytes, ByteRange, Json, Value};
use crate::walk::marks::{BatchModel, ColumnCell};

verus! {

/// One value of an arena.
#[derive(Clone, Copy, Debug, PartialEq, Eq, Structural)]
pub enum Node {
    /// `null`.
    Null,
    /// `true` or `false`.
    Bool(bool),
    /// A number; the payload spells it.
    Number {
        /// Payload start.
        off: u32,
        /// Payload length.
        len: u32,
    },
    /// A number without a finite value.
    NonFinite {
        /// Payload start.
        off: u32,
        /// Payload length.
        len: u32,
        /// Which one.
        value: NonFinite,
    },
    /// A string, or a member's key.
    Str {
        /// Payload start.
        off: u32,
        /// Payload length.
        len: u32,
    },
    /// An array: `len` edges from `edge`.
    Array {
        /// First edge.
        edge: u32,
        /// Elements.
        len: u32,
    },
    /// An object: `len` key and value edge pairs from `edge`.
    Object {
        /// First edge.
        edge: u32,
        /// Members.
        len: u32,
    },
}

/// Where payloads go.
pub enum Keep {
    /// Every payload is copied.
    Copied,
    /// A payload that the source spells stays there; the span being read starts
    /// at this offset.
    Sliced(int),
    /// No payload is placed and nothing overflows.
    Unbounded,
}

/// How a span is read.
pub struct BuildCtx {
    /// Grammar.
    pub dialect: Dialect,
    /// Payload strategy.
    pub keep: Keep,
}

/// How full the arenas are.
pub struct Room {
    /// Nodes.
    pub nodes: int,
    /// Edges.
    pub edges: int,
    /// Payload bytes.
    pub data: int,
}

/// The refusal of a payload strategy that ran out of 32-bit ids.
pub open spec fn full(keep: Keep) -> Error {
    match keep {
        Keep::Sliced(_) => at(ErrorKind::BorrowedCapacity, 0),
        _ => at(ErrorKind::TapeCapacity, 0),
    }
}

/// Room after one more node.
pub open spec fn with_node(room: Room, keep: Keep) -> Result<Room, Error> {
    if keep is Unbounded {
        Ok(room)
    } else if room.nodes > u32::MAX {
        Err(full(keep))
    } else {
        Ok(Room { nodes: room.nodes + 1, ..room })
    }
}

/// Room after `n` more edges.
pub open spec fn with_edges(room: Room, keep: Keep, n: int) -> Result<Room, Error> {
    if keep is Unbounded {
        Ok(room)
    } else if room.edges > u32::MAX {
        Err(full(keep))
    } else {
        Ok(Room { edges: room.edges + n, ..room })
    }
}

/// Room after a payload of `len` bytes; `source` is where the span spells it.
pub open spec fn with_text(room: Room, keep: Keep, len: int, source: Option<int>) -> Result<Room, Error> {
    match (keep, source) {
        (Keep::Unbounded, _) => Ok(room),
        (Keep::Sliced(base), Some(pos)) => if base + pos > u32::MAX || len > u32::MAX {
            Err(full(keep))
        } else {
            Ok(room)
        },
        _ => if room.data + len > u32::MAX {
            Err(full(keep))
        } else {
            Ok(Room { data: room.data + len, ..room })
        },
    }
}

/// Room after a payload and its node.
pub open spec fn with_payload(room: Room, keep: Keep, len: int, source: Option<int>) -> Result<Room, Error> {
    match with_text(room, keep, len, source) {
        Err(error) => Err(error),
        Ok(next) => with_node(next, keep),
    }
}

/// A value read, with the room left after it.
pub open spec fn placed_value(end: int, j: Json, room: Result<Room, Error>) -> Result<(int, Json, Room), Error> {
    match room {
        Err(error) => Err(error),
        Ok(next) => Ok((end, j, next)),
    }
}

/// The number at `pos`: where it ends, what it is stored as, and whether the
/// span spells that.
pub open spec fn number_at(b: Seq<u8>, pos: int, dialect: Dialect) -> Result<(int, Seq<u8>, bool), Error> {
    match number_end(b, pos, dialect) {
        Err(error) => Err(error),
        Ok(e) => {
            let raw = b.subrange(pos, e);
            if dialect == Dialect::Json5 && !integer_at(b, pos, dialect) {
                Ok((e, normalized(raw), false))
            } else {
                Ok((e, raw, true))
            }
        },
    }
}

/// The number a stored spelling stands for; `copied` spellings may have no
/// finite value.
pub open spec fn number_of(text: Seq<u8>, kept: bool) -> Option<Num> {
    if !kept && non_finite_of(text) is Some {
        Some(Num::NonFinite(non_finite_of(text)->0))
    } else if is_number(text) {
        Some(Num::Finite(text))
    } else {
        None
    }
}

/// Where the span spells the string or key at `pos`; none when it was decoded.
pub open spec fn spelled_at(b: Seq<u8>, pos: int, dialect: Dialect) -> Option<int> {
    if plain_end(b, pos) is Some {
        Some(pos + 1)
    } else if pos < b.len() && opens_string(b[pos], dialect) {
        None
    } else {
        Some(pos)
    }
}

/// The value at `pos` that is no container.
#[verifier::opaque]
pub open spec fn built_scalar(b: Seq<u8>, pos: int, ctx: BuildCtx, room: Room) -> Result<(int, Json, Room), Error> {
    if pos >= b.len() {
        Err(at(ErrorKind::ExpectedValue, pos))
    } else if opens_string(b[pos], ctx.dialect) {
        match string_text(b, pos, ctx.dialect) {
            Err(error) => Err(error),
            Ok((e, text)) => placed_value(
                e,
                Json::Str(text),
                with_payload(room, ctx.keep, text.len() as int, spelled_at(b, pos, ctx.dialect)),
            ),
        }
    } else if starts_number(b[pos], ctx.dialect) {
        match number_at(b, pos, ctx.dialect) {
            Err(error) => Err(error),
            Ok((e, text, kept)) => match number_of(text, kept) {
                None => Err(at(ErrorKind::InvalidNumber, pos)),
                Some(n) => placed_value(
                    e,
                    Json::Number(n),
                    with_payload(
                        room,
                        ctx.keep,
                        text.len() as int,
                        if kept {
                            Some(pos)
                        } else {
                            None
                        },
                    ),
                ),
            },
        }
    } else if starts_literal(b[pos]) {
        match spelling_end(b, pos, literal_text(b[pos]), ctx.dialect) {
            Err(error) => Err(error),
            Ok(e) => placed_value(
                e,
                if b[pos] == 0x6e {
                    Json::Null
                } else {
                    Json::Bool(b[pos] == 0x74)
                },
                with_node(room, ctx.keep),
            ),
        }
    } else {
        Err(at(ErrorKind::ExpectedValue, pos))
    }
}

/// The value at `pos`: where it ends, what it is, and the room left.
pub open spec fn built(b: Seq<u8>, pos: int, ctx: BuildCtx, room: Room, depth: int) -> Result<(int, Json, Room), Error>
    decreases b.len() - pos, 0nat,
{
    if pos < b.len() && (b[pos] == LBRACKET || b[pos] == LBRACE) {
        if depth >= MAX_NESTING {
            Err(at(ErrorKind::Limit, pos))
        } else {
            match with_node(room, ctx.keep) {
                Err(error) => Err(error),
                Ok(opened) => if b[pos] == LBRACKET {
                    match built_items(b, pos + 1, ctx, opened, depth + 1, Seq::empty()) {
                        Err(error) => Err(error),
                        Ok((e, items, left)) => placed_value(
                            e,
                            Json::Array(items),
                            with_edges(left, ctx.keep, items.len() as int),
                        ),
                    }
                } else {
                    match built_members(b, pos + 1, ctx, opened, depth + 1, Seq::empty()) {
                        Err(error) => Err(error),
                        Ok((e, members, left)) => placed_value(
                            e,
                            Json::Object(members),
                            with_edges(left, ctx.keep, 2 * members.len() as int),
                        ),
                    }
                },
            }
        }
    } else {
        built_scalar(b, pos, ctx, room)
    }
}

/// The elements of an array from `pos` to its closer, after `done`.
pub open spec fn built_items(b: Seq<u8>, pos: int, ctx: BuildCtx, room: Room, depth: int, done: Seq<Json>) -> Result<
    (int, Seq<Json>, Room),
    Error,
>
    decreases b.len() - pos, 1nat,
{
    match next_at(b, pos, ctx.dialect, RBRACKET, done.len() == 0) {
        Err(error) => Err(error),
        Ok(NextAt::Close(e)) => Ok((e, done, room)),
        Ok(NextAt::Item(p)) => if pos <= p <= b.len() {
            match built(b, p, ctx, room, depth) {
                Err(error) => Err(error),
                Ok((e, item, left)) => if p < e <= b.len() {
                    built_items(b, e, ctx, left, depth, done.push(item))
                } else {
                    Ok((e, done, left))
                },
            }
        } else {
            Ok((p, done, room))
        },
    }
}

/// The key of the member at `p` and where its value is.
#[verifier::opaque]
pub open spec fn built_key(b: Seq<u8>, p: int, ctx: BuildCtx, room: Room) -> Result<(int, Seq<u8>, Room), Error> {
    match key_text(b, p, ctx.dialect) {
        Err(error) => Err(error),
        Ok((ke, key)) => match with_payload(room, ctx.keep, key.len() as int, spelled_at(b, p, ctx.dialect)) {
            Err(error) => Err(error),
            Ok(left) => match after_colon(b, ke, ctx.dialect) {
                Err(error) => Err(error),
                Ok(v) => Ok((v, key, left)),
            },
        },
    }
}

/// The first member with a key; past the end when there is none.
pub open spec fn key_position(members: Seq<(Seq<u8>, Json)>, key: Seq<u8>, i: int) -> int
    decreases members.len() - i,
{
    if i >= members.len() || members[i].0 == key {
        i
    } else {
        key_position(members, key, i + 1)
    }
}

/// Members with one more: a repeated key keeps its place and takes the later
/// value.
pub open spec fn merged(members: Seq<(Seq<u8>, Json)>, key: Seq<u8>, value: Json) -> Seq<(Seq<u8>, Json)> {
    let i = key_position(members, key, 0);
    if i < members.len() {
        members.update(i, (key, value))
    } else {
        members.push((key, value))
    }
}

/// The members of an object from `pos` to its closer, after `done`.
pub open spec fn built_members(
    b: Seq<u8>,
    pos: int,
    ctx: BuildCtx,
    room: Room,
    depth: int,
    done: Seq<(Seq<u8>, Json)>,
) -> Result<(int, Seq<(Seq<u8>, Json)>, Room), Error>
    decreases b.len() - pos, 1nat,
{
    match next_at(b, pos, ctx.dialect, RBRACE, done.len() == 0) {
        Err(error) => Err(error),
        Ok(NextAt::Close(e)) => Ok((e, done, room)),
        Ok(NextAt::Item(p)) => match built_key(b, p, ctx, room) {
            Err(error) => Err(error),
            Ok((v, key, keyed)) => if pos < v <= b.len() {
                match built(b, v, ctx, keyed, depth) {
                    Err(error) => Err(error),
                    Ok((e, value, left)) => if v < e <= b.len() {
                        built_members(b, e, ctx, left, depth, merged(done, key, value))
                    } else {
                        Ok((e, done, left))
                    },
                }
            } else {
                Ok((v, done, keyed))
            },
        },
    }
}

/// The one value of a text.
#[verifier::opaque]
pub open spec fn built_text(b: Seq<u8>, ctx: BuildCtx, room: Room) -> Result<(Json, Room), Error> {
    match trivia_end(b, 0, ctx.dialect) {
        Err(error) => Err(error),
        Ok(pos) => match built(b, pos, ctx, room, 0) {
            Err(error) => Err(error),
            Ok((end, j, left)) => match trivia_end(b, end, ctx.dialect) {
                Err(error) => Err(error),
                Ok(tail) => if tail < b.len() {
                    Err(at(ErrorKind::TrailingContent, tail))
                } else {
                    Ok((j, left))
                },
            },
        },
    }
}

/// A payload strategy whose span starts at `base`.
pub open spec fn keep_at(slices: bool, base: int) -> Keep {
    if slices {
        Keep::Sliced(base)
    } else {
        Keep::Copied
    }
}

/// A refusal inside a span that starts at `base`.
pub open spec fn shifted(error: Error, base: int) -> Error {
    at(error.kind, base + error.offset)
}

/// The value in a span of `src`; refusals are told in source coordinates.
pub open spec fn built_span(src: Seq<u8>, span: ByteRange, dialect: Dialect, slices: bool, room: Room) -> Result<
    (Json, Room),
    Error,
> {
    let ctx = BuildCtx { dialect, keep: keep_at(slices, span.start as int) };
    match built_text(span_bytes(src, span), ctx, room) {
        Err(error) => Err(shifted(error, span.start as int)),
        Ok(read) => Ok(read),
    }
}

/// One cell of a batch.
pub open spec fn built_cell(src: Seq<u8>, cell: ColumnCell, dialect: Dialect, slices: bool, room: Room) -> Result<
    (Json, Room),
    Error,
> {
    match cell {
        ColumnCell::Span(span) => built_span(src, span, dialect, slices, room),
        ColumnCell::Absent => match with_node(room, keep_at(slices, 0)) {
            Err(error) => Err(error),
            Ok(left) => Ok((Json::Null, left)),
        },
    }
}

/// Columns of a batch; a batch without fields has one.
pub open spec fn width_of(batch: BatchModel) -> int {
    if batch.fields.len() == 0 {
        1
    } else {
        batch.fields.len() as int
    }
}

/// The first `n` cells of a batch of bare values.
pub open spec fn built_cells(src: Seq<u8>, cells: Seq<ColumnCell>, n: nat, dialect: Dialect, slices: bool, room: Room) -> Result<
    (Seq<Json>, Room),
    Error,
>
    decreases n,
{
    if n == 0 {
        Ok((Seq::empty(), room))
    } else {
        match built_cells(src, cells, (n - 1) as nat, dialect, slices, room) {
            Err(error) => Err(error),
            Ok((done, left)) => match built_cell(src, cells[n - 1], dialect, slices, left) {
                Err(error) => Err(error),
                Ok((j, rest)) => Ok((done.push(j), rest)),
            },
        }
    }
}

/// The first `n` fields of the row whose cells start at `from`; an absent field
/// is no member.
pub open spec fn built_row(
    src: Seq<u8>,
    batch: BatchModel,
    from: int,
    n: nat,
    dialect: Dialect,
    slices: bool,
    room: Room,
) -> Result<(Seq<(Seq<u8>, Json)>, Room), Error>
    decreases n,
{
    if n == 0 {
        Ok((Seq::empty(), room))
    } else {
        match built_row(src, batch, from, (n - 1) as nat, dialect, slices, room) {
            Err(error) => Err(error),
            Ok((done, left)) => {
                let cell = batch.cells[from + n - 1];
                let name = batch.fields[n - 1];
                if cell is Absent {
                    Ok((done, left))
                } else {
                    match with_payload(left, keep_at(slices, 0), name.len() as int, None) {
                        Err(error) => Err(error),
                        Ok(keyed) => match built_cell(src, cell, dialect, slices, keyed) {
                            Err(error) => Err(error),
                            Ok((j, rest)) => Ok((done.push((name, j)), rest)),
                        },
                    }
                }
            },
        }
    }
}

/// The first `n` rows of a batch.
pub open spec fn built_rows(src: Seq<u8>, batch: BatchModel, n: nat, dialect: Dialect, slices: bool, room: Room) -> Result<
    (Seq<Json>, Room),
    Error,
>
    decreases n,
{
    if n == 0 {
        Ok((Seq::empty(), room))
    } else {
        match built_rows(src, batch, (n - 1) as nat, dialect, slices, room) {
            Err(error) => Err(error),
            Ok((done, left)) => match with_node(left, keep_at(slices, 0)) {
                Err(error) => Err(error),
                Ok(opened) => match built_row(
                    src,
                    batch,
                    (n - 1) * width_of(batch),
                    batch.fields.len(),
                    dialect,
                    slices,
                    opened,
                ) {
                    Err(error) => Err(error),
                    Ok((members, filled)) => match with_edges(filled, keep_at(slices, 0), 2 * members.len() as int) {
                        Err(error) => Err(error),
                        Ok(rest) => Ok((done.push(Json::Object(members)), rest)),
                    },
                },
            },
        }
    }
}

/// Whether a batch holds bare values: one column named `$`.
pub open spec fn bare(batch: BatchModel) -> bool {
    batch.fields.len() == 1 && batch.fields[0] == seq![0x24u8]
}

/// A batch as an array: of its values, or of one object per row.
pub open spec fn built_columns(src: Seq<u8>, batch: BatchModel, dialect: Dialect, slices: bool, room: Room) -> Result<
    (Json, Room),
    Error,
> {
    let rows = (batch.cells.len() as int / width_of(batch)) as nat;
    match with_node(room, keep_at(slices, 0)) {
        Err(error) => Err(error),
        Ok(opened) => match (if bare(batch) {
            built_cells(src, batch.cells, rows, dialect, slices, opened)
        } else {
            built_rows(src, batch, rows, dialect, slices, opened)
        }) {
            Err(error) => Err(error),
            Ok((items, filled)) => match with_edges(filled, keep_at(slices, 0), items.len() as int) {
                Err(error) => Err(error),
                Ok(left) => Ok((Json::Array(items), left)),
            },
        },
    }
}

/// The payload at `off`.
pub open spec fn payload_at(buf: Seq<u8>, off: u32, len: u32) -> Seq<u8> {
    buf.subrange(off as int, off + len)
}

/// The key a node holds.
pub open spec fn key_of(nodes: Seq<Node>, buf: Seq<u8>, id: int) -> Seq<u8> {
    match nodes[id] {
        Node::Str { off, len } => payload_at(buf, off, len),
        _ => Seq::empty(),
    }
}

/// The value node `id` is the root of. Children come after their parents.
pub open spec fn tree(nodes: Seq<Node>, edges: Seq<u32>, buf: Seq<u8>, id: int) -> Json
    decreases nodes.len() - id,
{
    if !(0 <= id < nodes.len()) {
        Json::Null
    } else {
        match nodes[id] {
            Node::Null => Json::Null,
            Node::Bool(flag) => Json::Bool(flag),
            Node::Number { off, len } => Json::Number(Num::Finite(payload_at(buf, off, len))),
            Node::NonFinite { value, .. } => Json::Number(Num::NonFinite(value)),
            Node::Str { off, len } => Json::Str(payload_at(buf, off, len)),
            Node::Array { edge, len } => Json::Array(
                Seq::new(
                    len as nat,
                    |i: int|
                        if id < edges[edge + i] < nodes.len() {
                            tree(nodes, edges, buf, edges[edge + i] as int)
                        } else {
                            Json::Null
                        },
                ),
            ),
            Node::Object { edge, len } => Json::Object(
                Seq::new(
                    len as nat,
                    |i: int|
                        if id < edges[edge + 2 * i + 1] < nodes.len() {
                            (
                                key_of(nodes, buf, edges[edge + 2 * i] as int),
                                tree(nodes, edges, buf, edges[edge + 2 * i + 1] as int),
                            )
                        } else {
                            (Seq::empty(), Json::Null)
                        },
                ),
            ),
        }
    }
}

/// Whether a payload lies on one side of `split`.
pub open spec fn placed_in(off: u32, len: u32, buf: Seq<u8>, split: int) -> bool {
    &&& off + len <= buf.len()
    &&& off + len <= split || split <= off
}

/// Whether a node is one the builder makes.
pub open spec fn node_sound(nodes: Seq<Node>, edges: Seq<u32>, buf: Seq<u8>, split: int, k: int) -> bool {
    match nodes[k] {
        Node::Null | Node::Bool(_) => true,
        Node::Number { off, len } => placed_in(off, len, buf, split) && is_number(payload_at(buf, off, len)),
        Node::NonFinite { off, len, .. } => placed_in(off, len, buf, split),
        Node::Str { off, len } => placed_in(off, len, buf, split) && valid_utf8(payload_at(buf, off, len)),
        Node::Array { edge, len } => {
            &&& edge + len <= edges.len()
            &&& forall|i: int| edge <= i < edge + len ==> k < #[trigger] edges[i] < nodes.len()
        },
        Node::Object { edge, len } => {
            &&& edge + 2 * len <= edges.len()
            &&& forall|i: int| edge <= i < edge + 2 * len ==> k < #[trigger] edges[i] < nodes.len()
            &&& forall|i: int| 0 <= i < len ==> nodes[#[trigger] edges[edge + 2 * i] as int] is Str
        },
    }
}

/// Whether arenas are what the builder makes: every payload and edge is in
/// bounds and every child comes after its parent.
pub open spec fn sound(nodes: Seq<Node>, edges: Seq<u32>, buf: Seq<u8>, split: int) -> bool {
    forall|k: int| 0 <= k < nodes.len() ==> #[trigger] node_sound(nodes, edges, buf, split, k)
}

/// Whether arenas grew from `id` on without a change.
pub open spec fn grown<T>(before: Seq<T>, after: Seq<T>, from: int) -> bool {
    &&& before.len() <= after.len()
    &&& forall|k: int| from <= k < before.len() ==> after[k] == #[trigger] before[k]
}

/// Growth keeps every value that was already there.
pub proof fn tree_grown(
    nodes: Seq<Node>,
    edges: Seq<u32>,
    buf: Seq<u8>,
    split: int,
    nodes2: Seq<Node>,
    edges2: Seq<u32>,
    buf2: Seq<u8>,
    id: int,
)
    requires
        sound(nodes, edges, buf, split),
        0 <= id < nodes.len(),
        grown(nodes, nodes2, id),
        grown(edges, edges2, 0),
        grown(buf, buf2, 0),
    ensures
        tree(nodes2, edges2, buf2, id) == tree(nodes, edges, buf, id),
        nodes2[id] == nodes[id],
        key_of(nodes2, buf2, id) == key_of(nodes, buf, id),
    decreases nodes.len() - id,
{
    assert(node_sound(nodes, edges, buf, split, id));
    match nodes[id] {
        Node::Number { off, len } | Node::Str { off, len } => {
            assert(payload_at(buf2, off, len) =~= payload_at(buf, off, len));
        },
        Node::Array { edge, len } => {
            let a = tree(nodes, edges, buf, id)->Array_0;
            let c = tree(nodes2, edges2, buf2, id)->Array_0;
            assert forall|i: int| 0 <= i < len implies a[i] == c[i] by {
                let child = edges[edge + i];
                assert(edges2[edge + i] == child);
                tree_grown(nodes, edges, buf, split, nodes2, edges2, buf2, child as int);
            }
            assert(a =~= c);
        },
        Node::Object { edge, len } => {
            let a = tree(nodes, edges, buf, id)->Object_0;
            let c = tree(nodes2, edges2, buf2, id)->Object_0;
            assert forall|i: int| 0 <= i < len implies a[i] == c[i] by {
                let key = edges[edge + 2 * i];
                let value = edges[edge + 2 * i + 1];
                assert(edges2[edge + 2 * i] == key);
                assert(edges2[edge + 2 * i + 1] == value);
                tree_grown(nodes, edges, buf, split, nodes2, edges2, buf2, key as int);
                tree_grown(nodes, edges, buf, split, nodes2, edges2, buf2, value as int);
            }
            assert(a =~= c);
        },
        _ => {},
    }
}

/// Growth keeps every node sound.
proof fn sound_grown(
    nodes: Seq<Node>,
    edges: Seq<u32>,
    buf: Seq<u8>,
    split: int,
    nodes2: Seq<Node>,
    edges2: Seq<u32>,
    buf2: Seq<u8>,
)
    requires
        sound(nodes, edges, buf, split),
        grown(nodes, nodes2, 0),
        grown(edges, edges2, 0),
        grown(buf, buf2, 0),
    ensures
        forall|k: int| 0 <= k < nodes.len() ==> #[trigger] node_sound(nodes2, edges2, buf2, split, k),
{
    assert forall|k: int| 0 <= k < nodes.len() implies #[trigger] node_sound(nodes2, edges2, buf2, split, k) by {
        node_grown(nodes, edges, buf, split, nodes2, edges2, buf2, k);
    }
}

/// A node stays sound while the nodes it refers to stay.
proof fn node_grown(
    nodes: Seq<Node>,
    edges: Seq<u32>,
    buf: Seq<u8>,
    split: int,
    nodes2: Seq<Node>,
    edges2: Seq<u32>,
    buf2: Seq<u8>,
    k: int,
)
    requires
        0 <= k < nodes.len() <= nodes2.len(),
        node_sound(nodes, edges, buf, split, k),
        nodes2[k] == nodes[k],
        forall|i: int| 0 <= i < nodes.len() && (#[trigger] nodes[i]) is Str ==> nodes2[i] == nodes[i],
        grown(edges, edges2, 0),
        grown(buf, buf2, 0),
    ensures
        node_sound(nodes2, edges2, buf2, split, k),
{
    match nodes[k] {
        Node::Number { off, len } | Node::Str { off, len } => {
            assert(payload_at(buf2, off, len) =~= payload_at(buf, off, len));
        },
        Node::Array { edge, len } => {
            assert forall|i: int| edge <= i < edge + len implies k < #[trigger] edges2[i] < nodes2.len() by {
                assert(edges2[i] == edges[i]);
            }
        },
        Node::Object { edge, len } => {
            assert forall|i: int| edge <= i < edge + 2 * len implies k < #[trigger] edges2[i] < nodes2.len() by {
                assert(edges2[i] == edges[i]);
            }
            assert forall|i: int| 0 <= i < len implies nodes2[#[trigger] edges2[edge + 2 * i] as int] is Str by {
                assert(edges2[edge + 2 * i] == edges[edge + 2 * i]);
                assert(nodes[edges[edge + 2 * i] as int] is Str);
            }
        },
        _ => {},
    }
}

/// The payload at `off` in `kept` and `extra` together.
fn payload_slice<'x>(kept: &'x [u8], extra: &'x [u8], off: u32, len: u32) -> (r: &'x [u8])
    requires
        placed_in(off, len, kept@ + extra@, kept@.len() as int),
    ensures
        r@ == payload_at(kept@ + extra@, off, len),
{
    let start: usize = off as usize;
    let size: usize = len as usize;
    let split: usize = kept.len();
    if start <= split && size <= split - start {
        let r = vstd::slice::slice_subrange(kept, start, start + size);
        proof {
            assert(r@ =~= payload_at(kept@ + extra@, off, len));
        }
        r
    } else {
        let spilled: usize = extra.len();
        proof {
            assert(start - split + size <= spilled);
        }
        let r = vstd::slice::slice_subrange(extra, start - split, start - split + size);
        proof {
            assert(r@ =~= payload_at(kept@ + extra@, off, len));
        }
        r
    }
}

/// Shared arena builder over one payload strategy.
pub(crate) struct Builder<'a> {
    src: &'a [u8],
    kept: &'a [u8],
    extra: Vec<u8>,
    nodes: Vec<Node>,
    edges: Vec<u32>,
    dialect: Dialect,
    slices: bool,
    base: usize,
    text: &'a [u8],
}

impl<'a> Builder<'a> {
    pub(crate) closed spec fn buf(self) -> Seq<u8> {
        self.kept@ + self.extra@
    }

    pub(crate) closed spec fn room(self) -> Room {
        Room {
            nodes: self.nodes@.len() as int,
            edges: self.edges@.len() as int,
            data: (self.kept@ + self.extra@).len() as int,
        }
    }

    spec fn ctx(self) -> BuildCtx {
        BuildCtx { dialect: self.dialect, keep: keep_at(self.slices, self.base as int) }
    }

    pub(crate) closed spec fn wf(self) -> bool {
        &&& sound(self.nodes@, self.edges@, self.buf(), self.kept@.len() as int)
        &&& self.nodes@.len() <= u32::MAX + 1
        &&& self.slices ==> self.kept@ == self.src@
        &&& !self.slices ==> self.kept@.len() == 0
        &&& self.slices && self.text@.len() > 0 ==> {
            &&& self.base + self.text@.len() <= self.src@.len()
            &&& self.text@ == self.src@.subrange(self.base as int, self.base + self.text@.len())
        }
    }

    pub(crate) closed spec fn value(self, id: int) -> Json {
        tree(self.nodes@, self.edges@, self.buf(), id)
    }

    /// The same build, later: nothing that was there changed.
    spec fn grew(self, before: Self) -> bool {
        &&& self.reached(before)
        &&& self.same_input(before)
    }

    /// The same build, later, maybe in another span.
    pub(crate) closed spec fn reached(self, before: Self) -> bool {
        &&& grown(before.nodes@, self.nodes@, 0)
        &&& grown(before.edges@, self.edges@, 0)
        &&& grown(before.extra@, self.extra@, 0)
        &&& self.src == before.src
        &&& self.kept == before.kept
        &&& self.dialect == before.dialect
        &&& self.slices == before.slices
    }

    spec fn same_input(self, before: Self) -> bool {
        &&& self.src == before.src
        &&& self.kept == before.kept
        &&& self.dialect == before.dialect
        &&& self.slices == before.slices
        &&& self.base == before.base
        &&& self.text == before.text
    }

    spec fn kids(self, ids: Seq<u32>) -> Seq<Json> {
        Seq::new(ids.len(), |i: int| self.value(ids[i] as int))
    }

    spec fn pairs(self, ids: Seq<(u32, u32)>) -> Seq<(Seq<u8>, Json)> {
        Seq::new(
            ids.len(),
            |i: int| (key_of(self.nodes@, self.buf(), ids[i].0 as int), self.value(ids[i].1 as int)),
        )
    }

    proof fn grew_keeps(before: Self, after: Self, id: int)
        requires
            before.wf(),
            after.reached(before),
            0 <= id < before.nodes@.len(),
        ensures
            after.value(id) == before.value(id),
            after.nodes@[id] == before.nodes@[id],
            key_of(after.nodes@, after.buf(), id) == key_of(before.nodes@, before.buf(), id),
    {
        tree_grown(
            before.nodes@,
            before.edges@,
            before.buf(),
            before.kept@.len() as int,
            after.nodes@,
            after.edges@,
            after.buf(),
            id,
        );
    }

    proof fn grew_keeps_kids(before: Self, after: Self, ids: Seq<u32>)
        requires
            before.wf(),
            after.reached(before),
            forall|i: int| 0 <= i < ids.len() ==> #[trigger] ids[i] < before.nodes@.len(),
        ensures
            after.kids(ids) == before.kids(ids),
    {
        assert forall|i: int| 0 <= i < ids.len() implies after.kids(ids)[i] == before.kids(ids)[i] by {
            Self::grew_keeps(before, after, ids[i] as int);
        }
        assert(after.kids(ids) =~= before.kids(ids));
    }

    proof fn grew_keeps_pairs(before: Self, after: Self, ids: Seq<(u32, u32)>)
        requires
            before.wf(),
            after.reached(before),
            forall|i: int| 0 <= i < ids.len() ==> (#[trigger] ids[i]).0 < before.nodes@.len() && ids[i].1 < before.nodes@.len(),
        ensures
            after.pairs(ids) == before.pairs(ids),
    {
        assert forall|i: int| 0 <= i < ids.len() implies after.pairs(ids)[i] == before.pairs(ids)[i] by {
            Self::grew_keeps(before, after, ids[i].0 as int);
            Self::grew_keeps(before, after, ids[i].1 as int);
        }
        assert(after.pairs(ids) =~= before.pairs(ids));
    }

    /// The refusal of this strategy when it runs out of 32-bit ids.
    fn overflow(&self) -> (r: Error)
        ensures
            r == full(self.ctx().keep),
    {
        if self.slices {
            Error::new(ErrorKind::BorrowedCapacity, 0)
        } else {
            Error::new(ErrorKind::TapeCapacity, 0)
        }
    }

    fn push(&mut self, node: Node) -> (r: Result<u32, Error>)
        requires
            old(self).wf(),
            node_sound(
                old(self).nodes@.push(node),
                old(self).edges@,
                old(self).buf(),
                old(self).kept@.len() as int,
                old(self).nodes@.len() as int,
            ),
        ensures
            match with_node(old(self).room(), old(self).ctx().keep) {
                Ok(room) => {
                    &&& r matches Ok(id) && id == old(self).nodes@.len()
                    &&& final(self).wf()
                    &&& final(self).grew(*old(self))
                    &&& final(self).room() == room
                    &&& final(self).nodes@ == old(self).nodes@.push(node)
                    &&& final(self).edges@ == old(self).edges@
                    &&& final(self).extra@ == old(self).extra@
                },
                Err(error) => r == Err::<u32, Error>(error),
            },
    {
        let id: usize = self.nodes.len();
        if id > u32::MAX as usize {
            return Err(self.overflow());
        }
        let ghost before = *self;
        self.nodes.push(node);
        proof {
            sound_grown(
                before.nodes@,
                before.edges@,
                before.buf(),
                before.kept@.len() as int,
                self.nodes@,
                self.edges@,
                self.buf(),
            );
        }
        Ok(id as u32)
    }

    /// Store a validated payload. `source` is where the span spells it, when it
    /// does.
    fn store(&mut self, bytes: &[u8], source: Option<usize>) -> (r: Result<(u32, u32), Error>)
        requires
            old(self).wf(),
            source matches Some(pos) ==> pos < old(self).text@.len() && pos + bytes@.len() <= old(self).text@.len() && bytes@
                == old(self).text@.subrange(pos as int, pos + bytes@.len()),
        ensures
            match with_text(
                old(self).room(),
                old(self).ctx().keep,
                bytes@.len() as int,
                match source {
                    Some(pos) => Some(pos as int),
                    None => None,
                },
            ) {
                Ok(room) => {
                    &&& r matches Ok((off, len)) && placed_in(off, len, final(self).buf(), final(self).kept@.len() as int)
                        && payload_at(final(self).buf(), off, len) == bytes@
                    &&& final(self).wf()
                    &&& final(self).grew(*old(self))
                    &&& final(self).room() == room
                    &&& final(self).nodes@ == old(self).nodes@
                    &&& final(self).edges@ == old(self).edges@
                },
                Err(error) => r == Err::<(u32, u32), Error>(error),
            },
    {
        let ghost before = *self;
        let size: usize = bytes.len();
        let most: usize = u32::MAX as usize;
        if self.slices {
            match source {
                Some(pos) => {
                    if pos > most || self.base > most - pos || size > most {
                        return Err(self.overflow());
                    }
                    let off: usize = self.base + pos;
                    proof {
                        assert(payload_at(self.buf(), off as u32, size as u32) =~= bytes@);
                    }
                    return Ok((off as u32, size as u32));
                },
                None => {},
            }
        }
        let split: usize = self.kept.len();
        let spilled: usize = self.extra.len();
        if split > most || spilled > most - split || size > most - split - spilled {
            return Err(self.overflow());
        }
        let off: usize = split + spilled;
        append(&mut self.extra, bytes);
        proof {
            sound_grown(
                before.nodes@,
                before.edges@,
                before.buf(),
                before.kept@.len() as int,
                self.nodes@,
                self.edges@,
                self.buf(),
            );
            assert(payload_at(self.buf(), off as u32, size as u32) =~= bytes@);
        }
        Ok((off as u32, size as u32))
    }
}


/// Whether a build step came out as named: where the value ends and which node
/// is its root.
spec fn builds_as<'a>(
    r: Result<(u32, usize), Error>,
    before: Builder<'a>,
    after: Builder<'a>,
    named: Result<(int, Json, Room), Error>,
) -> bool {
    match named {
        Ok((end, j, room)) => {
            &&& r is Ok
            &&& r->Ok_0.1 == end
            &&& after.wf()
            &&& after.grew(before)
            &&& after.room() == room
            &&& before.nodes@.len() <= r->Ok_0.0 < after.nodes@.len()
            &&& after.value(r->Ok_0.0 as int) == j
        },
        Err(error) => r == Err::<(u32, usize), Error>(error),
    }
}

impl<'a> Builder<'a> {
    /// Store a payload and push its string node. Keys and values share this.
    fn push_string(&mut self, bytes: &[u8], source: Option<usize>) -> (r: Result<u32, Error>)
        requires
            old(self).wf(),
            valid_utf8(bytes@),
            source matches Some(pos) ==> pos < old(self).text@.len() && pos + bytes@.len() <= old(self).text@.len() && bytes@
                == old(self).text@.subrange(pos as int, pos + bytes@.len()),
        ensures
            match with_payload(
                old(self).room(),
                old(self).ctx().keep,
                bytes@.len() as int,
                match source {
                    Some(pos) => Some(pos as int),
                    None => None,
                },
            ) {
                Ok(room) => {
                    &&& r matches Ok(id) && old(self).nodes@.len() == id && final(self).nodes@.len() == id + 1
                        && final(self).nodes@[id as int] is Str && key_of(final(self).nodes@, final(self).buf(), id as int)
                        == bytes@ && final(self).value(id as int) == Json::Str(bytes@)
                    &&& final(self).wf()
                    &&& final(self).grew(*old(self))
                    &&& final(self).room() == room
                },
                Err(error) => r == Err::<u32, Error>(error),
            },
    {
        let (off, len) = self.store(bytes, source)?;
        self.push(Node::Str { off, len })
    }

    /// A value that is no container.
    fn scalar(&mut self, pos: usize) -> (r: Result<(u32, usize), Error>)
        requires
            old(self).wf(),
            pos <= old(self).text@.len(),
        ensures
            builds_as(
                r,
                *old(self),
                *final(self),
                built_scalar(old(self).text@, pos as int, old(self).ctx(), old(self).room()),
            ),
            r matches Ok((id, e)) ==> pos < e <= old(self).text@.len(),
    {
        proof {
            reveal(built_scalar);
        }
        let text = self.text;
        if pos >= text.len() {
            return Err(Error::new(ErrorKind::ExpectedValue, pos));
        }
        let byte: u8 = text[pos];
        if byte == 0x6e || byte == 0x74 || byte == 0x66 {
            let end: usize = skip_scalar(text, pos, Check::Values, self.dialect)?;
            let node = if byte == 0x6e {
                Node::Null
            } else {
                Node::Bool(byte == 0x74)
            };
            let id: u32 = self.push(node)?;
            Ok((id, end))
        } else if byte == QUOTE || (byte == APOSTROPHE && self.dialect.json5()) {
            self.string(pos)
        } else if byte == MINUS || (ZERO <= byte && byte <= NINE) || (self.dialect.json5() && (byte == PLUS || byte == DOT
            || byte == 0x49 || byte == 0x4e)) {
            self.number(pos)
        } else {
            Err(Error::new(ErrorKind::ExpectedValue, pos))
        }
    }

    fn number(&mut self, pos: usize) -> (r: Result<(u32, usize), Error>)
        requires
            old(self).wf(),
            pos < old(self).text@.len(),
            starts_number(old(self).text@[pos as int], old(self).dialect),
            !opens_string(old(self).text@[pos as int], old(self).dialect),
        ensures
            builds_as(
                r,
                *old(self),
                *final(self),
                built_scalar(old(self).text@, pos as int, old(self).ctx(), old(self).room()),
            ),
            r matches Ok((id, e)) ==> pos < e <= old(self).text@.len(),
    {
        proof {
            reveal(built_scalar);
        }
        let text = self.text;
        let (end, integer) = match skip_rfc_integer(text, pos, self.dialect) {
            Some(end) => (end, true),
            None => (lex_number(text, pos, self.dialect)?, false),
        };
        let raw = vstd::slice::slice_subrange(text, pos, end);
        if self.dialect.json5() && !integer {
            self.respelled(pos, end)
        } else {
            if !spells_number(raw) {
                return Err(Error::new(ErrorKind::InvalidNumber, pos));
            }
            let (off, len) = self.store(raw, Some(pos))?;
            let id: u32 = self.push(Node::Number { off, len })?;
            Ok((id, end))
        }
    }

    /// A JSON5 number from `pos` to `end`, stored as the decimal it stands for.
    fn respelled(&mut self, pos: usize, end: usize) -> (r: Result<(u32, usize), Error>)
        requires
            old(self).wf(),
            pos < end <= old(self).text@.len(),
            starts_number(old(self).text@[pos as int], old(self).dialect),
            !opens_string(old(self).text@[pos as int], old(self).dialect),
            old(self).dialect == Dialect::Json5,
            !integer_at(old(self).text@, pos as int, old(self).dialect),
            number_end(old(self).text@, pos as int, old(self).dialect) == Ok::<int, Error>(end as int),
        ensures
            builds_as(
                r,
                *old(self),
                *final(self),
                built_scalar(old(self).text@, pos as int, old(self).ctx(), old(self).room()),
            ),
            r matches Ok((id, e)) ==> e == end,
    {
        proof {
            reveal(built_scalar);
        }
        let raw = vstd::slice::slice_subrange(self.text, pos, end);
        let mut copied: Vec<u8> = Vec::new();
        normalize_json5_into(raw, &mut copied);
        let ghost named = number_at(self.text@, pos as int, self.dialect);
        proof {
            assert(named == Ok::<(int, Seq<u8>, bool), Error>((end as int, copied@, false)));
        }
        let special = non_finite_value(copied.as_slice());
        if special.is_none() && !spells_number(copied.as_slice()) {
            return Err(Error::new(ErrorKind::InvalidNumber, pos));
        }
        let (off, len) = self.store(copied.as_slice(), None)?;
        let node = match special {
            Some(value) => Node::NonFinite { off, len, value },
            None => Node::Number { off, len },
        };
        let id: u32 = self.push(node)?;
        Ok((id, end))
    }

    fn string(&mut self, pos: usize) -> (r: Result<(u32, usize), Error>)
        requires
            old(self).wf(),
            pos < old(self).text@.len(),
            opens_string(old(self).text@[pos as int], old(self).dialect),
        ensures
            builds_as(
                r,
                *old(self),
                *final(self),
                built_scalar(old(self).text@, pos as int, old(self).ctx(), old(self).room()),
            ),
            r matches Ok((id, e)) ==> pos < e <= old(self).text@.len(),
    {
        proof {
            reveal(built_scalar);
            string_text_facts(self.text@, pos as int, self.dialect);
        }
        let text = self.text;
        match plain_double_quoted(text, pos) {
            Some(end) => {
                proof {
                    plain_is_text(text@, pos as int, self.dialect);
                }
                let id: u32 = self.push_string(vstd::slice::slice_subrange(text, pos + 1, end - 1), Some(pos + 1))?;
                Ok((id, end))
            },
            None => {
                let mut decoded: Vec<u8> = Vec::new();
                let end: usize = parse_string_into(text, pos, &mut decoded, self.dialect)?;
                let id: u32 = self.push_string(decoded.as_slice(), None)?;
                Ok((id, end))
            },
        }
    }

    /// A member's key: its node, and where the key ends.
    fn push_key(&mut self, pos: usize) -> (r: Result<(u32, usize), Error>)
        requires
            old(self).wf(),
            pos <= old(self).text@.len(),
        ensures
            match key_text(old(self).text@, pos as int, old(self).dialect) {
                Err(error) => r == Err::<(u32, usize), Error>(error),
                Ok((e, key)) => match with_payload(
                    old(self).room(),
                    old(self).ctx().keep,
                    key.len() as int,
                    spelled_at(old(self).text@, pos as int, old(self).dialect),
                ) {
                    Err(error) => r == Err::<(u32, usize), Error>(error),
                    Ok(room) => {
                        &&& r matches Ok((id, end)) && end == e && old(self).nodes@.len() == id && final(self).nodes@.len()
                            == id + 1 && final(self).nodes@[id as int] is Str && key_of(
                            final(self).nodes@,
                            final(self).buf(),
                            id as int,
                        ) == key
                        &&& final(self).wf()
                        &&& final(self).grew(*old(self))
                        &&& final(self).room() == room
                    },
                },
            },
            r matches Ok((id, e)) ==> pos < e <= old(self).text@.len(),
    {
        proof {
            key_text_end(self.text@, pos as int, self.dialect);
        }
        let text = self.text;
        match plain_key(text, pos) {
            Some(end) => {
                proof {
                    plain_is_text(text@, pos as int, self.dialect);
                }
                let id: u32 = self.push_string(vstd::slice::slice_subrange(text, pos + 1, end - 1), Some(pos + 1))?;
                Ok((id, end))
            },
            None => {
                let mut decoded: Vec<u8> = Vec::new();
                let end: usize = read_key_into(text, pos, &mut decoded, self.dialect)?;
                let quoted: bool = text[pos] == QUOTE || (text[pos] == APOSTROPHE && self.dialect.json5());
                let id: u32 = self.push_string(
                    decoded.as_slice(),
                    if quoted {
                        None
                    } else {
                        Some(pos)
                    },
                )?;
                Ok((id, end))
            },
        }
    }

    /// A member's key and colon: its node, and where the value is.
    fn key(&mut self, pos: usize) -> (r: Result<(u32, usize), Error>)
        requires
            old(self).wf(),
            pos <= old(self).text@.len(),
        ensures
            match built_key(old(self).text@, pos as int, old(self).ctx(), old(self).room()) {
                Ok((v, key, room)) => {
                    &&& r matches Ok((id, at)) && at == v && old(self).nodes@.len() == id && final(self).nodes@.len() == id + 1
                        && final(self).nodes@[id as int] is Str && key_of(final(self).nodes@, final(self).buf(), id as int) == key
                    &&& final(self).wf()
                    &&& final(self).grew(*old(self))
                    &&& final(self).room() == room
                },
                Err(error) => r == Err::<(u32, usize), Error>(error),
            },
            r matches Ok((id, v)) ==> pos < v <= old(self).text@.len(),
    {
        proof {
            reveal(built_key);
        }
        let (id, end) = self.push_key(pos)?;
        let v: usize = skip_colon(self.text, end, self.dialect)?;
        Ok((id, v))
    }
}


/// Member edges, key before value.
spec fn flat(ids: Seq<(u32, u32)>) -> Seq<u32> {
    Seq::new(
        2 * ids.len(),
        |k: int|
            if k % 2 == 0 {
                ids[k / 2].0
            } else {
                ids[k / 2].1
            },
    )
}

proof fn flat_push(ids: Seq<(u32, u32)>, pair: (u32, u32))
    ensures
        flat(ids.push(pair)) == flat(ids).push(pair.0).push(pair.1),
{
    assert forall|k: int| 0 <= k < 2 * (ids.len() + 1) implies flat(ids.push(pair))[k] == flat(ids).push(pair.0).push(
        pair.1,
    )[k] by {
        if k == 2 * ids.len() + 1 {
            assert(k / 2 == ids.len());
        }
    }
    assert(flat(ids.push(pair)) =~= flat(ids).push(pair.0).push(pair.1));
}

impl<'a> Builder<'a> {
    /// Close the container node `id` over the edges just appended.
    proof fn sealed(before: Self, after: Self, id: int, node: Node)
        requires
            before.wf(),
            0 <= id < before.nodes@.len(),
            !(before.nodes@[id] is Str),
            after.nodes@ == before.nodes@.update(id, node),
            grown(before.edges@, after.edges@, 0),
            after.extra@ == before.extra@,
            after.same_input(before),
            node_sound(after.nodes@, after.edges@, after.buf(), after.kept@.len() as int, id),
        ensures
            after.wf(),
            forall|k: int| id < k < before.nodes@.len() ==> #[trigger] after.value(k) == before.value(k),
            forall|k: int|
                id < k < before.nodes@.len() ==> #[trigger] key_of(after.nodes@, after.buf(), k) == key_of(
                    before.nodes@,
                    before.buf(),
                    k,
                ),
    {
        let split = before.kept@.len() as int;
        assert forall|k: int| 0 <= k < after.nodes@.len() implies #[trigger] node_sound(
            after.nodes@,
            after.edges@,
            after.buf(),
            split,
            k,
        ) by {
            if k != id {
                assert(node_sound(before.nodes@, before.edges@, before.buf(), split, k));
                node_grown(before.nodes@, before.edges@, before.buf(), split, after.nodes@, after.edges@, after.buf(), k);
            }
        }
        assert forall|k: int| id < k < before.nodes@.len() implies #[trigger] after.value(k) == before.value(k) && key_of(
            after.nodes@,
            after.buf(),
            k,
        ) == key_of(before.nodes@, before.buf(), k) by {
            tree_grown(
                before.nodes@,
                before.edges@,
                before.buf(),
                split,
                after.nodes@,
                after.edges@,
                after.buf(),
                k,
            );
        }
    }

    /// Close the array node `id` over `children`.
    fn seal_array(&mut self, id: u32, children: Vec<u32>) -> (r: Result<(), Error>)
        requires
            old(self).wf(),
            id < old(self).nodes@.len(),
            !(old(self).nodes@[id as int] is Str),
            forall|i: int| 0 <= i < children@.len() ==> id < #[trigger] children@[i] < old(self).nodes@.len(),
            children@.len() < old(self).nodes@.len() - id,
        ensures
            match with_edges(old(self).room(), old(self).ctx().keep, children@.len() as int) {
                Ok(room) => {
                    &&& r is Ok
                    &&& final(self).wf()
                    &&& final(self).room() == room
                    &&& final(self).same_input(*old(self))
                    &&& final(self).extra@ == old(self).extra@
                    &&& grown(old(self).edges@, final(self).edges@, 0)
                    &&& final(self).nodes@ == old(self).nodes@.update(id as int, final(self).nodes@[id as int])
                    &&& final(self).value(id as int) == Json::Array(old(self).kids(children@))
                },
                Err(error) => r == Err::<(), Error>(error),
            },
    {
        let ghost before = *self;
        let at_edge: usize = self.edges.len();
        if at_edge > u32::MAX as usize {
            return Err(self.overflow());
        }
        let mut i: usize = 0;
        proof {
            assert(before.edges@ + children@.take(0) =~= before.edges@);
        }
        while i < children.len()
            invariant
                i <= children@.len(),
                self.edges@ == before.edges@ + children@.take(i as int),
                self.nodes@ == before.nodes@,
                self.extra@ == before.extra@,
                self.same_input(before),
            decreases children@.len() - i,
        {
            self.edges.push(children[i]);
            proof {
                assert(before.edges@ + children@.take(i + 1) =~= (before.edges@ + children@.take(i as int)).push(
                    children@[i as int],
                ));
            }
            i += 1;
        }
        let node = Node::Array { edge: at_edge as u32, len: children.len() as u32 };
        self.nodes.set(id as usize, node);
        proof {
            assert(children@.take(i as int) =~= children@);
            assert forall|k: int| at_edge <= k < at_edge + children@.len() implies id < #[trigger] self.edges@[k]
                < self.nodes@.len() by {
                assert(self.edges@[k] == children@[k - at_edge]);
            }
            Self::sealed(before, *self, id as int, node);
            let items = self.value(id as int)->Array_0;
            assert forall|k: int| 0 <= k < children@.len() implies items[k] == before.kids(children@)[k] by {
                assert(self.edges@[at_edge + k] == children@[k]);
                assert(self.value(children@[k] as int) == before.value(children@[k] as int));
            }
            assert(items =~= before.kids(children@));
            assert(self.nodes@ =~= before.nodes@.update(id as int, self.nodes@[id as int]));
        }
        Ok(())
    }

    /// Close the object node `id` over `members`.
    fn seal_object(&mut self, id: u32, members: Vec<(u32, u32)>) -> (r: Result<(), Error>)
        requires
            old(self).wf(),
            id < old(self).nodes@.len(),
            !(old(self).nodes@[id as int] is Str),
            forall|i: int|
                0 <= i < members@.len() ==> id < (#[trigger] members@[i]).0 < old(self).nodes@.len() && id < members@[i].1
                    < old(self).nodes@.len() && old(self).nodes@[members@[i].0 as int] is Str,
            members@.len() < old(self).nodes@.len() - id,
        ensures
            match with_edges(old(self).room(), old(self).ctx().keep, 2 * members@.len() as int) {
                Ok(room) => {
                    &&& r is Ok
                    &&& final(self).wf()
                    &&& final(self).room() == room
                    &&& final(self).same_input(*old(self))
                    &&& final(self).extra@ == old(self).extra@
                    &&& grown(old(self).edges@, final(self).edges@, 0)
                    &&& final(self).nodes@ == old(self).nodes@.update(id as int, final(self).nodes@[id as int])
                    &&& final(self).value(id as int) == Json::Object(old(self).pairs(members@))
                },
                Err(error) => r == Err::<(), Error>(error),
            },
    {
        let ghost before = *self;
        let at_edge: usize = self.edges.len();
        if at_edge > u32::MAX as usize {
            return Err(self.overflow());
        }
        let mut i: usize = 0;
        proof {
            assert(before.edges@ + flat(members@.take(0)) =~= before.edges@);
        }
        while i < members.len()
            invariant
                i <= members@.len(),
                self.edges@ == before.edges@ + flat(members@.take(i as int)),
                self.nodes@ == before.nodes@,
                self.extra@ == before.extra@,
                self.same_input(before),
            decreases members@.len() - i,
        {
            let (key, value) = members[i];
            self.edges.push(key);
            self.edges.push(value);
            proof {
                assert(members@.take(i + 1) =~= members@.take(i as int).push(members@[i as int]));
                flat_push(members@.take(i as int), members@[i as int]);
                assert(self.edges@ =~= before.edges@ + flat(members@.take(i + 1)));
            }
            i += 1;
        }
        let node = Node::Object { edge: at_edge as u32, len: members.len() as u32 };
        self.nodes.set(id as usize, node);
        proof {
            assert(members@.take(i as int) =~= members@);
            assert forall|k: int| at_edge <= k < at_edge + 2 * members@.len() implies id < #[trigger] self.edges@[k]
                < self.nodes@.len() by {
                assert(self.edges@[k] == flat(members@)[k - at_edge]);
                let m = members@[(k - at_edge) / 2];
            }
            assert forall|k: int| 0 <= k < members@.len() implies self.nodes@[#[trigger] self.edges@[at_edge + 2 * k] as int] is Str by {
                assert(self.edges@[at_edge + 2 * k] == flat(members@)[2 * k]);
                assert((2 * k) / 2 == k);
                let m = members@[k];
            }
            Self::sealed(before, *self, id as int, node);
            let read = self.value(id as int)->Object_0;
            assert forall|k: int| 0 <= k < members@.len() implies read[k] == before.pairs(members@)[k] by {
                let m = members@[k];
                assert((2 * k) / 2 == k && (2 * k + 1) / 2 == k);
                assert(self.edges@[at_edge + 2 * k] == flat(members@)[2 * k]);
                assert(self.edges@[at_edge + 2 * k + 1] == flat(members@)[2 * k + 1]);
                assert(self.value(m.1 as int) == before.value(m.1 as int));
                assert(key_of(self.nodes@, self.buf(), m.0 as int) == key_of(before.nodes@, before.buf(), m.0 as int));
            }
            assert(read =~= before.pairs(members@));
            assert(self.nodes@ =~= before.nodes@.update(id as int, self.nodes@[id as int]));
        }
        Ok(())
    }

    /// The bytes of a key node.
    fn key_bytes(&self, id: u32) -> (r: &[u8])
        requires
            self.wf(),
            id < self.nodes@.len(),
            self.nodes@[id as int] is Str,
        ensures
            r@ == key_of(self.nodes@, self.buf(), id as int),
    {
        proof {
            assert(node_sound(self.nodes@, self.edges@, self.buf(), self.kept@.len() as int, id as int));
        }
        match self.nodes[id as usize] {
            Node::Str { off, len } => payload_slice(self.kept, self.extra.as_slice(), off, len),
            _ => self.kept,
        }
    }

    /// Member index whose stored key bytes equal `key_id`'s; past the end when
    /// there is none.
    fn find_member(&self, members: &Vec<(u32, u32)>, key_id: u32) -> (r: usize)
        requires
            self.wf(),
            key_id < self.nodes@.len(),
            self.nodes@[key_id as int] is Str,
            forall|i: int|
                0 <= i < members@.len() ==> (#[trigger] members@[i]).0 < self.nodes@.len()
                    && self.nodes@[members@[i].0 as int] is Str,
        ensures
            r <= members@.len(),
            r == key_position(self.pairs(members@), key_of(self.nodes@, self.buf(), key_id as int), 0),
    {
        let key = self.key_bytes(key_id);
        let mut i: usize = 0;
        while i < members.len()
            invariant
                i <= members@.len(),
                self.wf(),
                key@ == key_of(self.nodes@, self.buf(), key_id as int),
                forall|i: int|
                    0 <= i < members@.len() ==> (#[trigger] members@[i]).0 < self.nodes@.len()
                        && self.nodes@[members@[i].0 as int] is Str,
                key_position(self.pairs(members@), key@, 0) == key_position(self.pairs(members@), key@, i as int),
            decreases members@.len() - i,
        {
            let m = members[i];
            if same_bytes(self.key_bytes(m.0), key) {
                return i;
            }
            i += 1;
        }
        i
    }
}


impl<'a> Builder<'a> {
    /// A value whose first token byte is `pos` (already past trivia).
    fn present(&mut self, pos: usize, depth: u32) -> (r: Result<(u32, usize), Error>)
        requires
            old(self).wf(),
            pos <= old(self).text@.len(),
            depth <= MAX_NESTING,
        ensures
            builds_as(
                r,
                *old(self),
                *final(self),
                built(old(self).text@, pos as int, old(self).ctx(), old(self).room(), depth as int),
            ),
            r matches Ok((id, e)) ==> pos < e <= old(self).text@.len(),
        decreases old(self).text@.len() - pos, 0nat,
    {
        if pos < self.text.len() && self.text[pos] == LBRACKET {
            self.array(pos, depth)
        } else if pos < self.text.len() && self.text[pos] == LBRACE {
            self.object(pos, depth)
        } else {
            self.scalar(pos)
        }
    }

    fn array(&mut self, start: usize, depth: u32) -> (r: Result<(u32, usize), Error>)
        requires
            old(self).wf(),
            start < old(self).text@.len(),
            old(self).text@[start as int] == LBRACKET,
            depth <= MAX_NESTING,
        ensures
            builds_as(
                r,
                *old(self),
                *final(self),
                built(old(self).text@, start as int, old(self).ctx(), old(self).room(), depth as int),
            ),
            r matches Ok((id, e)) ==> start < e <= old(self).text@.len(),
        decreases old(self).text@.len() - start - 1, 1nat,
    {
        if depth >= MAX_NESTING {
            return Err(Error::new(ErrorKind::Limit, start));
        }
        let len: usize = self.text.len();
        let ghost before = *self;
        let id: u32 = self.push(Node::Array { edge: 0, len: 0 })?;
        let ghost opened = *self;
        let mut children: Vec<u32> = Vec::new();
        proof {
            assert(start < len);
        }
        let mut pos: usize = start + 1;
        let ghost whole = built_items(before.text@, pos as int, before.ctx(), self.room(), depth + 1, Seq::empty());
        proof {
            assert(self.kids(children@) =~= Seq::<Json>::empty());
        }
        loop
            invariant_except_break
                whole == built_items(
                    before.text@,
                    pos as int,
                    before.ctx(),
                    self.room(),
                    depth + 1,
                    self.kids(children@),
                ),
            invariant
                before == *old(self),
                self.wf(),
                self.grew(opened),
                opened.same_input(before),
                opened.nodes@.len() == id + 1,
                start < pos <= before.text@.len(),
                depth < MAX_NESTING,
                forall|i: int| 0 <= i < children@.len() ==> id < #[trigger] children@[i] < self.nodes@.len(),
                children@.len() < self.nodes@.len() - id,
                built(before.text@, start as int, before.ctx(), before.room(), depth as int) == (match whole {
                    Err(error) => Err(error),
                    Ok((e, items, left)) => placed_value(
                        e,
                        Json::Array(items),
                        with_edges(left, before.ctx().keep, items.len() as int),
                    ),
                }),
            ensures
                whole == Ok::<(int, Seq<Json>, Room), Error>((pos as int, self.kids(children@), self.room())),
            decreases before.text@.len() - pos,
        {
            proof {
                next_at_bounds(self.text@, pos as int, self.dialect, RBRACKET, children@.len() == 0);
            }
            match next_item(self.text, pos, self.dialect, RBRACKET, children.len() == 0)? {
                Next::Close(e) => {
                    pos = e;
                    break;
                },
                Next::Item(p) => {
                    let ghost prior = *self;
                    let (child, end) = self.present(p, depth + 1)?;
                    let ghost done = children@;
                    children.push(child);
                    proof {
                        Self::grew_keeps_kids(prior, *self, done);
                        assert(self.kids(children@) =~= prior.kids(done).push(self.value(child as int)));
                    }
                    pos = end;
                },
            }
        }
        let ghost prior = *self;
        self.seal_array(id, children)?;
        Ok((id, pos))
    }

    fn object(&mut self, start: usize, depth: u32) -> (r: Result<(u32, usize), Error>)
        requires
            old(self).wf(),
            start < old(self).text@.len(),
            old(self).text@[start as int] == LBRACE,
            depth <= MAX_NESTING,
        ensures
            builds_as(
                r,
                *old(self),
                *final(self),
                built(old(self).text@, start as int, old(self).ctx(), old(self).room(), depth as int),
            ),
            r matches Ok((id, e)) ==> start < e <= old(self).text@.len(),
        decreases old(self).text@.len() - start - 1, 1nat,
    {
        if depth >= MAX_NESTING {
            return Err(Error::new(ErrorKind::Limit, start));
        }
        let len: usize = self.text.len();
        let ghost before = *self;
        let id: u32 = self.push(Node::Object { edge: 0, len: 0 })?;
        let ghost opened = *self;
        let mut members: Vec<(u32, u32)> = Vec::new();
        proof {
            assert(start < len);
        }
        let mut pos: usize = start + 1;
        let ghost whole = built_members(before.text@, pos as int, before.ctx(), self.room(), depth + 1, Seq::empty());
        proof {
            assert(self.pairs(members@) =~= Seq::<(Seq<u8>, Json)>::empty());
        }
        loop
            invariant_except_break
                whole == built_members(
                    before.text@,
                    pos as int,
                    before.ctx(),
                    self.room(),
                    depth + 1,
                    self.pairs(members@),
                ),
            invariant
                before == *old(self),
                self.wf(),
                self.grew(opened),
                opened.same_input(before),
                opened.nodes@.len() == id + 1,
                start < pos <= before.text@.len(),
                depth < MAX_NESTING,
                forall|i: int|
                    0 <= i < members@.len() ==> id < (#[trigger] members@[i]).0 < self.nodes@.len() && id < members@[i].1
                        < self.nodes@.len() && self.nodes@[members@[i].0 as int] is Str,
                members@.len() < self.nodes@.len() - id,
                built(before.text@, start as int, before.ctx(), before.room(), depth as int) == (match whole {
                    Err(error) => Err(error),
                    Ok((e, read, left)) => placed_value(
                        e,
                        Json::Object(read),
                        with_edges(left, before.ctx().keep, 2 * read.len() as int),
                    ),
                }),
            ensures
                whole == Ok::<(int, Seq<(Seq<u8>, Json)>, Room), Error>((pos as int, self.pairs(members@), self.room())),
            decreases before.text@.len() - pos,
        {
            proof {
                next_at_bounds(self.text@, pos as int, self.dialect, RBRACE, members@.len() == 0);
            }
            match next_item(self.text, pos, self.dialect, RBRACE, members.len() == 0)? {
                Next::Close(e) => {
                    pos = e;
                    break;
                },
                Next::Item(p) => {
                    let ghost prior = *self;
                    let ghost done = members@;
                    let (key_id, v) = self.key(p)?;
                    let ghost keyed = *self;
                    let (value_id, end) = self.present(v, depth + 1)?;
                    proof {
                        Self::grew_keeps(keyed, *self, key_id as int);
                        assert forall|i: int| 0 <= i < done.len() implies self.nodes@[(#[trigger] done[i]).0 as int] is Str by {
                            assert(prior.nodes@[done[i].0 as int] is Str);
                        }
                        Self::grew_keeps_pairs(prior, *self, done);
                    }
                    let ghost key = key_of(self.nodes@, self.buf(), key_id as int);
                    let i: usize = self.find_member(&members, key_id);
                    if i < members.len() {
                        let stored: u32 = members[i].0;
                        members.set(i, (stored, value_id));
                        proof {
                            key_position_holds(self.pairs(done), key, 0);
                            assert(self.pairs(members@) =~= self.pairs(done).update(
                                i as int,
                                (key, self.value(value_id as int)),
                            ));
                        }
                    } else {
                        members.push((key_id, value_id));
                        proof {
                            assert(self.pairs(members@) =~= self.pairs(done).push((key, self.value(value_id as int))));
                        }
                    }
                    pos = end;
                },
            }
        }
        self.seal_object(id, members)?;
        Ok((id, pos))
    }
}

proof fn key_position_holds(members: Seq<(Seq<u8>, Json)>, key: Seq<u8>, i: int)
    requires
        0 <= i <= members.len(),
    ensures
        i <= key_position(members, key, i) <= members.len(),
        key_position(members, key, i) < members.len() ==> members[key_position(members, key, i)].0 == key,
        forall|k: int| i <= k < key_position(members, key, i) ==> (#[trigger] members[k]).0 != key,
    decreases members.len() - i,
{
    if i < members.len() && members[i].0 != key {
        key_position_holds(members, key, i + 1);
    }
}


/// Whether a build came out as named: which node is the root.
pub(crate) open spec fn roots_as<'a>(
    r: Result<u32, Error>,
    before: Builder<'a>,
    after: Builder<'a>,
    named: Result<(Json, Room), Error>,
) -> bool {
    match named {
        Ok((j, room)) => {
            &&& r is Ok
            &&& after.wf()
            &&& after.reached(before)
            &&& after.room() == room
            &&& after.slicing() == before.slicing()
            &&& before.count() <= r->Ok_0 < after.count()
            &&& after.value(r->Ok_0 as int) == j
        },
        Err(error) => r == Err::<u32, Error>(error),
    }
}

impl<'a> Builder<'a> {
    pub(crate) closed spec fn count(self) -> int {
        self.nodes@.len() as int
    }

    pub(crate) closed spec fn source(self) -> Seq<u8> {
        self.src@
    }

    pub(crate) closed spec fn grammar(self) -> Dialect {
        self.dialect
    }

    pub(crate) closed spec fn slicing(self) -> bool {
        self.slices
    }

    /// An empty build over `src`: payloads stay in the source when `slices`.
    pub(crate) fn new(src: &'a [u8], dialect: Dialect, slices: bool) -> (r: Self)
        ensures
            r.wf(),
            r.source() == src@,
            r.grammar() == dialect,
            r.slicing() == slices,
            r.count() == 0,
            r.room() == (Room {
                nodes: 0,
                edges: 0,
                data: if slices {
                    src@.len() as int
                } else {
                    0
                },
            }),
    {
        let nothing = vstd::slice::slice_subrange(src, 0, 0);
        let kept = if slices {
            src
        } else {
            nothing
        };
        Builder {
            src,
            kept,
            extra: Vec::new(),
            nodes: Vec::new(),
            edges: Vec::new(),
            dialect,
            slices,
            base: 0,
            text: nothing,
        }
    }

    /// The value in a span of the source.
    pub(crate) fn span(&mut self, span: ByteRange) -> (r: Result<u32, Error>)
        requires
            old(self).wf(),
        ensures
            roots_as(
                r,
                *old(self),
                *final(self),
                built_span(
                    old(self).source(),
                    span,
                    old(self).grammar(),
                    old(self).slicing(),
                    old(self).room(),
                ),
            ),
    {
        let src = self.src;
        self.base = span.start;
        self.text = if span.start <= span.end && span.end <= src.len() {
            vstd::slice::slice_subrange(src, span.start, span.end)
        } else {
            vstd::slice::slice_subrange(src, 0, 0)
        };
        proof {
            assert(self.text@ =~= span_bytes(src@, span));
        }
        match self.parse_span() {
            Ok(id) => Ok(id),
            Err(error) => Err(Error::new(error.kind, span.start.saturating_add(error.offset as usize))),
        }
    }

    /// Parse in slice coordinates; `span` translates refusals.
    fn parse_span(&mut self) -> (r: Result<u32, Error>)
        requires
            old(self).wf(),
        ensures
            roots_as(r, *old(self), *final(self), built_text(old(self).text@, old(self).ctx(), old(self).room())),
    {
        proof {
            reveal(built_text);
        }
        let text = self.text;
        let pos: usize = skip_trivia(text, 0, self.dialect)?;
        let (id, end) = self.present(pos, 0)?;
        let tail: usize = skip_trivia(text, end, self.dialect)?;
        if tail < text.len() {
            return Err(Error::new(ErrorKind::TrailingContent, tail));
        }
        Ok(id)
    }

    fn cell(&mut self, cell: &ColumnCell) -> (r: Result<u32, Error>)
        requires
            old(self).wf(),
        ensures
            roots_as(
                r,
                *old(self),
                *final(self),
                built_cell(old(self).source(), *cell, old(self).grammar(), old(self).slicing(), old(self).room()),
            ),
    {
        match cell {
            ColumnCell::Span(span) => self.span(*span),
            ColumnCell::Absent => self.push(Node::Null),
        }
    }
}


impl<'a> Builder<'a> {
    /// Members of one row, in field order.
    fn row(&mut self, fields: &Vec<String>, cells: &Vec<ColumnCell>, from: usize) -> (r: Result<Vec<(u32, u32)>, Error>)
        requires
            old(self).wf(),
            from + fields@.len() <= cells@.len(),
        ensures
            match built_row(
                old(self).source(),
                (BatchModel { fields: names_of(fields@), cells: cells@ }),
                from as int,
                fields@.len(),
                old(self).grammar(),
                old(self).slicing(),
                old(self).room(),
            ) {
                Ok((members, room)) => {
                    &&& r is Ok
                    &&& final(self).wf()
                    &&& final(self).reached(*old(self))
                    &&& final(self).room() == room
                    &&& final(self).pairs(r->Ok_0@) == members
                    &&& final(self).holds(r->Ok_0@, old(self).count())
                },
                Err(error) => r is Err && r->Err_0 == error,
            },
    {
        let ghost start = *self;
        let ghost batch = BatchModel { fields: names_of(fields@), cells: cells@ };
        let size: usize = cells.len();
        let mut members: Vec<(u32, u32)> = Vec::new();
        let mut column: usize = 0;
        proof {
            assert(self.pairs(members@) =~= Seq::<(Seq<u8>, Json)>::empty());
        }
        while column < fields.len()
            invariant
                column <= fields@.len(),
                from + fields@.len() <= cells@.len(),
                size == cells@.len(),
                batch == (BatchModel { fields: names_of(fields@), cells: cells@ }),
                start == *old(self),
                self.wf(),
                self.reached(start),
                self.holds(members@, start.count()),
                built_row(
                    start.source(),
                    batch,
                    from as int,
                    column as nat,
                    start.grammar(),
                    start.slicing(),
                    start.room(),
                ) == Ok::<(Seq<(Seq<u8>, Json)>, Room), Error>((self.pairs(members@), self.room())),
            decreases fields@.len() - column,
        {
            let ghost prior = *self;
            let ghost done = members@;
            proof {
                assert(batch.fields[column as int] == bytes_of(fields@[column as int]));
            }
            match self.field(&fields[column], &cells[from + column]) {
                Ok(Some(pair)) => {
                    proof {
                        Self::held_pairs(prior, *self, done, start.count());
                    }
                    members.push(pair);
                    proof {
                        assert(self.pairs(members@) =~= prior.pairs(done).push(self.pairs(seq![pair])[0]));
                    }
                },
                Ok(None) => {},
                Err(error) => {
                    proof {
                        built_row_err(
                            start.source(),
                            batch,
                            from as int,
                            (column + 1) as nat,
                            fields@.len(),
                            start.grammar(),
                            start.slicing(),
                            start.room(),
                        );
                    }
                    return Err(error);
                },
            }
            column += 1;
        }
        Ok(members)
    }

    /// Whether member edges were added since `from`.
    spec fn holds(self, ids: Seq<(u32, u32)>, from: int) -> bool {
        &&& forall|i: int|
            0 <= i < ids.len() ==> from <= (#[trigger] ids[i]).0 < self.nodes@.len() && from <= ids[i].1 < self.nodes@.len()
                && self.nodes@[ids[i].0 as int] is Str
        &&& ids.len() <= self.nodes@.len() - from
    }

    proof fn held_pairs(before: Self, after: Self, ids: Seq<(u32, u32)>, from: int)
        requires
            before.wf(),
            after.reached(before),
            before.holds(ids, from),
            0 <= from,
        ensures
            after.pairs(ids) == before.pairs(ids),
            after.holds(ids, from),
    {
        Self::grew_keeps_pairs(before, after, ids);
        assert forall|i: int| 0 <= i < ids.len() implies after.nodes@[(#[trigger] ids[i]).0 as int] is Str by {
            assert(before.nodes@[ids[i].0 as int] is Str);
        }
    }

    /// One field of a row; `None` when the row has no such field.
    fn field(&mut self, name: &String, cell: &ColumnCell) -> (r: Result<Option<(u32, u32)>, Error>)
        requires
            old(self).wf(),
        ensures
            match *cell {
                ColumnCell::Absent => r == Ok::<Option<(u32, u32)>, Error>(None) && *final(self) == *old(self),
                ColumnCell::Span(_) => match with_payload(
                    old(self).room(),
                    keep_at(old(self).slicing(), 0),
                    bytes_of(*name).len() as int,
                    None,
                ) {
                    Err(error) => r == Err::<Option<(u32, u32)>, Error>(error),
                    Ok(keyed) => match built_cell(old(self).source(), *cell, old(self).grammar(), old(self).slicing(), keyed) {
                        Err(error) => r == Err::<Option<(u32, u32)>, Error>(error),
                        Ok((j, room)) => {
                            &&& r matches Ok(Some(pair)) && final(self).holds(seq![pair], old(self).count())
                                && final(self).count() > old(self).count() + 1 && final(self).pairs(seq![pair])[0] == (bytes_of(*name), j)
                            &&& final(self).wf()
                            &&& final(self).reached(*old(self))
                            &&& final(self).room() == room
                        },
                    },
                },
            },
    {
        match cell {
            ColumnCell::Absent => {
                return Ok(None);
            },
            _ => {},
        }
        proof {
            vstd::utf8::encode_utf8_valid_utf8(name@);
        }
        let key: u32 = self.push_string(text_bytes(name), None)?;
        let ghost keyed = *self;
        let value: u32 = self.cell(cell)?;
        proof {
            Self::grew_keeps(keyed, *self, key as int);
        }
        Ok(Some((key, value)))
    }
}

proof fn built_row_err(
    src: Seq<u8>,
    batch: BatchModel,
    from: int,
    n: nat,
    m: nat,
    dialect: Dialect,
    slices: bool,
    room: Room,
)
    requires
        n <= m,
        built_row(src, batch, from, n, dialect, slices, room) is Err,
    ensures
        built_row(src, batch, from, m, dialect, slices, room) == built_row(src, batch, from, n, dialect, slices, room),
    decreases m - n,
{
    if n < m {
        built_row_err(src, batch, from, n, (m - 1) as nat, dialect, slices, room);
    }
}

proof fn built_rows_err(src: Seq<u8>, batch: BatchModel, n: nat, m: nat, dialect: Dialect, slices: bool, room: Room)
    requires
        n <= m,
        built_rows(src, batch, n, dialect, slices, room) is Err,
    ensures
        built_rows(src, batch, m, dialect, slices, room) == built_rows(src, batch, n, dialect, slices, room),
    decreases m - n,
{
    if n < m {
        built_rows_err(src, batch, n, (m - 1) as nat, dialect, slices, room);
    }
}

proof fn built_cells_err(src: Seq<u8>, cells: Seq<ColumnCell>, n: nat, m: nat, dialect: Dialect, slices: bool, room: Room)
    requires
        n <= m,
        built_cells(src, cells, n, dialect, slices, room) is Err,
    ensures
        built_cells(src, cells, m, dialect, slices, room) == built_cells(src, cells, n, dialect, slices, room),
    decreases m - n,
{
    if n < m {
        built_cells_err(src, cells, n, (m - 1) as nat, dialect, slices, room);
    }
}


impl<'a> Builder<'a> {
    /// Whether edges were added since `from`.
    spec fn owns(self, ids: Seq<u32>, from: int) -> bool {
        &&& forall|i: int| 0 <= i < ids.len() ==> from <= #[trigger] ids[i] < self.nodes@.len()
        &&& ids.len() <= self.nodes@.len() - from
    }

    /// The cells of a batch of bare values.
    fn bare_cells(&mut self, cells: &Vec<ColumnCell>, rows: usize) -> (r: Result<Vec<u32>, Error>)
        requires
            old(self).wf(),
            rows <= cells@.len(),
        ensures
            match built_cells(
                old(self).source(),
                cells@,
                rows as nat,
                old(self).grammar(),
                old(self).slicing(),
                old(self).room(),
            ) {
                Ok((items, room)) => {
                    &&& r is Ok
                    &&& final(self).wf()
                    &&& final(self).reached(*old(self))
                    &&& final(self).room() == room
                    &&& final(self).kids(r->Ok_0@) == items
                    &&& final(self).owns(r->Ok_0@, old(self).count())
                },
                Err(error) => r is Err && r->Err_0 == error,
            },
    {
        let ghost start = *self;
        let mut children: Vec<u32> = Vec::new();
        let mut row: usize = 0;
        proof {
            assert(self.kids(children@) =~= Seq::<Json>::empty());
        }
        while row < rows
            invariant
                row <= rows <= cells@.len(),
                start == *old(self),
                self.wf(),
                self.reached(start),
                self.owns(children@, start.count()),
                built_cells(start.source(), cells@, row as nat, start.grammar(), start.slicing(), start.room()) == Ok::<
                    (Seq<Json>, Room),
                    Error,
                >((self.kids(children@), self.room())),
            decreases rows - row,
        {
            let ghost prior = *self;
            let ghost done = children@;
            match self.cell(&cells[row]) {
                Ok(child) => {
                    children.push(child);
                    proof {
                        Self::grew_keeps_kids(prior, *self, done);
                        assert(self.kids(children@) =~= prior.kids(done).push(self.value(child as int)));
                    }
                },
                Err(error) => {
                    proof {
                        built_cells_err(
                            start.source(),
                            cells@,
                            (row + 1) as nat,
                            rows as nat,
                            start.grammar(),
                            start.slicing(),
                            start.room(),
                        );
                    }
                    return Err(error);
                },
            }
            row += 1;
        }
        Ok(children)
    }

    /// One object of a batch.
    fn object_row(&mut self, fields: &Vec<String>, cells: &Vec<ColumnCell>, from: usize) -> (r: Result<u32, Error>)
        requires
            old(self).wf(),
            from + fields@.len() <= cells@.len(),
        ensures
            roots_as(
                r,
                *old(self),
                *final(self),
                match with_node(old(self).room(), keep_at(old(self).slicing(), 0)) {
                    Err(error) => Err(error),
                    Ok(opened) => match built_row(
                        old(self).source(),
                        (BatchModel { fields: names_of(fields@), cells: cells@ }),
                        from as int,
                        fields@.len(),
                        old(self).grammar(),
                        old(self).slicing(),
                        opened,
                    ) {
                        Err(error) => Err(error),
                        Ok((members, filled)) => match with_edges(
                            filled,
                            keep_at(old(self).slicing(), 0),
                            2 * members.len() as int,
                        ) {
                            Err(error) => Err(error),
                            Ok(rest) => Ok((Json::Object(members), rest)),
                        },
                    },
                },
            ),
    {
        let id: u32 = self.push(Node::Object { edge: 0, len: 0 })?;
        let ghost opened = *self;
        let members = self.row(fields, cells, from)?;
        proof {
            Self::grew_keeps(opened, *self, id as int);
        }
        self.seal_object(id, members)?;
        Ok(id)
    }

    /// The rows of a batch.
    fn object_rows(&mut self, fields: &Vec<String>, cells: &Vec<ColumnCell>, width: usize, rows: usize) -> (r: Result<
        Vec<u32>,
        Error,
    >)
        requires
            old(self).wf(),
            width >= 1,
            width == width_of(BatchModel { fields: names_of(fields@), cells: cells@ }),
            rows * width <= cells@.len(),
        ensures
            match built_rows(
                old(self).source(),
                (BatchModel { fields: names_of(fields@), cells: cells@ }),
                rows as nat,
                old(self).grammar(),
                old(self).slicing(),
                old(self).room(),
            ) {
                Ok((items, room)) => {
                    &&& r is Ok
                    &&& final(self).wf()
                    &&& final(self).reached(*old(self))
                    &&& final(self).room() == room
                    &&& final(self).kids(r->Ok_0@) == items
                    &&& final(self).owns(r->Ok_0@, old(self).count())
                },
                Err(error) => r is Err && r->Err_0 == error,
            },
    {
        let ghost start = *self;
        let ghost batch = BatchModel { fields: names_of(fields@), cells: cells@ };
        let size: usize = cells.len();
        let mut children: Vec<u32> = Vec::new();
        let mut row: usize = 0;
        let mut from: usize = 0;
        proof {
            assert(self.kids(children@) =~= Seq::<Json>::empty());
        }
        while row < rows
            invariant
                row <= rows,
                size == cells@.len(),
                width >= 1,
                width == width_of(batch),
                batch == (BatchModel { fields: names_of(fields@), cells: cells@ }),
                rows * width <= size,
                from == row * width,
                start == *old(self),
                self.wf(),
                self.reached(start),
                self.owns(children@, start.count()),
                built_rows(start.source(), batch, row as nat, start.grammar(), start.slicing(), start.room()) == Ok::<
                    (Seq<Json>, Room),
                    Error,
                >((self.kids(children@), self.room())),
            decreases rows - row,
        {
            let ghost prior = *self;
            let ghost done = children@;
            proof {
                assert(from + width <= rows * width && from + width == (row + 1) * width) by (nonlinear_arith)
                    requires
                        row + 1 <= rows,
                        from == row * width,
                        width >= 1,
                ;
            }
            match self.object_row(fields, cells, from) {
                Ok(child) => {
                    children.push(child);
                    proof {
                        Self::grew_keeps_kids(prior, *self, done);
                        assert(self.kids(children@) =~= prior.kids(done).push(self.value(child as int)));
                    }
                },
                Err(error) => {
                    proof {
                        built_rows_err(
                            start.source(),
                            batch,
                            (row + 1) as nat,
                            rows as nat,
                            start.grammar(),
                            start.slicing(),
                            start.room(),
                        );
                    }
                    return Err(error);
                },
            }
            row += 1;
            from = from + width;
        }
        Ok(children)
    }

    /// A batch as an array.
    pub(crate) fn columns(&mut self, columns: &Columns<'_>) -> (r: Result<u32, Error>)
        requires
            old(self).wf(),
        ensures
            roots_as(
                r,
                *old(self),
                *final(self),
                built_columns(
                    old(self).source(),
                    columns.rows_model(),
                    old(self).grammar(),
                    old(self).slicing(),
                    old(self).room(),
                ),
            ),
    {
        let fields = columns.fields();
        let cells = columns.cells();
        let ghost batch = columns.rows_model();
        proof {
            assert(batch == (BatchModel { fields: names_of(fields@), cells: cells@ }));
        }
        let width: usize = if fields.len() == 0 {
            1
        } else {
            fields.len()
        };
        let rows: usize = cells.len() / width;
        proof {
            let len = cells@.len() as int;
            assert(rows * width <= len && rows <= len) by (nonlinear_arith)
                requires
                    width >= 1,
                    rows == len / width as int,
                    len >= 0,
            ;
        }
        let id: u32 = self.push(Node::Array { edge: 0, len: 0 })?;
        let name: [u8; 1] = [0x24];
        let is_bare: bool = fields.len() == 1 && same_bytes(text_bytes(&fields[0]), &name);
        proof {
            assert(name@ =~= seq![0x24u8]);
            assert(is_bare == bare(batch)) by {
                if fields@.len() == 1 {
                    assert(batch.fields[0] == bytes_of(fields@[0]));
                }
            }
        }
        let children = if is_bare {
            self.bare_cells(cells, rows)?
        } else {
            self.object_rows(fields, cells, width, rows)?
        };
        self.seal_array(id, children)?;
        Ok(id)
    }

    /// The finished arenas: what is kept of the source, the spill, nodes and edges.
    pub(crate) fn finish(self) -> (r: (&'a [u8], Vec<u8>, Vec<Node>, Vec<u32>))
        requires
            self.wf(),
        ensures
            sound(r.2@, r.3@, r.0@ + r.1@, r.0@.len() as int),
            r.2@.len() == self.count(),
            forall|id: int| #[trigger] tree(r.2@, r.3@, r.0@ + r.1@, id) == self.value(id),
            !self.slicing() ==> r.0@.len() == 0,
    {
        (self.kept, self.extra, self.nodes, self.edges)
    }
}

/// The value node `id` is the root of, as an owned tree.
pub(crate) fn value_at(kept: &[u8], extra: &[u8], nodes: &Vec<Node>, edges: &Vec<u32>, id: u32) -> (r: Value)
    requires
        sound(nodes@, edges@, kept@ + extra@, kept@.len() as int),
        id < nodes@.len(),
    ensures
        json(r) == tree(nodes@, edges@, kept@ + extra@, id as int),
    decreases nodes@.len() - id,
{
    let ghost buf = kept@ + extra@;
    let ghost split = kept@.len() as int;
    proof {
        assert(node_sound(nodes@, edges@, buf, split, id as int));
    }
    match nodes[id as usize] {
        Node::Null => Value::Null,
        Node::Bool(flag) => Value::Bool(flag),
        Node::Number { off, len } => match Number::parse_bytes(payload_slice(kept, extra, off, len)) {
            Ok(n) => Value::Number(n),
            Err(_) => Value::Null,
        },
        Node::NonFinite { value, .. } => Value::Number(Number::NonFinite(value)),
        Node::Str { off, len } => Value::Str(text_copy(payload_slice(kept, extra, off, len))),
        Node::Array { edge, len } => {
            let ghost whole = tree(nodes@, edges@, buf, id as int)->Array_0;
            let mut items: Vec<Value> = Vec::new();
            let mut i: usize = 0;
            let total: usize = edges.len();
            while i < len as usize
                invariant
                    i <= len,
                    items@.len() == i,
                    total == edges@.len(),
                    edge + len <= edges@.len(),
                    buf == kept@ + extra@,
                    sound(nodes@, edges@, buf, kept@.len() as int),
                    id < nodes@.len(),
                    nodes@[id as int] == (Node::Array { edge, len }),
                    forall|k: int| edge <= k < edge + len ==> id < #[trigger] edges@[k] < nodes@.len(),
                    whole == tree(nodes@, edges@, buf, id as int)->Array_0,
                    forall|k: int| 0 <= k < i ==> #[trigger] json(items@[k]) == whole[k],
                decreases len - i,
            {
                let child: u32 = edges[edge as usize + i];
                let item = value_at(kept, extra, nodes, edges, child);
                items.push(item);
                i += 1;
            }
            proof {
                json_array(items);
                assert(jsons(items@) =~= whole);
            }
            Value::Array(items)
        },
        Node::Object { edge, len } => {
            let ghost whole = tree(nodes@, edges@, buf, id as int)->Object_0;
            let mut members: Vec<(String, Value)> = Vec::new();
            let mut i: usize = 0;
            let total: usize = edges.len();
            while i < len as usize
                invariant
                    i <= len,
                    members@.len() == i,
                    total == edges@.len(),
                    edge + 2 * len <= edges@.len(),
                    buf == kept@ + extra@,
                    sound(nodes@, edges@, buf, kept@.len() as int),
                    id < nodes@.len(),
                    nodes@[id as int] == (Node::Object { edge, len }),
                    node_sound(nodes@, edges@, buf, kept@.len() as int, id as int),
                    whole == tree(nodes@, edges@, buf, id as int)->Object_0,
                    forall|k: int| 0 <= k < i ==> (bytes_of((#[trigger] members@[k]).0), json(members@[k].1)) == whole[k],
                decreases len - i,
            {
                let at_pair: usize = edge as usize + 2 * i;
                let key_id: u32 = edges[at_pair];
                let child: u32 = edges[at_pair + 1];
                proof {
                    assert(edges@[edge + 2 * i] == key_id);
                    assert(nodes@[key_id as int] is Str);
                    assert(node_sound(nodes@, edges@, buf, kept@.len() as int, key_id as int));
                }
                let key: String = match nodes[key_id as usize] {
                    Node::Str { off, len } => text_copy(payload_slice(kept, extra, off, len)),
                    _ => String::new(),
                };
                let value = value_at(kept, extra, nodes, edges, child);
                members.push((key, value));
                i += 1;
            }
            proof {
                json_object(members);
                assert(members_json(members@) =~= whole);
            }
            Value::Object(members)
        },
    }
}

} // verus!
