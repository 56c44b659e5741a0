//! Every artifact form reads the same value.

use vstd::prelude::*;

use crate::answer::AnswerModel;
use crate::dialect::Dialect;
use crate::error::{at, Error, ErrorKind};
use crate::lex::skip::{next_at, NextAt};
use crate::materialize::{empty_room, materialized, value_only, Form};
use crate::tape::{
    bare, built, built_cell, built_cells, built_items, built_key, built_members, built_row, built_rows, built_scalar,
    built_span, built_text, keep_at, merged, shifted, width_of, BuildCtx, Keep, Room,
};
use crate::value::{span_bytes, ByteRange, Json};
use crate::walk::marks::{BatchModel, ColumnCell};
use crate::ascii::{LBRACE, LBRACKET, RBRACE, RBRACKET};

verus! {

/// Whether a refusal is about the size of an arena, not about the text.
pub open spec fn is_capacity(error: Error) -> bool {
    error.kind == ErrorKind::TapeCapacity || error.kind == ErrorKind::BorrowedCapacity
}

/// Reading without placing payloads.
pub open spec fn unbounded(dialect: Dialect) -> BuildCtx {
    BuildCtx { dialect, keep: Keep::Unbounded }
}

/// An empty room, for a read that places nothing.
pub open spec fn no_room() -> Room {
    Room { nodes: 0, edges: 0, data: 0 }
}

proof fn scalar_unbounded(b: Seq<u8>, pos: int, ctx: BuildCtx, room: Room)
    ensures
        match built_scalar(b, pos, ctx, room) {
            Ok((e, j, _)) => built_scalar(b, pos, unbounded(ctx.dialect), no_room()) == Ok::<(int, Json, Room), Error>(
                (e, j, no_room()),
            ),
            Err(error) => is_capacity(error) || built_scalar(b, pos, unbounded(ctx.dialect), no_room()) == Err::<
                (int, Json, Room),
                Error,
            >(error),
        },
{
    reveal(built_scalar);
}

proof fn key_unbounded(b: Seq<u8>, p: int, ctx: BuildCtx, room: Room)
    ensures
        match built_key(b, p, ctx, room) {
            Ok((v, key, _)) => built_key(b, p, unbounded(ctx.dialect), no_room()) == Ok::<(int, Seq<u8>, Room), Error>(
                (v, key, no_room()),
            ),
            Err(error) => is_capacity(error) || built_key(b, p, unbounded(ctx.dialect), no_room()) == Err::<
                (int, Seq<u8>, Room),
                Error,
            >(error),
        },
{
    reveal(built_key);
}

/// Where payloads go changes nothing about what is read, but for a refusal of
/// the arena's size.
pub proof fn built_unbounded(b: Seq<u8>, pos: int, ctx: BuildCtx, room: Room, depth: int)
    ensures
        match built(b, pos, ctx, room, depth) {
            Ok((e, j, _)) => built(b, pos, unbounded(ctx.dialect), no_room(), depth) == Ok::<(int, Json, Room), Error>(
                (e, j, no_room()),
            ),
            Err(error) => is_capacity(error) || built(b, pos, unbounded(ctx.dialect), no_room(), depth) == Err::<
                (int, Json, Room),
                Error,
            >(error),
        },
    decreases b.len() - pos, 0nat,
{
    scalar_unbounded(b, pos, ctx, room);
    if pos < b.len() && (b[pos] == LBRACKET || b[pos] == LBRACE) && depth < crate::lex::skip::MAX_NESTING {
        let opened = crate::tape::with_node(room, ctx.keep);
        if opened is Ok {
            if b[pos] == LBRACKET {
                items_unbounded(b, pos + 1, ctx, opened->Ok_0, depth + 1, Seq::empty());
            } else {
                members_unbounded(b, pos + 1, ctx, opened->Ok_0, depth + 1, Seq::empty());
            }
        }
    }
}

proof fn items_unbounded(b: Seq<u8>, pos: int, ctx: BuildCtx, room: Room, depth: int, done: Seq<Json>)
    ensures
        match built_items(b, pos, ctx, room, depth, done) {
            Ok((e, items, _)) => built_items(b, pos, unbounded(ctx.dialect), no_room(), depth, done) == Ok::<
                (int, Seq<Json>, Room),
                Error,
            >((e, items, no_room())),
            Err(error) => is_capacity(error) || built_items(b, pos, unbounded(ctx.dialect), no_room(), depth, done) == Err::<
                (int, Seq<Json>, Room),
                Error,
            >(error),
        },
    decreases b.len() - pos, 1nat,
{
    match next_at(b, pos, ctx.dialect, RBRACKET, done.len() == 0) {
        Ok(NextAt::Item(p)) => if pos <= p <= b.len() {
            built_unbounded(b, p, ctx, room, depth);
            match built(b, p, ctx, room, depth) {
                Ok((e, item, left)) => if p < e <= b.len() {
                    items_unbounded(b, e, ctx, left, depth, done.push(item));
                },
                _ => {},
            }
        },
        _ => {},
    }
}

proof fn members_unbounded(b: Seq<u8>, pos: int, ctx: BuildCtx, room: Room, depth: int, done: Seq<(Seq<u8>, Json)>)
    ensures
        match built_members(b, pos, ctx, room, depth, done) {
            Ok((e, members, _)) => built_members(b, pos, unbounded(ctx.dialect), no_room(), depth, done) == Ok::<
                (int, Seq<(Seq<u8>, Json)>, Room),
                Error,
            >((e, members, no_room())),
            Err(error) => is_capacity(error) || built_members(b, pos, unbounded(ctx.dialect), no_room(), depth, done)
                == Err::<(int, Seq<(Seq<u8>, Json)>, Room), Error>(error),
        },
    decreases b.len() - pos, 1nat,
{
    match next_at(b, pos, ctx.dialect, RBRACE, done.len() == 0) {
        Ok(NextAt::Item(p)) => {
            key_unbounded(b, p, ctx, room);
            match built_key(b, p, ctx, room) {
                Ok((v, key, keyed)) => if pos < v <= b.len() {
                    built_unbounded(b, v, ctx, keyed, depth);
                    match built(b, v, ctx, keyed, depth) {
                        Ok((e, value, left)) => if v < e <= b.len() {
                            members_unbounded(b, e, ctx, left, depth, merged(done, key, value));
                        },
                        _ => {},
                    }
                },
                _ => {},
            }
        },
        _ => {},
    }
}

/// The one value of a text, wherever its payloads would go.
pub open spec fn read_text(b: Seq<u8>, dialect: Dialect) -> Result<Json, Error> {
    value_only(built_text(b, unbounded(dialect), no_room()))
}

/// The value in a span of `src`, wherever its payloads would go.
pub open spec fn read_span(src: Seq<u8>, span: ByteRange, dialect: Dialect) -> Result<Json, Error> {
    match read_text(span_bytes(src, span), dialect) {
        Err(error) => Err(shifted(error, span.start as int)),
        Ok(j) => Ok(j),
    }
}

/// Whether a read came out as named, but for the size of an arena.
pub open spec fn reads_as(read: Result<Json, Error>, named: Result<Json, Error>) -> bool {
    match read {
        Ok(j) => named == Ok::<Json, Error>(j),
        Err(error) => is_capacity(error) || named == Err::<Json, Error>(error),
    }
}

proof fn span_unbounded(src: Seq<u8>, span: ByteRange, dialect: Dialect, slices: bool, room: Room)
    ensures
        reads_as(value_only(built_span(src, span, dialect, slices, room)), read_span(src, span, dialect)),
{
    reveal(built_text);
    let ctx = BuildCtx { dialect, keep: keep_at(slices, span.start as int) };
    let b = span_bytes(src, span);
    if let Ok(pos) = crate::lex::ws::trivia_end(b, 0, dialect) {
        built_unbounded(b, pos, ctx, room, 0);
    }
}

/// One cell of a batch, wherever its payloads would go.
pub open spec fn read_cell(src: Seq<u8>, cell: ColumnCell, dialect: Dialect) -> Result<Json, Error> {
    match cell {
        ColumnCell::Span(span) => read_span(src, span, dialect),
        ColumnCell::Absent => Ok(Json::Null),
    }
}

/// The first `n` cells of a batch of bare values.
pub open spec fn read_cells(src: Seq<u8>, cells: Seq<ColumnCell>, n: nat, dialect: Dialect) -> Result<Seq<Json>, Error>
    decreases n,
{
    if n == 0 {
        Ok(Seq::empty())
    } else {
        match read_cells(src, cells, (n - 1) as nat, dialect) {
            Err(error) => Err(error),
            Ok(done) => match read_cell(src, cells[n - 1], dialect) {
                Err(error) => Err(error),
                Ok(j) => Ok(done.push(j)),
            },
        }
    }
}

/// The first `n` fields of the row whose cells start at `from`.
pub open spec fn read_row(src: Seq<u8>, batch: BatchModel, from: int, n: nat, dialect: Dialect) -> Result<
    Seq<(Seq<u8>, Json)>,
    Error,
>
    decreases n,
{
    if n == 0 {
        Ok(Seq::empty())
    } else {
        match read_row(src, batch, from, (n - 1) as nat, dialect) {
            Err(error) => Err(error),
            Ok(done) => if batch.cells[from + n - 1] is Absent {
                Ok(done)
            } else {
                match read_cell(src, batch.cells[from + n - 1], dialect) {
                    Err(error) => Err(error),
                    Ok(j) => Ok(done.push((batch.fields[n - 1], j))),
                }
            },
        }
    }
}

/// The first `n` rows of a batch.
pub open spec fn read_rows(src: Seq<u8>, batch: BatchModel, n: nat, dialect: Dialect) -> Result<Seq<Json>, Error>
    decreases n,
{
    if n == 0 {
        Ok(Seq::empty())
    } else {
        match read_rows(src, batch, (n - 1) as nat, dialect) {
            Err(error) => Err(error),
            Ok(done) => match read_row(src, batch, (n - 1) * width_of(batch), batch.fields.len(), dialect) {
                Err(error) => Err(error),
                Ok(members) => Ok(done.push(Json::Object(members))),
            },
        }
    }
}

/// A batch as an array, wherever its payloads would go.
pub open spec fn read_columns(src: Seq<u8>, batch: BatchModel, dialect: Dialect) -> Result<Json, Error> {
    let rows = (batch.cells.len() as int / width_of(batch)) as nat;
    match (if bare(batch) {
        read_cells(src, batch.cells, rows, dialect)
    } else {
        read_rows(src, batch, rows, dialect)
    }) {
        Err(error) => Err(error),
        Ok(items) => Ok(Json::Array(items)),
    }
}

proof fn cell_unbounded(src: Seq<u8>, cell: ColumnCell, dialect: Dialect, slices: bool, room: Room)
    ensures
        reads_as(value_only(built_cell(src, cell, dialect, slices, room)), read_cell(src, cell, dialect)),
{
    match cell {
        ColumnCell::Span(span) => span_unbounded(src, span, dialect, slices, room),
        ColumnCell::Absent => {},
    }
}

proof fn cells_unbounded(src: Seq<u8>, cells: Seq<ColumnCell>, n: nat, dialect: Dialect, slices: bool, room: Room)
    ensures
        match built_cells(src, cells, n, dialect, slices, room) {
            Ok((items, _)) => read_cells(src, cells, n, dialect) == Ok::<Seq<Json>, Error>(items),
            Err(error) => is_capacity(error) || read_cells(src, cells, n, dialect) == Err::<Seq<Json>, Error>(error),
        },
    decreases n,
{
    if n > 0 {
        cells_unbounded(src, cells, (n - 1) as nat, dialect, slices, room);
        match built_cells(src, cells, (n - 1) as nat, dialect, slices, room) {
            Ok((_, left)) => cell_unbounded(src, cells[n - 1], dialect, slices, left),
            Err(_) => {},
        }
    }
}

proof fn row_unbounded(src: Seq<u8>, batch: BatchModel, from: int, n: nat, dialect: Dialect, slices: bool, room: Room)
    ensures
        match built_row(src, batch, from, n, dialect, slices, room) {
            Ok((members, _)) => read_row(src, batch, from, n, dialect) == Ok::<Seq<(Seq<u8>, Json)>, Error>(members),
            Err(error) => is_capacity(error) || read_row(src, batch, from, n, dialect) == Err::<Seq<(Seq<u8>, Json)>, Error>(
                error,
            ),
        },
    decreases n,
{
    if n > 0 {
        row_unbounded(src, batch, from, (n - 1) as nat, dialect, slices, room);
        match built_row(src, batch, from, (n - 1) as nat, dialect, slices, room) {
            Ok((_, left)) => {
                let name = batch.fields[n - 1];
                match crate::tape::with_payload(left, keep_at(slices, 0), name.len() as int, None) {
                    Ok(keyed) => cell_unbounded(src, batch.cells[from + n - 1], dialect, slices, keyed),
                    Err(_) => {},
                }
            },
            Err(_) => {},
        }
    }
}

proof fn rows_unbounded(src: Seq<u8>, batch: BatchModel, n: nat, dialect: Dialect, slices: bool, room: Room)
    ensures
        match built_rows(src, batch, n, dialect, slices, room) {
            Ok((items, _)) => read_rows(src, batch, n, dialect) == Ok::<Seq<Json>, Error>(items),
            Err(error) => is_capacity(error) || read_rows(src, batch, n, dialect) == Err::<Seq<Json>, Error>(error),
        },
    decreases n,
{
    if n > 0 {
        rows_unbounded(src, batch, (n - 1) as nat, dialect, slices, room);
        match built_rows(src, batch, (n - 1) as nat, dialect, slices, room) {
            Ok((_, left)) => match crate::tape::with_node(left, keep_at(slices, 0)) {
                Ok(opened) => row_unbounded(
                    src,
                    batch,
                    (n - 1) * width_of(batch),
                    batch.fields.len(),
                    dialect,
                    slices,
                    opened,
                ),
                Err(_) => {},
            },
            Err(_) => {},
        }
    }
}

/// The value of an answer, wherever its payloads would go.
pub open spec fn read_answer(answer: AnswerModel, dialect: Dialect) -> Result<Json, Error> {
    match answer {
        AnswerModel::Document(d) => read_span(d.source, d.root, dialect),
        AnswerModel::Columns(src, batch) => read_columns(src, batch, dialect),
        AnswerModel::Missing => Err(at(ErrorKind::MissingIsNotAValue, 0)),
        AnswerModel::Mismatch(_) => Err(at(ErrorKind::MismatchIsNotAValue, 0)),
        _ => Err(at(ErrorKind::OracleIsNotAValue, 0)),
    }
}

/// Whatever form is asked for, an answer materializes to the same value or is
/// refused for the same reason; a form may only run out of 32-bit ids besides.
pub proof fn every_form_reads_the_same(answer: AnswerModel, dialect: Dialect, form: Form)
    ensures
        reads_as(materialized(answer, dialect, form), read_answer(answer, dialect)),
{
    let slices = form != Form::Owned;
    match answer {
        AnswerModel::Document(d) => span_unbounded(d.source, d.root, dialect, slices, empty_room(d.source, slices)),
        AnswerModel::Columns(src, batch) => {
            let rows = (batch.cells.len() as int / width_of(batch)) as nat;
            match crate::tape::with_node(empty_room(src, slices), keep_at(slices, 0)) {
                Ok(opened) => {
                    cells_unbounded(src, batch.cells, rows, dialect, slices, opened);
                    rows_unbounded(src, batch, rows, dialect, slices, opened);
                },
                Err(_) => {},
            }
        },
        _ => {},
    }
}

/// The source-backed and the owned form agree: the same acceptance, the same
/// refusal and the same value, unless one of them runs out of 32-bit ids.
pub proof fn borrowed_and_owned_agree(answer: AnswerModel, dialect: Dialect)
    ensures
        match (materialized(answer, dialect, Form::Borrowed), materialized(answer, dialect, Form::Owned)) {
            (Ok(a), Ok(b)) => a == b,
            (Err(a), Err(b)) => a == b || is_capacity(a) || is_capacity(b),
            (Ok(_), Err(b)) => is_capacity(b),
            (Err(a), Ok(_)) => is_capacity(a),
        },
{
    every_form_reads_the_same(answer, dialect, Form::Borrowed);
    every_form_reads_the_same(answer, dialect, Form::Owned);
}

/// Missing is not null: an absent value materializes to no value in any form.
pub proof fn missing_is_not_null(dialect: Dialect, form: Form)
    ensures
        materialized(AnswerModel::Missing, dialect, form) == Err::<Json, Error>(at(ErrorKind::MissingIsNotAValue, 0)),
{
}

} // verus!
