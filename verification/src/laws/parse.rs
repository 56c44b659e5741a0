//! What a parse accepts, and what can be said of the value it reads.

use vstd::prelude::*;
use vstd::utf8::valid_utf8;

use crate::ascii::{LBRACE, LBRACKET, RBRACE, RBRACKET};
use crate::dialect::Dialect;
use crate::encode::{written, written_items, written_members, written_order, EncodeOptions};
use crate::error::{Error, ErrorKind};
use crate::framing::text_start;
use crate::answer::{AnswerModel, DocumentModel};
use crate::laws::forms::{every_form_reads_the_same, is_capacity, no_room, read_text, unbounded};
use crate::materialize::{parsed, Form};
use crate::laws::round_trip::{arranged, distinct_keys, written_order_is_a_permutation, written_value_reads_back};
use crate::laws::room::{readable_text_has_room, room_for};
use crate::lex::skip::{
    items, member_value_at, members, next_at, next_at_bounds, one_node, scalar, value, value_bounds, Check, Ctx,
    NextAt, MAX_NESTING,
};
use crate::lex::string::string_text_facts;
use crate::lex::ws::{trivia_end, trivia_end_bounds};
use crate::lex::key_text_end;
use crate::number::Num;
use crate::scan::strict_root;
use crate::tape::{built, built_items, built_key, built_members, built_scalar, built_text, key_position, merged, Room};
use crate::value::{span_bytes, well_formed, ByteRange, Json};

verus! {

/// Strict skipping.
pub open spec fn strict_ctx(dialect: Dialect) -> Ctx {
    Ctx { check: Check::Values, max: MAX_NESTING, dialect }
}

/// Whether a read and a strict skip agree: the same end, or the same refusal; a
/// read may refuse a number that has no exact representation besides.
pub open spec fn agrees(read: Result<(int, Json, Room), Error>, skipped: Result<(int, nat), Error>) -> bool {
    match read {
        Ok((e, _, _)) => skipped is Ok && skipped->Ok_0.0 == e,
        Err(error) => error.kind == ErrorKind::InvalidNumber || skipped == Err::<(int, nat), Error>(error),
    }
}

pub(crate) proof fn scalar_agrees(b: Seq<u8>, pos: int, dialect: Dialect)
    requires
        0 <= pos <= b.len(),
    ensures
        agrees(
            built_scalar(b, pos, unbounded(dialect), no_room()),
            one_node(scalar(b, pos, Check::Values, dialect)),
        ),
{
    reveal(built_scalar);
}

pub(crate) proof fn key_agrees(b: Seq<u8>, p: int, dialect: Dialect)
    requires
        0 <= p <= b.len(),
    ensures
        match built_key(b, p, unbounded(dialect), no_room()) {
            Ok((v, key, room)) => member_value_at(b, p, Check::Values, dialect) == Ok::<int, Error>(v) && room == no_room()
                && valid_utf8(key) && p < v <= b.len(),
            Err(error) => member_value_at(b, p, Check::Values, dialect) == Err::<int, Error>(error),
        },
{
    reveal(built_key);
    reveal(member_value_at);
    key_text_end(b, p, dialect);
    crate::lex::skip::member_value_at_bounds(b, p, Check::Values, dialect);
}

/// A parse reads exactly what a strict skip accepts.
pub proof fn parse_agrees_with_strict_skip(b: Seq<u8>, pos: int, dialect: Dialect, depth: int)
    requires
        0 <= pos <= b.len(),
    ensures
        agrees(built(b, pos, unbounded(dialect), no_room(), depth), value(b, pos, strict_ctx(dialect), depth)),
        built(b, pos, unbounded(dialect), no_room(), depth) matches Ok((e, j, room)) ==> room == no_room() && pos < e
            <= b.len(),
    decreases b.len() - pos, 0nat,
{
    scalar_agrees(b, pos, dialect);
    value_bounds(b, pos, strict_ctx(dialect), depth);
    crate::laws::forms::built_unbounded(b, pos, unbounded(dialect), no_room(), depth);
    if pos < b.len() && (b[pos] == LBRACKET || b[pos] == LBRACE) && depth < MAX_NESTING {
        if b[pos] == LBRACKET {
            items_agree(b, pos + 1, dialect, depth + 1, Seq::empty());
        } else {
            members_agree(b, pos + 1, dialect, depth + 1, Seq::empty());
        }
    }
}

pub(crate) proof fn items_agree(b: Seq<u8>, pos: int, dialect: Dialect, depth: int, done: Seq<Json>)
    requires
        0 <= pos <= b.len(),
    ensures
        match built_items(b, pos, unbounded(dialect), no_room(), depth, done) {
            Ok((e, _, room)) => items(b, pos, strict_ctx(dialect), depth, done.len() == 0) is Ok && items(
                b,
                pos,
                strict_ctx(dialect),
                depth,
                done.len() == 0,
            )->Ok_0.0 == e && room == no_room(),
            Err(error) => error.kind == ErrorKind::InvalidNumber || items(
                b,
                pos,
                strict_ctx(dialect),
                depth,
                done.len() == 0,
            ) == Err::<(int, nat), Error>(error),
        },
    decreases b.len() - pos, 1nat,
{
    next_at_bounds(b, pos, dialect, RBRACKET, done.len() == 0);
    match next_at(b, pos, dialect, RBRACKET, done.len() == 0) {
        Ok(NextAt::Item(p)) => {
            parse_agrees_with_strict_skip(b, p, dialect, depth);
            match built(b, p, unbounded(dialect), no_room(), depth) {
                Ok((e, item, _)) => {
                    items_agree(b, e, dialect, depth, done.push(item));
                },
                Err(_) => {},
            }
        },
        _ => {},
    }
}

pub(crate) proof fn members_agree(b: Seq<u8>, pos: int, dialect: Dialect, depth: int, done: Seq<(Seq<u8>, Json)>)
    requires
        0 <= pos <= b.len(),
    ensures
        match built_members(b, pos, unbounded(dialect), no_room(), depth, done) {
            Ok((e, _, room)) => members(b, pos, strict_ctx(dialect), depth, done.len() == 0) is Ok && members(
                b,
                pos,
                strict_ctx(dialect),
                depth,
                done.len() == 0,
            )->Ok_0.0 == e && room == no_room(),
            Err(error) => error.kind == ErrorKind::InvalidNumber || members(
                b,
                pos,
                strict_ctx(dialect),
                depth,
                done.len() == 0,
            ) == Err::<(int, nat), Error>(error),
        },
    decreases b.len() - pos, 1nat,
{
    next_at_bounds(b, pos, dialect, RBRACE, done.len() == 0);
    match next_at(b, pos, dialect, RBRACE, done.len() == 0) {
        Ok(NextAt::Item(p)) => {
            key_agrees(b, p, dialect);
            match built_key(b, p, unbounded(dialect), no_room()) {
                Ok((v, key, _)) => {
                    parse_agrees_with_strict_skip(b, v, dialect, depth);
                    match built(b, v, unbounded(dialect), no_room(), depth) {
                        Ok((e, read, _)) => {
                            position_facts(done, key, 0);
                            assert(merged(done, key, read).len() != 0);
                            members_agree(b, e, dialect, depth, merged(done, key, read));
                        },
                        Err(_) => {},
                    }
                },
                Err(_) => {},
            }
        },
        _ => {},
    }
}

/// The one value of a text: read exactly when the text is strictly valid and its
/// numbers have an exact representation.
pub proof fn parse_accepts_what_is_strictly_valid(b: Seq<u8>, dialect: Dialect)
    requires
        text_start(b) == 0,
    ensures
        read_text(b, dialect) is Ok ==> strict_root(b, dialect) is Ok,
        read_text(b, dialect) matches Err(error) ==> error.kind == ErrorKind::InvalidNumber || (strict_root(b, dialect)
            matches Err(refusal) && refusal == error),
{
    reveal(built_text);
    trivia_end_bounds(b, 0, dialect);
    if let Ok(pos) = trivia_end(b, 0, dialect) {
        parse_agrees_with_strict_skip(b, pos, dialect, 0);
    }
}

/// What every value that was read is: spelled by the grammars, without repeated
/// keys, and writable at the depth it was read at.
pub open spec fn sound_value(j: Json, dialect: Dialect, depth: int) -> bool {
    &&& well_formed(j)
    &&& distinct_keys(j)
    &&& forall|opts: EncodeOptions|
        dialect != Dialect::Json5 || opts.dialect == Dialect::Json5 ==> (#[trigger] written(j, opts, depth)) is Ok
}

proof fn items_are_written(j: Json, n: nat, opts: EncodeOptions, depth: int)
    requires
        j is Array,
        n <= j->Array_0.len(),
        forall|i: int| 0 <= i < j->Array_0.len() ==> (#[trigger] written(j->Array_0[i], opts, depth + 1)) is Ok,
    ensures
        written_items(j, n, opts, depth) is Ok,
    decreases n,
{
    if n > 0 {
        items_are_written(j, (n - 1) as nat, opts, depth);
        assert(written(j->Array_0[n - 1], opts, depth + 1) is Ok);
    }
}

proof fn members_are_written(j: Json, n: nat, opts: EncodeOptions, depth: int)
    requires
        j is Object,
        n <= j->Object_0.len(),
        forall|i: int| 0 <= i < j->Object_0.len() ==> (#[trigger] written(j->Object_0[i].1, opts, depth + 1)) is Ok,
    ensures
        written_members(j, n, opts, depth) is Ok,
    decreases n,
{
    if n > 0 {
        members_are_written(j, (n - 1) as nat, opts, depth);
        written_order_is_a_permutation(j->Object_0, opts);
        let k = written_order(j->Object_0, opts)[n - 1];
        assert(written(j->Object_0[k].1, opts, depth + 1) is Ok);
    }
}

proof fn sound_array(read: Seq<Json>, dialect: Dialect, depth: int)
    requires
        depth < MAX_NESTING,
        forall|i: int| 0 <= i < read.len() ==> sound_value(#[trigger] read[i], dialect, depth + 1),
    ensures
        sound_value(Json::Array(read), dialect, depth),
{
    let j = Json::Array(read);
    assert forall|opts: EncodeOptions| dialect != Dialect::Json5 || opts.dialect == Dialect::Json5 implies (#[trigger] written(
        j,
        opts,
        depth,
    )) is Ok by {
        assert forall|i: int| 0 <= i < read.len() implies (#[trigger] written(read[i], opts, depth + 1)) is Ok by {
            assert(sound_value(read[i], dialect, depth + 1));
        }
        items_are_written(j, read.len(), opts, depth);
    }
    assert forall|i: int| 0 <= i < read.len() implies well_formed(#[trigger] read[i]) && distinct_keys(read[i]) by {
        assert(sound_value(read[i], dialect, depth + 1));
    }
}

/// Whether members can be those of a sound object.
spec fn sound_members(read: Seq<(Seq<u8>, Json)>, dialect: Dialect, depth: int) -> bool {
    &&& forall|i: int|
        0 <= i < read.len() ==> valid_utf8((#[trigger] read[i]).0) && sound_value(read[i].1, dialect, depth)
    &&& forall|i: int, k: int| 0 <= i < k < read.len() ==> (#[trigger] read[i]).0 != (#[trigger] read[k]).0
}

proof fn sound_object(read: Seq<(Seq<u8>, Json)>, dialect: Dialect, depth: int)
    requires
        depth < MAX_NESTING,
        sound_members(read, dialect, depth + 1),
    ensures
        sound_value(Json::Object(read), dialect, depth),
{
    let j = Json::Object(read);
    assert forall|opts: EncodeOptions| dialect != Dialect::Json5 || opts.dialect == Dialect::Json5 implies (#[trigger] written(
        j,
        opts,
        depth,
    )) is Ok by {
        assert forall|i: int| 0 <= i < read.len() implies (#[trigger] written(read[i].1, opts, depth + 1)) is Ok by {
            assert(sound_value(read[i].1, dialect, depth + 1));
        }
        members_are_written(j, read.len(), opts, depth);
    }
    assert forall|i: int| 0 <= i < read.len() implies well_formed((#[trigger] read[i]).1) && distinct_keys(read[i].1) by {
        assert(sound_value(read[i].1, dialect, depth + 1));
    }
}

pub(crate) proof fn position_facts(read: Seq<(Seq<u8>, Json)>, key: Seq<u8>, i: int)
    requires
        0 <= i <= read.len(),
    ensures
        i <= key_position(read, key, i) <= read.len(),
        key_position(read, key, i) < read.len() ==> read[key_position(read, key, i)].0 == key,
        forall|k: int| i <= k < key_position(read, key, i) ==> (#[trigger] read[k]).0 != key,
    decreases read.len() - i,
{
    if i < read.len() && read[i].0 != key {
        position_facts(read, key, i + 1);
    }
}

proof fn merged_is_sound(read: Seq<(Seq<u8>, Json)>, key: Seq<u8>, value: Json, dialect: Dialect, depth: int)
    requires
        sound_members(read, dialect, depth),
        valid_utf8(key),
        sound_value(value, dialect, depth),
    ensures
        sound_members(merged(read, key, value), dialect, depth),
{
    position_facts(read, key, 0);
}

proof fn scalar_is_sound(b: Seq<u8>, pos: int, dialect: Dialect, depth: int)
    requires
        0 <= pos <= b.len(),
    ensures
        built_scalar(b, pos, unbounded(dialect), no_room()) matches Ok((e, j, _)) ==> sound_value(j, dialect, depth),
{
    reveal(built_scalar);
    if pos < b.len() {
        string_text_facts(b, pos, dialect);
    }
}

/// A value that was read is sound.
proof fn read_is_sound(b: Seq<u8>, pos: int, dialect: Dialect, depth: int)
    requires
        0 <= pos <= b.len(),
        0 <= depth,
    ensures
        built(b, pos, unbounded(dialect), no_room(), depth) matches Ok((e, j, _)) ==> sound_value(j, dialect, depth),
    decreases b.len() - pos, 0nat,
{
    scalar_is_sound(b, pos, dialect, depth);
    if pos < b.len() && (b[pos] == LBRACKET || b[pos] == LBRACE) && depth < MAX_NESTING {
        if b[pos] == LBRACKET {
            items_are_sound(b, pos + 1, dialect, depth + 1, Seq::empty());
            match built_items(b, pos + 1, unbounded(dialect), no_room(), depth + 1, Seq::empty()) {
                Ok((_, read, _)) => sound_array(read, dialect, depth),
                Err(_) => {},
            }
        } else {
            members_are_sound(b, pos + 1, dialect, depth + 1, Seq::empty());
            match built_members(b, pos + 1, unbounded(dialect), no_room(), depth + 1, Seq::empty()) {
                Ok((_, read, _)) => sound_object(read, dialect, depth),
                Err(_) => {},
            }
        }
    }
}

proof fn items_are_sound(b: Seq<u8>, pos: int, dialect: Dialect, depth: int, done: Seq<Json>)
    requires
        0 <= pos <= b.len(),
        0 <= depth,
        forall|i: int| 0 <= i < done.len() ==> sound_value(#[trigger] done[i], dialect, depth),
    ensures
        built_items(b, pos, unbounded(dialect), no_room(), depth, done) matches Ok((e, read, _)) ==> forall|i: int|
            0 <= i < read.len() ==> sound_value(#[trigger] read[i], dialect, depth),
    decreases b.len() - pos, 1nat,
{
    next_at_bounds(b, pos, dialect, RBRACKET, done.len() == 0);
    match next_at(b, pos, dialect, RBRACKET, done.len() == 0) {
        Ok(NextAt::Item(p)) => {
            parse_agrees_with_strict_skip(b, p, dialect, depth);
            read_is_sound(b, p, dialect, depth);
            match built(b, p, unbounded(dialect), no_room(), depth) {
                Ok((e, item, _)) => {
                    items_are_sound(b, e, dialect, depth, done.push(item));
                },
                Err(_) => {},
            }
        },
        _ => {},
    }
}

proof fn members_are_sound(b: Seq<u8>, pos: int, dialect: Dialect, depth: int, done: Seq<(Seq<u8>, Json)>)
    requires
        0 <= pos <= b.len(),
        0 <= depth,
        sound_members(done, dialect, depth),
    ensures
        built_members(b, pos, unbounded(dialect), no_room(), depth, done) matches Ok((e, read, _)) ==> sound_members(
            read,
            dialect,
            depth,
        ),
    decreases b.len() - pos, 1nat,
{
    next_at_bounds(b, pos, dialect, RBRACE, done.len() == 0);
    match next_at(b, pos, dialect, RBRACE, done.len() == 0) {
        Ok(NextAt::Item(p)) => {
            key_agrees(b, p, dialect);
            match built_key(b, p, unbounded(dialect), no_room()) {
                Ok((v, key, _)) => {
                    parse_agrees_with_strict_skip(b, v, dialect, depth);
                    read_is_sound(b, v, dialect, depth);
                    match built(b, v, unbounded(dialect), no_room(), depth) {
                        Ok((e, read, _)) => {
                            merged_is_sound(done, key, read, dialect, depth);
                            members_are_sound(b, e, dialect, depth, merged(done, key, read));
                        },
                        Err(_) => {},
                    }
                },
                Err(_) => {},
            }
        },
        _ => {},
    }
}

/// The members of an object that was read have distinct names.
pub(crate) proof fn read_object_is_distinct(b: Seq<u8>, pos: int, dialect: Dialect, depth: int)
    requires
        0 <= pos <= b.len(),
        0 <= depth,
    ensures
        built(b, pos, unbounded(dialect), no_room(), depth) matches Ok((e, Json::Object(read), _)) ==> forall|
            i: int,
            k: int,
        |
            0 <= i < k < read.len() ==> (#[trigger] read[i]).0 != (#[trigger] read[k]).0,
{
    read_is_sound(b, pos, dialect, depth);
}

/// A parsed value is spelled by the grammars and has no repeated key.
pub proof fn parsed_value_is_well_formed(b: Seq<u8>, dialect: Dialect)
    ensures
        read_text(b, dialect) matches Ok(j) ==> sound_value(j, dialect, 0),
{
    reveal(built_text);
    trivia_end_bounds(b, 0, dialect);
    if let Ok(pos) = trivia_end(b, 0, dialect) {
        read_is_sound(b, pos, dialect, 0);
    }
}

/// A parsed value can be written under the dialect it was parsed under, the
/// text is strictly valid, and it parses to the same value: encoding preserves
/// what was parsed.
pub proof fn parsed_value_survives_encoding(b: Seq<u8>, opts: EncodeOptions)
    requires
        read_text(b, opts.dialect) is Ok,
        !opts.sort_keys,
    ensures
        written(read_text(b, opts.dialect)->Ok_0, opts, 0) is Ok,
        read_text(written(read_text(b, opts.dialect)->Ok_0, opts, 0)->Ok_0, opts.dialect) == read_text(b, opts.dialect),
        strict_root(written(read_text(b, opts.dialect)->Ok_0, opts, 0)->Ok_0, opts.dialect) is Ok,
{
    let j = read_text(b, opts.dialect)->Ok_0;
    parsed_value_is_well_formed(b, opts.dialect);
    written_value_reads_back(j, opts);
    let text = written(j, opts, 0)->Ok_0;
    crate::laws::tokens::written_start(j, opts, 0);
    written_has_no_mark(j, opts);
    parse_accepts_what_is_strictly_valid(text, opts.dialect);
}

/// A written value starts with no byte order mark.
proof fn written_has_no_mark(j: Json, opts: EncodeOptions)
    requires
        well_formed(j),
    ensures
        written(j, opts, 0) matches Ok(text) ==> text_start(text) == 0,
{
    match j {
        Json::Number(Num::Finite(s)) => {
            crate::number::number_is_ascii(s);
            crate::lex::number::number_end_bounds(s, 0, Dialect::Rfc8259);
        },
        _ => {},
    }
}


/// A whole text without a byte order mark is read from its first byte on,
/// whatever form is asked for.
proof fn parse_is_read(src: Seq<u8>, dialect: Dialect, form: Form)
    requires
        text_start(src) == 0,
        src.len() <= usize::MAX,
    ensures
        crate::laws::forms::reads_as(parsed(src, dialect, form), read_text(src, dialect)),
{
    let span = ByteRange { start: 0, end: src.len() as usize };
    let d = DocumentModel { source: src, root: span, grammar: None, facts: Seq::empty() };
    every_form_reads_the_same(AnswerModel::Document(d), dialect, form);
    assert(span_bytes(src, span) =~= src);
}

/// What `encode` writes, `parse` reads: the same value in every form, unless an
/// arena runs out of 32-bit ids, which no text of up to [`room_for`] bytes does outside
/// JSON5.
pub proof fn encoded_value_parses_back(j: Json, opts: EncodeOptions, form: Form)
    requires
        well_formed(j),
        distinct_keys(j),
    ensures
        written(j, opts, 0) matches Ok(text) ==> (text.len() <= usize::MAX ==> match parsed(text, opts.dialect, form) {
            Ok(read) => read == arranged(j, opts),
            Err(error) => is_capacity(error),
        }),
        written(j, opts, 0) matches Ok(text) ==> (text.len() <= room_for(form) && text.len() <= usize::MAX && opts.dialect
            != Dialect::Json5 ==> parsed(text, opts.dialect, form) == Ok::<Json, Error>(arranged(j, opts))),
        !opts.sort_keys ==> arranged(j, opts) == j,
{
    written_value_reads_back(j, opts);
    written_has_no_mark(j, opts);
    if let Ok(text) = written(j, opts, 0) {
        if text.len() <= usize::MAX {
            parse_is_read(text, opts.dialect, form);
            if text.len() <= room_for(form) && opts.dialect != Dialect::Json5 {
                readable_text_has_room(text, opts.dialect, form);
            }
        }
    }
}

} // verus!
