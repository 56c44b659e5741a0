//! Compact, pretty, and verbatim-when-attested encode. Authored number
//! spellings (`1.50`, `-0`) survive. A JSON5 `Infinity` / `NaN` encodes only
//! under [`Dialect::Json5`].

use vstd::prelude::*;
use vstd::utf8::{decode_first_scalar, length_of_first_scalar, pop_first_scalar, valid_utf8};

use crate::ascii::{BACKSLASH, COLON, COMMA, CR, LBRACE, LBRACKET, LF, QUOTE, RBRACE, RBRACKET, SPACE, TAB};
use crate::dialect::{Dialect, NonFinite};
use crate::error::{at, Error, ErrorKind};
use crate::lex::number::{infinity_text, nan_text};
use crate::lex::skip::MAX_NESTING;
use crate::number::{Num, Number};
use crate::text::{bytes_of, text_bytes};
use crate::laws::round_trip::written_order_is_a_permutation;
use crate::value::{json, json_array, json_object, jsons, members_json, well_formed, Json, Value};

verus! {

/// Pretty indent.
#[derive(Clone, Copy, Debug, PartialEq, Eq, Structural)]
#[non_exhaustive]
pub enum Indent {
    /// N spaces.
    Spaces(u8),
    /// One tab.
    Tab,
}

/// How to write one encoded item into a stream.
#[derive(Clone, Copy, Debug, PartialEq, Eq, Structural)]
#[non_exhaustive]
pub enum ItemFraming {
    /// No terminator.
    Unframed,
    /// NDJSON newline.
    NdjsonLf,
    /// RFC 7464 record: `0x1E` prefix and a newline.
    JsonSeq,
}

/// Encode knobs, owned by the encode step.
#[derive(Clone, Copy, Debug, PartialEq, Eq, Structural)]
#[non_exhaustive]
pub struct EncodeOptions {
    /// Pretty-print when true.
    pub pretty: bool,
    /// Indent unit when pretty.
    pub indent: Indent,
    /// Item terminator.
    pub framing: ItemFraming,
    /// Copy attested canonical spans when the demand proved them.
    pub verbatim: bool,
    /// Source dialect token-copy encoding reads.
    pub dialect: Dialect,
    /// Sort object members by key on a value write.
    pub sort_keys: bool,
    /// Escape non-ASCII as `\uXXXX` on a value write.
    pub ascii: bool,
}

impl EncodeOptions {
    /// Compact, no framing, verbatim when attested.
    #[must_use]
    pub fn compact() -> (r: Self)
        ensures
            r == (EncodeOptions {
                pretty: false,
                indent: Indent::Spaces(2),
                framing: ItemFraming::Unframed,
                verbatim: true,
                dialect: Dialect::Rfc8259,
                sort_keys: false,
                ascii: false,
            }),
    {
        EncodeOptions {
            pretty: false,
            indent: Indent::Spaces(2),
            framing: ItemFraming::Unframed,
            verbatim: true,
            dialect: Dialect::Rfc8259,
            sort_keys: false,
            ascii: false,
        }
    }

    /// Pretty two-space indent.
    #[must_use]
    pub fn pretty() -> (r: Self)
        ensures
            r == (EncodeOptions {
                pretty: true,
                indent: Indent::Spaces(2),
                framing: ItemFraming::Unframed,
                verbatim: false,
                dialect: Dialect::Rfc8259,
                sort_keys: false,
                ascii: false,
            }),
    {
        EncodeOptions {
            pretty: true,
            indent: Indent::Spaces(2),
            framing: ItemFraming::Unframed,
            verbatim: false,
            dialect: Dialect::Rfc8259,
            sort_keys: false,
            ascii: false,
        }
    }

    /// These options reading `dialect`.
    #[must_use]
    pub fn with_dialect(self, dialect: Dialect) -> (r: Self)
        ensures
            r == (EncodeOptions { dialect, ..self }),
    {
        EncodeOptions { dialect, ..self }
    }

    /// These options pretty-printing (or not).
    #[must_use]
    pub fn with_pretty(self, pretty: bool) -> (r: Self)
        ensures
            r == (EncodeOptions { pretty, ..self }),
    {
        EncodeOptions { pretty, ..self }
    }

    /// These options indenting with `indent`.
    #[must_use]
    pub fn with_indent(self, indent: Indent) -> (r: Self)
        ensures
            r == (EncodeOptions { indent, ..self }),
    {
        EncodeOptions { indent, ..self }
    }

    /// These options terminating each written item with `framing`.
    #[must_use]
    pub fn with_framing(self, framing: ItemFraming) -> (r: Self)
        ensures
            r == (EncodeOptions { framing, ..self }),
    {
        EncodeOptions { framing, ..self }
    }

    /// These options copying attested canonical spans (or not).
    #[must_use]
    pub fn with_verbatim(self, verbatim: bool) -> (r: Self)
        ensures
            r == (EncodeOptions { verbatim, ..self }),
    {
        EncodeOptions { verbatim, ..self }
    }

    /// These options sorting object members by key on a value write (or not).
    #[must_use]
    pub fn with_sort_keys(self, sort_keys: bool) -> (r: Self)
        ensures
            r == (EncodeOptions { sort_keys, ..self }),
    {
        EncodeOptions { sort_keys, ..self }
    }

    /// These options escaping non-ASCII as `\uXXXX` on a value write (or not).
    #[must_use]
    pub fn with_ascii(self, ascii: bool) -> (r: Self)
        ensures
            r == (EncodeOptions { ascii, ..self }),
    {
        EncodeOptions { ascii, ..self }
    }
}

impl Default for EncodeOptions {
    fn default() -> (r: Self)
        ensures
            r == (EncodeOptions {
                pretty: false,
                indent: Indent::Spaces(2),
                framing: ItemFraming::Unframed,
                verbatim: true,
                dialect: Dialect::Rfc8259,
                sort_keys: false,
                ascii: false,
            }),
    {
        EncodeOptions::compact()
    }
}

/// `n` copies of a byte.
pub open spec fn repeated(byte: u8, n: nat) -> Seq<u8> {
    Seq::new(n, |i: int| byte)
}

/// A newline and the indent of `depth` levels.
pub open spec fn line_break(indent: Indent, depth: int) -> Seq<u8> {
    seq![LF] + match indent {
        Indent::Spaces(n) => repeated(SPACE, (depth * n) as nat),
        Indent::Tab => repeated(TAB, depth as nat),
    }
}

/// The indent of `depth` levels when pretty, nothing otherwise.
pub open spec fn pretty_break(opts: EncodeOptions, depth: int) -> Seq<u8> {
    if opts.pretty {
        line_break(opts.indent, depth)
    } else {
        Seq::empty()
    }
}

/// ASCII hex digit of a nibble.
pub open spec fn hex_letter(n: int) -> u8 {
    if n < 10 {
        (0x30 + n) as u8
    } else {
        (0x61 + (n - 10)) as u8
    }
}

/// `\uXXXX` of a 16-bit unit.
pub open spec fn unit_escape(n: int) -> Seq<u8> {
    seq![
        BACKSLASH,
        0x75u8,
        hex_letter(n / 4096 % 16),
        hex_letter(n / 256 % 16),
        hex_letter(n / 16 % 16),
        hex_letter(n % 16),
    ]
}

/// A scalar as `\uXXXX`, with a surrogate pair past the first plane.
pub open spec fn scalar_escape(c: int) -> Seq<u8> {
    if c < 0x10000 {
        unit_escape(c)
    } else {
        unit_escape(0xd800 + (c - 0x10000) / 1024) + unit_escape(0xdc00 + (c - 0x10000) % 1024)
    }
}

/// How one scalar, encoded as `raw`, is written inside a string.
pub open spec fn written_scalar(c: int, raw: Seq<u8>, ascii: bool) -> Seq<u8> {
    if c == QUOTE {
        seq![BACKSLASH, QUOTE]
    } else if c == BACKSLASH {
        seq![BACKSLASH, BACKSLASH]
    } else if c == 0x08 {
        seq![BACKSLASH, 0x62u8]
    } else if c == 0x0c {
        seq![BACKSLASH, 0x66u8]
    } else if c == LF {
        seq![BACKSLASH, 0x6eu8]
    } else if c == CR {
        seq![BACKSLASH, 0x72u8]
    } else if c == TAB {
        seq![BACKSLASH, 0x74u8]
    } else if c < 0x20 {
        unit_escape(c)
    } else if ascii && c > 0x7f {
        scalar_escape(c)
    } else {
        raw
    }
}

/// How text is written inside a string, scalar by scalar.
pub open spec fn written_text(text: Seq<u8>, ascii: bool) -> Seq<u8>
    decreases text.len(),
{
    if text.len() == 0 || !valid_utf8(text) {
        Seq::empty()
    } else {
        let n = length_of_first_scalar(text);
        written_scalar(decode_first_scalar(text) as int, text.take(n), ascii) + written_text(
            pop_first_scalar(text),
            ascii,
        )
    }
}

/// Text written as a string.
pub open spec fn written_string(text: Seq<u8>, ascii: bool) -> Seq<u8> {
    seq![QUOTE] + written_text(text, ascii) + seq![QUOTE]
}

/// Whether one key orders before another, byte by byte, or equals it.
pub open spec fn key_at_most(a: Seq<u8>, b: Seq<u8>) -> bool
    decreases a.len(),
{
    if a.len() == 0 {
        true
    } else if b.len() == 0 {
        false
    } else if a[0] != b[0] {
        a[0] < b[0]
    } else {
        key_at_most(a.skip(1), b.skip(1))
    }
}

/// Position `i` put after the last position whose key is at most its own.
pub open spec fn placed(sorted: Seq<int>, members: Seq<(Seq<u8>, Json)>, i: int) -> Seq<int>
    decreases sorted.len(),
{
    if sorted.len() == 0 || key_at_most(members[sorted.last()].0, members[i].0) {
        sorted.push(i)
    } else {
        placed(sorted.drop_last(), members, i).push(sorted.last())
    }
}

/// The first `n` member positions sorted by key; members with one key keep
/// their order.
pub open spec fn sorted_positions(members: Seq<(Seq<u8>, Json)>, n: nat) -> Seq<int>
    decreases n,
{
    if n == 0 {
        Seq::empty()
    } else {
        placed(sorted_positions(members, (n - 1) as nat), members, n - 1)
    }
}

/// The member positions in the order they are written.
pub open spec fn written_order(members: Seq<(Seq<u8>, Json)>, opts: EncodeOptions) -> Seq<int> {
    if opts.sort_keys {
        sorted_positions(members, members.len())
    } else {
        Seq::new(members.len(), |i: int| i)
    }
}

/// Text in front of what was written, unless it was refused.
pub open spec fn then_written(acc: Seq<u8>, rest: Result<Seq<u8>, Error>) -> Result<Seq<u8>, Error> {
    match rest {
        Ok(text) => Ok(acc + text),
        Err(error) => Err(error),
    }
}

/// The bytes a value is written as at `depth`.
pub open spec fn written(j: Json, opts: EncodeOptions, depth: int) -> Result<Seq<u8>, Error>
    decreases j, 1nat, 0nat,
{
    match j {
        Json::Null => Ok(seq![0x6eu8, 0x75, 0x6c, 0x6c]),
        Json::Bool(true) => Ok(seq![0x74u8, 0x72, 0x75, 0x65]),
        Json::Bool(false) => Ok(seq![0x66u8, 0x61, 0x6c, 0x73, 0x65]),
        Json::Number(Num::Finite(s)) => Ok(s),
        Json::Number(Num::NonFinite(value)) => if opts.dialect == Dialect::Json5 {
            Ok(non_finite_bytes(value))
        } else {
            Err(at(ErrorKind::NonFiniteNeedsDialect, 0))
        },
        Json::Str(text) => Ok(written_string(text, opts.ascii)),
        Json::Array(items) => if depth >= MAX_NESTING {
            Err(at(ErrorKind::Limit, 0))
        } else {
            match written_items(j, items.len(), opts, depth) {
                Err(error) => Err(error),
                Ok(body) => Ok(
                    seq![LBRACKET] + body + (if items.len() > 0 {
                        pretty_break(opts, depth)
                    } else {
                        Seq::empty()
                    }) + seq![RBRACKET],
                ),
            }
        },
        Json::Object(members) => if depth >= MAX_NESTING {
            Err(at(ErrorKind::Limit, 0))
        } else {
            match written_members(j, members.len(), opts, depth) {
                Err(error) => Err(error),
                Ok(body) => Ok(
                    seq![LBRACE] + body + (if members.len() > 0 {
                        pretty_break(opts, depth)
                    } else {
                        Seq::empty()
                    }) + seq![RBRACE],
                ),
            }
        },
    }
}

/// The separator before item `i`.
pub open spec fn separator(i: int) -> Seq<u8> {
    if i > 0 {
        seq![COMMA]
    } else {
        Seq::empty()
    }
}

/// The bytes the first `n` items of an array are written as.
pub open spec fn written_items(array: Json, n: nat, opts: EncodeOptions, depth: int) -> Result<Seq<u8>, Error>
    decreases array, 0nat, n,
{
    match array {
        Json::Array(items) => if n == 0 || n > items.len() {
            Ok(Seq::empty())
        } else {
            match written_items(array, (n - 1) as nat, opts, depth) {
                Err(error) => Err(error),
                Ok(before) => then_written(
                    before + separator(n - 1) + pretty_break(opts, depth + 1),
                    written(items[n - 1], opts, depth + 1),
                ),
            }
        },
        _ => Ok(Seq::empty()),
    }
}

/// The bytes the first `n` members of an object are written as.
pub open spec fn written_members(object: Json, n: nat, opts: EncodeOptions, depth: int) -> Result<Seq<u8>, Error>
    decreases object, 0nat, n,
{
    match object {
        Json::Object(members) => if n == 0 || n > members.len() {
            Ok(Seq::empty())
        } else {
            let k = written_order(members, opts)[n - 1];
            match written_members(object, (n - 1) as nat, opts, depth) {
                Err(error) => Err(error),
                Ok(before) => if 0 <= k < members.len() {
                    then_written(
                        before + separator(n - 1) + pretty_break(opts, depth + 1) + written_key(members[k].0, opts),
                        written(members[k].1, opts, depth + 1),
                    )
                } else {
                    Ok(before)
                },
            }
        },
        _ => Ok(Seq::empty()),
    }
}

/// The spelling of a non-finite number.
pub open spec fn non_finite_bytes(value: NonFinite) -> Seq<u8> {
    match value {
        NonFinite::Infinity => infinity_text(),
        NonFinite::NegativeInfinity => seq![0x2du8] + infinity_text(),
        NonFinite::NaN => nan_text(),
    }
}

/// A member's key as it is written, its colon included.
pub open spec fn written_key(key: Seq<u8>, opts: EncodeOptions) -> Seq<u8> {
    written_string(key, opts.ascii) + seq![COLON] + (if opts.pretty {
        seq![SPACE]
    } else {
        Seq::empty()
    })
}

/// Whether `after` is `before` with more bytes behind it.
pub open spec fn extends(before: Seq<u8>, after: Seq<u8>) -> bool {
    before.len() <= after.len() && after.take(before.len() as int) == before
}

pub(crate) proof fn extends_trans(a: Seq<u8>, b: Seq<u8>, c: Seq<u8>)
    requires
        extends(a, b),
        extends(b, c),
    ensures
        extends(a, c),
{
    assert(c.take(a.len() as int) =~= b.take(a.len() as int)) by {
        assert(b == c.take(b.len() as int));
    }
}

pub(crate) proof fn extends_add(a: Seq<u8>, more: Seq<u8>)
    ensures
        extends(a, a + more),
{
    assert((a + more).take(a.len() as int) =~= a);
}

/// Whether a write appended what the model names, or refused as it does with
/// only more bytes behind what was there.
pub open spec fn writes_as(
    r: Result<(), Error>,
    before: Seq<u8>,
    after: Seq<u8>,
    named: Result<Seq<u8>, Error>,
) -> bool {
    match named {
        Ok(text) => r is Ok && after == before + text,
        Err(error) => r == Err::<(), Error>(error) && extends(before, after),
    }
}

/// Append bytes.
pub(crate) fn append(out: &mut Vec<u8>, bytes: &[u8])
    ensures
        final(out)@ == old(out)@ + bytes@,
{
    out.extend_from_slice(bytes);
    assert(out@ =~= old(out)@ + bytes@);
}

/// Append `n` copies of a byte.
fn append_repeated(out: &mut Vec<u8>, byte: u8, n: usize)
    ensures
        final(out)@ == old(out)@ + repeated(byte, n as nat),
{
    let ghost before = out@;
    let mut i: usize = 0;
    assert(before + repeated(byte, 0) =~= before);
    while i < n
        invariant
            i <= n,
            out@ == before + repeated(byte, i as nat),
        decreases n - i,
    {
        out.push(byte);
        i = i + 1;
        assert(out@ =~= before + repeated(byte, i as nat));
    }
}

/// Append a newline and the indent of `depth` levels.
pub(crate) fn newline_indent(out: &mut Vec<u8>, opts: EncodeOptions, depth: usize)
    requires
        depth <= MAX_NESTING,
    ensures
        final(out)@ == old(out)@ + line_break(opts.indent, depth as int),
{
    let ghost before = out@;
    out.push(LF);
    match opts.indent {
        Indent::Spaces(n) => {
            assert(depth * n <= 256 * 255) by (nonlinear_arith)
                requires
                    depth <= 256,
                    n <= 255,
            ;
            append_repeated(out, SPACE, depth * n as usize);
        },
        Indent::Tab => append_repeated(out, TAB, depth),
    }
    assert(out@ =~= before + line_break(opts.indent, depth as int));
}

/// Append the indent of `depth` levels when pretty.
fn pretty_indent(out: &mut Vec<u8>, opts: EncodeOptions, depth: usize)
    requires
        depth <= MAX_NESTING,
    ensures
        final(out)@ == old(out)@ + pretty_break(opts, depth as int),
{
    if opts.pretty {
        newline_indent(out, opts, depth);
    } else {
        assert(out@ + Seq::<u8>::empty() =~= out@);
    }
}

fn hex_nibble(n: u8) -> (r: u8)
    requires
        n < 16,
    ensures
        r == hex_letter(n as int),
{
    if n < 10 {
        0x30 + n
    } else {
        0x61 + (n - 10)
    }
}

/// Append `\uXXXX` of a 16-bit unit.
fn push_u16(out: &mut Vec<u8>, n: u32)
    requires
        n < 0x10000,
    ensures
        final(out)@ == old(out)@ + unit_escape(n as int),
{
    let ghost before = out@;
    out.push(BACKSLASH);
    out.push(0x75);
    out.push(hex_nibble((n / 4096 % 16) as u8));
    out.push(hex_nibble((n / 256 % 16) as u8));
    out.push(hex_nibble((n / 16 % 16) as u8));
    out.push(hex_nibble((n % 16) as u8));
    assert(out@ =~= before + unit_escape(n as int));
}

/// Append a scalar as `\uXXXX`, with a surrogate pair past the first plane.
fn push_u16_escaped(out: &mut Vec<u8>, c: u32)
    requires
        c <= 0x10ffff,
    ensures
        final(out)@ == old(out)@ + scalar_escape(c as int),
{
    let ghost before = out@;
    if c < 0x10000 {
        push_u16(out, c);
    } else {
        push_u16(out, 0xd800 + (c - 0x10000) / 1024);
        push_u16(out, 0xdc00 + (c - 0x10000) % 1024);
        assert(out@ =~= before + scalar_escape(c as int));
    }
}

/// The first scalar of valid UTF-8 bytes from `i` on: its value and length.
fn first_scalar(bytes: &[u8], i: usize) -> (r: (u32, usize))
    requires
        i < bytes@.len(),
        valid_utf8(bytes@.skip(i as int)),
    ensures
        r.0 == decode_first_scalar(bytes@.skip(i as int)),
        r.1 == length_of_first_scalar(bytes@.skip(i as int)),
        1 <= r.1,
        i + r.1 <= bytes@.len(),
        r.0 <= 0x10ffff,
        pop_first_scalar(bytes@.skip(i as int)) == bytes@.skip(i + r.1),
        r.0 < 0x80 <==> bytes@[i as int] < 0x80,
        r.0 < 0x80 ==> r.0 == bytes@[i as int],
{
    let len: usize = bytes.len();
    let ghost rest = bytes@.skip(i as int);
    let b0: u8 = bytes[i];
    proof {
        assert(rest[0] == b0);
    }
    if b0 <= 0x7f {
        proof {
            assert((b0 & 0x7f) as u32 == b0 as u32) by (bit_vector)
                requires
                    b0 <= 0x7f,
            ;
            assert(pop_first_scalar(rest) =~= bytes@.skip(i + 1));
        }
        return ((b0 & 0x7f) as u32, 1);
    }
    assert(vstd::utf8::valid_first_scalar(rest));
    assert(rest.len() >= 2);
    let b1: u8 = bytes[i + 1];
    assert(rest[1] == b1);
    if b0 <= 0xdf {
        let c: u32 = (((b0 & 0x1f) as u32) << 6u32) | (b1 & 0x3f) as u32;
        proof {
            assert(c <= 0x7ff) by (bit_vector)
                requires
                    c == (((b0 & 0x1f) as u32) << 6u32) | (b1 & 0x3f) as u32,
            ;
            assert(pop_first_scalar(rest) =~= bytes@.skip(i + 2));
        }
        return (c, 2);
    }
    assert(rest.len() >= 3);
    let b2: u8 = bytes[i + 2];
    assert(rest[2] == b2);
    if b0 <= 0xef {
        let c: u32 = (((b0 & 0x0f) as u32) << 12u32) | (((b1 & 0x3f) as u32) << 6u32) | (b2 & 0x3f) as u32;
        proof {
            assert(c <= 0xffff) by (bit_vector)
                requires
                    c == (((b0 & 0x0f) as u32) << 12u32) | (((b1 & 0x3f) as u32) << 6u32) | (b2 & 0x3f) as u32,
            ;
            assert(pop_first_scalar(rest) =~= bytes@.skip(i + 3));
        }
        return (c, 3);
    }
    assert(rest.len() >= 4);
    let b3: u8 = bytes[i + 3];
    assert(rest[3] == b3);
    let c: u32 = (((b0 & 0x07) as u32) << 18u32) | (((b1 & 0x3f) as u32) << 12u32) | (((b2 & 0x3f) as u32) << 6u32) | (b3
        & 0x3f) as u32;
    assert(pop_first_scalar(rest) =~= bytes@.skip(i + 4));
    (c, 4)
}

/// Append text as a string.
pub fn write_string(text: &str, ascii: bool, out: &mut Vec<u8>)
    ensures
        final(out)@ == old(out)@ + written_string(vstd::utf8::encode_utf8(text@), ascii),
{
    proof {
        vstd::utf8::encode_utf8_valid_utf8(text@);
    }
    write_text(text.as_bytes(), ascii, out);
}

/// Append valid UTF-8 bytes as a string.
pub(crate) fn write_text(bytes: &[u8], ascii: bool, out: &mut Vec<u8>)
    requires
        valid_utf8(bytes@),
    ensures
        final(out)@ == old(out)@ + written_string(bytes@, ascii),
{
    let ghost before = out@;
    out.push(QUOTE);
    let ghost opened = out@;
    let ghost whole = written_text(bytes@, ascii);
    let len: usize = bytes.len();
    let mut i: usize = 0;
    let ghost mut acc = Seq::<u8>::empty();
    proof {
        assert(bytes@.skip(0) =~= bytes@);
        assert(acc + whole =~= whole);
        assert(opened + acc =~= opened);
    }
    while i < len
        invariant
            i <= len,
            len == bytes@.len(),
            valid_utf8(bytes@.skip(i as int)),
            whole == acc + written_text(bytes@.skip(i as int), ascii),
            out@ == opened + acc,
        decreases len - i,
    {
        let (c, n) = first_scalar(bytes, i);
        let ghost rest = bytes@.skip(i as int);
        let ghost raw = rest.take(n as int);
        let ghost prior = out@;
        proof {
            assert(raw =~= bytes@.subrange(i as int, i + n));
        }
        if c == 0x22 {
            out.push(BACKSLASH);
            out.push(QUOTE);
        } else if c == 0x5c {
            out.push(BACKSLASH);
            out.push(BACKSLASH);
        } else if c == 0x08 {
            out.push(BACKSLASH);
            out.push(0x62);
        } else if c == 0x0c {
            out.push(BACKSLASH);
            out.push(0x66);
        } else if c == 0x0a {
            out.push(BACKSLASH);
            out.push(0x6e);
        } else if c == 0x0d {
            out.push(BACKSLASH);
            out.push(0x72);
        } else if c == 0x09 {
            out.push(BACKSLASH);
            out.push(0x74);
        } else if c < 0x20 {
            push_u16(out, c);
        } else if ascii && c > 0x7f {
            push_u16_escaped(out, c);
        } else {
            append(out, vstd::slice::slice_subrange(bytes, i, i + n));
        }
        proof {
            let piece = written_scalar(c as int, raw, ascii);
            assert(out@ =~= prior + piece);
            assert(written_text(rest, ascii) == piece + written_text(bytes@.skip(i + n), ascii));
            assert(whole =~= (acc + piece) + written_text(bytes@.skip(i + n), ascii));
            assert(out@ =~= opened + (acc + piece));
            acc = acc + piece;
        }
        i = i + n;
    }
    out.push(QUOTE);
    proof {
        assert(bytes@.skip(i as int).len() == 0);
        assert(out@ =~= before + written_string(bytes@, ascii));
    }
}

/// Whether one key orders before another, byte by byte, or equals it.
fn key_le(a: &[u8], b: &[u8]) -> (r: bool)
    ensures
        r == key_at_most(a@, b@),
{
    let mut i: usize = 0;
    assert(a@.skip(0) =~= a@);
    assert(b@.skip(0) =~= b@);
    loop
        invariant
            i <= a@.len(),
            i <= b@.len(),
            key_at_most(a@, b@) == key_at_most(a@.skip(i as int), b@.skip(i as int)),
        decreases a@.len() - i,
    {
        if i >= a.len() {
            return true;
        }
        if i >= b.len() {
            return false;
        }
        if a[i] != b[i] {
            return a[i] < b[i];
        }
        assert(a@.skip(i as int).skip(1) =~= a@.skip(i + 1));
        assert(b@.skip(i as int).skip(1) =~= b@.skip(i + 1));
        i = i + 1;
    }
}

/// Positions as mathematical integers.
pub open spec fn positions_of(order: Seq<usize>) -> Seq<int> {
    order.map_values(|k: usize| k as int)
}

/// Placing a position is inserting it after the last key at most its own.
proof fn placed_is_insert(sorted: Seq<int>, members: Seq<(Seq<u8>, Json)>, i: int, j: int)
    requires
        0 <= j <= sorted.len(),
        j > 0 ==> key_at_most(members[sorted[j - 1]].0, members[i].0),
        forall|k: int| j <= k < sorted.len() ==> !key_at_most(members[#[trigger] sorted[k]].0, members[i].0),
    ensures
        placed(sorted, members, i) == sorted.insert(j, i),
    decreases sorted.len(),
{
    if j == sorted.len() {
        assert(sorted.insert(j, i) =~= sorted.push(i));
        if sorted.len() > 0 {
            assert(sorted.last() == sorted[j - 1]);
        }
    } else {
        let t = sorted.drop_last();
        assert(!key_at_most(members[sorted[sorted.len() - 1]].0, members[i].0));
        assert forall|k: int| j <= k < t.len() implies !key_at_most(members[#[trigger] t[k]].0, members[i].0) by {
            assert(t[k] == sorted[k]);
        }
        placed_is_insert(t, members, i, j);
        assert(t.insert(j, i).push(sorted.last()) =~= sorted.insert(j, i));
    }
}

/// The member positions in the order they are written.
fn order_members(members: &Vec<(String, Value)>, opts: EncodeOptions) -> (r: Vec<usize>)
    ensures
        positions_of(r@) == written_order(members_json(members@), opts),
        r@.len() == members@.len(),
        forall|k: int| 0 <= k < r@.len() ==> #[trigger] r@[k] < members@.len(),
{
    let ghost model = members_json(members@);
    let mut order: Vec<usize> = Vec::new();
    let mut i: usize = 0;
    assert(positions_of(order@) =~= sorted_positions(model, 0));
    while i < members.len()
        invariant
            i <= members@.len(),
            model == members_json(members@),
            order@.len() == i,
            forall|k: int| 0 <= k < i ==> #[trigger] order@[k] < i,
            opts.sort_keys ==> positions_of(order@) == sorted_positions(model, i as nat),
            !opts.sort_keys ==> forall|k: int| 0 <= k < i ==> #[trigger] order@[k] == k,
        decreases members@.len() - i,
    {
        let ghost before = order@;
        if opts.sort_keys {
            let mut j: usize = order.len();
            while j > 0 && !key_le(text_bytes(&members[order[j - 1]].0), text_bytes(&members[i].0))
                invariant
                    j <= order@.len(),
                    i < members@.len(),
                    order@ == before,
                    order@.len() == i,
                    model == members_json(members@),
                    forall|k: int| 0 <= k < i ==> #[trigger] order@[k] < i,
                    forall|k: int|
                        j <= k < i ==> !key_at_most(model[#[trigger] positions_of(before)[k]].0, model[i as int].0),
                decreases j,
            {
                j = j - 1;
            }
            proof {
                placed_is_insert(positions_of(before), model, i as int, j as int);
            }
            order.insert(j, i);
            assert(positions_of(order@) =~= positions_of(before).insert(j as int, i as int));
        } else {
            order.push(i);
        }
        i = i + 1;
    }
    assert(positions_of(order@) =~= written_order(model, opts));
    order
}

/// A refused prefix of an array's items refuses all of them.
pub(crate) proof fn written_items_err(array: Json, n: nat, m: nat, opts: EncodeOptions, depth: int)
    requires
        array is Array,
        n <= m <= array->Array_0.len(),
        written_items(array, n, opts, depth) is Err,
    ensures
        written_items(array, m, opts, depth) == written_items(array, n, opts, depth),
    decreases m,
{
    if n < m {
        written_items_err(array, n, (m - 1) as nat, opts, depth);
    }
}

/// A refused prefix of an object's members refuses all of them.
pub(crate) proof fn written_members_err(object: Json, n: nat, m: nat, opts: EncodeOptions, depth: int)
    requires
        object is Object,
        n <= m <= object->Object_0.len(),
        written_members(object, n, opts, depth) is Err,
    ensures
        written_members(object, m, opts, depth) == written_members(object, n, opts, depth),
    decreases m,
{
    if n < m {
        written_members_err(object, n, (m - 1) as nat, opts, depth);
    }
}

/// Append a value's bytes at `depth`.
pub(crate) fn write_value(value: &Value, opts: EncodeOptions, out: &mut Vec<u8>, depth: usize) -> (r: Result<(), Error>)
    requires
        depth <= MAX_NESTING,
    ensures
        writes_as(r, old(out)@, final(out)@, written(json(*value), opts, depth as int)),
        r is Ok ==> well_formed(json(*value)),
    decreases *value,
{
    match value {
        Value::Null => {
            let word: [u8; 4] = [0x6e, 0x75, 0x6c, 0x6c];
            append(out, &word);
            assert(word@ =~= seq![0x6eu8, 0x75, 0x6c, 0x6c]);
            Ok(())
        },
        Value::Bool(true) => {
            let word: [u8; 4] = [0x74, 0x72, 0x75, 0x65];
            append(out, &word);
            assert(word@ =~= seq![0x74u8, 0x72, 0x75, 0x65]);
            Ok(())
        },
        Value::Bool(false) => {
            let word: [u8; 5] = [0x66, 0x61, 0x6c, 0x73, 0x65];
            append(out, &word);
            assert(word@ =~= seq![0x66u8, 0x61, 0x6c, 0x73, 0x65]);
            Ok(())
        },
        Value::Number(n) => {
            if let Some(text) = n.spelling() {
                append(out, text);
                return Ok(());
            }
            match n {
                Number::NonFinite(value) => write_non_finite(*value, opts.dialect, out),
                Number::Finite(_) => Ok(()),
            }
        },
        Value::Str(text) => {
            write_string(text.as_str(), opts.ascii, out);
            proof {
                vstd::utf8::encode_utf8_valid_utf8(text@);
            }
            Ok(())
        },
        Value::Array(items) => write_array(value, items, opts, out, depth),
        Value::Object(members) => write_object(value, members, opts, out, depth),
    }
}

fn write_non_finite(value: NonFinite, dialect: Dialect, out: &mut Vec<u8>) -> (r: Result<(), Error>)
    ensures
        writes_as(
            r,
            old(out)@,
            final(out)@,
            if dialect == Dialect::Json5 {
                Ok(non_finite_bytes(value))
            } else {
                Err(at(ErrorKind::NonFiniteNeedsDialect, 0))
            },
        ),
{
    if !dialect.json5() {
        assert(out@.take(out@.len() as int) =~= out@);
        return Err(Error::new(ErrorKind::NonFiniteNeedsDialect, 0));
    }
    let infinity: [u8; 8] = [0x49, 0x6e, 0x66, 0x69, 0x6e, 0x69, 0x74, 0x79];
    let nan: [u8; 3] = [0x4e, 0x61, 0x4e];
    assert(infinity@ =~= infinity_text());
    assert(nan@ =~= nan_text());
    let ghost before = out@;
    match value {
        NonFinite::Infinity => append(out, &infinity),
        NonFinite::NegativeInfinity => {
            out.push(0x2d);
            append(out, &infinity);
            assert(out@ =~= before + (seq![0x2du8] + infinity_text()));
        },
        NonFinite::NaN => append(out, &nan),
    }
    Ok(())
}

fn write_array(value: &Value, items: &Vec<Value>, opts: EncodeOptions, out: &mut Vec<u8>, depth: usize) -> (r: Result<
    (),
    Error,
>)
    requires
        *value is Array,
        value->Array_0 == *items,
        depth <= MAX_NESTING,
    ensures
        writes_as(r, old(out)@, final(out)@, written(json(*value), opts, depth as int)),
        r is Ok ==> well_formed(json(*value)),
    decreases *items,
{
    let ghost j = json(*value);
    let ghost before = out@;
    proof {
        json_array(*items);
        assert(before.take(before.len() as int) =~= before);
    }
    if depth >= 256 {
        return Err(Error::new(ErrorKind::Limit, 0));
    }
    out.push(LBRACKET);
    let ghost opened = out@;
    let mut i: usize = 0;
    proof {
        extends_add(before, seq![LBRACKET]);
        assert(opened =~= before + seq![LBRACKET]);
        assert(opened + Seq::<u8>::empty() =~= opened);
    }
    while i < items.len()
        invariant
            i <= items@.len(),
            depth < 256,
            j == json(*value),
            *value is Array && value->Array_0 == *items,
            j == Json::Array(jsons(items@)),
            extends(before, opened),
            before == old(out)@,
            forall|k: int| 0 <= k < i ==> well_formed(#[trigger] jsons(items@)[k]),
            written_items(j, i as nat, opts, depth as int) is Ok,
            out@ == opened + written_items(j, i as nat, opts, depth as int)->Ok_0,
        decreases items@.len() - i,
    {
        let ghost acc = written_items(j, i as nat, opts, depth as int)->Ok_0;
        if i > 0 {
            out.push(COMMA);
        }
        pretty_indent(out, opts, depth + 1);
        let ghost lead = acc + separator(i as int) + pretty_break(opts, depth + 1);
        let ghost ready = out@;
        proof {
            assert(ready =~= opened + lead);
            assert(jsons(items@)[i as int] == json(items@[i as int]));
            assert(decreases_to!(*items => items[i as int]));
        }
        match write_value(&items[i], opts, out, depth + 1) {
            Ok(()) => {
                proof {
                    let text = written(json(items@[i as int]), opts, depth + 1)->Ok_0;
                    assert(out@ =~= opened + (lead + text));
                }
            },
            Err(error) => {
                proof {
                    extends_add(opened, lead);
                    extends_trans(before, opened, ready);
                    extends_trans(before, ready, out@);
                    written_items_err(j, (i + 1) as nat, items@.len(), opts, depth as int);
                }
                return Err(error);
            },
        }
        i = i + 1;
    }
    let ghost body = written_items(j, i as nat, opts, depth as int)->Ok_0;
    if items.len() > 0 {
        pretty_indent(out, opts, depth);
    }
    out.push(RBRACKET);
    proof {
        let close = if items@.len() > 0 {
            pretty_break(opts, depth as int)
        } else {
            Seq::empty()
        };
        assert(out@ =~= before + (seq![LBRACKET] + body + close + seq![RBRACKET]));
    }
    Ok(())
}

/// The bytes one member is written as, `i` members in.
pub open spec fn written_member(member: (Seq<u8>, Json), i: int, opts: EncodeOptions, depth: int) -> Result<Seq<u8>, Error> {
    then_written(
        separator(i) + pretty_break(opts, depth + 1) + written_key(member.0, opts),
        written(member.1, opts, depth + 1),
    )
}

/// One more member is written after the members before it.
proof fn written_members_step(
    object: Json,
    members: Seq<(Seq<u8>, Json)>,
    i: nat,
    k: int,
    opts: EncodeOptions,
    depth: int,
)
    requires
        object == Json::Object(members),
        i < members.len(),
        0 <= k < members.len(),
        written_order(members, opts)[i as int] == k,
        written_members(object, i, opts, depth) is Ok,
    ensures
        written_members(object, i + 1, opts, depth) == then_written(
            written_members(object, i, opts, depth)->Ok_0,
            written_member(members[k], i as int, opts, depth),
        ),
{
    let acc = written_members(object, i, opts, depth)->Ok_0;
    let key = written_key(members[k].0, opts);
    if let Ok(text) = written(members[k].1, opts, depth + 1) {
        assert((acc + separator(i as int) + pretty_break(opts, depth + 1) + key) + text =~= acc + ((separator(i as int)
            + pretty_break(opts, depth + 1) + key) + text));
    }
}

/// Whether a member's name is UTF-8 and its value well formed.
#[verifier::opaque]
spec fn member_well_formed(member: (Seq<u8>, Json)) -> bool {
    vstd::utf8::valid_utf8(member.0) && well_formed(member.1)
}

/// A member is well formed when its value is: a `String` holds UTF-8.
proof fn name_and_value(member: (String, Value))
    requires
        well_formed(json(member.1)),
    ensures
        member_well_formed((bytes_of(member.0), json(member.1))),
{
    reveal(member_well_formed);
    vstd::utf8::encode_utf8_valid_utf8(member.0@);
}

/// Where an order that names `n` positions once names position `k`.
proof fn position_named(order: Seq<int>, n: nat, k: int) -> (x: int)
    requires
        order.len() == n,
        order.no_duplicates(),
        forall|i: int| 0 <= i < n ==> 0 <= #[trigger] order[i] < n,
        0 <= k < n,
    ensures
        0 <= x < n,
        order[x] == k,
{
    let named = order.to_set();
    let all = vstd::set_lib::set_int_range(0, n as int);
    order.unique_seq_to_set();
    vstd::set_lib::lemma_int_range(0, n as int);
    assert(named.subset_of(all));
    vstd::set_lib::lemma_subset_equality(named, all);
    assert(named.contains(k));
    choose|i: int| 0 <= i < n && order[i] == k
}

/// Write one object member. `first` skips the leading comma.
fn write_member(
    member: &(String, Value),
    opts: EncodeOptions,
    out: &mut Vec<u8>,
    depth: usize,
    first: bool,
    Ghost(i): Ghost<int>,
) -> (r: Result<(), Error>)
    requires
        depth < MAX_NESTING,
        first == (i == 0),
        0 <= i,
    ensures
        writes_as(
            r,
            old(out)@,
            final(out)@,
            written_member((bytes_of(member.0), json(member.1)), i, opts, depth as int),
        ),
        r is Ok ==> member_well_formed((bytes_of(member.0), json(member.1))),
    decreases *member,
{
    let ghost before = out@;
    if !first {
        out.push(COMMA);
    }
    pretty_indent(out, opts, depth + 1);
    write_string(member.0.as_str(), opts.ascii, out);
    out.push(COLON);
    if opts.pretty {
        out.push(SPACE);
    }
    let ghost lead = separator(i) + pretty_break(opts, depth + 1) + written_key(bytes_of(member.0), opts);
    let ghost ready = out@;
    assert(ready =~= before + lead);
    let r = write_value(&member.1, opts, out, depth + 1);
    proof {
        if r is Ok {
            name_and_value(*member);
        }
        extends_add(before, lead);
        match written(json(member.1), opts, depth + 1) {
            Ok(text) => {
                assert(out@ =~= before + (lead + text));
            },
            Err(_) => {
                extends_trans(before, ready, out@);
            },
        }
    }
    r
}

fn write_object(
    value: &Value,
    members: &Vec<(String, Value)>,
    opts: EncodeOptions,
    out: &mut Vec<u8>,
    depth: usize,
) -> (r: Result<(), Error>)
    requires
        *value is Object,
        value->Object_0 == *members,
        depth <= MAX_NESTING,
    ensures
        writes_as(r, old(out)@, final(out)@, written(json(*value), opts, depth as int)),
        r is Ok ==> well_formed(json(*value)),
    decreases *members,
{
    let ghost j = json(*value);
    let ghost before = out@;
    let ghost model = members_json(members@);
    proof {
        json_object(*members);
        assert(before.take(before.len() as int) =~= before);
    }
    if depth >= 256 {
        return Err(Error::new(ErrorKind::Limit, 0));
    }
    let order: Vec<usize> = order_members(members, opts);
    out.push(LBRACE);
    let ghost opened = out@;
    let mut i: usize = 0;
    proof {
        extends_add(before, seq![LBRACE]);
        assert(opened =~= before + seq![LBRACE]);
        assert(opened + Seq::<u8>::empty() =~= opened);
    }
    while i < order.len()
        invariant
            i <= order@.len(),
            order@.len() == members@.len(),
            depth < 256,
            j == json(*value),
            *value is Object && value->Object_0 == *members,
            model == members_json(members@),
            j == Json::Object(model),
            positions_of(order@) == written_order(model, opts),
            forall|k: int| 0 <= k < order@.len() ==> #[trigger] order@[k] < members@.len(),
            extends(before, opened),
            before == old(out)@,
            forall|x: int| 0 <= x < i ==> member_well_formed(model[(#[trigger] order@[x]) as int]),
            written_members(j, i as nat, opts, depth as int) is Ok,
            out@ == opened + written_members(j, i as nat, opts, depth as int)->Ok_0,
        decreases order@.len() - i,
    {
        let k: usize = order[i];
        let ghost acc = written_members(j, i as nat, opts, depth as int)->Ok_0;
        let ghost ready = out@;
        let ghost named = written_member(model[k as int], i as int, opts, depth as int);
        proof {
            assert(positions_of(order@)[i as int] == k as int);
            assert(model[k as int] == (bytes_of(members@[k as int].0), json(members@[k as int].1)));
            assert(decreases_to!(*members => members[k as int]));
            written_members_step(j, model, i as nat, k as int, opts, depth as int);
        }
        match write_member(&members[k], opts, out, depth, i == 0, Ghost(i as int)) {
            Ok(()) => {
                assert(out@ =~= opened + (acc + named->Ok_0));
            },
            Err(error) => {
                proof {
                    extends_add(opened, acc);
                    extends_trans(before, opened, ready);
                    extends_trans(before, ready, out@);
                    written_members_err(j, (i + 1) as nat, members@.len(), opts, depth as int);
                }
                return Err(error);
            },
        }
        i = i + 1;
    }
    let ghost body = written_members(j, i as nat, opts, depth as int)->Ok_0;
    if members.len() > 0 {
        pretty_indent(out, opts, depth);
    }
    out.push(RBRACE);
    proof {
        let close = if members@.len() > 0 {
            pretty_break(opts, depth as int)
        } else {
            Seq::empty()
        };
        assert(out@ =~= before + (seq![LBRACE] + body + close + seq![RBRACE]));
        written_order_is_a_permutation(model, opts);
        reveal(member_well_formed);
        assert forall|k: int| 0 <= k < model.len() implies member_well_formed(#[trigger] model[k]) by {
            let x = position_named(written_order(model, opts), model.len(), k);
            assert(positions_of(order@)[x] == order@[x] as int);
        }
    }
    Ok(())
}

/// No value is written as nothing.
pub(crate) proof fn written_nonempty(j: Json, opts: EncodeOptions, depth: int)
    requires
        well_formed(j),
    ensures
        written(j, opts, depth) matches Ok(text) ==> text.len() > 0,
{
    match j {
        Json::Number(Num::Finite(s)) => {
            crate::lex::number::number_end_bounds(s, 0, Dialect::Rfc8259);
        },
        _ => {},
    }
}

} // verus!
