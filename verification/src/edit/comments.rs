//! Comment bytes an edit writes, and where a fresh leading comment goes.

use vstd::prelude::*;
use vstd::utf8::encode_utf8;

use crate::ascii::{APOSTROPHE, BACKSLASH, COLON, LF, QUOTE, SLASH, SPACE, STAR};
use crate::dialect::Dialect;
use crate::encode::append;
use crate::lex::is_ident_start;
use crate::lex::stop_sets::{find_stop, ident_start, is_digit, is_space, run_end, run_end_facts, ByteStop, StopSet, Ws};
use crate::lex::string::{closing_quote, closing_quote_bounds, opens_string, skip_string_locate};
use crate::lex::ws::{is_ws, skip_trivia, trivia_end, trivia_end_bounds};

verus! {

/// Stops at a line feed.
pub type Newline = ByteStop<0x0a>;

/// End of the line at `pos`.
pub open spec fn line_end(text: Seq<u8>, pos: int) -> int {
    run_end::<Newline>(text, pos)
}

/// A payload line of a `//` comment: nothing when it is empty.
pub open spec fn padded(line: Seq<u8>) -> Seq<u8> {
    if line.len() == 0 {
        Seq::empty()
    } else {
        seq![SPACE] + line
    }
}

/// One `//` line per payload line from `pos`, newline-terminated.
pub open spec fn canonical_lines(text: Seq<u8>, pos: int) -> Seq<u8>
    decreases text.len() - pos,
{
    let e = line_end(text, pos);
    let line = seq![SLASH, SLASH] + padded(text.subrange(pos, e)) + seq![LF];
    if pos <= e < text.len() {
        line + canonical_lines(text, e + 1)
    } else {
        line
    }
}

/// Each payload line from `pos` on a `//` line of its own, newline-led.
pub open spec fn foot_lines(text: Seq<u8>, pos: int) -> Seq<u8>
    decreases text.len() - pos,
{
    let e = line_end(text, pos);
    let line = seq![LF, SLASH, SLASH] + padded(text.subrange(pos, e));
    if pos <= e < text.len() {
        line + foot_lines(text, e + 1)
    } else {
        line
    }
}

/// The opening of a same-line comment.
pub open spec fn inline_mark() -> Seq<u8> {
    seq![SPACE, SLASH, SLASH, SPACE]
}

/// Whether `s` ends with `tail`.
pub open spec fn ends_with(s: Seq<u8>, tail: Seq<u8>) -> bool {
    s.len() >= tail.len() && s.skip(s.len() - tail.len()) == tail
}

/// Payload lines from `pos` joined onto one comment line.
pub open spec fn inline_lines(text: Seq<u8>, pos: int, done: Seq<u8>) -> Seq<u8>
    decreases text.len() - pos,
{
    let e = line_end(text, pos);
    let lead = if ends_with(done, inline_mark()) {
        done
    } else {
        done.push(SPACE)
    };
    let next = lead + text.subrange(pos, e);
    if pos <= e < text.len() {
        inline_lines(text, e + 1, next)
    } else {
        next
    }
}

fn push_padded(out: &mut Vec<u8>, bytes: &[u8], from: usize, to: usize)
    requires
        from <= to <= bytes@.len(),
    ensures
        final(out)@ == old(out)@ + padded(bytes@.subrange(from as int, to as int)),
{
    let ghost before = out@;
    if from < to {
        out.push(SPACE);
        append(out, vstd::slice::slice_subrange(bytes, from, to));
    }
    proof {
        assert(out@ =~= before + padded(bytes@.subrange(from as int, to as int)));
    }
}

/// Canonical comment bytes: one `//` line per payload line, newline-terminated.
pub fn canonical_comment(body: &str) -> (r: Vec<u8>)
    ensures
        r@ == canonical_lines(encode_utf8(body@), 0),
{
    let text: &[u8] = body.as_bytes();
    let mut out: Vec<u8> = Vec::new();
    let mut pos: usize = 0;
    proof {
        assert(out@ + canonical_lines(text@, 0) =~= canonical_lines(text@, 0));
    }
    loop
        invariant
            pos <= text@.len(),
            text@ == encode_utf8(body@),
            out@ + canonical_lines(text@, pos as int) == canonical_lines(text@, 0),
        decreases text@.len() - pos,
    {
        let ghost before = out@;
        let e: usize = find_stop::<Newline>(text, pos);
        out.push(SLASH);
        out.push(SLASH);
        push_padded(&mut out, text, pos, e);
        out.push(LF);
        proof {
            let line = seq![SLASH, SLASH] + padded(text@.subrange(pos as int, e as int)) + seq![LF];
            assert(out@ =~= before + line);
            if e < text@.len() {
                assert(before + (line + canonical_lines(text@, e + 1)) =~= out@ + canonical_lines(text@, e + 1));
            }
        }
        if e >= text.len() {
            return out;
        }
        pos = e + 1;
    }
}

/// A comment on its own line after a value: each payload line is its own `//`.
pub fn foot_comment(body: &str) -> (r: Vec<u8>)
    ensures
        r@ == foot_lines(encode_utf8(body@), 0) + seq![LF],
{
    let text: &[u8] = body.as_bytes();
    let mut out: Vec<u8> = Vec::new();
    let mut pos: usize = 0;
    proof {
        assert(out@ + foot_lines(text@, 0) =~= foot_lines(text@, 0));
    }
    loop
        invariant
            pos <= text@.len(),
            text@ == encode_utf8(body@),
            out@ + foot_lines(text@, pos as int) == foot_lines(text@, 0),
        decreases text@.len() - pos,
    {
        let ghost before = out@;
        let e: usize = find_stop::<Newline>(text, pos);
        out.push(LF);
        out.push(SLASH);
        out.push(SLASH);
        push_padded(&mut out, text, pos, e);
        proof {
            let line = seq![LF, SLASH, SLASH] + padded(text@.subrange(pos as int, e as int));
            assert(out@ =~= before + line);
            if e < text@.len() {
                assert(before + (line + foot_lines(text@, e + 1)) =~= out@ + foot_lines(text@, e + 1));
            }
        }
        if e >= text.len() {
            out.push(LF);
            proof {
                assert(out@ =~= foot_lines(text@, 0) + seq![LF]);
            }
            return out;
        }
        pos = e + 1;
    }
}

fn ends_with_mark(out: &Vec<u8>) -> (r: bool)
    ensures
        r == ends_with(out@, inline_mark()),
{
    let n: usize = out.len();
    let r: bool = n >= 4 && out[n - 4] == SPACE && out[n - 3] == SLASH && out[n - 2] == SLASH && out[n - 1] == SPACE;
    proof {
        if n >= 4 {
            let tail = out@.skip(n - 4);
            assert(tail[0] == out@[n - 4] && tail[1] == out@[n - 3] && tail[2] == out@[n - 2] && tail[3] == out@[n - 1]);
            if r {
                assert(tail =~= inline_mark());
            }
        }
    }
    r
}

/// A same-line comment after a value, newline-terminated so a following `,` is
/// not swallowed.
pub fn inline_comment(body: &str) -> (r: Vec<u8>)
    ensures
        r@ == inline_lines(encode_utf8(body@), 0, inline_mark()).push(LF),
{
    let text: &[u8] = body.as_bytes();
    let mut out: Vec<u8> = Vec::new();
    out.push(SPACE);
    out.push(SLASH);
    out.push(SLASH);
    out.push(SPACE);
    let mut pos: usize = 0;
    proof {
        assert(out@ =~= inline_mark());
    }
    loop
        invariant
            pos <= text@.len(),
            text@ == encode_utf8(body@),
            inline_lines(text@, pos as int, out@) == inline_lines(text@, 0, inline_mark()),
        decreases text@.len() - pos,
    {
        let e: usize = find_stop::<Newline>(text, pos);
        if !ends_with_mark(&out) {
            out.push(SPACE);
        }
        append(&mut out, vstd::slice::slice_subrange(text, pos, e));
        if e >= text.len() {
            out.push(LF);
            return out;
        }
        pos = e + 1;
    }
}

/// Whether a text holds a line feed.
pub open spec fn has_newline(text: Seq<u8>) -> bool {
    line_end(text, 0) < text.len()
}

/// Whether a text holds the end of a block comment.
pub open spec fn closes_block(text: Seq<u8>) -> bool {
    exists|i: int| 0 <= i < text.len() - 1 && #[trigger] text[i] == STAR && text[i + 1] == SLASH
}

/// The bytes that rewrite a comment in the shape of its authored glyph; none
/// when the body does not fit that shape.
pub open spec fn reshaped(glyph: Seq<u8>, text: Seq<u8>) -> Option<Seq<u8>> {
    if has_newline(text) || glyph.len() < 2 || glyph[0] != SLASH {
        None
    } else if glyph[1] == SLASH {
        Some(seq![SLASH, SLASH] + padded(text))
    } else if glyph[1] == STAR && glyph[glyph.len() - 2] == STAR && glyph.last() == SLASH && !closes_block(text) {
        Some(
            seq![SLASH, STAR, SPACE] + text + (if text.len() > 0 {
                seq![SPACE]
            } else {
                Seq::empty()
            }) + seq![STAR, SLASH],
        )
    } else {
        None
    }
}

fn contains_block_end(text: &[u8]) -> (r: bool)
    ensures
        r == closes_block(text@),
{
    let mut i: usize = 0;
    while i < text.len()
        invariant
            i <= text@.len(),
            forall|k: int| 0 <= k < i && k < text@.len() - 1 ==> !(#[trigger] text@[k] == STAR && text@[k + 1] == SLASH),
        decreases text@.len() - i,
    {
        if text[i] == STAR && i < text.len() - 1 && text[i + 1] == SLASH {
            return true;
        }
        i += 1;
    }
    false
}

/// Reuse the authored glyph's shape when the new body fits it: a `//` span stays
/// a line comment, a `/* */` span a block comment. `None` needs the canonical
/// `//` (a multi-line body, or one that would close the block comment early).
pub fn same_place_comment(glyph: &[u8], body: &str) -> (r: Option<Vec<u8>>)
    ensures
        match reshaped(glyph@, encode_utf8(body@)) {
            Some(bytes) => r matches Some(v) && v@ == bytes,
            None => r is None,
        },
{
    let text: &[u8] = body.as_bytes();
    let n: usize = glyph.len();
    if find_stop::<Newline>(text, 0) < text.len() || n < 2 || glyph[0] != SLASH {
        return None;
    }
    let mut out: Vec<u8> = Vec::new();
    if glyph[1] == SLASH {
        out.push(SLASH);
        out.push(SLASH);
        push_padded(&mut out, text, 0, text.len());
        proof {
            assert(text@.subrange(0, text@.len() as int) =~= text@);
            assert(out@ =~= seq![SLASH, SLASH] + padded(text@));
        }
        return Some(out);
    }
    if glyph[1] == STAR && glyph[n - 2] == STAR && glyph[n - 1] == SLASH && !contains_block_end(text) {
        out.push(SLASH);
        out.push(STAR);
        out.push(SPACE);
        append(&mut out, text);
        if text.len() > 0 {
            out.push(SPACE);
        }
        out.push(STAR);
        out.push(SLASH);
        proof {
            assert(out@ =~= reshaped(glyph@, text@)->0);
        }
        return Some(out);
    }
    None
}

/// Past the last byte before `i` that is no whitespace.
pub open spec fn before_ws(b: Seq<u8>, i: int) -> int
    decreases i,
{
    if 0 < i <= b.len() && is_space(b[i - 1]) {
        before_ws(b, i - 1)
    } else {
        i
    }
}

pub(crate) fn skip_ws_back(bytes: &[u8], from: usize) -> (r: usize)
    requires
        from <= bytes@.len(),
    ensures
        r == before_ws(bytes@, from as int),
        r <= from,
{
    let mut i: usize = from;
    while i > 0 && is_ws(bytes[i - 1])
        invariant
            i <= from <= bytes@.len(),
            before_ws(bytes@, i as int) == before_ws(bytes@, from as int),
        decreases i,
    {
        i -= 1;
    }
    i
}

/// The comment token inside rendered comment bytes: leading trivia and the
/// terminating newline are not part of the glyph a scan records.
pub fn comment_glyph(bytes: &[u8]) -> (r: (usize, usize))
    ensures
        r.0 == glyph_start(bytes@),
        r.1 == glyph_end(bytes@),
        r.0 <= r.1 <= bytes@.len(),
{
    let start: usize = crate::lex::ws::skip_ws(bytes, 0);
    let end: usize = skip_ws_back(bytes, bytes.len());
    proof {
        glyph_ordered(bytes@);
    }
    if start >= bytes.len() {
        (start, start)
    } else {
        (start, end)
    }
}

/// First byte of a rendered comment that is no whitespace.
pub open spec fn glyph_start(b: Seq<u8>) -> int {
    run_end::<Ws>(b, 0)
}

/// Past the last byte of a rendered comment that is no whitespace.
pub open spec fn glyph_end(b: Seq<u8>) -> int {
    if glyph_start(b) >= b.len() {
        glyph_start(b)
    } else {
        before_ws(b, b.len() as int)
    }
}

proof fn glyph_ordered(b: Seq<u8>)
    ensures
        glyph_start(b) <= glyph_end(b),
{
    run_end_facts::<Ws>(b, 0);
    if glyph_start(b) < b.len() {
        before_ws_stops(b, b.len() as int, glyph_start(b));
    }
}

proof fn before_ws_stops(b: Seq<u8>, i: int, k: int)
    requires
        0 <= k < i <= b.len(),
        !is_space(b[k]),
    ensures
        k < before_ws(b, i),
    decreases i,
{
    if i - 1 > k && is_space(b[i - 1]) {
        before_ws_stops(b, i - 1, k);
    }
}

/// The opening quote of the string that closes before `i`.
pub open spec fn open_quote(b: Seq<u8>, i: int, quote: u8) -> int
    decreases i,
{
    if i <= 0 {
        i
    } else if b[i - 1] == quote && (i == 1 || b[i - 2] != BACKSLASH) {
        i - 1
    } else {
        open_quote(b, i - 1, quote)
    }
}

/// Past the byte before `i` that is no part of a bare key.
pub open spec fn before_ident(b: Seq<u8>, i: int) -> int
    decreases i,
{
    if i > 0 && (ident_start(b[i - 1]) || is_digit(b[i - 1])) {
        before_ident(b, i - 1)
    } else {
        i
    }
}

/// Start of the key that ends before `i`.
pub open spec fn key_before(b: Seq<u8>, i: int, dialect: Dialect) -> int {
    if i > 0 && (b[i - 1] == QUOTE || (dialect == Dialect::Json5 && b[i - 1] == APOSTROPHE)) {
        open_quote(b, i - 1, b[i - 1])
    } else if dialect == Dialect::Json5 {
        before_ident(b, i)
    } else {
        i
    }
}

/// Past the token at `p`: a string, or one byte.
pub open spec fn token_past(b: Seq<u8>, p: int, dialect: Dialect) -> int {
    match closing_quote(b, p + 1, b[p]) {
        Some(e) => if opens_string(b[p], dialect) {
            e
        } else {
            p + 1
        },
        None => p + 1,
    }
}

/// Where the trivia that reaches `i` begins, from the token boundary `pos` on.
pub open spec fn gap_from(b: Seq<u8>, pos: int, i: int, dialect: Dialect) -> int
    decreases i - pos,
{
    let p = match trivia_end(b, pos, dialect) {
        Ok(p) => p,
        Err(_) => pos,
    };
    if !(0 <= pos <= p < i <= b.len()) {
        if pos <= i {
            pos
        } else {
            i
        }
    } else {
        let next = token_past(b, p, dialect);
        if pos < next <= i {
            gap_from(b, next, i, dialect)
        } else {
            i
        }
    }
}

/// Where the trivia before `i` begins.
pub open spec fn gap_before(b: Seq<u8>, i: int, dialect: Dialect) -> int {
    if dialect.comments() {
        gap_from(b, 0, i, dialect)
    } else {
        before_ws(b, i)
    }
}

/// Where a leading comment on the value at `i` begins: before the trivia that
/// reaches it, and before its key when it has one.
pub open spec fn lead_at(b: Seq<u8>, i: int, dialect: Dialect) -> int
    decreases i,
{
    let gap = gap_before(b, i, dialect);
    if 0 < gap <= i && b[gap - 1] == COLON {
        let key = key_before(b, gap_before(b, gap - 1, dialect), dialect);
        if 0 <= key < i {
            lead_at(b, key, dialect)
        } else {
            key
        }
    } else {
        gap
    }
}

proof fn gap_bounds(b: Seq<u8>, pos: int, i: int, dialect: Dialect)
    requires
        0 <= pos <= i,
    ensures
        pos <= gap_from(b, pos, i, dialect) <= i,
    decreases i - pos,
{
    let p = match trivia_end(b, pos, dialect) {
        Ok(p) => p,
        Err(_) => pos,
    };
    if pos <= p < i <= b.len() {
        let next = token_past(b, p, dialect);
        if pos < next <= i {
            gap_bounds(b, next, i, dialect);
        }
    }
}

fn skip_gap_back(bytes: &[u8], i: usize, dialect: Dialect) -> (r: usize)
    requires
        i <= bytes@.len(),
    ensures
        r == gap_before(bytes@, i as int, dialect),
        r <= i,
{
    if !dialect.has_comments() {
        return skip_ws_back(bytes, i);
    }
    proof {
        gap_bounds(bytes@, 0, i as int, dialect);
    }
    let mut pos: usize = 0;
    loop
        invariant
            dialect.comments(),
            pos <= i <= bytes@.len(),
            gap_from(bytes@, pos as int, i as int, dialect) == gap_from(bytes@, 0, i as int, dialect),
        decreases i - pos,
    {
        proof {
            trivia_end_bounds(bytes@, pos as int, dialect);
        }
        let p: usize = match skip_trivia(bytes, pos, dialect) {
            Ok(p) => p,
            Err(_) => pos,
        };
        if p >= i {
            return pos;
        }
        let next: usize = token_end_at(bytes, p, dialect);
        if next > i {
            return i;
        }
        pos = next;
    }
}

fn token_end_at(bytes: &[u8], p: usize, dialect: Dialect) -> (r: usize)
    requires
        p < bytes@.len(),
    ensures
        r == token_past(bytes@, p as int, dialect),
        p < r <= bytes@.len(),
{
    proof {
        closing_quote_bounds(bytes@, p + 1, bytes@[p as int]);
    }
    if bytes[p] == QUOTE || (dialect.json5() && bytes[p] == APOSTROPHE) {
        match skip_string_locate(bytes, p, dialect) {
            Ok(e) => e,
            Err(_) => p + 1,
        }
    } else {
        p + 1
    }
}

fn key_start_before(bytes: &[u8], from: usize, dialect: Dialect) -> (r: usize)
    requires
        from <= bytes@.len(),
    ensures
        r == key_before(bytes@, from as int, dialect),
        r <= from,
{
    let mut i: usize = from;
    if i > 0 && (bytes[i - 1] == QUOTE || (dialect.json5() && bytes[i - 1] == APOSTROPHE)) {
        let quote: u8 = bytes[i - 1];
        i -= 1;
        while i > 0
            invariant_except_break
                open_quote(bytes@, i as int, quote) == open_quote(bytes@, from - 1, quote),
            invariant
                i < from <= bytes@.len(),
            ensures
                i == open_quote(bytes@, from - 1, quote),
            decreases i,
        {
            i -= 1;
            if bytes[i] == quote && (i == 0 || bytes[i - 1] != BACKSLASH) {
                break;
            }
        }
        return i;
    }
    if dialect.json5() {
        while i > 0 && (is_ident_start(bytes[i - 1]) || crate::lex::number::is_ascii_digit_at(bytes, i - 1))
            invariant
                i <= from <= bytes@.len(),
                before_ident(bytes@, i as int) == before_ident(bytes@, from as int),
            decreases i,
        {
            i -= 1;
        }
    }
    i
}

/// Where a fresh leading comment on the value at `value_start` begins: before
/// the member's key when it has one, else at the value itself. Walks back over
/// trivia, the `:` and its key, so a member lead lands before the key and an
/// array element lead lands after the `[` or `,`.
pub fn member_insert_at(bytes: &[u8], value_start: usize, dialect: Dialect) -> (r: usize)
    requires
        value_start <= bytes@.len(),
    ensures
        r == lead_at(bytes@, value_start as int, dialect),
        r <= value_start,
{
    let mut i: usize = value_start;
    loop
        invariant
            i <= value_start <= bytes@.len(),
            lead_at(bytes@, i as int, dialect) == lead_at(bytes@, value_start as int, dialect),
        decreases i,
    {
        let gap: usize = skip_gap_back(bytes, i, dialect);
        if gap == 0 || bytes[gap - 1] != COLON {
            return gap;
        }
        let token: usize = skip_gap_back(bytes, gap - 1, dialect);
        i = key_start_before(bytes, token, dialect);
    }
}

} // verus!
