//! A written string reads back as the text it was written from.

use vstd::prelude::*;
use vstd::utf8::{
    decode_first_scalar, encode_scalar, is_scalar,
    length_of_first_scalar, pop_first_scalar, valid_first_scalar, valid_utf8, valid_utf8_concat,
};

use crate::ascii::{BACKSLASH, CR, DEL, LF, QUOTE, TAB};
use crate::dialect::Dialect;
use crate::encode::{hex_letter, scalar_escape, unit_escape, written_scalar, written_string, written_text};
use crate::error::Error;
use crate::laws::local::{piece, rest, rest_starts, rest_steps};
use crate::lex::hex_value;
use crate::lex::stop_sets::{run_end, run_end_facts, run_end_through, is_hex, StringContent, StopSet};
use crate::lex::string::{
    four_hex, hex_fault, paired, prepended, string_piece, string_rest, string_text, unicode_escape,
};

verus! {

/// Whether `s` stands at `pos`.
pub open spec fn stands_at(b: Seq<u8>, pos: int, s: Seq<u8>) -> bool {
    &&& 0 <= pos
    &&& pos + s.len() <= b.len()
    &&& forall|i: int| 0 <= i < s.len() ==> b[pos + i] == #[trigger] s[i]
}

/// What stands at a position stands there piece by piece.
pub proof fn stands_split(b: Seq<u8>, pos: int, x: Seq<u8>, y: Seq<u8>)
    requires
        stands_at(b, pos, x + y),
    ensures
        stands_at(b, pos, x),
        stands_at(b, pos + x.len(), y),
{
    let s = x + y;
    assert forall|i: int| 0 <= i < x.len() implies b[pos + i] == #[trigger] x[i] by {
        assert(s[i] == x[i]);
    }
    assert forall|i: int| 0 <= i < y.len() implies b[pos + x.len() + i] == #[trigger] y[i] by {
        assert(s[x.len() + i] == y[i]);
        assert(b[pos + (x.len() + i)] == s[x.len() + i]);
    }
}

/// The first scalar of a text: its bytes, and that the rest is text.
proof fn first_scalar_facts(text: Seq<u8>)
    requires
        valid_utf8(text),
        text.len() > 0,
    ensures
        1 <= length_of_first_scalar(text) <= text.len(),
        valid_utf8(text.take(length_of_first_scalar(text))),
        valid_utf8(pop_first_scalar(text)),
        is_scalar(decode_first_scalar(text)),
        encode_scalar(decode_first_scalar(text)) == text.take(length_of_first_scalar(text)),
        text == text.take(length_of_first_scalar(text)) + pop_first_scalar(text),
        decode_first_scalar(text) < 0x80 ==> length_of_first_scalar(text) == 1 && text[0] == decode_first_scalar(text),
        decode_first_scalar(text) >= 0x80 ==> forall|i: int|
            0 <= i < length_of_first_scalar(text) ==> #[trigger] text[i] >= 0x80,
{
    let n = length_of_first_scalar(text);
    let c = decode_first_scalar(text);
    let raw = text.take(n);
    assert(valid_first_scalar(text));
    assert(text =~= raw + pop_first_scalar(text));
    assert(valid_first_scalar(raw) && length_of_first_scalar(raw) == n && decode_first_scalar(raw) == c);
    assert(pop_first_scalar(raw) =~= Seq::<u8>::empty());
    assert(valid_utf8(pop_first_scalar(raw)));
    assert(valid_utf8(raw));
    vstd::utf8::decode_utf8_first_scalar(text);
    let b0 = text[0];
    if b0 <= 0x7f {
        assert((b0 & 0x7f) as u32 == b0 as u32) by (bit_vector)
            requires
                b0 <= 0x7f,
        ;
    }
    if n == 2 {
        let b1 = text[1];
        assert((((b0 & 0x1f) as u32) << 6u32) | (b1 & 0x3f) as u32 <= 0x7ff) by (bit_vector);
    } else if n == 3 {
        let b1 = text[1];
        let b2 = text[2];
        assert((((b0 & 0x0f) as u32) << 12u32) | (((b1 & 0x3f) as u32) << 6u32) | (b2 & 0x3f) as u32 <= 0xffff)
            by (bit_vector);
    }
    assert(is_scalar(c));
    assert((c as char) as u32 == c);
}


proof fn hex_letter_reads_back(n: int)
    requires
        0 <= n < 16,
    ensures
        is_hex(hex_letter(n)),
        hex_value(hex_letter(n)) == n,
{
}

/// A written unit escape is read as its unit.
proof fn unit_reads_back(b: Seq<u8>, p: int, n: int)
    requires
        0 <= n < 0x10000,
        stands_at(b, p, unit_escape(n)),
    ensures
        b[p] == BACKSLASH,
        b[p + 1] == 0x75,
        p + 6 <= b.len(),
        hex_fault(b, p + 2, 4) is None,
        four_hex(b, p + 2) == n,
{
    let s = unit_escape(n);
    assert(b[p + 0] == s[0] && b[p + 1] == s[1] && b[p + 2] == s[2] && b[p + 3] == s[3] && b[p + 4] == s[4] && b[p + 5]
        == s[5]);
    hex_letter_reads_back(n / 4096 % 16);
    hex_letter_reads_back(n / 256 % 16);
    hex_letter_reads_back(n / 16 % 16);
    hex_letter_reads_back(n % 16);
    reveal_with_fuel(hex_fault, 5);
    assert((n / 4096 % 16) * 4096 + (n / 256 % 16) * 256 + (n / 16 % 16) * 16 + n % 16 == n) by (nonlinear_arith)
        requires
            0 <= n < 0x10000,
    ;
}

/// A written scalar escape is read as its scalar.
proof fn scalar_escape_reads_back(b: Seq<u8>, p: int, c: int)
    requires
        0 <= c <= 0x10ffff,
        is_scalar(c as u32),
        stands_at(b, p, scalar_escape(c)),
    ensures
        b[p] == BACKSLASH,
        b[p + 1] == 0x75,
        p + scalar_escape(c).len() <= b.len(),
        unicode_escape(b, p + 2) == Ok::<(int, Seq<u8>), Error>((p + scalar_escape(c).len(), encode_scalar(c as u32))),
{
    if c < 0x10000 {
        unit_reads_back(b, p, c);
    } else {
        let high = 0xd800 + (c - 0x10000) / 1024;
        let low = 0xdc00 + (c - 0x10000) % 1024;
        stands_split(b, p, unit_escape(high), unit_escape(low));
        unit_reads_back(b, p, high);
        unit_reads_back(b, p + 6, low);
        assert(paired(high, low) == c);
    }
}

/// A run of plain content is one piece of a string, when it is UTF-8.
proof fn plain_piece(b: Seq<u8>, p: int, r: int, json5: bool)
    requires
        0 <= p < r <= b.len(),
        r == run_end::<StringContent>(b, p),
    ensures
        b[p] != QUOTE,
        valid_utf8(b.subrange(p, r)) ==> piece(b, p, QUOTE, json5) == Ok::<(int, Seq<u8>), Error>((r, b.subrange(p, r))),
        !valid_utf8(b.subrange(p, r)) ==> piece(b, p, QUOTE, json5) is Err,
{
    reveal(piece);
    run_end_facts::<StringContent>(b, p);
    assert(!StringContent::stops(b[p]));
}

/// Plain content in front of a string's rest is read as itself.
proof fn plain_prefix(b: Seq<u8>, p: int, q: int, json5: bool)
    requires
        0 <= p < q <= b.len(),
        forall|i: int| p <= i < q ==> !StringContent::stops(#[trigger] b[i]),
        valid_utf8(b.subrange(p, q)),
        string_rest(b, q, QUOTE, json5) is Ok,
    ensures
        string_rest(b, p, QUOTE, json5) == prepended(b.subrange(p, q), string_rest(b, q, QUOTE, json5)),
{
    reveal(rest);
    rest_behind_plain(b, p, q, json5);
}

proof fn rest_behind_plain(b: Seq<u8>, p: int, q: int, json5: bool)
    requires
        0 <= p < q <= b.len(),
        forall|i: int| p <= i < q ==> !StringContent::stops(#[trigger] b[i]),
        valid_utf8(b.subrange(p, q)),
        rest(b, q, QUOTE, json5) is Ok,
    ensures
        rest(b, p, QUOTE, json5) == prepended(b.subrange(p, q), rest(b, q, QUOTE, json5)),
{
    rest_starts(b, q, QUOTE, json5);
    run_end_through::<StringContent>(b, p, q);
    run_end_facts::<StringContent>(b, q);
    let r = run_end::<StringContent>(b, q);
    let head = b.subrange(p, q);
    plain_piece(b, p, r, json5);
    rest_steps(b, p, QUOTE, json5);
    if r == q {
        assert(b.subrange(p, r) =~= head);
    } else {
        let tail = b.subrange(q, r);
        plain_piece(b, q, r, json5);
        rest_steps(b, q, QUOTE, json5);
        valid_utf8_concat(head, tail);
        assert(b.subrange(p, r) =~= head + tail);
        match rest(b, r, QUOTE, json5) {
            Ok((_, text)) => {
                assert((head + tail) + text =~= head + (tail + text));
            },
            Err(_) => {},
        }
    }
}

/// Whether `raw` are the bytes of the scalar `c`.
spec fn spells(c: int, raw: Seq<u8>) -> bool {
    &&& 0 <= c <= 0x10ffff
    &&& is_scalar(c as u32)
    &&& raw == encode_scalar(c as u32)
    &&& valid_utf8(raw)
    &&& raw.len() >= 1
    &&& c < 0x80 ==> raw == seq![c as u8]
    &&& c >= 0x80 ==> forall|i: int| 0 <= i < raw.len() ==> #[trigger] raw[i] >= 0x80
}

/// A scalar that is written with an escape is read as its bytes.
proof fn escaped_scalar_piece(b: Seq<u8>, p: int, c: int, raw: Seq<u8>, ascii: bool, json5: bool)
    requires
        spells(c, raw),
        stands_at(b, p, written_scalar(c, raw, ascii)),
        c == QUOTE || c == BACKSLASH || c < 0x20 || c == DEL || (ascii && c > 0x7f),
    ensures
        b[p] != QUOTE,
        p < b.len(),
        string_piece(b, p, QUOTE, json5) == Ok::<(int, Seq<u8>), Error>((p + written_scalar(c, raw, ascii).len(), raw)),
{
    let w = written_scalar(c, raw, ascii);
    if c == QUOTE || c == BACKSLASH || c == 0x08 || c == 0x0c || c == LF || c == CR || c == TAB {
        assert(b[p + 0] == w[0] && b[p + 1] == w[1]);
    } else if c < 0x20 {
        unit_reads_back(b, p, c);
    } else if c == DEL {
        assert(b[p + 0] == w[0]);
    } else {
        scalar_escape_reads_back(b, p, c);
    }
}

/// One written scalar in front of a string's rest is read as its bytes.
proof fn written_scalar_reads_back(b: Seq<u8>, p: int, c: int, raw: Seq<u8>, ascii: bool, json5: bool)
    requires
        spells(c, raw),
        stands_at(b, p, written_scalar(c, raw, ascii)),
        string_rest(b, p + written_scalar(c, raw, ascii).len(), QUOTE, json5) is Ok,
    ensures
        string_rest(b, p, QUOTE, json5) == prepended(
            raw,
            string_rest(b, p + written_scalar(c, raw, ascii).len(), QUOTE, json5),
        ),
{
    let w = written_scalar(c, raw, ascii);
    let q = p + w.len();
    if c == QUOTE || c == BACKSLASH || c < 0x20 || c == DEL || (ascii && c > 0x7f) {
        escaped_scalar_piece(b, p, c, raw, ascii, json5);
    } else {
        assert(w == raw);
        assert forall|i: int| p <= i < q implies !StringContent::stops(#[trigger] b[i]) by {
            assert(b[p + (i - p)] == w[i - p]);
        }
        assert(b.subrange(p, q) =~= raw) by {
            assert forall|i: int| 0 <= i < raw.len() implies b[p + i] == raw[i] by {
                assert(b[p + i] == w[i]);
            }
        }
        plain_prefix(b, p, q, json5);
    }
}

/// Written text in front of a closing quote is read as the text.
proof fn written_text_reads_back(b: Seq<u8>, p: int, text: Seq<u8>, ascii: bool, json5: bool)
    requires
        valid_utf8(text),
        stands_at(b, p, written_text(text, ascii) + seq![QUOTE]),
    ensures
        string_rest(b, p, QUOTE, json5) == Ok::<(int, Seq<u8>), Error>((p + written_text(text, ascii).len() + 1, text)),
    decreases text.len(),
{
    let whole = written_text(text, ascii) + seq![QUOTE];
    if text.len() == 0 {
        assert(b[p + 0] == whole[0]);
        assert(text =~= Seq::<u8>::empty());
    } else {
        first_scalar_facts(text);
        let n = length_of_first_scalar(text);
        let w = written_scalar(decode_first_scalar(text) as int, text.take(n), ascii);
        let rest = pop_first_scalar(text);
        assert(whole =~= w + (written_text(rest, ascii) + seq![QUOTE]));
        stands_split(b, p, w, written_text(rest, ascii) + seq![QUOTE]);
        written_text_reads_back(b, p + w.len(), rest, ascii, json5);
        let raw = text.take(n);
        let c = decode_first_scalar(text) as int;
        assert(c < 0x80 ==> raw =~= seq![c as u8]);
        assert(c >= 0x80 ==> forall|i: int| 0 <= i < raw.len() ==> #[trigger] raw[i] >= 0x80) by {
            if c >= 0x80 {
                assert forall|i: int| 0 <= i < raw.len() implies #[trigger] raw[i] >= 0x80 by {
                    assert(text[i] >= 0x80);
                }
            }
        }
        written_scalar_reads_back(b, p, c, raw, ascii, json5);
    }
}

/// A written string reads back as its text, in every dialect and however its
/// escapes were chosen.
pub proof fn written_string_reads_back(b: Seq<u8>, p: int, text: Seq<u8>, ascii: bool, dialect: Dialect)
    requires
        valid_utf8(text),
        stands_at(b, p, written_string(text, ascii)),
    ensures
        string_text(b, p, dialect) == Ok::<(int, Seq<u8>), Error>((p + written_string(text, ascii).len(), text)),
        b[p] == QUOTE,
        p < b.len(),
{
    let body = written_text(text, ascii) + seq![QUOTE];
    assert(written_string(text, ascii) =~= seq![QUOTE] + body);
    stands_split(b, p, seq![QUOTE], body);
    assert(b[p + 0] == seq![QUOTE][0]);
    written_text_reads_back(b, p + 1, text, ascii, dialect == Dialect::Json5);
}

} // verus!
