//! Retained row shape: while rows repeat a member head byte for byte, its key
//! is neither tokenized nor matched again.

use vstd::prelude::*;

use crate::dialect::Dialect;
use crate::error::Error;
use crate::lex::key_text;
use crate::lex::number::{lane, lane8};
use crate::lex::skip::after_colon;
use crate::lex::stop_sets::{run_end, run_end_facts, run_end_is, PlainString, StopSet, Ws};
use crate::lex::string::{plain_end, plain_is_text};
use crate::text::same_bytes;
use crate::value::ByteRange;

verus! {

/// Mask of the first `n` bytes of a word.
#[must_use]
pub fn mask8(n: usize) -> (r: u64)
    ensures
        r == byte_mask(n as int),
{
    if n >= 8 {
        u64::MAX
    } else if n == 7 {
        0xff_ffff_ffff_ffff
    } else if n == 6 {
        0xffff_ffff_ffff
    } else if n == 5 {
        0xff_ffff_ffff
    } else if n == 4 {
        0xffff_ffff
    } else if n == 3 {
        0xff_ffff
    } else if n == 2 {
        0xffff
    } else if n == 1 {
        0xff
    } else {
        0
    }
}

/// Mask of the first `n` bytes of a word.
pub open spec fn byte_mask(n: int) -> u64 {
    if n >= 8 {
        u64::MAX
    } else if n == 7 {
        0xff_ffff_ffff_ffff
    } else if n == 6 {
        0xffff_ffff_ffff
    } else if n == 5 {
        0xff_ffff_ffff
    } else if n == 4 {
        0xffff_ffff
    } else if n == 3 {
        0xff_ffff
    } else if n == 2 {
        0xffff
    } else if n == 1 {
        0xff
    } else {
        0
    }
}

proof fn masked_lanes(a: u64, b: u64)
    by (bit_vector)
    ensures
        ((a ^ b) & 0xff) == 0 <==> lane(a, 0) == lane(b, 0),
        ((a ^ b) & 0xffff) == 0 <==> lane(a, 0) == lane(b, 0) && lane(a, 1) == lane(b, 1),
        ((a ^ b) & 0xff_ffff) == 0 <==> lane(a, 0) == lane(b, 0) && lane(a, 1) == lane(b, 1) && lane(a, 2) == lane(b, 2),
        ((a ^ b) & 0xffff_ffff) == 0 <==> lane(a, 0) == lane(b, 0) && lane(a, 1) == lane(b, 1) && lane(a, 2) == lane(
            b,
            2,
        ) && lane(a, 3) == lane(b, 3),
        ((a ^ b) & 0xff_ffff_ffff) == 0 <==> lane(a, 0) == lane(b, 0) && lane(a, 1) == lane(b, 1) && lane(a, 2) == lane(
            b,
            2,
        ) && lane(a, 3) == lane(b, 3) && lane(a, 4) == lane(b, 4),
        ((a ^ b) & 0xffff_ffff_ffff) == 0 <==> lane(a, 0) == lane(b, 0) && lane(a, 1) == lane(b, 1) && lane(a, 2)
            == lane(b, 2) && lane(a, 3) == lane(b, 3) && lane(a, 4) == lane(b, 4) && lane(a, 5) == lane(b, 5),
        ((a ^ b) & 0xff_ffff_ffff_ffff) == 0 <==> lane(a, 0) == lane(b, 0) && lane(a, 1) == lane(b, 1) && lane(a, 2)
            == lane(b, 2) && lane(a, 3) == lane(b, 3) && lane(a, 4) == lane(b, 4) && lane(a, 5) == lane(b, 5) && lane(
            a,
            6,
        ) == lane(b, 6),
        ((a ^ b) & 0xffff_ffff_ffff_ffff) == 0 <==> lane(a, 0) == lane(b, 0) && lane(a, 1) == lane(b, 1) && lane(a, 2)
            == lane(b, 2) && lane(a, 3) == lane(b, 3) && lane(a, 4) == lane(b, 4) && lane(a, 5) == lane(b, 5) && lane(
            a,
            6,
        ) == lane(b, 6) && lane(a, 7) == lane(b, 7),
        ((a ^ b) & 0) == 0,
{
}

/// Two words agree under a byte mask exactly when those bytes agree.
proof fn masked_eq(a: u64, b: u64, n: int)
    requires
        0 <= n,
    ensures
        ((a ^ b) & byte_mask(n)) == 0 <==> (forall|k: u64| k < 8 && k < n ==> #[trigger] lane(a, k) == lane(b, k)),
{
    masked_lanes(a, b);
    let agree = forall|k: u64| k < 8 && k < n ==> #[trigger] lane(a, k) == lane(b, k);
    if (a ^ b) & byte_mask(n) == 0 {
        assert forall|k: u64| k < 8 && k < n implies #[trigger] lane(a, k) == lane(b, k) by {
            assert(k == 0 || k == 1 || k == 2 || k == 3 || k == 4 || k == 5 || k == 6 || k == 7);
        }
    }
    if agree {
        assert(n > 0 ==> lane(a, 0) == lane(b, 0));
        assert(n > 1 ==> lane(a, 1) == lane(b, 1));
        assert(n > 2 ==> lane(a, 2) == lane(b, 2));
        assert(n > 3 ==> lane(a, 3) == lane(b, 3));
        assert(n > 4 ==> lane(a, 4) == lane(b, 4));
        assert(n > 5 ==> lane(a, 5) == lane(b, 5));
        assert(n > 6 ==> lane(a, 6) == lane(b, 6));
        assert(n > 7 ==> lane(a, 7) == lane(b, 7));
    }
}

/// Whether a word holds the first (up to) eight of `len` bytes at `at`.
pub open spec fn holds_prefix(word: u64, b: Seq<u8>, at: int, len: int) -> bool {
    forall|k: u64| k < 8 && k < len ==> #[trigger] lane(word, k) == b[at + k]
}

/// Append a byte to a word whose lanes from `n` on are zero.
proof fn packed_next(word: u64, byte: u8, n: u64)
    by (bit_vector)
    requires
        n < 8,
        n == 0 ==> word == 0,
        n > 0 ==> word >> (8 * n) == 0,
    ensures
        lane(word | ((byte as u64) << (8 * n)), n) == byte,
        0 < n ==> lane(word | ((byte as u64) << (8 * n)), 0) == lane(word, 0),
        1 < n ==> lane(word | ((byte as u64) << (8 * n)), 1) == lane(word, 1),
        2 < n ==> lane(word | ((byte as u64) << (8 * n)), 2) == lane(word, 2),
        3 < n ==> lane(word | ((byte as u64) << (8 * n)), 3) == lane(word, 3),
        4 < n ==> lane(word | ((byte as u64) << (8 * n)), 4) == lane(word, 4),
        5 < n ==> lane(word | ((byte as u64) << (8 * n)), 5) == lane(word, 5),
        6 < n ==> lane(word | ((byte as u64) << (8 * n)), 6) == lane(word, 6),
        n < 7 ==> (word | ((byte as u64) << (8 * n))) >> (8 * (n + 1)) == 0,
{
}

/// First (up to) eight of `len` bytes at `at` as one word.
#[must_use]
pub fn prefix8(bytes: &[u8], at: usize, len: usize) -> (r: u64)
    requires
        at + len <= bytes@.len(),
    ensures
        holds_prefix(r, bytes@, at as int, len as int),
{
    if let Some(word) = lane8(bytes, at) {
        return word;
    }
    let n: usize = if len < 8 {
        len
    } else {
        8
    };
    let mut word: u64 = 0;
    let mut i: usize = 0;
    let total: usize = bytes.len();
    while i < n
        invariant
            i <= n <= 8,
            n <= len,
            total == bytes@.len(),
            at + len <= bytes@.len(),
            holds_prefix(word, bytes@, at as int, i as int),
            i == 0 ==> word == 0,
            0 < i < 8 ==> word >> (8 * (i as u64)) == 0,
        decreases n - i,
    {
        let byte: u8 = bytes[at + i];
        let shift: u64 = 8 * (i as u64);
        let ghost before = word;
        proof {
            packed_next(word, byte, i as u64);
        }
        word = word | ((byte as u64) << shift);
        proof {
            assert forall|k: u64| k < 8 && k < i + 1 implies #[trigger] lane(word, k) == bytes@[at + k] by {
                if k < i {
                    assert(lane(before, k) == bytes@[at + k]);
                    assert(k == 0 || k == 1 || k == 2 || k == 3 || k == 4 || k == 5 || k == 6);
                }
            }
        }
        i = i + 1;
    }
    word
}

/// One retained member head: the quoted key, the colon and the trivia after it,
/// with its first (up to) sixteen bytes as two words for a masked compare.
#[derive(Clone, Copy)]
pub struct Head {
    /// Source span of the head.
    pub span: ByteRange,
    /// Which demanded name the key is; `None` for an un-demanded key.
    pub slot: Option<usize>,
    /// First (up to) eight bytes.
    pub w0: u64,
    /// Next (up to) eight bytes.
    pub w1: u64,
}

impl Head {
    /// Whether the words are the head's first bytes.
    pub open spec fn wf(self, b: Seq<u8>) -> bool {
        &&& self.span.start <= self.span.end <= b.len()
        &&& holds_prefix(self.w0, b, self.span.start as int, self.span.end - self.span.start)
        &&& self.span.end - self.span.start > 8 ==> holds_prefix(
            self.w1,
            b,
            self.span.start + 8,
            self.span.end - self.span.start - 8,
        )
    }

    /// The head from `start` to its value at `val_start`.
    #[must_use]
    pub fn new(bytes: &[u8], start: usize, val_start: usize, slot: Option<usize>) -> (r: Head)
        requires
            start <= val_start <= bytes@.len(),
        ensures
            r.wf(bytes@),
            r.span.start == start,
            r.span.end == val_start,
            r.slot == slot,
    {
        let len: usize = val_start - start;
        let w0: u64 = prefix8(bytes, start, len);
        let w1: u64 = if len > 8 {
            prefix8(bytes, start + 8, len - 8)
        } else {
            0
        };
        Head { span: ByteRange { start, end: val_start }, slot, w0, w1 }
    }
}

/// Whether the bytes at `at` repeat the head.
pub open spec fn repeats(b: Seq<u8>, at: int, head: ByteRange) -> bool {
    &&& at + (head.end - head.start) <= b.len()
    &&& b.subrange(at, at + (head.end - head.start)) == b.subrange(head.start as int, head.end as int)
}

/// Compare the head at `span` with the bytes at `at`.
fn head_eq(bytes: &[u8], at: usize, span: ByteRange) -> (r: bool)
    requires
        span.start <= span.end <= bytes@.len(),
        at <= bytes@.len(),
    ensures
        r == repeats(bytes@, at as int, span),
{
    let len: usize = span.end - span.start;
    if len > bytes.len() - at {
        return false;
    }
    same_bytes(vstd::slice::slice_subrange(bytes, at, at + len), vstd::slice::slice_subrange(bytes, span.start, span.end))
}

/// Whether the bytes at `at` repeat `head`: its prefix words first, and the
/// rest only when the words agree and the head is longer than they hold.
#[must_use]
pub fn head_prefix_eq(head: &Head, bytes: &[u8], at: usize) -> (r: bool)
    requires
        head.wf(bytes@),
        at <= bytes@.len(),
    ensures
        r == repeats(bytes@, at as int, head.span),
{
    let len: usize = head.span.end - head.span.start;
    if len > bytes.len() - at {
        return false;
    }
    let cur0: u64 = prefix8(bytes, at, len);
    let ghost b = bytes@;
    let ghost there = b.subrange(at as int, at + len);
    let ghost kept = b.subrange(head.span.start as int, head.span.end as int);
    proof {
        masked_eq(cur0, head.w0, len as int);
    }
    if (cur0 ^ head.w0) & mask8(len) != 0 {
        proof {
            if there == kept {
                assert forall|k: u64| k < 8 && k < len implies #[trigger] lane(cur0, k) == lane(head.w0, k) by {
                    assert(there[k as int] == kept[k as int]);
                }
            }
        }
        return false;
    }
    if len > 8 {
        let cur1: u64 = prefix8(bytes, at + 8, len - 8);
        proof {
            masked_eq(cur1, head.w1, len - 8);
        }
        if (cur1 ^ head.w1) & mask8(len - 8) != 0 {
            proof {
                if there == kept {
                    assert forall|k: u64| k < 8 && k < len - 8 implies #[trigger] lane(cur1, k) == lane(head.w1, k) by {
                        assert(there[k + 8] == kept[k + 8]);
                    }
                }
            }
            return false;
        }
        if len > 16 {
            return head_eq(bytes, at, head.span);
        }
        proof {
            assert forall|i: int| 0 <= i < len implies there[i] == kept[i] by {
                if i < 8 {
                    assert(lane(cur0, i as u64) == lane(head.w0, i as u64));
                } else {
                    assert(lane(cur1, (i - 8) as u64) == lane(head.w1, (i - 8) as u64));
                }
            }
            assert(there =~= kept);
        }
        return true;
    }
    proof {
        assert forall|i: int| 0 <= i < len implies there[i] == kept[i] by {
            assert(lane(cur0, i as u64) == lane(head.w0, i as u64));
        }
        assert(there =~= kept);
    }
    true
}

/// Whether a head is the head of a plain member under RFC 8259: its key's text
/// is `name` and its value starts where it ends.
pub open spec fn heads(b: Seq<u8>, head: ByteRange, name: Seq<u8>) -> bool {
    &&& plain_end(b, head.start as int) is Some
    &&& b.subrange(head.start + 1, plain_end(b, head.start as int)->0 - 1) == name
    &&& after_colon(b, plain_end(b, head.start as int)->0, Dialect::Rfc8259) == Ok::<int, Error>(head.end as int)
}

/// A repeated head repeats each byte.
proof fn repeated_byte(b: Seq<u8>, at: int, head: ByteRange, i: int)
    requires
        0 <= at,
        head.start <= i < head.end <= b.len(),
        repeats(b, at, head),
    ensures
        b[i + (at - head.start)] == b[i],
{
    let n = head.end - head.start;
    assert(b.subrange(at, at + n)[i - head.start] == b.subrange(head.start as int, head.end as int)[i - head.start]);
}

/// A repeated head repeats its key.
proof fn repeated_key(b: Seq<u8>, at: int, head: ByteRange)
    requires
        0 <= at,
        head.start <= head.end <= b.len(),
        repeats(b, at, head),
        plain_end(b, head.start as int) is Some,
        plain_end(b, head.start as int)->0 <= head.end,
    ensures
        plain_end(b, at) == Some(plain_end(b, head.start as int)->0 + (at - head.start)),
        b.subrange(at + 1, plain_end(b, at)->0 - 1) == b.subrange(
            head.start + 1,
            plain_end(b, head.start as int)->0 - 1,
        ),
{
    let h = head.start as int;
    let d = at - h;
    run_end_facts::<PlainString>(b, h + 1);
    let r = run_end::<PlainString>(b, h + 1);
    assert forall|i: int| at + 1 <= i < r + d implies !PlainString::stops(#[trigger] b[i]) by {
        assert(!PlainString::stops(b[i - d]));
        repeated_byte(b, at, head, i - d);
    }
    repeated_byte(b, at, head, r);
    repeated_byte(b, at, head, h);
    run_end_is::<PlainString>(b, at + 1, r + d);
    let here = b.subrange(at + 1, r + d);
    let there = b.subrange(h + 1, r);
    assert forall|i: int| 0 <= i < r - h - 1 implies #[trigger] here[i] == there[i] by {
        repeated_byte(b, at, head, h + 1 + i);
    }
    assert(here =~= there);
}

/// A repeated head repeats its colon and the whitespace around it.
proof fn repeated_colon(b: Seq<u8>, at: int, head: ByteRange, e: int)
    requires
        0 <= at,
        head.start <= e <= head.end <= b.len(),
        repeats(b, at, head),
        after_colon(b, e, Dialect::Rfc8259) == Ok::<int, Error>(head.end as int),
        at + (head.end - head.start) < b.len(),
        b[at + (head.end - head.start)] > 0x20,
    ensures
        after_colon(b, e + (at - head.start), Dialect::Rfc8259) == Ok::<int, Error>(at + (head.end - head.start)),
{
    let d = at - head.start;
    run_end_facts::<Ws>(b, e);
    let c = run_end::<Ws>(b, e);
    run_end_facts::<Ws>(b, c + 1);
    assert forall|i: int| e + d <= i < c + d implies !Ws::stops(#[trigger] b[i]) by {
        assert(!Ws::stops(b[i - d]));
        repeated_byte(b, at, head, i - d);
    }
    repeated_byte(b, at, head, c);
    run_end_is::<Ws>(b, e + d, c + d);
    assert forall|i: int| c + 1 + d <= i < head.end + d implies !Ws::stops(#[trigger] b[i]) by {
        assert(!Ws::stops(b[i - d]));
        repeated_byte(b, at, head, i - d);
    }
    run_end_is::<Ws>(b, c + 1 + d, head.end + d);
}

/// Where a member repeats a retained head and a value byte follows, its key and
/// value start are the head's.
pub proof fn repeated_head(b: Seq<u8>, at: int, head: ByteRange, name: Seq<u8>)
    requires
        0 <= at,
        head.start <= head.end <= b.len(),
        heads(b, head, name),
        repeats(b, at, head),
        at + (head.end - head.start) < b.len(),
        b[at + (head.end - head.start)] > 0x20,
    ensures
        head.start < head.end,
        key_text(b, at, Dialect::Rfc8259) matches Ok((key_end, text)) && text == name && after_colon(
            b,
            key_end,
            Dialect::Rfc8259,
        ) == Ok::<int, Error>(at + (head.end - head.start)),
{
    let e = plain_end(b, head.start as int)->0;
    plain_is_text(b, head.start as int, Dialect::Rfc8259);
    run_end_facts::<Ws>(b, e);
    run_end_facts::<Ws>(b, run_end::<Ws>(b, e) + 1);
    repeated_key(b, at, head);
    plain_is_text(b, at, Dialect::Rfc8259);
    repeated_colon(b, at, head, e);
}

/// Retained shape of a row loop: the previous row's heads in order, and the
/// demanded names their slots stand for.
pub struct RowLayout {
    /// Heads of the previous row, in order.
    pub positional: Vec<Head>,
    /// Demanded names, by slot.
    pub names: Vec<Vec<u8>>,
}

impl RowLayout {
    /// Whether every retained head is a plain member's head whose slot says
    /// whether `wanted` holds of its name.
    pub open spec fn wf(self, b: Seq<u8>, wanted: spec_fn(Seq<u8>) -> bool) -> bool {
        forall|i: int| 0 <= i < self.positional@.len() ==> retained(b, #[trigger] self.positional@[i], self.names@, wanted)
    }

    /// An empty shape.
    pub fn new() -> (r: RowLayout)
        ensures
            r.positional@.len() == 0,
            r.names@.len() == 0,
    {
        RowLayout { positional: Vec::new(), names: Vec::new() }
    }

    /// Drop the retained shape: a new row loop reads another set of names.
    pub fn reset(&mut self)
        ensures
            final(self).positional@.len() == 0,
            final(self).names@.len() == 0,
    {
        self.positional.clear();
        self.names.clear();
    }
}

/// Whether one retained head is what it says.
pub open spec fn retained(b: Seq<u8>, head: Head, names: Seq<Vec<u8>>, wanted: spec_fn(Seq<u8>) -> bool) -> bool {
    &&& head.wf(b)
    &&& match head.slot {
        Some(k) => k < names.len() && heads(b, head.span, names[k as int]@) && wanted(names[k as int]@),
        None => exists|name: Seq<u8>| #[trigger] heads(b, head.span, name) && !wanted(name),
    }
}

} // verus!
