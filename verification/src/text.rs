//! UTF-8 text: checking, decoding one scalar, encoding one scalar.

use vstd::prelude::*;
use vstd::utf8::{encode_scalar, encode_utf8, is_scalar, valid_utf8};

verus! {

/// Whether `n` is the length of the longest valid UTF-8 prefix of `s`.
pub open spec fn is_valid_up_to(s: Seq<u8>, n: int) -> bool {
    &&& 0 <= n <= s.len()
    &&& valid_utf8(s.take(n))
    &&& forall|m: int| n < m <= s.len() ==> !valid_utf8(#[trigger] s.take(m))
}

/// Length of the longest valid UTF-8 prefix.
pub open spec fn valid_up_to(s: Seq<u8>) -> int {
    choose|n: int| is_valid_up_to(s, n)
}

/// The longest valid prefix is one length.
pub proof fn valid_up_to_is(s: Seq<u8>, n: int)
    requires
        is_valid_up_to(s, n),
    ensures
        valid_up_to(s) == n,
{
    let m = valid_up_to(s);
    assert(is_valid_up_to(s, m));
    if m < n {
        assert(!valid_utf8(s.take(n)));
    } else if n < m {
        assert(!valid_utf8(s.take(m)));
    }
}

/// [`core::str::from_utf8`]: the text when `bytes` is valid UTF-8, and otherwise
/// the length `valid_up_to` reports, which is the longest valid prefix.
#[verifier::external_body]
fn checked_utf8(bytes: &[u8]) -> (r: Result<&str, usize>)
    ensures
        r matches Ok(text) ==> valid_utf8(bytes@) && encode_utf8(text@) == bytes@,
        r matches Err(n) ==> !valid_utf8(bytes@) && is_valid_up_to(bytes@, n as int),
{
    core::str::from_utf8(bytes).map_err(|e| e.valid_up_to())
}

/// [`String::from_utf8`]: valid UTF-8 bytes as a string that holds exactly them.
#[verifier::external_body]
fn owned_utf8(bytes: Vec<u8>) -> (r: String)
    requires
        valid_utf8(bytes@),
    ensures
        encode_utf8(r@) == bytes@,
{
    String::from_utf8(bytes).expect("valid UTF-8")
}

/// The text [`String::from_utf8_lossy`] gives for bytes: invalid sequences are
/// replaced by `U+FFFD`.
pub uninterp spec fn lossy(bytes: Seq<u8>) -> Seq<char>;

/// [`String::from_utf8_lossy`]: the text [`lossy`] names, which is the bytes
/// themselves when they are valid UTF-8.
#[verifier::external_body]
fn lossy_utf8(bytes: &[u8]) -> (r: String)
    ensures
        r@ == lossy(bytes@),
        valid_utf8(bytes@) ==> encode_utf8(r@) == bytes@,
{
    String::from_utf8_lossy(bytes).into_owned()
}

/// The UTF-8 bytes of the text bytes stand for, invalid sequences replaced.
pub open spec fn lossy_bytes(bytes: Seq<u8>) -> Seq<u8> {
    if valid_utf8(bytes) {
        bytes
    } else {
        encode_utf8(lossy(bytes))
    }
}

/// The text bytes stand for, invalid sequences replaced.
pub fn text_lossy(bytes: &[u8]) -> (r: String)
    ensures
        bytes_of(r) == lossy_bytes(bytes@),
{
    lossy_utf8(bytes)
}

/// The UTF-8 bytes a string holds.
pub open spec fn bytes_of(text: String) -> Seq<u8> {
    encode_utf8(text@)
}

/// The UTF-8 bytes of each of several strings.
pub open spec fn names_of(texts: Seq<String>) -> Seq<Seq<u8>> {
    texts.map_values(|t: String| bytes_of(t))
}

/// Valid UTF-8 bytes as a string.
pub fn text_from(bytes: Vec<u8>) -> (r: String)
    requires
        valid_utf8(bytes@),
    ensures
        bytes_of(r) == bytes@,
{
    owned_utf8(bytes)
}

/// Valid UTF-8 bytes copied into a string.
pub fn text_copy(bytes: &[u8]) -> (r: String)
    requires
        valid_utf8(bytes@),
    ensures
        bytes_of(r) == bytes@,
{
    text_from(vstd::slice::slice_to_vec(bytes))
}

/// The bytes of a string.
pub fn text_bytes(text: &String) -> (r: &[u8])
    ensures
        r@ == bytes_of(*text),
{
    text.as_str().as_bytes()
}

/// Whether two byte slices hold the same bytes.
pub fn same_bytes(a: &[u8], b: &[u8]) -> (r: bool)
    ensures
        r == (a@ == b@),
{
    if a.len() != b.len() {
        return false;
    }
    let mut i: usize = 0;
    while i < a.len()
        invariant
            a@.len() == b@.len(),
            i <= a@.len(),
            forall|k: int| 0 <= k < i ==> #[trigger] a@[k] == b@[k],
        decreases a@.len() - i,
    {
        if a[i] != b[i] {
            return false;
        }
        i = i + 1;
    }
    assert(a@ =~= b@);
    true
}

/// A copy of several names.
pub fn copy_names(names: &[String]) -> (r: Vec<String>)
    ensures
        names_of(r@) == names_of(names@),
        r@.len() == names@.len(),
{
    let mut out: Vec<String> = Vec::new();
    let mut i: usize = 0;
    while i < names.len()
        invariant
            i <= names@.len(),
            out@.len() == i,
            forall|k: int| 0 <= k < i ==> (#[trigger] out@[k])@ == names@[k]@,
        decreases names@.len() - i,
    {
        out.push(names[i].clone());
        i = i + 1;
    }
    assert(names_of(out@) =~= names_of(names@));
    out
}

/// Length of the longest valid UTF-8 prefix when `bytes` is not valid as a whole.
pub fn utf8_prefix(bytes: &[u8]) -> (r: Option<usize>)
    ensures
        r is None == valid_utf8(bytes@),
        r matches Some(n) ==> n == valid_up_to(bytes@) && n <= bytes@.len(),
{
    match checked_utf8(bytes) {
        Ok(_) => None,
        Err(n) => {
            proof {
                valid_up_to_is(bytes@, n as int);
            }
            Some(n)
        },
    }
}

/// Append the UTF-8 encoding of `scalar`.
pub fn push_scalar(out: &mut Vec<u8>, scalar: u32)
    requires
        is_scalar(scalar),
    ensures
        final(out)@ == old(out)@ + encode_scalar(scalar),
{
    if scalar <= 0x7f {
        out.push((scalar & 0x7f) as u8);
    } else if scalar <= 0x7ff {
        out.push(0xc0 | ((scalar >> 6) & 0x1f) as u8);
        out.push(0x80 | (scalar & 0x3f) as u8);
    } else if scalar <= 0xffff {
        out.push(0xe0 | ((scalar >> 12) & 0x0f) as u8);
        out.push(0x80 | ((scalar >> 6) & 0x3f) as u8);
        out.push(0x80 | (scalar & 0x3f) as u8);
    } else {
        out.push(0xf0 | ((scalar >> 18) & 0x7) as u8);
        out.push(0x80 | ((scalar >> 12) & 0x3f) as u8);
        out.push(0x80 | ((scalar >> 6) & 0x3f) as u8);
        out.push(0x80 | (scalar & 0x3f) as u8);
    }
    assert(out@ =~= old(out)@ + encode_scalar(scalar));
}

} // verus!
