//! Written scalars read back as themselves.

use vstd::prelude::*;

use crate::ascii::{DOT, MINUS, RBRACE, RBRACKET, SLASH, SPACE, TAB, ZERO};
use crate::dialect::{Dialect, NonFinite};
use crate::encode::{line_break, non_finite_bytes, pretty_break, repeated, written, EncodeOptions, Indent};
use crate::error::Error;
use crate::laws::forms::{no_room, unbounded};
use crate::laws::strings::stands_at;
use crate::lex::number::{
    after_minus, after_sign, exponent_end, hex_digits_of, hex_prefix, infinity_text, integer_at, is_exponent_mark,
    json5_number_end, nan_text, non_finite_of, normalized, number_end, rfc_number_end, without_minus, without_plus,
};
use crate::lex::skip::{literal_text, starts_number};
use crate::lex::stop_sets::{is_digit, is_space, run_end, run_end_facts, run_end_is, Digits, StopSet, Ws};
use crate::lex::string::opens_string;
use crate::lex::ws::{token_end, trivia_end, trivia_end_here, trivia_skips_space};
use crate::number::{is_number, Num};
use crate::tape::{built_scalar, Room};
use crate::value::{well_formed, Json};

verus! {

/// A run of digits in a spelling that stands before a token boundary is the
/// same run in the source.
proof fn digits_stand(b: Seq<u8>, p: int, s: Seq<u8>, k: int, dialect: Dialect)
    requires
        stands_at(b, p, s),
        token_end(b, p + s.len(), dialect),
        0 <= k <= s.len(),
    ensures
        run_end::<Digits>(b, p + k) == p + run_end::<Digits>(s, k),
        k <= run_end::<Digits>(s, k) <= s.len(),
{
    run_end_facts::<Digits>(s, k);
    let e = run_end::<Digits>(s, k);
    assert forall|i: int| p + k <= i < p + e implies !Digits::stops(#[trigger] b[i]) by {
        assert(b[p + (i - p)] == s[i - p]);
        assert(!Digits::stops(s[i - p]));
    }
    if p + e < b.len() {
        if e < s.len() {
            assert(b[p + e] == s[e]);
        }
    }
    run_end_is::<Digits>(b, p + k, p + e);
}

/// An exponent of a spelling is the same exponent in the source.
proof fn exponent_stands(b: Seq<u8>, p: int, s: Seq<u8>, k: int, dialect: Dialect)
    requires
        stands_at(b, p, s),
        token_end(b, p + s.len(), dialect),
        0 <= k <= s.len(),
    ensures
        exponent_end(s, k) matches Ok(e) ==> exponent_end(b, p + k) == Ok::<int, Error>(p + e) && k <= e <= s.len(),
{
    if k < s.len() {
        assert(b[p + k] == s[k]);
        if is_exponent_mark(s[k]) {
            if k + 1 < s.len() {
                assert(b[p + (k + 1)] == s[k + 1]);
            }
            let d = after_sign(s, k + 1);
            assert(after_sign(b, p + k + 1) == p + d || d == s.len());
            digits_stand(b, p, s, d, dialect);
        }
    }
}

/// A number's spelling before a token boundary is lexed to its end.
proof fn number_stands(b: Seq<u8>, p: int, s: Seq<u8>, dialect: Dialect)
    requires
        stands_at(b, p, s),
        token_end(b, p + s.len(), dialect),
        is_number(s),
    ensures
        rfc_number_end(b, p, dialect) == Ok::<int, Error>(p + s.len()),
        s.len() > 0,
        s[0] == MINUS || is_digit(s[0]),
        after_minus(s, 0) < s.len(),
        is_digit(s[after_minus(s, 0)]),
        after_minus(b, p) == p + after_minus(s, 0),
        !hex_prefix(s, after_minus(s, 0)),
{
    let m = after_minus(s, 0);
    assert(b[p + 0] == s[0]);
    assert(b[p + m] == s[m]);
    digits_stand(b, p, s, m, dialect);
    let i = run_end::<Digits>(s, m);
    run_end_facts::<Digits>(s, m);
    if m + 1 < s.len() {
        assert(b[p + (m + 1)] == s[m + 1]);
    }
    if i < s.len() {
        assert(b[p + i] == s[i]);
    }
    if i < s.len() && s[i] == DOT {
        digits_stand(b, p, s, i + 1, dialect);
        let f = run_end::<Digits>(s, i + 1);
        exponent_stands(b, p, s, f, dialect);
    } else {
        exponent_stands(b, p, s, i, dialect);
    }
    if hex_prefix(s, m) {
        assert(i == m + 1) by {
            run_end_is::<Digits>(s, m, m + 1);
        }
    }
}

/// The same number under the JSON5 grammar.
proof fn json5_number_stands(b: Seq<u8>, p: int, s: Seq<u8>)
    requires
        stands_at(b, p, s),
        token_end(b, p + s.len(), Dialect::Json5),
        is_number(s),
    ensures
        json5_number_end(b, p, Dialect::Json5) == Ok::<int, Error>(p + s.len()),
        normalized(s) == s,
        non_finite_of(s) is None,
{
    number_stands(b, p, s, Dialect::Json5);
    let m = after_minus(s, 0);
    assert(b[p + 0] == s[0]);
    assert(b[p + m] == s[m]);
    assert(after_sign(b, p) == p + m);
    digits_stand(b, p, s, m, Dialect::Json5);
    run_end_facts::<Digits>(s, m);
    run_end_facts::<Digits>(b, p + m);
    let i = run_end::<Digits>(s, m);
    if m + 1 < s.len() {
        assert(b[p + (m + 1)] == s[m + 1]);
    }
    assert(!hex_prefix(b, p + m));
    if s[m] == ZERO && i > m + 1 {
        assert(!Digits::stops(s[m + 1]));
        assert(is_digit(s[m + 1]));
    }
    if i < s.len() {
        assert(b[p + i] == s[i]);
    }
    assert(!Digits::stops(s[m]));
    assert(i > m);
    let unsigned = without_plus(without_minus(s));
    assert(unsigned =~= s.skip(m)) by {
        assert(s.skip(m)[0] == s[m]);
    }
    assert(!hex_prefix(unsigned, 0)) by {
        if unsigned.len() > 1 {
            assert(unsigned[0] == s[m] && unsigned[1] == s[m + 1]);
        }
    }
    assert(hex_digits_of(s) is None);
    assert(s[0] != 0x49 && s[0] != 0x4e);
    assert(infinity_text()[0] == 0x49);
    assert(nan_text()[0] == 0x4e);
    if s == seq![MINUS] + infinity_text() {
        assert(s[1] == (seq![MINUS] + infinity_text())[1]);
    }
    if s == seq![MINUS] + nan_text() {
        assert(s[1] == (seq![MINUS] + nan_text())[1]);
    }
}

/// A written finite number reads back digit for digit.
pub proof fn finite_number_reads_back(b: Seq<u8>, p: int, s: Seq<u8>, dialect: Dialect)
    requires
        stands_at(b, p, s),
        token_end(b, p + s.len(), dialect),
        is_number(s),
    ensures
        built_scalar(b, p, unbounded(dialect), no_room()) == Ok::<(int, Json, Room), Error>(
            (p + s.len(), Json::Number(Num::Finite(s)), no_room()),
        ),
{
    reveal(built_scalar);
    number_stands(b, p, s, dialect);
    assert(b[p + 0] == s[0]);
    assert(b.subrange(p, p + s.len()) =~= s);
    if dialect == Dialect::Json5 {
        json5_number_stands(b, p, s);
    }
    assert(!opens_string(b[p], dialect));
    assert(starts_number(b[p], dialect));
}

/// The word of a number without a finite value, without its sign.
spec fn non_finite_word(value: NonFinite) -> Seq<u8> {
    if value == NonFinite::NaN {
        nan_text()
    } else {
        infinity_text()
    }
}

proof fn non_finite_spelling(value: NonFinite)
    ensures
        normalized(non_finite_bytes(value)) == non_finite_bytes(value),
        non_finite_of(non_finite_bytes(value)) == Some(value),
{
    let s = non_finite_bytes(value);
    let word = non_finite_word(value);
    if value == NonFinite::NegativeInfinity {
        assert(without_minus(s) =~= word);
        assert(s[0] == MINUS);
        assert(infinity_text()[0] == 0x49);
        assert(s != infinity_text());
    } else {
        assert(without_minus(s) =~= word);
    }
    if value == NonFinite::NaN {
        assert(s[0] == 0x4e);
        assert(infinity_text()[0] == 0x49);
        assert((seq![MINUS] + infinity_text())[0] == MINUS);
    }
    assert(without_plus(word) =~= word);
    assert(!hex_prefix(word, 0));
    assert(hex_digits_of(s) is None);
    assert(without_plus(s) =~= s);
}

proof fn non_finite_stands(b: Seq<u8>, p: int, value: NonFinite)
    requires
        stands_at(b, p, non_finite_bytes(value)),
        token_end(b, p + non_finite_bytes(value).len(), Dialect::Json5),
    ensures
        number_end(b, p, Dialect::Json5) == Ok::<int, Error>(p + non_finite_bytes(value).len()),
        !integer_at(b, p, Dialect::Json5),
        p < b.len(),
        starts_number(b[p], Dialect::Json5),
        !opens_string(b[p], Dialect::Json5),
{
    let s = non_finite_bytes(value);
    let word = non_finite_word(value);
    let m = s.len() - word.len();
    assert(s.skip(m) =~= word);
    assert(b[p + 0] == s[0]);
    assert(b[p + m] == s[m]);
    assert(s[m] == word[0]) by {
        assert(s.skip(m)[0] == s[m]);
    }
    assert(b.subrange(p + m, p + m + word.len()) =~= word) by {
        assert forall|i: int| 0 <= i < word.len() implies b[p + m + i] == word[i] by {
            assert(b[p + (m + i)] == s[m + i]);
            assert(s.skip(m)[i] == s[m + i]);
        }
    }
    assert(after_sign(b, p) == p + m);
    assert(after_minus(b, p) == p + m);
}

/// A written number without a finite value reads back under JSON5.
pub proof fn non_finite_reads_back(b: Seq<u8>, p: int, value: NonFinite)
    requires
        stands_at(b, p, non_finite_bytes(value)),
        token_end(b, p + non_finite_bytes(value).len(), Dialect::Json5),
    ensures
        built_scalar(b, p, unbounded(Dialect::Json5), no_room()) == Ok::<(int, Json, Room), Error>(
            (p + non_finite_bytes(value).len(), Json::Number(Num::NonFinite(value)), no_room()),
        ),
{
    reveal(built_scalar);
    let s = non_finite_bytes(value);
    non_finite_spelling(value);
    non_finite_stands(b, p, value);
    assert(b.subrange(p, p + s.len()) =~= s);
}

/// A written literal reads back.
pub proof fn literal_reads_back(b: Seq<u8>, p: int, j: Json, s: Seq<u8>, dialect: Dialect)
    requires
        j is Null || j is Bool,
        s == literal_text(
            match j {
                Json::Bool(flag) => if flag {
                    0x74u8
                } else {
                    0x66u8
                },
                _ => 0x6eu8,
            },
        ),
        stands_at(b, p, s),
        token_end(b, p + s.len(), dialect),
    ensures
        built_scalar(b, p, unbounded(dialect), no_room()) == Ok::<(int, Json, Room), Error>((p + s.len(), j, no_room())),
{
    reveal(built_scalar);
    assert(b[p + 0] == s[0]);
    assert(b.subrange(p, p + s.len()) =~= s);
}

/// Whitespace before a byte that is neither whitespace nor a comment is skipped
/// to that byte.
pub proof fn blanks_are_skipped(b: Seq<u8>, x: int, blanks: Seq<u8>, dialect: Dialect)
    requires
        stands_at(b, x, blanks),
        forall|i: int| 0 <= i < blanks.len() ==> is_space(#[trigger] blanks[i]),
        x + blanks.len() < b.len(),
        !is_space(b[x + blanks.len()]),
        b[x + blanks.len()] != SLASH,
    ensures
        trivia_end(b, x, dialect) == Ok::<int, Error>(x + blanks.len()),
{
    let y = x + blanks.len();
    assert forall|i: int| x <= i < y implies !Ws::stops(#[trigger] b[i]) by {
        assert(b[x + (i - x)] == blanks[i - x]);
    }
    run_end_is::<Ws>(b, x, y);
    trivia_skips_space(b, x, y, dialect);
    trivia_end_here(b, y, dialect);
}

/// A line break is made of whitespace.
pub proof fn breaks_are_blank(opts: EncodeOptions, depth: int)
    ensures
        forall|i: int| 0 <= i < pretty_break(opts, depth).len() ==> is_space(#[trigger] pretty_break(opts, depth)[i]),
{
    if opts.pretty {
        let s = line_break(opts.indent, depth);
        assert forall|i: int| 0 <= i < s.len() implies is_space(#[trigger] s[i]) by {
            if i > 0 {
                match opts.indent {
                    Indent::Spaces(n) => {
                        assert(s[i] == repeated(SPACE, (depth * n) as nat)[i - 1]);
                    },
                    Indent::Tab => {
                        assert(s[i] == repeated(TAB, depth as nat)[i - 1]);
                    },
                }
            }
        }
    }
}

/// How a written value starts: with no whitespace, comment, separator or closer.
pub proof fn written_start(j: Json, opts: EncodeOptions, depth: int)
    requires
        well_formed(j),
    ensures
        written(j, opts, depth) matches Ok(s) ==> s.len() > 0 && !is_space(s[0]) && s[0] != SLASH && s[0] != RBRACKET && s[0]
            != RBRACE && s[0] != crate::ascii::COMMA,
{
    match j {
        Json::Number(Num::Finite(s)) => {
            let none = Seq::<u8>::empty();
            assert(stands_at(s, 0, s));
            number_stands(s, 0, s, Dialect::Rfc8259);
        },
        Json::Number(Num::NonFinite(value)) => {
            assert(non_finite_bytes(value).len() > 0);
        },
        _ => {},
    }
}

} // verus!
