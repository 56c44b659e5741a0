//! Numbers that keep their authored digits.
//!
//! A finite number is its spelling, so `1.50` and `-0` survive a round trip.
//! Comparison is exact: spellings are compared as decimal numbers of any size.

use vstd::prelude::*;
use vstd::arithmetic::power::{lemma_pow0, lemma_pow1, lemma_pow_adds, lemma_pow_increases, lemma_pow_positive, pow};

use crate::ascii::{DOT, MINUS, PLUS, ZERO};
use crate::dialect::{Dialect, NonFinite};
use crate::error::Error;
use crate::lex::number::{after_minus, after_sign, digit_run_end, is_exponent_mark, lex_number, rfc_number_end};
use crate::lex::stop_sets::{is_digit, run_end, run_end_facts, Digits, StopSet};
use crate::text::{bytes_of, text_bytes, text_copy};

verus! {

/// Largest exponent magnitude of a number with an exact form; a larger one is no number.
/// It stands in for a bound that nothing here shows.
pub const MAX_EXPONENT: i64 = 1_000_000_000_000_000;

/// The digits of a finite number, as authored.
#[derive(Debug, PartialEq, Eq)]
pub struct Spelling {
    text: String,
}

impl Spelling {
    /// A spelling is always one [`Number::parse`] accepts.
    #[verifier::type_invariant]
    spec fn spells_a_number(self) -> bool {
        is_number(bytes_of(self.text))
    }

    /// The spelled bytes.
    pub closed spec fn spelled(self) -> Seq<u8> {
        bytes_of(self.text)
    }
}

/// A number: an authored spelling, or a value that has no finite one.
#[derive(Debug, PartialEq, Eq)]
pub enum Number {
    /// A finite number.
    Finite(Spelling),
    /// `Infinity`, `-Infinity` or `NaN`.
    NonFinite(NonFinite),
}

/// A number that is not one: the spelling is outside the grammar or its
/// exponent has no exact representation.
#[derive(Clone, Copy, Debug, PartialEq, Eq, Structural)]
pub struct NotANumber;

/// [`Number`] over byte sequences.
pub enum Num {
    /// A finite number's spelling.
    Finite(Seq<u8>),
    /// A number without a finite value.
    NonFinite(NonFinite),
}

impl View for Number {
    type V = Num;

    open spec fn view(&self) -> Num {
        match *self {
            Number::Finite(spelling) => Num::Finite(spelling.spelled()),
            Number::NonFinite(value) => Num::NonFinite(value),
        }
    }
}

/// The number decimal digits spell.
pub open spec fn digits_number(s: Seq<u8>) -> nat
    decreases s.len(),
{
    if s.len() == 0 {
        0
    } else {
        (digits_number(s.drop_last()) * 10 + (s.last() - ZERO)) as nat
    }
}

/// End of the integer digits of a spelling.
pub open spec fn whole_end(s: Seq<u8>) -> int {
    run_end::<Digits>(s, after_minus(s, 0))
}

/// End of the fraction of a spelling.
pub open spec fn fraction_end(s: Seq<u8>) -> int {
    let i = whole_end(s);
    if i < s.len() && s[i] == DOT {
        run_end::<Digits>(s, i + 1)
    } else {
        i
    }
}

/// Integer and fraction digits of a spelling, without the point.
pub open spec fn mantissa(s: Seq<u8>) -> Seq<u8> {
    let i = whole_end(s);
    let f = fraction_end(s);
    s.subrange(after_minus(s, 0), i) + (if f > i {
        s.subrange(i + 1, f)
    } else {
        Seq::empty()
    })
}

/// Exponent a spelling writes after its mantissa.
pub open spec fn written_exponent(s: Seq<u8>) -> int {
    let f = fraction_end(s);
    if f < s.len() && is_exponent_mark(s[f]) {
        let q = after_sign(s, f + 1);
        let magnitude = digits_number(s.subrange(q, run_end::<Digits>(s, q)));
        if f + 1 < s.len() && s[f + 1] == MINUS {
            -(magnitude as int)
        } else {
            magnitude as int
        }
    } else {
        0
    }
}

/// Power of ten the mantissa's last digit stands at.
pub open spec fn scale(s: Seq<u8>) -> int {
    let i = whole_end(s);
    let f = fraction_end(s);
    written_exponent(s) - (if f > i {
        f - i - 1
    } else {
        0
    })
}

/// Whether a spelling is a negative number.
pub open spec fn is_negative(s: Seq<u8>) -> bool {
    s.len() > 0 && s[0] == MINUS
}

/// Whether `s` spells a number this type holds: the RFC 8259 number grammar,
/// with an exponent that has an exact representation.
pub open spec fn is_number(s: Seq<u8>) -> bool {
    &&& rfc_number_end(s, 0, Dialect::Rfc8259) == Ok::<int, Error>(s.len() as int)
    &&& -MAX_EXPONENT <= written_exponent(s) <= MAX_EXPONENT
}

/// Which of two numbers is smaller.
#[derive(Clone, Copy, Debug, PartialEq, Eq, Structural)]
pub enum Order {
    /// The first is smaller.
    Less,
    /// Neither is smaller.
    Equal,
    /// The first is larger.
    Greater,
}

/// The order of two integers.
pub open spec fn order_of(a: int, b: int) -> Order {
    if a < b {
        Order::Less
    } else if a == b {
        Order::Equal
    } else {
        Order::Greater
    }
}

/// The order seen from the other side.
pub open spec fn reversed(order: Order) -> Order {
    match order {
        Order::Less => Order::Greater,
        Order::Equal => Order::Equal,
        Order::Greater => Order::Less,
    }
}

/// The order of `m1 * 10^e1` and `m2 * 10^e2`.
pub open spec fn scaled_order(m1: nat, e1: int, m2: nat, e2: int) -> Order {
    let low = if e1 < e2 {
        e1
    } else {
        e2
    };
    order_of(m1 * pow(10, (e1 - low) as nat), m2 * pow(10, (e2 - low) as nat))
}

/// The exact order of two spelled numbers. `-0` orders below `0`.
pub open spec fn spelled_order(a: Seq<u8>, b: Seq<u8>) -> Order {
    if is_negative(a) && !is_negative(b) {
        Order::Less
    } else if !is_negative(a) && is_negative(b) {
        Order::Greater
    } else {
        let magnitudes = scaled_order(digits_number(mantissa(a)), scale(a), digits_number(mantissa(b)), scale(b));
        if is_negative(a) {
            reversed(magnitudes)
        } else {
            magnitudes
        }
    }
}

/// The exact order of two numbers; nothing orders against `NaN`.
pub open spec fn num_order(a: Num, b: Num) -> Option<Order> {
    match (a, b) {
        (Num::NonFinite(NonFinite::NaN), _) | (_, Num::NonFinite(NonFinite::NaN)) => None,
        (Num::NonFinite(x), Num::NonFinite(y)) => if x == y {
            Some(Order::Equal)
        } else if x == NonFinite::NegativeInfinity {
            Some(Order::Less)
        } else {
            Some(Order::Greater)
        },
        (Num::NonFinite(x), Num::Finite(_)) => if x == NonFinite::NegativeInfinity {
            Some(Order::Less)
        } else {
            Some(Order::Greater)
        },
        (Num::Finite(_), Num::NonFinite(y)) => if y == NonFinite::NegativeInfinity {
            Some(Order::Greater)
        } else {
            Some(Order::Less)
        },
        (Num::Finite(x), Num::Finite(y)) => Some(spelled_order(x, y)),
    }
}

/// Digit `i` of a mantissa without its leading zeros, padded with zeros on the right.
spec fn padded(d: Seq<u8>, i: int) -> int {
    if i < d.len() {
        d[i] - ZERO
    } else {
        0
    }
}

spec fn all_digits(s: Seq<u8>) -> bool {
    forall|i: int| 0 <= i < s.len() ==> is_digit(#[trigger] s[i])
}

proof fn digits_number_bounds(s: Seq<u8>)
    requires
        all_digits(s),
    ensures
        digits_number(s) < pow(10, s.len()),
        s.len() > 0 && s[0] != ZERO ==> digits_number(s) >= pow(10, (s.len() - 1) as nat),
    decreases s.len(),
{
    lemma_pow0(10);
    if s.len() > 0 {
        let t = s.drop_last();
        assert forall|i: int| 0 <= i < t.len() implies is_digit(#[trigger] t[i]) by {
            assert(t[i] == s[i]);
        }
        digits_number_bounds(t);
        lemma_pow1(10);
        lemma_pow_adds(10, t.len(), 1);
        assert(is_digit(s.last()));
        if t.len() > 0 {
            lemma_pow_adds(10, (t.len() - 1) as nat, 1);
            assert(t[0] == s[0]);
        }
    }
}

/// Leading zeros do not change the number.
proof fn leading_zeros_add_nothing(s: Seq<u8>, k: int)
    requires
        0 <= k <= s.len(),
        forall|i: int| 0 <= i < k ==> #[trigger] s[i] == ZERO,
    ensures
        digits_number(s) == digits_number(s.skip(k)),
    decreases s.len(),
{
    if k == 0 {
        assert(s.skip(0) =~= s);
    } else if k == s.len() {
        assert(s.skip(k).len() == 0);
        let t = s.drop_last();
        leading_zeros_add_nothing(t, k - 1);
        assert(t.skip(k - 1).len() == 0);
        assert(s.last() == s[k - 1]);
    } else {
        let t = s.drop_last();
        leading_zeros_add_nothing(t, k);
        assert(t.skip(k) =~= s.skip(k).drop_last());
        assert(s.skip(k).last() == s.last());
    }
}

/// The number of the first `n` padded digits.
spec fn padded_number(d: Seq<u8>, n: nat) -> nat
    decreases n,
{
    if n == 0 {
        0
    } else {
        (padded_number(d, (n - 1) as nat) * 10 + padded(d, n - 1)) as nat
    }
}

proof fn padded_number_is(d: Seq<u8>, n: nat)
    requires
        all_digits(d),
    ensures
        n <= d.len() ==> padded_number(d, n) == digits_number(d.take(n as int)),
        n >= d.len() ==> padded_number(d, n) == digits_number(d) * pow(10, (n - d.len()) as nat),
    decreases n,
{
    lemma_pow0(10);
    if n == 0 {
        assert(d.take(0).len() == 0);
        if d.len() == 0 {
            assert(d.take(0) =~= d);
        }
    } else {
        padded_number_is(d, (n - 1) as nat);
        if n <= d.len() {
            let t = d.take(n as int);
            assert(t.drop_last() =~= d.take(n - 1));
            assert(t.last() == d[n - 1]);
            assert(is_digit(d[n - 1]));
            if n == d.len() {
                assert(t =~= d);
            }
        } else {
            lemma_pow1(10);
            lemma_pow_adds(10, (n - 1 - d.len()) as nat, 1);
            let p = pow(10, (n - 1 - d.len()) as nat);
            let v = digits_number(d) as int;
            assert((v * p) * 10 == v * (p * 10)) by (nonlinear_arith);
        }
    }
}

/// The first digit two padded digit strings differ in orders them.
proof fn first_difference_orders(a: Seq<u8>, b: Seq<u8>, i: nat, n: nat)
    requires
        all_digits(a),
        all_digits(b),
        i < n,
        forall|k: int| 0 <= k < i ==> #[trigger] padded(a, k) == padded(b, k),
        padded(a, i as int) < padded(b, i as int),
    ensures
        padded_number(a, n) < padded_number(b, n),
    decreases n,
{
    assert(0 <= padded(a, n - 1) <= 9 && 0 <= padded(b, n - 1) <= 9) by {
        if n - 1 < a.len() {
            assert(is_digit(a[n - 1]));
        }
        if n - 1 < b.len() {
            assert(is_digit(b[n - 1]));
        }
    }
    if n == i + 1 {
        equal_prefix(a, b, i);
    } else {
        first_difference_orders(a, b, i, (n - 1) as nat);
    }
}

proof fn equal_prefix(a: Seq<u8>, b: Seq<u8>, n: nat)
    requires
        forall|k: int| 0 <= k < n ==> #[trigger] padded(a, k) == padded(b, k),
    ensures
        padded_number(a, n) == padded_number(b, n),
    decreases n,
{
    if n > 0 {
        assert(padded(a, n - 1) == padded(b, n - 1));
        equal_prefix(a, b, (n - 1) as nat);
    }
}

/// A digit string that reaches a higher power of ten is the larger number.
proof fn higher_order_is_larger(a: Seq<u8>, e1: int, b: Seq<u8>, e2: int)
    requires
        all_digits(a),
        all_digits(b),
        b.len() > 0,
        b[0] != ZERO,
        a.len() + e1 < b.len() + e2,
    ensures
        scaled_order(digits_number(a), e1, digits_number(b), e2) == Order::Less,
        scaled_order(digits_number(b), e2, digits_number(a), e1) == Order::Greater,
{
    let low = if e1 < e2 {
        e1
    } else {
        e2
    };
    digits_number_bounds(a);
    digits_number_bounds(b);
    let p1 = pow(10, (e1 - low) as nat);
    let p2 = pow(10, (e2 - low) as nat);
    lemma_pow_positive(10, (e1 - low) as nat);
    lemma_pow_positive(10, (e2 - low) as nat);
    lemma_pow_adds(10, a.len(), (e1 - low) as nat);
    lemma_pow_adds(10, (b.len() - 1) as nat, (e2 - low) as nat);
    let q1 = pow(10, a.len());
    let q2 = pow(10, (b.len() - 1) as nat);
    lemma_pow_increases(10, (a.len() + e1 - low) as nat, (b.len() - 1 + e2 - low) as nat);
    let v1 = digits_number(a) as int;
    let v2 = digits_number(b) as int;
    assert(v1 * p1 < q1 * p1) by (nonlinear_arith)
        requires
            v1 < q1,
            p1 > 0,
    ;
    assert(q2 * p2 <= v2 * p2) by (nonlinear_arith)
        requires
            q2 <= v2,
            p2 > 0,
    ;
}

/// Digit strings that reach the same power of ten compare digit by digit.
proof fn same_order_compares_digits(a: Seq<u8>, e1: int, b: Seq<u8>, e2: int, n: nat)
    requires
        all_digits(a),
        all_digits(b),
        a.len() + e1 == b.len() + e2,
        n >= a.len(),
        n >= b.len(),
        n == a.len() || n == b.len(),
    ensures
        scaled_order(digits_number(a), e1, digits_number(b), e2) == order_of(
            padded_number(a, n) as int,
            padded_number(b, n) as int,
        ),
{
    padded_number_is(a, n);
    padded_number_is(b, n);
    lemma_pow0(10);
}

/// Position of the first mantissa digit that is not a zero.
fn significant(mantissa: &Vec<u8>) -> (r: usize)
    ensures
        r <= mantissa@.len(),
        forall|i: int| 0 <= i < r ==> #[trigger] mantissa@[i] == ZERO,
        r < mantissa@.len() ==> mantissa@[r as int] != ZERO,
{
    let mut i: usize = 0;
    while i < mantissa.len() && mantissa[i] == ZERO
        invariant
            i <= mantissa@.len(),
            forall|k: int| 0 <= k < i ==> #[trigger] mantissa@[k] == ZERO,
        decreases mantissa@.len() - i,
    {
        i = i + 1;
    }
    i
}

/// A digit of a mantissa past its leading zeros; zero past its end.
fn padded_digit(digits: &Vec<u8>, from: usize, i: usize) -> (r: u8)
    requires
        from <= digits@.len(),
        all_digits(digits@),
    ensures
        r == padded(digits@.skip(from as int), i as int),
{
    if i < digits.len() - from {
        assert(is_digit(digits@[from + i]));
        digits[from + i] - ZERO
    } else {
        0
    }
}

/// Compare two scaled mantissas exactly.
fn compare_scaled(a: &Vec<u8>, e1: i128, b: &Vec<u8>, e2: i128) -> (r: Order)
    requires
        all_digits(a@),
        all_digits(b@),
        -0x1_0000_0000_0000_0000_0000_0000 < e1 < 0x1_0000_0000_0000_0000_0000_0000,
        -0x1_0000_0000_0000_0000_0000_0000 < e2 < 0x1_0000_0000_0000_0000_0000_0000,
    ensures
        r == scaled_order(digits_number(a@), e1 as int, digits_number(b@), e2 as int),
{
    let i1: usize = significant(a);
    let i2: usize = significant(b);
    let n1: usize = a.len() - i1;
    let n2: usize = b.len() - i2;
    let ghost d1 = a@.skip(i1 as int);
    let ghost d2 = b@.skip(i2 as int);
    proof {
        leading_zeros_add_nothing(a@, i1 as int);
        leading_zeros_add_nothing(b@, i2 as int);
        assert forall|i: int| 0 <= i < d1.len() implies is_digit(#[trigger] d1[i]) by {
            assert(is_digit(a@[i + i1]));
        }
        assert forall|i: int| 0 <= i < d2.len() implies is_digit(#[trigger] d2[i]) by {
            assert(is_digit(b@[i + i2]));
        }
    }
    if n1 == 0 || n2 == 0 {
        let low: Ghost<int> = Ghost(
            if e1 < e2 {
                e1 as int
            } else {
                e2 as int
            },
        );
        proof {
            lemma_pow_positive(10, (e1 - low@) as nat);
            lemma_pow_positive(10, (e2 - low@) as nat);
            let p1 = pow(10, (e1 - low@) as nat);
            let p2 = pow(10, (e2 - low@) as nat);
            let v1 = digits_number(d1) as int;
            let v2 = digits_number(d2) as int;
            if n1 > 0 {
                digits_number_bounds(d1);
                lemma_pow_positive(10, (d1.len() - 1) as nat);
                assert(v1 * p1 > 0) by (nonlinear_arith)
                    requires
                        v1 > 0,
                        p1 > 0,
                ;
            } else {
                assert(v1 == 0);
                assert(v1 * p1 == 0) by (nonlinear_arith)
                    requires
                        v1 == 0,
                ;
            }
            if n2 > 0 {
                digits_number_bounds(d2);
                lemma_pow_positive(10, (d2.len() - 1) as nat);
                assert(v2 * p2 > 0) by (nonlinear_arith)
                    requires
                        v2 > 0,
                        p2 > 0,
                ;
            } else {
                assert(v2 == 0);
                assert(v2 * p2 == 0) by (nonlinear_arith)
                    requires
                        v2 == 0,
                ;
            }
        }
        return if n1 == 0 && n2 == 0 {
            Order::Equal
        } else if n1 == 0 {
            Order::Less
        } else {
            Order::Greater
        };
    }
    let o1: i128 = n1 as i128 + e1;
    let o2: i128 = n2 as i128 + e2;
    if o1 < o2 {
        proof {
            higher_order_is_larger(d1, e1 as int, d2, e2 as int);
        }
        return Order::Less;
    }
    if o1 > o2 {
        proof {
            higher_order_is_larger(d2, e2 as int, d1, e1 as int);
        }
        return Order::Greater;
    }
    let n: usize = if n1 > n2 {
        n1
    } else {
        n2
    };
    proof {
        same_order_compares_digits(d1, e1 as int, d2, e2 as int, n as nat);
    }
    let mut i: usize = 0;
    while i < n
        invariant
            i <= n,
            i1 <= a@.len(),
            i2 <= b@.len(),
            d1 == a@.skip(i1 as int),
            d2 == b@.skip(i2 as int),
            all_digits(a@),
            all_digits(b@),
            all_digits(d1),
            all_digits(d2),
            forall|k: int| 0 <= k < i ==> #[trigger] padded(d1, k) == padded(d2, k),
            scaled_order(digits_number(a@), e1 as int, digits_number(b@), e2 as int) == order_of(
                padded_number(d1, n as nat) as int,
                padded_number(d2, n as nat) as int,
            ),
        decreases n - i,
    {
        let x: u8 = padded_digit(a, i1, i);
        let y: u8 = padded_digit(b, i2, i);
        if x < y {
            proof {
                first_difference_orders(d1, d2, i as nat, n as nat);
            }
            return Order::Less;
        }
        if x > y {
            proof {
                first_difference_orders(d2, d1, i as nat, n as nat);
            }
            return Order::Greater;
        }
        i = i + 1;
    }
    proof {
        equal_prefix(d1, d2, n as nat);
    }
    Order::Equal
}

/// The number of a longer digit string is at least that of its prefix.
proof fn digits_number_grows(s: Seq<u8>, i: int)
    requires
        all_digits(s),
        0 <= i <= s.len(),
    ensures
        digits_number(s.take(i)) <= digits_number(s),
    decreases s.len() - i,
{
    if i == s.len() {
        assert(s.take(i) =~= s);
    } else {
        let t = s.drop_last();
        assert forall|k: int| 0 <= k < t.len() implies is_digit(#[trigger] t[k]) by {
            assert(t[k] == s[k]);
        }
        digits_number_grows(t, i);
        assert(t.take(i) =~= s.take(i));
        assert(is_digit(s.last()));
    }
}

/// The number the digits of `[from, to)` spell, when it is at most `limit`.
fn bounded_digits(bytes: &[u8], from: usize, to: usize, limit: u128) -> (r: Option<u128>)
    requires
        from <= to <= bytes@.len(),
        limit <= 0x8000_0000_0000_0000_0000_0000_0000_0000,
        all_digits(bytes@.subrange(from as int, to as int)),
    ensures
        (r is Some) == (digits_number(bytes@.subrange(from as int, to as int)) <= limit),
        r matches Some(v) ==> v == digits_number(bytes@.subrange(from as int, to as int)),
{
    let ghost s = bytes@.subrange(from as int, to as int);
    let mut v: u128 = 0;
    let mut i: usize = from;
    assert(s.take(0).len() == 0);
    while i < to
        invariant
            from <= i <= to <= bytes@.len(),
            s == bytes@.subrange(from as int, to as int),
            all_digits(s),
            v == digits_number(s.take(i - from)),
            v <= limit,
            limit <= 0x8000_0000_0000_0000_0000_0000_0000_0000,
        decreases to - i,
    {
        proof {
            let t = s.take(i + 1 - from);
            assert(t.drop_last() =~= s.take(i - from));
            assert(t.last() == bytes@[i as int]);
            assert(is_digit(s[i - from]));
            digits_number_grows(s, i + 1 - from);
        }
        let d: u128 = (bytes[i] - ZERO) as u128;
        if v > 0x0ccc_cccc_cccc_cccc_cccc_cccc_cccc_cccc || v * 10 + d > limit {
            return None;
        }
        v = v * 10 + d;
        i = i + 1;
    }
    assert(s.take(i - from) =~= s);
    Some(v)
}

proof fn digit_run_is_digits(s: Seq<u8>, from: int)
    requires
        0 <= from <= s.len(),
    ensures
        from <= run_end::<Digits>(s, from) <= s.len(),
        all_digits(s.subrange(from, run_end::<Digits>(s, from))),
{
    run_end_facts::<Digits>(s, from);
    let d = s.subrange(from, run_end::<Digits>(s, from));
    assert forall|i: int| 0 <= i < d.len() implies is_digit(#[trigger] d[i]) by {
        assert(!Digits::stops(s[from + i]));
    }
}

/// Where the fraction of a spelling ends, and where its integer digits end.
fn mantissa_ends(text: &[u8]) -> (r: (usize, usize, usize))
    ensures
        r.0 == after_minus(text@, 0),
        r.1 == whole_end(text@),
        r.2 == fraction_end(text@),
        r.0 <= r.1 <= r.2 <= text@.len(),
{
    let len: usize = text.len();
    let p: usize = if len > 0 && text[0] == MINUS {
        1
    } else {
        0
    };
    let i: usize = digit_run_end(text, p);
    let f: usize = if i < len && text[i] == DOT {
        digit_run_end(text, i + 1)
    } else {
        i
    };
    (p, i, f)
}

/// The exponent a spelling writes, when it has an exact representation.
fn exponent_of(text: &[u8], f: usize) -> (r: Option<i64>)
    requires
        f == fraction_end(text@),
        f <= text@.len(),
    ensures
        (r is Some) == (-MAX_EXPONENT <= written_exponent(text@) <= MAX_EXPONENT),
        r matches Some(e) ==> e == written_exponent(text@),
{
    let len: usize = text.len();
    if f < len && (text[f] == 0x65 || text[f] == 0x45) {
        let negative: bool = f + 1 < len && text[f + 1] == MINUS;
        let q: usize = if f + 1 < len && (text[f + 1] == PLUS || text[f + 1] == MINUS) {
            f + 2
        } else {
            f + 1
        };
        let end: usize = digit_run_end(text, q);
        proof {
            digit_run_is_digits(text@, q as int);
        }
        match bounded_digits(text, q, end, 1_000_000_000_000_000) {
            None => None,
            Some(v) => {
                let e: i64 = v as i64;
                if negative {
                    Some(-e)
                } else {
                    Some(e)
                }
            },
        }
    } else {
        Some(0)
    }
}

/// The mantissa digits of a number spelling and the power of ten they end at.
fn decimal_parts(text: &[u8]) -> (r: (Vec<u8>, i128))
    requires
        is_number(text@),
    ensures
        r.0@ == mantissa(text@),
        all_digits(r.0@),
        r.1 == scale(text@),
        -0x1_0000_0000_0000_0000_0000_0000 < r.1 < 0x1_0000_0000_0000_0000_0000_0000,
{
    let (p, i, f) = mantissa_ends(text);
    let exponent: i64 = match exponent_of(text, f) {
        Some(e) => e,
        None => 0,
    };
    proof {
        digit_run_is_digits(text@, p as int);
        if f > i {
            digit_run_is_digits(text@, i + 1);
        }
    }
    let mut digits: Vec<u8> = vstd::slice::slice_to_vec(vstd::slice::slice_subrange(text, p, i));
    if f > i {
        digits.extend_from_slice(vstd::slice::slice_subrange(text, i + 1, f));
    }
    assert(digits@ =~= mantissa(text@));
    proof {
        let whole = text@.subrange(p as int, i as int);
        let fraction = if f > i {
            text@.subrange(i + 1, f as int)
        } else {
            Seq::empty()
        };
        assert forall|k: int| 0 <= k < digits@.len() implies is_digit(#[trigger] digits@[k]) by {
            if k < whole.len() {
                assert(is_digit(whole[k]));
            } else {
                assert(is_digit(fraction[k - whole.len()]));
            }
        }
    }
    let places: usize = if f > i {
        f - i - 1
    } else {
        0
    };
    (digits, exponent as i128 - places as i128)
}

/// Compare two number spellings exactly.
fn compare_spelled(a: &[u8], b: &[u8]) -> (r: Order)
    requires
        is_number(a@),
        is_number(b@),
    ensures
        r == spelled_order(a@, b@),
{
    let n1: bool = a.len() > 0 && a[0] == MINUS;
    let n2: bool = b.len() > 0 && b[0] == MINUS;
    if n1 && !n2 {
        return Order::Less;
    }
    if !n1 && n2 {
        return Order::Greater;
    }
    let (d1, e1) = decimal_parts(a);
    let (d2, e2) = decimal_parts(b);
    let order: Order = compare_scaled(&d1, e1, &d2, e2);
    if n1 {
        match order {
            Order::Less => Order::Greater,
            Order::Equal => Order::Equal,
            Order::Greater => Order::Less,
        }
    } else {
        order
    }
}

/// The integer a plain spelling stands for: an optional minus and digits. `-0`
/// is none, and neither is a magnitude past 128 bits. Leading zeros are fine.
pub open spec fn plain_int(s: Seq<u8>) -> Option<int> {
    let p = after_minus(s, 0);
    let magnitude = digits_number(s.skip(p)) as int;
    if p >= s.len() || run_end::<Digits>(s, p) != s.len() || magnitude > i128::MAX || (p == 1 && magnitude == 0) {
        None
    } else if p == 1 {
        Some(-magnitude)
    } else {
        Some(magnitude)
    }
}

/// [`plain_int`] over source bytes, so an integer row compares without first
/// validating UTF-8.
pub fn plain_int_bytes(bytes: &[u8]) -> (r: Option<i128>)
    ensures
        match plain_int(bytes@) {
            Some(v) => r is Some && r->0 == v,
            None => r is None,
        },
{
    let len: usize = bytes.len();
    let p: usize = if len > 0 && bytes[0] == MINUS {
        1
    } else {
        0
    };
    if p >= len || digit_run_end(bytes, p) != len {
        return None;
    }
    proof {
        digit_run_is_digits(bytes@, p as int);
        assert(bytes@.subrange(p as int, len as int) =~= bytes@.skip(p as int));
    }
    match bounded_digits(bytes, p, len, 0x7fff_ffff_ffff_ffff_ffff_ffff_ffff_ffff) {
        None => None,
        Some(magnitude) => {
            let v: i128 = magnitude as i128;
            if p == 1 {
                if v == 0 {
                    None
                } else {
                    Some(-v)
                }
            } else {
                Some(v)
            }
        },
    }
}

/// Whether the bytes of `text` spell a number this type holds.
pub fn spells_number(text: &[u8]) -> (r: bool)
    ensures
        r == is_number(text@),
{
    let len: usize = text.len();
    match lex_number(text, 0, Dialect::Rfc8259) {
        Ok(end) => {
            if end != len {
                return false;
            }
        },
        Err(_) => {
            return false;
        },
    }
    let (_p, _i, f) = mantissa_ends(text);
    exponent_of(text, f).is_some()
}

impl Number {
    /// The number `text` spells.
    pub fn parse(text: &str) -> (r: Result<Number, NotANumber>)
        ensures
            (r is Ok) == is_number(vstd::utf8::encode_utf8(text@)),
            r matches Ok(n) ==> n@ == Num::Finite(vstd::utf8::encode_utf8(text@)),
    {
        Number::parse_bytes(text.as_bytes())
    }

    /// The number the bytes of `text` spell.
    pub fn parse_bytes(text: &[u8]) -> (r: Result<Number, NotANumber>)
        ensures
            (r is Ok) == is_number(text@),
            r matches Ok(n) ==> n@ == Num::Finite(text@),
    {
        if !spells_number(text) {
            return Err(NotANumber);
        }
        proof {
            number_is_ascii(text@);
            crate::lex::string::ascii_run_is_valid(text@);
        }
        Ok(Number::Finite(Spelling { text: text_copy(text) }))
    }

    /// The authored spelling; `None` for a number without a finite value.
    pub fn spelling(&self) -> (r: Option<&[u8]>)
        ensures
            match self@ {
                Num::Finite(s) => (r matches Some(text) && text@ == s && is_number(s)),
                Num::NonFinite(_) => r is None,
            },
    {
        match self {
            Number::Finite(spelling) => {
                proof {
                    use_type_invariant(spelling);
                }
                Some(text_bytes(&spelling.text))
            },
            Number::NonFinite(_) => None,
        }
    }

    /// The exact order of two numbers; nothing orders against `NaN`. `-0`
    /// orders below `0`.
    pub fn numeric_order(&self, other: &Number) -> (r: Option<Order>)
        ensures
            r == num_order(self@, other@),
    {
        match (self, other) {
            (Number::NonFinite(NonFinite::NaN), _) => None,
            (_, Number::NonFinite(NonFinite::NaN)) => None,
            (Number::NonFinite(x), Number::NonFinite(y)) => {
                if *x == *y {
                    Some(Order::Equal)
                } else if *x == NonFinite::NegativeInfinity {
                    Some(Order::Less)
                } else {
                    Some(Order::Greater)
                }
            },
            (Number::NonFinite(x), Number::Finite(_)) => {
                if *x == NonFinite::NegativeInfinity {
                    Some(Order::Less)
                } else {
                    Some(Order::Greater)
                }
            },
            (Number::Finite(_), Number::NonFinite(y)) => {
                if *y == NonFinite::NegativeInfinity {
                    Some(Order::Greater)
                } else {
                    Some(Order::Less)
                }
            },
            (Number::Finite(x), Number::Finite(y)) => {
                proof {
                    use_type_invariant(x);
                    use_type_invariant(y);
                }
                Some(compare_spelled(text_bytes(&x.text), text_bytes(&y.text)))
            },
        }
    }

    /// Whether two numbers are the same number, whatever their spellings.
    pub fn numeric_eq(&self, other: &Number) -> (r: bool)
        ensures
            r == (num_order(self@, other@) == Some(Order::Equal)),
    {
        match self.numeric_order(other) {
            Some(Order::Equal) => true,
            _ => false,
        }
    }
}

impl Clone for Number {
    fn clone(&self) -> (r: Number)
        ensures
            r@ == self@,
    {
        match self {
            Number::Finite(spelling) => {
                proof {
                    use_type_invariant(spelling);
                }
                Number::Finite(Spelling { text: spelling.text.clone() })
            },
            Number::NonFinite(value) => Number::NonFinite(*value),
        }
    }
}

/// A number's spelling is ASCII.
pub proof fn number_is_ascii(s: Seq<u8>)
    requires
        rfc_number_end(s, 0, Dialect::Rfc8259) == Ok::<int, Error>(s.len() as int),
    ensures
        forall|i: int| 0 <= i < s.len() ==> #[trigger] s[i] < 0x80,
{
    let p = after_minus(s, 0);
    run_end_facts::<Digits>(s, p);
    let i = run_end::<Digits>(s, p);
    assert forall|k: int| p <= k < i implies #[trigger] s[k] < 0x80 by {
        assert(!Digits::stops(s[k]));
    }
    let f = fraction_end(s);
    if i < s.len() && s[i] == DOT {
        run_end_facts::<Digits>(s, i + 1);
        assert forall|k: int| i < k < f implies #[trigger] s[k] < 0x80 by {
            assert(!Digits::stops(s[k]));
        }
    }
    if f < s.len() {
        let q = after_sign(s, f + 1);
        run_end_facts::<Digits>(s, q);
        assert forall|k: int| q <= k < s.len() implies #[trigger] s[k] < 0x80 by {
            assert(!Digits::stops(s[k]));
        }
    }
}

/// A number compares equal to itself.
pub proof fn spelled_order_reflexive(s: Seq<u8>)
    ensures
        spelled_order(s, s) == Order::Equal,
{
}

/// Comparing two numbers the other way round gives the reversed order.
pub proof fn spelled_order_antisymmetric(a: Seq<u8>, b: Seq<u8>)
    ensures
        spelled_order(b, a) == reversed(spelled_order(a, b)),
{
}

} // verus!
