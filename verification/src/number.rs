//! Numbers as IEEE-754 binary64 bit patterns, and the exact reading of
//! decimal literals into them.
//!
//! A non-negative binary64 value with bit pattern `b` is a whole multiple of
//! 2^-1074; `ulps(b)` is that multiple. It grows strictly with `b`, up to and
//! including the pattern of positive infinity, which stands for 2^1024. A
//! decimal literal is read as the pattern nearest to its value, ties going to
//! the even pattern.

use crate::bignat::{BigNat, Relation};
use vstd::prelude::*;

verus! {

/// The bit pattern of the binary64 value nearest to the circle constant.
pub const PI_BITS: u64 = 0x4009_21fb_5444_2d18;

/// The bit pattern of -1.
pub const MINUS_ONE_BITS: u64 = 0xbff0_0000_0000_0000;

/// The bit pattern of positive infinity.
pub const INFINITY_BITS: u64 = 0x7ff0_0000_0000_0000;

/// 2^52: the weight of the exponent field, and the implicit leading bit.
pub const HIDDEN_BIT: u64 = 0x0010_0000_0000_0000;

/// 2^n.
pub open spec fn exp2(n: nat) -> nat
    decreases n,
{
    if n == 0 {
        1
    } else {
        2 * exp2((n - 1) as nat)
    }
}

/// 10^n.
pub open spec fn exp10(n: nat) -> nat
    decreases n,
{
    if n == 0 {
        1
    } else {
        10 * exp10((n - 1) as nat)
    }
}

/// The significand of the pattern `b`, with the implicit bit of a normal value.
pub open spec fn mantissa(b: nat) -> nat {
    if b / 0x0010_0000_0000_0000 == 0 {
        b % 0x0010_0000_0000_0000
    } else {
        0x0010_0000_0000_0000 + b % 0x0010_0000_0000_0000
    }
}

/// The power of two, above 2^-1074, that one step of the significand of `b` is worth.
pub open spec fn binade(b: nat) -> nat {
    if b / 0x0010_0000_0000_0000 == 0 {
        0
    } else {
        (b / 0x0010_0000_0000_0000 - 1) as nat
    }
}

/// The value of the non-negative pattern `b`, in units of 2^-1074.
pub open spec fn ulps(b: nat) -> nat {
    mantissa(b) * exp2(binade(b))
}

/// Twice the midpoint between the pattern `b` and its successor, in units of 2^-1074.
pub open spec fn midpoint2(b: nat) -> nat {
    ulps(b) + ulps(b + 1)
}

/// The quotient `num / den`, taken in units of 2^-1074, rounds to the pattern
/// `b`: it lies between the midpoints on either side of `b`, on a midpoint only
/// if `b` is even, and beyond the last midpoint if `b` is infinity.
pub open spec fn rounds_to(num: nat, den: nat, b: nat) -> bool {
    &&& b <= INFINITY_BITS
    &&& b < INFINITY_BITS ==> (2 * num < midpoint2(b) * den || (2 * num == midpoint2(b) * den && b
        % 2 == 0))
    &&& b > 0 ==> (2 * num > midpoint2((b - 1) as nat) * den || (2 * num == midpoint2(
        (b - 1) as nat,
    ) * den && b % 2 == 0))
}

/// The pattern that `num / den`, taken in units of 2^-1074, rounds to.
pub open spec fn nearest_bits(num: nat, den: nat) -> u64 {
    choose|b: u64| rounds_to(num, den, b as nat)
}

/// A decimal digit.
pub open spec fn is_digit(c: char) -> bool {
    '0' <= c && c <= '9'
}

/// The number that the digit `c` stands for.
pub open spec fn digit_of(c: char) -> nat {
    (c as u32 - '0' as u32) as nat
}

/// How many decimal points `text` holds.
pub open spec fn dots(text: Seq<char>) -> nat
    decreases text.len(),
{
    if text.len() == 0 {
        0
    } else {
        dots(text.drop_last()) + if text.last() == '.' {
            1nat
        } else {
            0nat
        }
    }
}

/// How many digits `text` holds.
pub open spec fn digit_count(text: Seq<char>) -> nat
    decreases text.len(),
{
    if text.len() == 0 {
        0
    } else {
        digit_count(text.drop_last()) + if is_digit(text.last()) {
            1nat
        } else {
            0nat
        }
    }
}

/// How many digits of `text` stand behind a decimal point.
pub open spec fn fraction_digits(text: Seq<char>) -> nat
    decreases text.len(),
{
    if text.len() == 0 {
        0
    } else {
        fraction_digits(text.drop_last()) + if is_digit(text.last()) && dots(text.drop_last()) > 0 {
            1nat
        } else {
            0nat
        }
    }
}

/// The whole number that the digits of `text` spell, other characters passed over.
pub open spec fn digits_value(text: Seq<char>) -> nat
    decreases text.len(),
{
    if text.len() == 0 {
        0
    } else if is_digit(text.last()) {
        digits_value(text.drop_last()) * 10 + digit_of(text.last())
    } else {
        digits_value(text.drop_last())
    }
}

/// Every character of `text` is a digit or a decimal point.
pub open spec fn only_digits_and_dots(text: Seq<char>) -> bool {
    forall|i: int| 0 <= i < text.len() ==> is_digit(#[trigger] text[i]) || text[i] == '.'
}

/// `text` is a decimal literal: digits with at most one decimal point among
/// them, and at least one digit.
pub open spec fn is_literal(text: Seq<char>) -> bool {
    &&& only_digits_and_dots(text)
    &&& dots(text) <= 1
    &&& digit_count(text) >= 1
}

/// The binary64 pattern nearest to the value of the literal `text`, which is
/// `digits_value(text) / 10^fraction_digits(text)`: what the standard library
/// reads the same literal as.
pub open spec fn literal_bits(text: Seq<char>) -> u64 {
    nearest_bits(digits_value(text) * exp2(1074), exp10(fraction_digits(text)))
}

pub proof fn lemma_exp2_positive(n: nat)
    ensures
        exp2(n) > 0,
    decreases n,
{
    if n > 0 {
        lemma_exp2_positive((n - 1) as nat);
    }
}

pub proof fn lemma_exp10_positive(n: nat)
    ensures
        exp10(n) > 0,
    decreases n,
{
    if n > 0 {
        lemma_exp10_positive((n - 1) as nat);
    }
}

/// From one pattern to the next the value grows by one step of the significand.
pub proof fn lemma_ulps_step(b: nat)
    ensures
        ulps(b + 1) == ulps(b) + exp2(binade(b)),
{
    let h: nat = 0x0010_0000_0000_0000;
    let e = b / h;
    let f = b % h;
    let x = exp2(binade(b));
    if f + 1 < h {
        assert((b + 1) / h == e);
        assert((b + 1) % h == f + 1);
        assert(binade(b + 1) == binade(b));
        assert(mantissa(b + 1) == mantissa(b) + 1);
        assert((mantissa(b) + 1) * x == mantissa(b) * x + x) by (nonlinear_arith);
    } else {
        assert((b + 1) / h == e + 1);
        assert((b + 1) % h == 0);
        if e == 0 {
            assert(exp2(0) == 1);
            assert(mantissa(b) == f);
            assert(mantissa(b + 1) == h);
            assert(binade(b + 1) == 0);
            assert(f * 1 == f);
            assert(h * 1 == h);
        } else {
            assert(binade(b) == e - 1);
            assert(binade(b + 1) == e);
            assert(exp2(e) == 2 * x);
            assert(mantissa(b) == h + f);
            assert(mantissa(b + 1) == h);
            assert(h * (2 * x) == (h + f) * x + x) by (nonlinear_arith)
                requires
                    f + 1 == h,
            ;
        }
    }
}

/// A greater pattern stands for a greater value.
pub proof fn lemma_ulps_increasing(a: nat, b: nat)
    requires
        a <= b,
    ensures
        ulps(a) <= ulps(b),
        a < b ==> ulps(a) < ulps(b),
    decreases b - a,
{
    if a < b {
        lemma_ulps_increasing(a, (b - 1) as nat);
        lemma_ulps_step((b - 1) as nat);
        lemma_exp2_positive(binade((b - 1) as nat));
    }
}

proof fn lemma_scaled_order(a: nat, b: nat, d: nat)
    requires
        d > 0,
    ensures
        a <= b ==> a * d <= b * d,
        a < b ==> a * d < b * d,
{
    assert(a <= b ==> a * d <= b * d) by (nonlinear_arith)
        requires
            d > 0,
    ;
    assert(a < b ==> a * d < b * d) by (nonlinear_arith)
        requires
            d > 0,
    ;
}

proof fn lemma_rounding_ordered(num: nat, den: nat, a: nat, b: nat)
    requires
        den > 0,
        a <= b,
        rounds_to(num, den, a),
        rounds_to(num, den, b),
    ensures
        a == b,
{
    if a < b {
        let c = (b - 1) as nat;
        lemma_ulps_increasing(a, c);
        lemma_ulps_increasing(a + 1, b);
        if a < c {
            lemma_scaled_order(midpoint2(a), midpoint2(c), den);
        }
    }
}

/// A quotient rounds to one pattern only.
pub proof fn lemma_rounding_unique(num: nat, den: nat, a: nat, b: nat)
    requires
        den > 0,
        rounds_to(num, den, a),
        rounds_to(num, den, b),
    ensures
        a == b,
{
    if a <= b {
        lemma_rounding_ordered(num, den, a, b);
    } else {
        lemma_rounding_ordered(num, den, b, a);
    }
}

/// Whether `c` is a decimal digit.
pub fn is_decimal_digit(c: char) -> (r: bool)
    ensures
        r == is_digit(c),
{
    '0' <= c && c <= '9'
}

/// The significand and the binade of the pattern `b`.
fn split_bits(b: u64) -> (r: (u64, u64))
    requires
        b <= INFINITY_BITS,
    ensures
        r.0 == mantissa(b as nat),
        r.1 == binade(b as nat),
        r.0 < 0x0020_0000_0000_0000,
        r.1 <= 2046,
{
    let e = b / HIDDEN_BIT;
    let f = b % HIDDEN_BIT;
    if e == 0 {
        (f, 0)
    } else {
        (HIDDEN_BIT + f, e - 1)
    }
}

/// 2^(a + b) is 2^a times 2^b.
pub proof fn lemma_exp2_add(a: nat, b: nat)
    ensures
        exp2(a + b) == exp2(a) * exp2(b),
    decreases b,
{
    if b == 0 {
        assert(exp2(a) * 1 == exp2(a));
    } else {
        lemma_exp2_add(a, (b - 1) as nat);
        assert(exp2(a + b) == 2 * exp2((a + b - 1) as nat));
        assert(exp2(b) == 2 * exp2((b - 1) as nat));
        assert(2 * (exp2(a) * exp2((b - 1) as nat)) == exp2(a) * (2 * exp2((b - 1) as nat)))
            by (nonlinear_arith);
    }
}

/// 2^k, for a `k` that leaves it within 64 bits.
fn small_power(k: u64) -> (p: u64)
    requires
        k < 63,
    ensures
        p == exp2(k as nat),
{
    let mut p: u64 = 1;
    let mut i: u64 = 0;
    while i < k
        invariant
            i <= k < 63,
            p == exp2(i as nat),
        decreases k - i,
    {
        proof {
            let rest = exp2((63 - i) as nat);
            lemma_exp2_add(i as nat, (63 - i) as nat);
            lemma_exp2_63();
            lemma_exp2_positive((62 - i) as nat);
            assert(rest == 2 * exp2((62 - i) as nat));
            assert(p * 2 <= p * rest) by (nonlinear_arith)
                requires
                    rest >= 2,
                    p >= 0,
            ;
            assert(exp2((i + 1) as nat) == 2 * exp2(i as nat));
        }
        p = p * 2;
        i += 1;
    }
    p
}

/// The number `base * m * 2^shift`.
fn scale(base: &BigNat, m: u64, shift: u64) -> (r: BigNat)
    ensures
        r@ == base@ * m * exp2(shift as nat),
{
    let mut r = base.times_plus(m, 0);
    let mut done: u64 = 0;
    proof {
        assert(exp2(0) == 1);
        assert(base@ * m * 1 == base@ * m) by (nonlinear_arith);
    }
    while shift - done >= 63
        invariant
            done <= shift,
            r@ == base@ * m * exp2(done as nat),
        decreases shift - done,
    {
        r = r.times_plus(0x8000_0000_0000_0000, 0);
        proof {
            let x = exp2(done as nat);
            lemma_exp2_63();
            lemma_exp2_add(done as nat, 63);
            assert(base@ * m * x * 0x8000_0000_0000_0000 + 0 == base@ * m * (x
                * 0x8000_0000_0000_0000)) by (nonlinear_arith);
        }
        done += 63;
    }
    let last = small_power(shift - done);
    proof {
        let x = exp2(done as nat);
        let y = exp2((shift - done) as nat);
        lemma_exp2_add(done as nat, (shift - done) as nat);
        assert(base@ * m * x * y + 0 == base@ * m * (x * y)) by (nonlinear_arith);
    }
    r.times_plus(last, 0)
}

proof fn lemma_exp2_63()
    ensures
        exp2(63) == 0x8000_0000_0000_0000,
{
    reveal_with_fuel(exp2, 64);
}

/// The greatest pattern whose value does not exceed `num / den`, taken in
/// units of 2^-1074: found bit by bit, from the highest down.
fn floor_pattern(num: &BigNat, den: &BigNat) -> (cur: u64)
    requires
        den@ > 0,
    ensures
        cur <= INFINITY_BITS,
        ulps(cur as nat) * den@ <= num@,
        cur < INFINITY_BITS ==> ulps((cur + 1) as nat) * den@ > num@,
{
    let mut cur: u64 = 0;
    let mut width: u64 = 0x8000_0000_0000_0000;
    let ghost mut k: nat = 63;
    proof {
        lemma_exp2_63();
        assert(mantissa(0) == 0);
        assert(0 * exp2(binade(0)) == 0);
        assert(0 * den@ == 0);
    }
    while width > 1
        invariant
            den@ > 0,
            width == exp2(k),
            width >= 1,
            cur <= INFINITY_BITS,
            ulps(cur as nat) * den@ <= num@,
            forall|b: nat| cur + width <= b <= INFINITY_BITS ==> #[trigger] ulps(b) * den@ > num@,
        decreases width,
    {
        proof {
            if k == 0 {
                assert(exp2(0) == 1);
            }
            assert(exp2(k) == 2 * exp2((k - 1) as nat));
        }
        let half = width / 2;
        let cand = cur + half;
        let mut fits = false;
        if cand <= INFINITY_BITS {
            let parts = split_bits(cand);
            let reach = scale(den, parts.0, parts.1);
            proof {
                let m = parts.0 as nat;
                let x = exp2(parts.1 as nat);
                assert(den@ * m * x == (m * x) * den@) by (nonlinear_arith);
            }
            match reach.compare(num) {
                Relation::Above => {},
                _ => {
                    fits = true;
                },
            }
        }
        if fits {
            cur = cand;
        } else {
            proof {
                assert forall|b: nat| cand <= b <= INFINITY_BITS implies #[trigger] ulps(b)
                    * den@ > num@ by {
                    lemma_ulps_increasing(cand as nat, b);
                    lemma_scaled_order(ulps(cand as nat), ulps(b), den@);
                }
            }
        }
        width = half;
        proof {
            k = (k - 1) as nat;
        }
    }
    cur
}

/// What lies between a pattern's value and the midpoints on either side of it.
proof fn lemma_midpoints_around(b: nat, den: nat)
    requires
        den > 0,
    ensures
        2 * (ulps(b) * den) < midpoint2(b) * den,
        b > 0 ==> midpoint2((b - 1) as nat) * den < 2 * (ulps(b) * den),
{
    lemma_ulps_increasing(b, b + 1);
    lemma_scaled_order(2 * ulps(b), midpoint2(b), den);
    assert((2 * ulps(b)) * den == 2 * (ulps(b) * den)) by (nonlinear_arith);
    if b > 0 {
        let p = (b - 1) as nat;
        lemma_ulps_increasing(p, b);
        lemma_scaled_order(midpoint2(p), 2 * ulps(b), den);
    }
}

/// The greatest pattern up to `hi` whose value does not exceed `num / den`.
proof fn lemma_floor_exists(num: nat, den: nat, hi: nat) -> (c: nat)
    requires
        den > 0,
        hi <= INFINITY_BITS,
    ensures
        c <= hi,
        ulps(c) * den <= num,
        c < hi ==> ulps(c + 1) * den > num,
    decreases hi,
{
    if hi == 0 {
        assert(mantissa(0) == 0);
        assert(0 * exp2(binade(0)) == 0);
        assert(0 * den == 0);
        0
    } else {
        let c = lemma_floor_exists(num, den, (hi - 1) as nat);
        if c == hi - 1 && ulps(hi) * den <= num {
            hi
        } else {
            c
        }
    }
}

/// Every quotient rounds to a pattern, and `nearest_bits` is that pattern.
pub proof fn lemma_nearest_bits_rounds(num: nat, den: nat)
    requires
        den > 0,
    ensures
        rounds_to(num, den, nearest_bits(num, den) as nat),
{
    let c = lemma_floor_exists(num, den, INFINITY_BITS as nat);
    lemma_midpoints_around(c, den);
    let b = if c == INFINITY_BITS {
        c
    } else if 2 * num < midpoint2(c) * den || (2 * num == midpoint2(c) * den && c % 2 == 0) {
        c
    } else {
        (c + 1) as nat
    };
    if c < INFINITY_BITS {
        lemma_midpoints_around(c + 1, den);
    }
    assert(rounds_to(num, den, (b as u64) as nat));
}

/// Rounds `num / den`, taken in units of 2^-1074, to the nearest pattern.
fn round_to_nearest(num: &BigNat, den: &BigNat) -> (r: u64)
    requires
        den@ > 0,
    ensures
        rounds_to(num@, den@, r as nat),
{
    let cur = floor_pattern(num, den);
    proof {
        lemma_midpoints_around(cur as nat, den@);
    }
    if cur == INFINITY_BITS {
        return cur;
    }
    let parts = split_bits(cur);
    let middle = scale(den, 2 * parts.0 + 1, parts.1);
    let twice = num.times_plus(2, 0);
    let next = cur + 1;
    proof {
        let m = parts.0 as nat;
        let x = exp2(parts.1 as nat);
        let d = den@;
        lemma_ulps_step(cur as nat);
        assert(midpoint2(cur as nat) == m * x + (m * x + x));
        assert(d * (2 * m + 1) * x == (m * x + (m * x + x)) * d) by (nonlinear_arith);
        assert(middle@ == midpoint2(cur as nat) * d);
        assert(twice@ == 2 * num@);
        lemma_midpoints_around(next as nat, d);
    }
    match twice.compare(&middle) {
        Relation::Below => cur,
        Relation::Above => next,
        Relation::Same => if cur % 2 == 0 {
            cur
        } else {
            next
        },
    }
}

/// Reads the characters of `chars` from `from` up to `to` as a decimal literal.
///
/// Returns the binary64 pattern nearest to the literal's value, or `None` where
/// the characters are no literal.
pub fn parse_literal(chars: &Vec<char>, from: usize, to: usize) -> (r: Option<u64>)
    requires
        from <= to <= chars.len(),
    ensures
        r == if is_literal(chars@.subrange(from as int, to as int)) {
            Some(literal_bits(chars@.subrange(from as int, to as int)))
        } else {
            None
        },
{
    let ghost text = chars@.subrange(from as int, to as int);
    let mut digits = BigNat::from_small(0);
    let mut den = BigNat::from_small(1);
    let mut dot_count: usize = 0;
    let mut digit_seen = false;
    let mut clean = true;
    let mut i: usize = from;
    proof {
        assert(chars@.subrange(from as int, from as int) =~= Seq::<char>::empty());
    }
    while i < to
        invariant
            from <= i <= to <= chars.len(),
            digits@ == digits_value(chars@.subrange(from as int, i as int)),
            den@ == exp10(fraction_digits(chars@.subrange(from as int, i as int))),
            dot_count == dots(chars@.subrange(from as int, i as int)),
            dot_count <= i - from,
            digit_seen == (digit_count(chars@.subrange(from as int, i as int)) >= 1),
            clean == only_digits_and_dots(chars@.subrange(from as int, i as int)),
        decreases to - i,
    {
        let c = chars[i];
        let ghost before = chars@.subrange(from as int, i as int);
        let ghost after = chars@.subrange(from as int, i + 1);
        proof {
            assert(after.drop_last() =~= before);
            assert(after.last() == c);
            assert(forall|j: int| 0 <= j < before.len() ==> before[j] == after[j]);
            if only_digits_and_dots(after) {
                assert forall|j: int| 0 <= j < before.len() implies is_digit(#[trigger] before[j])
                    || before[j] == '.' by {
                    assert(is_digit(after[j]) || after[j] == '.');
                }
            }
        }
        if c == '.' {
            dot_count += 1;
        } else if is_decimal_digit(c) {
            let d: u64 = (c as u32 - '0' as u32) as u64;
            digits = digits.times_plus(10, d);
            if dot_count > 0 {
                den = den.times_plus(10, 0);
            }
            digit_seen = true;
        } else {
            clean = false;
            proof {
                assert(!(is_digit(after[i - from]) || after[i - from] == '.'));
            }
        }
        i += 1;
    }
    proof {
        assert(chars@.subrange(from as int, i as int) == text);
    }
    if !clean || dot_count > 1 || !digit_seen {
        return None;
    }
    let num = scale(&digits, 1, 1074);
    proof {
        assert(digits@ * 1 * exp2(1074) == digits_value(text) * exp2(1074)) by (nonlinear_arith)
            requires
                digits@ == digits_value(text),
        ;
    }
    proof {
        lemma_exp10_positive(fraction_digits(text));
    }
    let bits = round_to_nearest(&num, &den);
    proof {
        let chosen = nearest_bits(num@, den@);
        assert(rounds_to(num@, den@, bits as nat));
        lemma_rounding_unique(num@, den@, bits as nat, chosen as nat);
    }
    Some(bits)
}

} // verus!
