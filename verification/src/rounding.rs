//! Binary rounding in integers: what a floating-point unit computes, without
//! the floating-point unit.
//!
//! A positive number is held as a mantissa and a power of two. Rounding keeps
//! the mantissa between `least` and twice `least`, which is what a fixed count
//! of significant bits means, and goes to the nearest such number, with ties to
//! the even mantissa.
use vstd::arithmetic::power2::*;
use vstd::bits::*;
use vstd::prelude::*;

verus! {

/// The least mantissa of a double-precision number: 53 significant bits.
pub const DOUBLE: u64 = 0x10_0000_0000_0000;

/// The least mantissa of a single-precision number: 24 significant bits.
pub const SINGLE: u64 = 0x80_0000;

/// The number `mant * 2^exp`.
pub struct Dyadic {
    pub mant: nat,
    pub exp: int,
}

/// The integer nearest to `n / d`, the even one where two are equally near.
pub open spec fn nearest(n: nat, d: nat) -> nat {
    if 2 * (n % d) < d || (2 * (n % d) == d && (n / d) % 2 == 0) {
        n / d
    } else {
        n / d + 1
    }
}

/// How far `n / d` is from having a quotient between `least` and `2 * least`.
pub open spec fn misfit(n: nat, d: nat, least: nat) -> nat {
    if n < least * d {
        (least * d - n) as nat
    } else if n >= 2 * (least * d) {
        (n - 2 * (least * d) + 1) as nat
    } else {
        0
    }
}

/// The number `n / d * 2^exp`, rounded to the precision that `least` gives.
/// The fraction is scaled by twos until its quotient is a mantissa; the
/// quotient is then rounded to an integer.
pub open spec fn round_to(n: nat, d: nat, least: nat, exp: int) -> Dyadic
    recommends
        n > 0,
        d > 0,
        least > 0,
    decreases misfit(n, d, least),
{
    proof {
        assert(least * (2 * d) == 2 * (least * d)) by (nonlinear_arith);
        assert(least > 0 && d > 0 ==> least * d > 0) by (nonlinear_arith);
    }
    if n == 0 || d == 0 || least == 0 {
        Dyadic { mant: 0, exp }
    } else if n < least * d {
        round_to(2 * n, d, least, exp - 1)
    } else if n >= 2 * (least * d) {
        round_to(n, 2 * d, least, exp + 1)
    } else {
        Dyadic { mant: nearest(n, d), exp }
    }
}

/// The integer part of a number.
pub open spec fn whole(x: Dyadic) -> nat {
    if x.exp >= 0 {
        x.mant * pow2(x.exp as nat)
    } else {
        x.mant / pow2((-x.exp) as nat)
    }
}

/// A rounded number.
#[derive(Clone, Copy)]
pub struct Rounded {
    pub mant: u64,
    pub exp: i32,
}

impl View for Rounded {
    type V = Dyadic;

    open spec fn view(&self) -> Dyadic {
        Dyadic { mant: self.mant as nat, exp: self.exp as int }
    }
}

/// Rounds `n / d * 2^exp`.
pub fn round_quotient(n: u64, d: u64, least: u64, exp: i32) -> (r: Rounded)
    requires
        n > 0,
        d > 0,
        0 < least <= DOUBLE,
        -1_000_000 <= exp <= 1_000_000,
    ensures
        r@ == round_to(n as nat, d as nat, least as nat, exp as int),
        least <= r.mant <= 2 * least,
        exp - 128 <= r.exp <= exp + 128,
{
    let ghost goal = round_to(n as nat, d as nat, least as nat, exp as int);
    let mut num: u128 = n as u128;
    let mut den: u128 = d as u128;
    let mut e: i32 = exp;
    assert(0 < least * d <= DOUBLE * u64::MAX) by (nonlinear_arith)
        requires
            0 < least <= DOUBLE,
            0 < d <= u64::MAX,
    ;
    // The least numerator whose quotient by `den` is a mantissa.
    let mut bound: u128 = least as u128 * d as u128;
    let ghost mut ups: nat = 0;
    proof {
        lemma2_to64();
    }
    while num < bound
        invariant
            num > 0,
            least > 0,
            0 < den == d,
            bound == least * den,
            0 < bound <= DOUBLE * u64::MAX,
            num < 2 * bound || num == n,
            num >= pow2(ups),
            e == exp - ups,
            ups <= 128,
            -1_000_000 <= exp <= 1_000_000,
            round_to(num as nat, den as nat, least as nat, e as int) == goal,
        decreases 2 * bound - num,
    {
        proof {
            lemma_steps_bounded(ups);
            lemma_pow2_unfold(ups + 1);
        }
        num = num * 2;
        e = e - 1;
        proof {
            ups = ups + 1;
        }
    }
    let ghost mut downs: nat = 0;
    while num >= 2 * bound
        invariant
            least > 0,
            0 < den,
            bound == least * den,
            0 < bound <= num,
            bound <= DOUBLE * u64::MAX,
            num <= u64::MAX || num < 2 * bound,
            den >= pow2(downs),
            ups <= 128,
            e == exp - ups + downs,
            downs <= 128,
            -1_000_000 <= exp <= 1_000_000,
            round_to(num as nat, den as nat, least as nat, e as int) == goal,
        decreases num - bound,
    {
        proof {
            assert(den <= bound) by (nonlinear_arith)
                requires
                    bound == least * den,
                    least > 0,
            ;
            lemma_steps_bounded(downs);
            lemma_pow2_unfold(downs + 1);
            assert(least * (2 * den) == 2 * (least * den)) by (nonlinear_arith);
        }
        den = den * 2;
        bound = bound * 2;
        e = e + 1;
        proof {
            downs = downs + 1;
        }
    }
    assert(den <= bound) by (nonlinear_arith)
        requires
            bound == least * den,
            least > 0,
    ;
    let quotient: u128 = num / den;
    let remainder: u128 = num % den;
    proof {
        lemma_quotient_bounds(num as nat, den as nat, least as nat);
    }
    if 2 * remainder < den || (2 * remainder == den && quotient % 2 == 0) {
        Rounded { mant: quotient as u64, exp: e }
    } else {
        Rounded { mant: (quotient + 1) as u64, exp: e }
    }
}

/// The integer part of a rounded number, or the largest integer where it is
/// larger still.
pub fn whole_part(x: Rounded) -> (w: u64)
    requires
        x.mant > 0,
        x.exp > i32::MIN,
    ensures
        w == if whole(x@) <= u64::MAX { whole(x@) } else { u64::MAX as nat },
{
    if x.exp >= 0 {
        let mut m: u64 = x.mant;
        let mut e: i32 = x.exp;
        while e > 0
            invariant
                m > 0,
                e >= 0,
                x.exp >= 0,
                m * pow2(e as nat) == whole(x@),
            decreases e,
        {
            proof {
                lemma_pow2_unfold(e as nat);
                lemma_pow2_pos((e - 1) as nat);
                assert(m * pow2(e as nat) == (2 * m) * pow2((e - 1) as nat)) by (nonlinear_arith)
                    requires
                        pow2(e as nat) == 2 * pow2((e - 1) as nat),
                ;
            }
            if m > u64::MAX / 2 {
                assert((2 * m) * pow2((e - 1) as nat) >= 2 * m) by (nonlinear_arith)
                    requires
                        pow2((e - 1) as nat) >= 1,
                ;
                return u64::MAX;
            }
            m = m * 2;
            e = e - 1;
        }
        proof {
            lemma2_to64();
        }
        m
    } else {
        let shift: u32 = (-x.exp) as u32;
        proof {
            lemma_pow2_pos(shift as nat);
            lemma2_to64();
        }
        if shift >= 64 {
            proof {
                if shift > 64 {
                    lemma_pow2_strictly_increases(64, shift as nat);
                }
                vstd::arithmetic::div_mod::lemma_basic_div(x.mant as int, pow2(shift as nat) as int);
            }
            0
        } else {
            proof {
                lemma_u64_shr_is_div(x.mant, shift as u64);
                vstd::arithmetic::div_mod::lemma_div_is_ordered_by_denominator(
                    x.mant as int,
                    1,
                    pow2(shift as nat) as int,
                );
            }
            x.mant >> (shift as u64)
        }
    }
}

/// A power of two no larger than the largest product of a mantissa and a
/// denominator has a small exponent.
proof fn lemma_steps_bounded(steps: nat)
    requires
        pow2(steps) <= DOUBLE * u64::MAX,
    ensures
        steps < 128,
{
    lemma2_to64();
    lemma_pow2_adds(64, 64);
    if steps > 128 {
        lemma_pow2_strictly_increases(128, steps);
    }
}

/// The quotient of a fraction that fits the precision is a mantissa.
proof fn lemma_quotient_bounds(n: nat, d: nat, least: nat)
    requires
        d > 0,
        least * d <= n < 2 * (least * d),
    ensures
        least <= n / d < 2 * least,
        n % d < d,
{
    assert(least <= n / d < 2 * least) by (nonlinear_arith)
        requires
            d > 0,
            least * d <= n < 2 * (least * d),
    ;
}

/// Whether one number is no larger than another.
pub open spec fn no_larger(a: Dyadic, b: Dyadic) -> bool {
    if a.exp <= b.exp {
        a.mant <= b.mant * pow2((b.exp - a.exp) as nat)
    } else {
        a.mant * pow2((a.exp - b.exp) as nat) <= b.mant
    }
}

/// Rounding keeps to the precision.
pub proof fn law_rounding_keeps_precision(n: nat, d: nat, least: nat, exp: int)
    requires
        n > 0,
        d > 0,
        least > 0,
    ensures
        least <= round_to(n, d, least, exp).mant <= 2 * least,
    decreases misfit(n, d, least),
{
    assert(least * (2 * d) == 2 * (least * d)) by (nonlinear_arith);
    assert(least * d > 0) by (nonlinear_arith)
        requires
            least > 0,
            d > 0,
    ;
    if n < least * d {
        law_rounding_keeps_precision(2 * n, d, least, exp - 1);
    } else if n >= 2 * (least * d) {
        law_rounding_keeps_precision(n, 2 * d, least, exp + 1);
    } else {
        lemma_quotient_bounds(n, d, least);
    }
}

proof fn lemma_nearest_scaled(n: nat, d: nat)
    requires
        d > 0,
    ensures
        nearest(2 * n, 2 * d) == nearest(n, d),
{
    vstd::arithmetic::div_mod::lemma_fundamental_div_mod(n as int, d as int);
    let q = n / d;
    let r = n % d;
    assert(2 * n == (2 * d) * q + 2 * r) by (nonlinear_arith)
        requires
            n == d * q + r,
    ;
    vstd::arithmetic::div_mod::lemma_fundamental_div_mod_converse(
        (2 * n) as int,
        (2 * d) as int,
        q as int,
        (2 * r) as int,
    );
}

/// A fraction can be extended by two.
proof fn lemma_extended(n: nat, d: nat, least: nat, exp: int)
    requires
        n > 0,
        d > 0,
        least > 0,
    ensures
        round_to(2 * n, 2 * d, least, exp) == round_to(n, d, least, exp),
    decreases misfit(n, d, least),
{
    assert(least * (2 * d) == 2 * (least * d)) by (nonlinear_arith);
    assert(least * d > 0) by (nonlinear_arith)
        requires
            least > 0,
            d > 0,
    ;
    if n < least * d {
        lemma_extended(2 * n, d, least, exp - 1);
    } else if n >= 2 * (least * d) {
        lemma_extended(n, 2 * d, least, exp + 1);
    } else {
        lemma_nearest_scaled(n, d);
    }
}

/// A factor of two can be moved from the power to the numerator.
proof fn lemma_numerator_doubled(n: nat, d: nat, least: nat, exp: int)
    requires
        n > 0,
        d > 0,
        least > 0,
    ensures
        round_to(2 * n, d, least, exp - 1) == round_to(n, d, least, exp),
    decreases misfit(n, d, least),
{
    assert(least * (2 * d) == 2 * (least * d)) by (nonlinear_arith);
    if n >= least * d {
        assert(round_to(2 * n, d, least, exp - 1) == round_to(2 * n, 2 * d, least, exp));
        lemma_extended(n, d, least, exp);
    }
}

/// A factor of two can be moved from the denominator to the power.
proof fn lemma_denominator_doubled(n: nat, d: nat, least: nat, exp: int)
    requires
        n > 0,
        d > 0,
        least > 0,
    ensures
        round_to(n, 2 * d, least, exp + 1) == round_to(n, d, least, exp),
{
    lemma_numerator_doubled(n, 2 * d, least, exp + 1);
    lemma_extended(n, d, least, exp);
}

/// A fraction below twice the least mantissa does not round to a larger power.
proof fn lemma_power_not_raised(n: nat, d: nat, least: nat, exp: int)
    requires
        n > 0,
        d > 0,
        least > 0,
        n < 2 * (least * d),
    ensures
        round_to(n, d, least, exp).exp <= exp,
    decreases misfit(n, d, least),
{
    if n < least * d {
        lemma_power_not_raised(2 * n, d, least, exp - 1);
    }
}

proof fn lemma_nearest_monotonic(n1: nat, n2: nat, d: nat)
    requires
        n1 <= n2,
        d > 0,
    ensures
        nearest(n1, d) <= nearest(n2, d),
{
    vstd::arithmetic::div_mod::lemma_fundamental_div_mod(n1 as int, d as int);
    vstd::arithmetic::div_mod::lemma_fundamental_div_mod(n2 as int, d as int);
    vstd::arithmetic::div_mod::lemma_div_is_ordered(n1 as int, n2 as int, d as int);
    if n1 / d == n2 / d {
        assert(n1 % d <= n2 % d);
    }
}

/// Rounding keeps the order of fractions with the same denominator.
proof fn lemma_round_monotonic(n1: nat, n2: nat, d: nat, least: nat, exp: int)
    requires
        0 < n1 <= n2,
        d > 0,
        least > 0,
    ensures
        no_larger(round_to(n1, d, least, exp), round_to(n2, d, least, exp)),
    decreases misfit(n2, d, least),
{
    assert(least * (2 * d) == 2 * (least * d)) by (nonlinear_arith);
    assert(least * d > 0) by (nonlinear_arith)
        requires
            least > 0,
            d > 0,
    ;
    if n2 < least * d {
        lemma_round_monotonic(2 * n1, 2 * n2, d, least, exp - 1);
    } else if n2 >= 2 * (least * d) {
        lemma_round_monotonic(n1, n2, 2 * d, least, exp + 1);
        lemma_denominator_doubled(n1, d, least, exp);
    } else {
        let small = round_to(n1, d, least, exp);
        let large = round_to(n2, d, least, exp);
        lemma2_to64();
        if n1 >= least * d {
            lemma_nearest_monotonic(n1, n2, d);
            assert(large.mant * pow2(0) == large.mant) by (nonlinear_arith)
                requires
                    pow2(0) == 1,
            ;
        } else {
            lemma_power_not_raised(2 * n1, d, least, exp - 1);
            law_rounding_keeps_precision(n1, d, least, exp);
            law_rounding_keeps_precision(n2, d, least, exp);
            let gap = (large.exp - small.exp) as nat;
            lemma_pow2_unfold(gap);
            lemma_pow2_pos((gap - 1) as nat);
            assert(large.mant * pow2(gap) >= least * 2) by (nonlinear_arith)
                requires
                    large.mant >= least,
                    pow2(gap) >= 2,
            ;
        }
    }
}

/// Any factor of two can be moved from the power to the numerator.
proof fn lemma_numerator_scaled(n: nat, d: nat, least: nat, exp: int, k: nat)
    requires
        n > 0,
        d > 0,
        least > 0,
    ensures
        n * pow2(k) > 0,
        round_to(n * pow2(k), d, least, exp - k) == round_to(n, d, least, exp),
    decreases k,
{
    if k == 0 {
        lemma2_to64();
    } else {
        lemma_numerator_scaled(n, d, least, exp, (k - 1) as nat);
        let m = n * pow2((k - 1) as nat);
        lemma_numerator_doubled(m, d, least, exp - (k - 1));
        lemma_pow2_unfold(k);
        assert(n * pow2(k) == 2 * m) by (nonlinear_arith)
            requires
                pow2(k) == 2 * pow2((k - 1) as nat),
                m == n * pow2((k - 1) as nat),
        ;
    }
}

/// Rounding keeps the order of numbers: of two numbers over the same
/// denominator, the smaller does not round to the larger result.
pub proof fn law_rounding_keeps_order(a: Dyadic, b: Dyadic, d: nat, least: nat, exp: int)
    requires
        a.mant > 0,
        b.mant > 0,
        d > 0,
        least > 0,
        no_larger(a, b),
    ensures
        no_larger(
            round_to(a.mant, d, least, a.exp + exp),
            round_to(b.mant, d, least, b.exp + exp),
        ),
{
    if a.exp <= b.exp {
        let k = (b.exp - a.exp) as nat;
        lemma_numerator_scaled(b.mant, d, least, b.exp + exp, k);
        lemma_round_monotonic(a.mant, b.mant * pow2(k), d, least, a.exp + exp);
    } else {
        let k = (a.exp - b.exp) as nat;
        lemma_numerator_scaled(a.mant, d, least, a.exp + exp, k);
        lemma_round_monotonic(a.mant * pow2(k), b.mant, d, least, b.exp + exp);
    }
}

/// A number as a multiple of `2^-places`, where that is a whole multiple.
pub open spec fn scaled(x: Dyadic, places: nat) -> nat {
    x.mant * pow2((x.exp + places) as nat)
}

/// The integer part is what remains when the places are cut off.
pub(crate) proof fn lemma_whole_of_scaled(x: Dyadic, places: nat)
    requires
        x.exp + places >= 0,
    ensures
        pow2(places) > 0,
        whole(x) == scaled(x, places) / pow2(places),
{
    let p = pow2(places);
    lemma_pow2_pos(places);
    if x.exp >= 0 {
        lemma_pow2_adds(x.exp as nat, places);
        let w = whole(x);
        assert(scaled(x, places) == w * p) by (nonlinear_arith)
            requires
                scaled(x, places) == x.mant * (pow2(x.exp as nat) * p),
                w == x.mant * pow2(x.exp as nat),
        ;
        vstd::arithmetic::div_mod::lemma_div_by_multiple(w as int, p as int);
    } else {
        let up = pow2((x.exp + places) as nat);
        let down = pow2((-x.exp) as nat);
        lemma_pow2_adds((x.exp + places) as nat, (-x.exp) as nat);
        lemma_pow2_pos((x.exp + places) as nat);
        lemma_pow2_pos((-x.exp) as nat);
        vstd::arithmetic::div_mod::lemma_div_denominator(
            scaled(x, places) as int,
            up as int,
            down as int,
        );
        vstd::arithmetic::div_mod::lemma_div_by_multiple(x.mant as int, up as int);
    }
}

/// Numbers are in the same order as their multiples.
proof fn lemma_scaled_monotonic(a: Dyadic, b: Dyadic, places: nat)
    requires
        no_larger(a, b),
        a.exp + places >= 0,
        b.exp + places >= 0,
    ensures
        scaled(a, places) <= scaled(b, places),
{
    let pa = pow2((a.exp + places) as nat);
    let pb = pow2((b.exp + places) as nat);
    if a.exp <= b.exp {
        let k = pow2((b.exp - a.exp) as nat);
        lemma_pow2_adds((b.exp - a.exp) as nat, (a.exp + places) as nat);
        assert(a.mant * pa <= b.mant * (k * pa)) by (nonlinear_arith)
            requires
                a.mant <= b.mant * k,
        ;
    } else {
        let k = pow2((a.exp - b.exp) as nat);
        lemma_pow2_adds((a.exp - b.exp) as nat, (b.exp + places) as nat);
        assert(a.mant * (k * pb) <= b.mant * pb) by (nonlinear_arith)
            requires
                a.mant * k <= b.mant,
        ;
    }
}

/// The larger of two numbers does not have the smaller integer part.
pub proof fn law_whole_keeps_order(a: Dyadic, b: Dyadic)
    requires
        no_larger(a, b),
    ensures
        whole(a) <= whole(b),
{
    let places: nat = if a.exp < 0 {
        if b.exp < a.exp {
            (-b.exp) as nat
        } else {
            (-a.exp) as nat
        }
    } else if b.exp < 0 {
        (-b.exp) as nat
    } else {
        0
    };
    lemma_whole_of_scaled(a, places);
    lemma_whole_of_scaled(b, places);
    lemma_scaled_monotonic(a, b, places);
    vstd::arithmetic::div_mod::lemma_div_is_ordered(
        scaled(a, places) as int,
        scaled(b, places) as int,
        pow2(places) as int,
    );
}

/// What a number has to be multiplied with, in powers of two, to be whole.
pub open spec fn places_of(x: Dyadic) -> nat {
    if x.exp < 0 {
        (-x.exp) as nat
    } else {
        0
    }
}

/// The distance of two numbers.
pub open spec fn distance(a: int, b: int) -> int {
    if a < b {
        b - a
    } else {
        a - b
    }
}

proof fn lemma_nearest_error(n: nat, d: nat)
    requires
        d > 0,
    ensures
        2 * distance((nearest(n, d) * d) as int, n as int) <= d,
{
    vstd::arithmetic::div_mod::lemma_fundamental_div_mod(n as int, d as int);
    let q = n / d;
    let r = n % d;
    assert(q * d == d * q) by (nonlinear_arith);
    assert((q + 1) * d == d * q + d) by (nonlinear_arith);
}

/// Rounding is off by at most half a unit in the last place, which is the part
/// of the number that `2 * least` gives.
pub proof fn law_rounding_error(n: nat, d: nat, least: nat, exp: int, places: nat)
    requires
        n > 0,
        d > 0,
        least > 0,
        exp + places >= 0,
        round_to(n, d, least, exp).exp + places >= 0,
    ensures
        2 * least * distance(
            (scaled(round_to(n, d, least, exp), places) * d) as int,
            (n * pow2((exp + places) as nat)) as int,
        ) <= n * pow2((exp + places) as nat),
    decreases misfit(n, d, least),
{
    assert(least * (2 * d) == 2 * (least * d)) by (nonlinear_arith);
    assert(least * d > 0) by (nonlinear_arith)
        requires
            least > 0,
            d > 0,
    ;
    let r = round_to(n, d, least, exp);
    let p = pow2((exp + places) as nat);
    let s = scaled(r, places);
    if n < least * d {
        lemma_power_not_raised(2 * n, d, least, exp - 1);
        law_rounding_error(2 * n, d, least, exp - 1, places);
        lemma_pow2_unfold((exp + places) as nat);
        let half = pow2((exp - 1 + places) as nat);
        assert((2 * n) * half == n * p) by (nonlinear_arith)
            requires
                p == 2 * half,
        ;
    } else if n >= 2 * (least * d) {
        law_rounding_error(n, 2 * d, least, exp + 1, places);
        lemma_pow2_unfold((exp + 1 + places) as nat);
        let twice = pow2((exp + 1 + places) as nat);
        assert(n * twice == 2 * (n * p)) by (nonlinear_arith)
            requires
                twice == 2 * p,
        ;
        assert(s * (2 * d) == 2 * (s * d)) by (nonlinear_arith);
        let off = distance((s * d) as int, (n * p) as int);
        assert(distance((s * (2 * d)) as int, (n * twice) as int) == 2 * off);
        assert(2 * least * (2 * off) == 2 * (2 * least * off)) by (nonlinear_arith);
    } else {
        let m = nearest(n, d);
        lemma_nearest_error(n, d);
        let off = distance((m * d) as int, n as int);
        assert(s * d == (m * d) * p) by (nonlinear_arith)
            requires
                s == m * p,
        ;
        let md = m * d;
        assert(distance((md * p) as int, (n * p) as int) == off * p) by {
            if md < n {
                assert((n - md) * p == n * p - md * p) by (nonlinear_arith);
                assert(md * p <= n * p) by (nonlinear_arith)
                    requires
                        md < n,
                ;
            } else {
                assert((md - n) * p == md * p - n * p) by (nonlinear_arith);
                assert(md * p >= n * p) by (nonlinear_arith)
                    requires
                        md >= n,
                ;
            }
        }
        assert(2 * least * (off * p) <= n * p) by (nonlinear_arith)
            requires
                2 * off <= d,
                least * d <= n,
                off >= 0,
                least > 0,
        ;
    }
}

/// An error that is a part of its number stays that part of it when both are
/// multiplied.
pub(crate) proof fn lemma_error_extended(d: int, x: int, y: int, factor: int)
    requires
        d > 0,
        factor >= 0,
        d * distance(x, y) <= y,
    ensures
        d * distance(x * factor, y * factor) <= y * factor,
{
    let off = distance(x, y);
    assert(distance(x * factor, y * factor) == off * factor) by {
        if x < y {
            assert((y - x) * factor == y * factor - x * factor) by (nonlinear_arith);
            assert((y - x) * factor >= 0) by (nonlinear_arith)
                requires
                    x < y,
                    factor >= 0,
            ;
        } else {
            assert((x - y) * factor == x * factor - y * factor) by (nonlinear_arith);
            assert((x - y) * factor >= 0) by (nonlinear_arith)
                requires
                    x >= y,
                    factor >= 0,
            ;
        }
    }
    assert(d * (off * factor) <= y * factor) by (nonlinear_arith)
        requires
            d * off <= y,
            factor >= 0,
    ;
}

/// What an error means for the number that has it.
pub(crate) proof fn lemma_within(d: int, x: int, y: int)
    requires
        d > 0,
        d * distance(x, y) <= y,
    ensures
        y * (d - 1) <= d * x <= y * (d + 1),
{
    let off = distance(x, y);
    assert(d * (x - y) <= d * off && d * (y - x) <= d * off) by (nonlinear_arith)
        requires
            d > 0,
            x - y <= off,
            y - x <= off,
    ;
    assert(d * (x - y) == d * x - d * y) by (nonlinear_arith);
    assert(d * (y - x) == d * y - d * x) by (nonlinear_arith);
    assert(y * (d + 1) == d * y + y) by (nonlinear_arith);
    assert(y * (d - 1) == d * y - y) by (nonlinear_arith);
}

/// Any factor of two can be moved from the denominator to the power.
proof fn lemma_denominator_scaled(n: nat, d: nat, least: nat, exp: int, k: nat)
    requires
        n > 0,
        d > 0,
        least > 0,
    ensures
        d * pow2(k) > 0,
        round_to(n, d * pow2(k), least, exp + k) == round_to(n, d, least, exp),
    decreases k,
{
    if k == 0 {
        lemma2_to64();
    } else {
        lemma_denominator_scaled(n, d, least, exp, (k - 1) as nat);
        let m = d * pow2((k - 1) as nat);
        lemma_denominator_doubled(n, m, least, exp + (k - 1));
        lemma_pow2_unfold(k);
        assert(d * pow2(k) == 2 * m) by (nonlinear_arith)
            requires
                pow2(k) == 2 * pow2((k - 1) as nat),
                m == d * pow2((k - 1) as nat),
        ;
    }
}

/// A fraction is scaled by powers of two until its quotient is a mantissa; its
/// mantissa is then the integer nearest to the quotient, and of two that are
/// equally near the even one. However the fraction was scaled, the power tells.
pub proof fn law_rounding_is_nearest(
    n: nat,
    d: nat,
    least: nat,
    exp: int,
    up: nat,
    down: nat,
)
    requires
        n > 0,
        d > 0,
        least > 0,
        least * (d * pow2(down)) <= n * pow2(up) < 2 * (least * (d * pow2(down))),
    ensures
        ({
            let r = round_to(n, d, least, exp);
            let denominator = d * pow2(down) as int;
            let off = n * pow2(up) - r.mant * denominator;
            &&& r.exp == exp - up + down
            &&& -denominator <= 2 * off <= denominator
            &&& 2 * off == denominator || 2 * off == -denominator ==> r.mant % 2 == 0
        }),
{
    let num = n * pow2(up);
    let den = d * pow2(down);
    lemma_numerator_scaled(n, d, least, exp, up);
    lemma_denominator_scaled(num, d, least, exp - up, down);
    assert(round_to(n, d, least, exp) == round_to(num, den, least, exp - up + down));
    vstd::arithmetic::div_mod::lemma_fundamental_div_mod(num as int, den as int);
    let q = num / den;
    assert(q * den == den * q) by (nonlinear_arith);
    assert((q + 1) * den == den * q + den) by (nonlinear_arith);
}

/// There is only one mantissa and power that a fraction rounds to.
pub(crate) proof fn lemma_nearest_is_rounded(n: nat, d: nat, least: nat, exp: int, x: Dyadic)
    requires
        n > 0,
        d > 0,
        least > 0,
        ({
            let num = n * pow2(
                if exp > x.exp {
                    (exp - x.exp) as nat
                } else {
                    0
                },
            ) as int;
            let den = d * pow2(
                if exp > x.exp {
                    0
                } else {
                    (x.exp - exp) as nat
                },
            ) as int;
            let off = num - x.mant * den;
            &&& least * den <= num < 2 * (least * den)
            &&& -den <= 2 * off <= den
            &&& 2 * off == den || 2 * off == -den ==> x.mant % 2 == 0
        }),
    ensures
        x == round_to(n, d, least, exp),
{
    let up: nat = if exp > x.exp {
        (exp - x.exp) as nat
    } else {
        0
    };
    let down: nat = if exp > x.exp {
        0
    } else {
        (x.exp - exp) as nat
    };
    law_rounding_is_nearest(n, d, least, exp, up, down);
    let r = round_to(n, d, least, exp);
    let num = n * pow2(up) as int;
    let den = d * pow2(down) as int;
    lemma_pow2_pos(down);
    assert(den > 0) by (nonlinear_arith)
        requires
            den == d * pow2(down),
            d > 0,
            pow2(down) > 0,
    ;
    let off_x = num - x.mant * den;
    let off_r = num - r.mant * den;
    let gap = x.mant - r.mant;
    assert(off_r - off_x == gap * den) by (nonlinear_arith)
        requires
            off_x == num - x.mant * den,
            off_r == num - r.mant * den,
            gap == x.mant - r.mant,
    ;
    assert(-1 <= gap <= 1) by (nonlinear_arith)
        requires
            -den <= gap * den <= den,
            den > 0,
    ;
    assert(gap == 1 ==> gap * den == den) by (nonlinear_arith);
    assert(gap == -1 ==> gap * den == -den) by (nonlinear_arith);
}

/// The integer part of a number is the number less what is beyond the point.
pub proof fn law_whole_cuts_off(x: Dyadic)
    ensures
        x.exp >= 0 ==> whole(x) == x.mant * pow2(x.exp as nat),
        x.exp < 0 ==> whole(x) * pow2((-x.exp) as nat) <= x.mant < (whole(x) + 1) * pow2(
            (-x.exp) as nat,
        ),
{
    if x.exp < 0 {
        let p = pow2((-x.exp) as nat) as int;
        let w = whole(x) as int;
        lemma_pow2_pos((-x.exp) as nat);
        vstd::arithmetic::div_mod::lemma_fundamental_div_mod(x.mant as int, p);
        assert(w * p == p * w && (w + 1) * p == p * w + p) by (nonlinear_arith);
    }
}

/// A rounded number stands for its mantissa times its power of two.
pub proof fn law_rounded_is_its_number(x: Rounded)
    ensures
        x@.mant == x.mant,
        x@.exp == x.exp,
{
}

} // verus!
