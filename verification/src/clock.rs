//! Performance-counter time.
use crate::rounding::{
    distance, law_rounding_error, law_rounding_keeps_order, law_rounding_keeps_precision,
    law_whole_cuts_off, law_whole_keeps_order, lemma_error_extended, lemma_nearest_is_rounded,
    lemma_whole_of_scaled, lemma_within, no_larger,
    places_of, round_quotient, round_to, scaled, whole, whole_part, Dyadic, Rounded, DOUBLE,
};
use vstd::arithmetic::power2::*;
use vstd::prelude::*;

verus! {

/// The integer `v` as a double-precision number.
pub open spec fn double(v: nat) -> Dyadic {
    round_to(v, 1, DOUBLE as nat, 0)
}

/// `ticks / freq * 1000` in double precision, each step rounded, for counts
/// that are not zero.
pub open spec fn double_ms(ticks: nat, freq: nat) -> Dyadic {
    let a = double(ticks);
    let b = double(freq);
    let seconds = round_to(a.mant, b.mant, DOUBLE as nat, a.exp - b.exp);
    round_to(seconds.mant * 1000, 1, DOUBLE as nat, seconds.exp)
}

/// The whole milliseconds in `ticks` of a counter that runs at `freq` ticks a
/// second, as the double-precision expression `ticks / freq * 1000` gives them.
/// No ticks are no milliseconds; a counter without a frequency never gets to the
/// first one.
pub open spec fn milliseconds(ticks: nat, freq: nat) -> nat {
    if ticks == 0 {
        0
    } else if freq == 0 {
        u64::MAX as nat
    } else {
        let ms = whole(double_ms(ticks, freq));
        if ms <= u64::MAX {
            ms
        } else {
            u64::MAX as nat
        }
    }
}

/// The whole milliseconds in `ticks` of a counter that runs at `freq` ticks a
/// second.
pub fn elapsed_ms(ticks: u64, freq: u64) -> (ms: u64)
    ensures
        ms == milliseconds(ticks as nat, freq as nat),
{
    if ticks == 0 {
        0
    } else if freq == 0 {
        u64::MAX
    } else {
        let a: Rounded = round_quotient(ticks, 1, DOUBLE, 0);
        let b: Rounded = round_quotient(freq, 1, DOUBLE, 0);
        let seconds: Rounded = round_quotient(a.mant, b.mant, DOUBLE, a.exp - b.exp);
        let ms: Rounded = round_quotient(seconds.mant * 1000, 1, DOUBLE, seconds.exp);
        whole_part(ms)
    }
}

/// Of two readings of a counter, the later one is not fewer milliseconds.
pub proof fn law_milliseconds_keep_order(earlier: nat, later: nat, freq: nat)
    requires
        earlier <= later,
    ensures
        milliseconds(earlier, freq) <= milliseconds(later, freq),
{
    if earlier > 0 && freq > 0 {
        let least = DOUBLE as nat;
        let a = double(earlier);
        let b = double(later);
        let f = double(freq);
        let x = Dyadic { mant: earlier, exp: 0 };
        let y = Dyadic { mant: later, exp: 0 };
        lemma2_to64();
        assert(later * pow2(0) == later) by (nonlinear_arith)
            requires
                pow2(0) == 1,
        ;
        law_rounding_keeps_order(x, y, 1, least, 0);
        law_rounding_keeps_precision(earlier, 1, least, 0);
        law_rounding_keeps_precision(later, 1, least, 0);
        law_rounding_keeps_precision(freq, 1, least, 0);
        law_rounding_keeps_order(a, b, f.mant, least, -f.exp);
        let s = round_to(a.mant, f.mant, least, a.exp - f.exp);
        let t = round_to(b.mant, f.mant, least, b.exp - f.exp);
        law_rounding_keeps_precision(a.mant, f.mant, least, a.exp - f.exp);
        law_rounding_keeps_precision(b.mant, f.mant, least, b.exp - f.exp);
        let s1000 = Dyadic { mant: s.mant * 1000, exp: s.exp };
        let t1000 = Dyadic { mant: t.mant * 1000, exp: t.exp };
        lemma_thousandfold(s, t);
        law_rounding_keeps_order(s1000, t1000, 1, least, 0);
        law_whole_keeps_order(double_ms(earlier, freq), double_ms(later, freq));
    }
}

proof fn lemma_thousandfold(a: Dyadic, b: Dyadic)
    requires
        no_larger(a, b),
    ensures
        no_larger(
            Dyadic { mant: a.mant * 1000, exp: a.exp },
            Dyadic { mant: b.mant * 1000, exp: b.exp },
        ),
{
    if a.exp <= b.exp {
        let p = pow2((b.exp - a.exp) as nat);
        assert(a.mant * 1000 <= (b.mant * 1000) * p) by (nonlinear_arith)
            requires
                a.mant <= b.mant * p,
        ;
    } else {
        let p = pow2((a.exp - b.exp) as nat);
        assert((a.mant * 1000) * p <= b.mant * 1000) by (nonlinear_arith)
            requires
                a.mant * p <= b.mant,
        ;
    }
}

/// How near the milliseconds are held to be: one part in so many.
pub const ACCURACY: u64 = 0x4_0000_0000_0000;

/// As many milliseconds as can be held, whatever the roundings add to them.
pub const LONGEST_MS: u64 = 0xFFFF_FFFF_FFFE_FFFF;

/// The milliseconds can be held where the ticks do not last longer than
/// [`LONGEST_MS`].
pub proof fn law_milliseconds_fit(ticks: nat, freq: nat)
    requires
        freq > 0,
        1000 * ticks <= LONGEST_MS * freq,
    ensures
        milliseconds(ticks, freq) < u64::MAX,
{
    if ticks > 0 {
        lemma_double_ms_is_accurate(ticks, freq);
        let ms = whole(double_ms(ticks, freq)) as int;
        let f = freq as int;
        let n = ACCURACY as int;
        let t = 1000 * ticks as int;
        assert(ms < u64::MAX) by (nonlinear_arith)
            requires
                n * (ms * f - t) <= t,
                n == 0x4_0000_0000_0000,
                t <= 0xFFFF_FFFF_FFFE_FFFF * f,
                f > 0,
        ;
    }
}

/// The milliseconds of any reading of a counter that ticks more than a thousand
/// times a second can be held.
pub proof fn law_counter_fits(ticks: u64, freq: u64)
    requires
        freq > 1000,
    ensures
        milliseconds(ticks as nat, freq as nat) < u64::MAX,
{
    law_milliseconds_fit(ticks as nat, freq as nat);
}

/// The milliseconds are at most one part in [`ACCURACY`] too many, and at most
/// that part and one too few; unless they are more than can be held.
pub proof fn law_milliseconds_are_accurate(ticks: nat, freq: nat)
    requires
        freq > 0,
        milliseconds(ticks, freq) < u64::MAX,
    ensures
        ACCURACY * (milliseconds(ticks, freq) * freq - 1000 * ticks) <= 1000 * ticks,
        ACCURACY * (1000 * ticks - milliseconds(ticks, freq) * freq) <= ACCURACY * freq + 1000
            * ticks,
{
    if ticks == 0 {
        assert(0 * freq == 0) by (nonlinear_arith);
        assert(ACCURACY * freq >= 0) by (nonlinear_arith);
    } else {
        lemma_double_ms_is_accurate(ticks, freq);
    }
}

/// The rounded milliseconds before they are cut down to what can be held.
proof fn lemma_double_ms_is_accurate(ticks: nat, freq: nat)
    requires
        ticks > 0,
        freq > 0,
    ensures
        ACCURACY * (whole(double_ms(ticks, freq)) * freq - 1000 * ticks) <= 1000 * ticks,
        ACCURACY * (1000 * ticks - whole(double_ms(ticks, freq)) * freq) <= ACCURACY * freq + 1000
            * ticks,
{
    let least = DOUBLE as nat;
    let a = double(ticks);
    let b = double(freq);
    let q = round_to(a.mant, b.mant, least, a.exp - b.exp);
    let p = double_ms(ticks, freq);
    let quotient = Dyadic { mant: 1, exp: a.exp - b.exp };
    let places = places_of(a) + places_of(b) + places_of(quotient) + places_of(q) + places_of(
        p,
    );
    law_rounding_keeps_precision(ticks, 1, least, 0);
    law_rounding_keeps_precision(freq, 1, least, 0);
    law_rounding_keeps_precision(a.mant, b.mant, least, a.exp - b.exp);
    law_rounding_error(ticks, 1, least, 0, places);
    law_rounding_error(freq, 1, least, 0, places);
    law_rounding_error(a.mant, b.mant, least, a.exp - b.exp, places);
    law_rounding_error(q.mant * 1000, 1, least, q.exp, places);
    lemma_whole_of_scaled(p, places);
    let one = pow2(places) as int;
    let t = ticks as int;
    let f = freq as int;
    let big_a = scaled(a, places) as int;
    let big_b = scaled(b, places) as int;
    let big_q = scaled(q, places) as int;
    let big_p = scaled(p, places) as int;
    let d = 2 * DOUBLE as int;
    assert(big_a * 1 == big_a && big_b * 1 == big_b && big_p * 1 == big_p);
    // The quotient, extended by the power of its denominator.
    let up_b = pow2((b.exp + places) as nat) as int;
    let up_q = pow2((a.exp - b.exp + places) as nat) as int;
    let up_a = pow2((a.exp + places) as nat) as int;
    lemma_pow2_adds((a.exp - b.exp + places) as nat, (b.exp + places) as nat);
    lemma_pow2_adds((a.exp + places) as nat, places);
    assert(up_q * up_b == up_a * one);
    let am = a.mant as int;
    let bm = b.mant as int;
    assert(d * distance(big_q * bm, am * up_q) <= am * up_q);
    assert(d * distance(big_q * big_b, big_a * one) <= big_a * one) by {
        lemma_error_extended(d, big_q * bm, am * up_q, up_b);
        assert((big_q * bm) * up_b == big_q * big_b) by (nonlinear_arith)
            requires
                big_b == bm * up_b,
        ;
        assert((am * up_q) * up_b == big_a * one) by (nonlinear_arith)
            requires
                big_a == am * up_a,
                up_q * up_b == up_a * one,
        ;
    }
    let up = pow2((q.exp + places) as nat) as int;
    assert((q.mant * 1000) * up == 1000 * big_q) by (nonlinear_arith)
        requires
            big_q == q.mant * up,
    ;
    assert(d * distance(big_p, 1000 * big_q) <= 1000 * big_q);
    lemma_errors_add_up(t, f, one, big_a, big_b, big_q, big_p);
    lemma_cut_off(t, f, one, big_p);
}

/// Four roundings, each off by at most one part in `2 * DOUBLE`, are together off
/// by at most one part in [`ACCURACY`].
proof fn lemma_errors_add_up(t: int, f: int, one: int, a: int, b: int, q: int, p: int)
    requires
        t > 0,
        f > 0,
        one > 0,
        a >= 0,
        b >= 0,
        q >= 0,
        p >= 0,
        2 * DOUBLE * distance(a, t * one) <= t * one,
        2 * DOUBLE * distance(b, f * one) <= f * one,
        2 * DOUBLE * distance(q * b, a * one) <= a * one,
        2 * DOUBLE * distance(p, 1000 * q) <= 1000 * q,
    ensures
        ACCURACY * distance(p * f, 1000 * (t * one)) <= 1000 * (t * one),
{
    let d = 2 * DOUBLE as int;
    let n = ACCURACY as int;
    let ts = t * one;
    lemma_within(d, a, t * one);
    lemma_within(d, b, f * one);
    lemma_within(d, q * b, a * one);
    lemma_within(d, p, 1000 * q);
    lemma_upper(d, t, f, one, a, b, q, p);
    lemma_lower(d, t, f, one, a, b, q, p);
    let pf = p * f;
    let target = 1000 * ts;
    assert(target >= 0) by (nonlinear_arith)
        requires
            target == 1000 * (t * one),
            t > 0,
            one > 0,
    ;
    assert(pf >= 0) by (nonlinear_arith)
        requires
            pf == p * f,
            p >= 0,
            f > 0,
    ;
    assert(1000 * t * one == target) by (nonlinear_arith)
        requires
            target == 1000 * (t * one),
    ;
    assert(n * (pf - target) <= target) by (nonlinear_arith)
        requires
            d == 0x20_0000_0000_0000,
            n == 0x4_0000_0000_0000,
            d * d * (d - 1) * pf <= (d + 1) * (d + 1) * (d + 1) * target,
            target >= 0,
    ;
    assert(n * (target - pf) <= target) by (nonlinear_arith)
        requires
            d == 0x20_0000_0000_0000,
            n == 0x4_0000_0000_0000,
            d * d * (d + 1) * pf >= (d - 1) * (d - 1) * (d - 1) * target,
            target >= 0,
            pf >= 0,
    ;
}

/// The four roundings from above.
proof fn lemma_upper(d: int, t: int, f: int, one: int, a: int, b: int, q: int, p: int)
    requires
        d > 1,
        t > 0,
        f > 0,
        one > 0,
        a >= 0,
        b >= 0,
        q >= 0,
        p >= 0,
        d * a <= (t * one) * (d + 1),
        d * b >= (f * one) * (d - 1),
        d * (q * b) <= (a * one) * (d + 1),
        d * p <= (1000 * q) * (d + 1),
    ensures
        d * d * (d - 1) * (p * f) <= (d + 1) * (d + 1) * (d + 1) * (1000 * t * one),
{
    let e = d + 1;
    let c = d - 1;
    assert(p * (f * one * c) <= p * (d * b)) by (nonlinear_arith)
        requires
            p >= 0,
            d * b >= (f * one) * c,
    ;
    assert((d * p) * b <= (1000 * q * e) * b) by (nonlinear_arith)
        requires
            b >= 0,
            d * p <= (1000 * q) * e,
    ;
    let x = p * f * one * c;
    assert(x == p * (f * one * c)) by (nonlinear_arith)
        requires
            x == p * f * one * c,
    ;
    assert(p * (d * b) == (d * p) * b) by (nonlinear_arith);
    assert((1000 * q * e) * b == 1000 * e * (q * b)) by (nonlinear_arith);
    let qb = q * b;
    assert(d * x <= 1000 * e * (d * qb)) by (nonlinear_arith)
        requires
            d > 1,
            x <= 1000 * e * qb,
    ;
    assert(1000 * e * (d * qb) <= 1000 * e * ((a * one) * e)) by (nonlinear_arith)
        requires
            e > 0,
            d * qb <= (a * one) * e,
    ;
    let y = 1000 * e * e * one;
    assert(d * x <= y * a) by (nonlinear_arith)
        requires
            d * x <= 1000 * e * (d * qb),
            1000 * e * (d * qb) <= 1000 * e * ((a * one) * e),
            y == 1000 * e * e * one,
    ;
    assert(y >= 0) by (nonlinear_arith)
        requires
            y == 1000 * e * e * one,
            e > 0,
            one > 0,
    ;
    assert(d * (d * x) <= y * (d * a)) by (nonlinear_arith)
        requires
            d > 1,
            d * x <= y * a,
    ;
    assert(y * (d * a) <= y * ((t * one) * e)) by (nonlinear_arith)
        requires
            y >= 0,
            d * a <= (t * one) * e,
    ;
    let left = d * d * c * (p * f);
    let right = e * e * e * (1000 * t * one);
    assert(left * one == d * (d * x)) by (nonlinear_arith)
        requires
            left == d * d * c * (p * f),
            x == p * f * one * c,
    ;
    assert(right * one == y * ((t * one) * e)) by (nonlinear_arith)
        requires
            right == e * e * e * (1000 * t * one),
            y == 1000 * e * e * one,
    ;
    assert(left <= right) by (nonlinear_arith)
        requires
            one > 0,
            left * one <= right * one,
    ;
}

/// The four roundings from below.
proof fn lemma_lower(d: int, t: int, f: int, one: int, a: int, b: int, q: int, p: int)
    requires
        d > 1,
        t > 0,
        f > 0,
        one > 0,
        a >= 0,
        b >= 0,
        q >= 0,
        p >= 0,
        d * a >= (t * one) * (d - 1),
        d * b <= (f * one) * (d + 1),
        d * (q * b) >= (a * one) * (d - 1),
        d * p >= (1000 * q) * (d - 1),
    ensures
        d * d * (d + 1) * (p * f) >= (d - 1) * (d - 1) * (d - 1) * (1000 * t * one),
{
    let e = d - 1;
    let c = d + 1;
    assert(p * (f * one * c) >= p * (d * b)) by (nonlinear_arith)
        requires
            p >= 0,
            d * b <= (f * one) * c,
    ;
    assert((d * p) * b >= (1000 * q * e) * b) by (nonlinear_arith)
        requires
            b >= 0,
            d * p >= (1000 * q) * e,
    ;
    let x = p * f * one * c;
    assert(x == p * (f * one * c)) by (nonlinear_arith)
        requires
            x == p * f * one * c,
    ;
    assert(p * (d * b) == (d * p) * b) by (nonlinear_arith);
    assert((1000 * q * e) * b == 1000 * e * (q * b)) by (nonlinear_arith);
    let qb = q * b;
    assert(d * x >= 1000 * e * (d * qb)) by (nonlinear_arith)
        requires
            d > 1,
            x >= 1000 * e * qb,
    ;
    assert(1000 * e * (d * qb) >= 1000 * e * ((a * one) * e)) by (nonlinear_arith)
        requires
            e > 0,
            d * qb >= (a * one) * e,
    ;
    let y = 1000 * e * e * one;
    assert(d * x >= y * a) by (nonlinear_arith)
        requires
            d * x >= 1000 * e * (d * qb),
            1000 * e * (d * qb) >= 1000 * e * ((a * one) * e),
            y == 1000 * e * e * one,
    ;
    assert(y >= 0) by (nonlinear_arith)
        requires
            y == 1000 * e * e * one,
            e > 0,
            one > 0,
    ;
    assert(d * (d * x) >= y * (d * a)) by (nonlinear_arith)
        requires
            d > 1,
            d * x >= y * a,
    ;
    assert(y * (d * a) >= y * ((t * one) * e)) by (nonlinear_arith)
        requires
            y >= 0,
            d * a >= (t * one) * e,
    ;
    let left = d * d * c * (p * f);
    let right = e * e * e * (1000 * t * one);
    assert(left * one == d * (d * x)) by (nonlinear_arith)
        requires
            left == d * d * c * (p * f),
            x == p * f * one * c,
    ;
    assert(right * one == y * ((t * one) * e)) by (nonlinear_arith)
        requires
            right == e * e * e * (1000 * t * one),
            y == 1000 * e * e * one,
    ;
    assert(left >= right) by (nonlinear_arith)
        requires
            one > 0,
            left * one >= right * one,
    ;
}

/// Cutting off the fractional part takes away less than one.
proof fn lemma_cut_off(t: int, f: int, one: int, p: int)
    requires
        t > 0,
        f > 0,
        one > 0,
        p >= 0,
        ACCURACY * distance(p * f, 1000 * (t * one)) <= 1000 * (t * one),
    ensures
        ACCURACY * ((p / one) * f - 1000 * t) <= 1000 * t,
        ACCURACY * (1000 * t - (p / one) * f) <= ACCURACY * f + 1000 * t,
{
    let w = p / one;
    let r = p % one;
    let n = ACCURACY as int;
    vstd::arithmetic::div_mod::lemma_fundamental_div_mod(p, one);
    let wf = w * f;
    let rf = r * f;
    assert(p * f == wf * one + rf) by (nonlinear_arith)
        requires
            p == one * w + r,
            wf == w * f,
            rf == r * f,
    ;
    assert(0 <= rf <= one * f) by (nonlinear_arith)
        requires
            rf == r * f,
            0 <= r < one,
            f > 0,
    ;
    let x = wf * one;
    let target = 1000 * (t * one);
    let over = wf - 1000 * t;
    assert(x - target == over * one) by (nonlinear_arith)
        requires
            x == wf * one,
            target == 1000 * (t * one),
            over == wf - 1000 * t,
    ;
    assert(n * (x - target) <= target);
    assert(n * (target - x) <= n * (one * f) + target);
    assert(n * over <= 1000 * t) by (nonlinear_arith)
        requires
            n * (over * one) <= 1000 * (t * one),
            one > 0,
    ;
    assert(n * (-over) <= n * f + 1000 * t) by (nonlinear_arith)
        requires
            n * (-(over * one)) <= n * (one * f) + 1000 * (t * one),
            one > 0,
    ;
}

/// The milliseconds are what a unit for double precision computes: whatever `a`,
/// `b`, `q` and `p` are nearest, with 53 significant bits and ties to even, to the
/// ticks, to the frequency, to `a / b` and to `1000 * q`, the milliseconds are the
/// integer part of `p`, or the largest integer where it is larger still.
pub proof fn law_milliseconds_are_double_precision(
    ticks: nat,
    freq: nat,
    a: Dyadic,
    b: Dyadic,
    q: Dyadic,
    p: Dyadic,
)
    requires
        ticks > 0,
        freq > 0,
        ({
            let is_nearest = (|n: nat, d: nat, exp: int, x: Dyadic|
                {
                    let num = n * pow2(
                        if exp > x.exp {
                            (exp - x.exp) as nat
                        } else {
                            0
                        },
                    ) as int;
                    let den = d * pow2(
                        if exp > x.exp {
                            0
                        } else {
                            (x.exp - exp) as nat
                        },
                    ) as int;
                    let off = num - x.mant * den;
                    &&& 0x10_0000_0000_0000 * den <= num < 0x20_0000_0000_0000 * den
                    &&& -den <= 2 * off <= den
                    &&& 2 * off == den || 2 * off == -den ==> x.mant % 2 == 0
                });
            &&& is_nearest(ticks, 1, 0, a)
            &&& is_nearest(freq, 1, 0, b)
            &&& is_nearest(a.mant, b.mant, a.exp - b.exp, q)
            &&& is_nearest(q.mant * 1000, 1, q.exp, p)
        }),
    ensures
        ({
            let ms = milliseconds(ticks, freq) as int;
            if p.exp >= 0 {
                let whole = p.mant * pow2(p.exp as nat);
                ms == if whole <= 0xFFFF_FFFF_FFFF_FFFF {
                    whole as int
                } else {
                    0xFFFF_FFFF_FFFF_FFFF
                }
            } else {
                ms * pow2((-p.exp) as nat) <= p.mant < (ms + 1) * pow2((-p.exp) as nat)
            }
        }),
{
    let least = DOUBLE as nat;
    lemma_nearest_is_rounded(ticks, 1, least, 0, a);
    lemma_nearest_is_rounded(freq, 1, least, 0, b);
    law_rounding_keeps_precision(ticks, 1, least, 0);
    law_rounding_keeps_precision(freq, 1, least, 0);
    lemma_nearest_is_rounded(a.mant, b.mant, least, a.exp - b.exp, q);
    law_rounding_keeps_precision(a.mant, b.mant, least, a.exp - b.exp);
    lemma_nearest_is_rounded(q.mant * 1000, 1, least, q.exp, p);
    law_rounding_keeps_precision(q.mant * 1000, 1, least, q.exp);
    assert(p == double_ms(ticks, freq));
    law_whole_cuts_off(p);
    if p.exp < 0 {
        lemma_pow2_pos((-p.exp) as nat);
        let w = whole(p) as int;
        assert(w <= p.mant) by (nonlinear_arith)
            requires
                w * pow2((-p.exp) as nat) <= p.mant,
                pow2((-p.exp) as nat) >= 1,
                w >= 0,
        ;
    }
}

/// No ticks are no milliseconds at any frequency; some ticks at no frequency are
/// more than can be held.
pub proof fn law_milliseconds_without_a_quotient(ticks: nat, freq: nat)
    ensures
        milliseconds(0, freq) == 0,
        ticks > 0 ==> milliseconds(ticks, 0) == 0xFFFF_FFFF_FFFF_FFFF,
{
}

} // verus!
