//! Why the self-test expects the colours that it expects.
use crate::barcode::{is_white, law_cell_shows_bit};
use crate::rounding::{
    law_rounding_error, law_rounding_keeps_precision, law_whole_cuts_off, lemma_error_extended,
    lemma_nearest_is_rounded, lemma_whole_of_scaled, lemma_within, places_of, round_to, scaled,
    whole, Dyadic, SINGLE,
};
use crate::scene::{cell_at, pixel_is_white};
use crate::selftest::{
    grid_samples, lemma_first_pixel, passes_for_white, report_grid_text, report_head_text,
    report_scene_text, sampled_pixel, scene_samples, verdict_text, Image, Rgb, SceneSamples,
    TEST_PATTERN,
};
use crate::text::decimal;
use vstd::arithmetic::power2::*;
use vstd::prelude::*;

verus! {

/// How near a sampled point is to its place: one part in so many.
pub const SAMPLE_ACCURACY: u64 = 0x40_0000;

/// The three roundings of a sampled point, from both sides.
proof fn lemma_three_roundings(d: int, p: int, w: int, one: int, f: int, side: int, product: int)
    requires
        d > 1,
        p > 0,
        w > 0,
        one > 0,
        f >= 0,
        side >= 0,
        (p * one) * (d - 1) <= d * (f * 100) <= (p * one) * (d + 1),
        (w * one) * (d - 1) <= d * side <= (w * one) * (d + 1),
        (side * f) * (d - 1) <= d * (product * one) <= (side * f) * (d + 1),
    ensures
        d * d * d * (100 * product) <= (d + 1) * (d + 1) * (d + 1) * (p * w * one),
        d * d * d * (100 * product) >= (d - 1) * (d - 1) * (d - 1) * (p * w * one),
{
    let e = d + 1;
    let c = d - 1;
    let f100 = f * 100;
    let po = p * one;
    let wo = w * one;
    assert(d * side >= 0 && d * f100 >= 0 && wo * c >= 0 && po * c >= 0) by (nonlinear_arith)
        requires
            d > 1,
            c == d - 1,
            side >= 0,
            f100 >= 0,
            wo == w * one,
            po == p * one,
            w > 0,
            p > 0,
            one > 0,
    ;
    assert((d * side) * (d * f100) <= (wo * e) * (po * e)) by (nonlinear_arith)
        requires
            0 <= d * side <= wo * e,
            0 <= d * f100 <= po * e,
    ;
    assert((d * side) * (d * f100) >= (wo * c) * (po * c)) by (nonlinear_arith)
        requires
            d * side >= wo * c >= 0,
            d * f100 >= po * c >= 0,
    ;
    let sf = side * f;
    let both = (d * side) * (d * f100);
    assert(both == 100 * (d * d) * sf) by (nonlinear_arith)
        requires
            both == (d * side) * (d * f100),
            f100 == f * 100,
            sf == side * f,
    ;
    let k = 100 * (d * d);
    let left = d * d * d * (100 * product);
    assert(left * one == k * (d * (product * one))) by (nonlinear_arith)
        requires
            left == d * d * d * (100 * product),
            k == 100 * (d * d),
    ;
    assert(k > 0) by (nonlinear_arith)
        requires
            k == 100 * (d * d),
            d > 1,
    ;
    assert(k * (d * (product * one)) <= k * (sf * e)) by (nonlinear_arith)
        requires
            k > 0,
            d * (product * one) <= sf * e,
    ;
    assert(k * (d * (product * one)) >= k * (sf * c)) by (nonlinear_arith)
        requires
            k > 0,
            d * (product * one) >= sf * c,
    ;
    assert(k * (sf * e) == both * e) by (nonlinear_arith)
        requires
            both == k * sf,
    ;
    assert(k * (sf * c) == both * c) by (nonlinear_arith)
        requires
            both == k * sf,
    ;
    let high = e * e * e * (p * w * one);
    let low = c * c * c * (p * w * one);
    assert(high * one == ((wo * e) * (po * e)) * e) by (nonlinear_arith)
        requires
            high == e * e * e * (p * w * one),
            wo == w * one,
            po == p * one,
    ;
    assert(low * one == ((wo * c) * (po * c)) * c) by (nonlinear_arith)
        requires
            low == c * c * c * (p * w * one),
            wo == w * one,
            po == p * one,
    ;
    assert(both * e <= high * one) by (nonlinear_arith)
        requires
            both <= (wo * e) * (po * e),
            high * one == ((wo * e) * (po * e)) * e,
            e > 0,
    ;
    assert(both * c >= low * one) by (nonlinear_arith)
        requires
            both >= (wo * c) * (po * c),
            low * one == ((wo * c) * (po * c)) * c,
            c > 0,
    ;
    assert(left <= high) by (nonlinear_arith)
        requires
            left * one <= high * one,
            one > 0,
    ;
    assert(left >= low) by (nonlinear_arith)
        requires
            left * one >= low * one,
            one > 0,
    ;
}

/// A sampled pixel lies at its percentage of the side, to less than a pixel and
/// to one part in [`SAMPLE_ACCURACY`] of the distance, and never beyond the side.
pub proof fn law_sample_is_in_place(size: nat, percent: nat)
    requires
        size > 0,
        percent <= 100,
    ensures
        ({
            let i = sampled_pixel(size, percent) as int;
            let place = percent * size as int;
            &&& SAMPLE_ACCURACY * (100 * i) <= (SAMPLE_ACCURACY + 1) * place
            &&& SAMPLE_ACCURACY * (100 * (i + 1)) > (SAMPLE_ACCURACY - 1) * place
            &&& i < size
        }),
{
    if percent == 0 {
        lemma_first_pixel(size);
        assert(0 * size == 0) by (nonlinear_arith);
    } else {
        lemma_product_is_in_place(size, percent);
    }
}

proof fn lemma_product_is_in_place(size: nat, percent: nat)
    requires
        size > 0,
        0 < percent <= 100,
    ensures
        ({
            let i = sampled_pixel(size, percent) as int;
            let place = percent * size as int;
            &&& SAMPLE_ACCURACY * (100 * i) <= (SAMPLE_ACCURACY + 1) * place
            &&& SAMPLE_ACCURACY * (100 * (i + 1)) > (SAMPLE_ACCURACY - 1) * place
        }),
{
    let least = SINGLE as nat;
    let fraction = round_to(percent, 100, least, 0);
    let side = round_to(size, 1, least, 0);
    law_rounding_keeps_precision(percent, 100, least, 0);
    law_rounding_keeps_precision(size, 1, least, 0);
    let m = side.mant * fraction.mant;
    assert(m > 0) by (nonlinear_arith)
        requires
            m == side.mant * fraction.mant,
            side.mant > 0,
            fraction.mant > 0,
    ;
    let exp = side.exp + fraction.exp;
    let product = round_to(m, 1, least, exp);
    let places = places_of(fraction) + places_of(side) + places_of(product);
    let one = pow2(places) as int;
    let d = 2 * SINGLE as int;
    let n = SAMPLE_ACCURACY as int;
    let p = percent as int;
    let w = size as int;
    let f = scaled(fraction, places) as int;
    let s = scaled(side, places) as int;
    let pr = scaled(product, places) as int;
    law_rounding_error(percent, 100, least, 0, places);
    lemma_within(d, f * 100, p * one);
    law_rounding_error(size, 1, least, 0, places);
    assert(s * 1 == s && pr * 1 == pr);
    lemma_within(d, s, w * one);
    law_rounding_error(m, 1, least, exp, places);
    // The product, extended to the places of both of its factors.
    let up = pow2((exp + places) as nat) as int;
    let up_f = pow2((fraction.exp + places) as nat) as int;
    let up_s = pow2((side.exp + places) as nat) as int;
    lemma_pow2_adds((exp + places) as nat, places);
    lemma_pow2_adds((side.exp + places) as nat, (fraction.exp + places) as nat);
    assert(up * one == up_s * up_f);
    lemma_pow2_pos(places);
    lemma_error_extended(d, pr, m * up, one);
    assert((m * up) * one == s * f) by (nonlinear_arith)
        requires
            m == side.mant * fraction.mant,
            s == side.mant * up_s,
            f == fraction.mant * up_f,
            up * one == up_s * up_f,
    ;
    lemma_within(d, pr * one, s * f);
    lemma_three_roundings(d, p, w, one, f, s, pr);
    let pwo = p * w * one;
    assert(pwo >= 0) by (nonlinear_arith)
        requires
            pwo == p * w * one,
            p > 0,
            w > 0,
            one > 0,
    ;
    let t = 100 * pr;
    assert(n * t <= (n + 1) * pwo) by (nonlinear_arith)
        requires
            d == 0x100_0000,
            n == 0x40_0000,
            d * d * d * t <= (d + 1) * (d + 1) * (d + 1) * pwo,
            pwo >= 0,
    ;
    assert(n * t >= (n - 1) * pwo) by (nonlinear_arith)
        requires
            d == 0x100_0000,
            n == 0x40_0000,
            d * d * d * t >= (d - 1) * (d - 1) * (d - 1) * pwo,
            pwo >= 0,
    ;
    lemma_whole_of_scaled(product, places);
    let i = whole(product) as int;
    vstd::arithmetic::div_mod::lemma_fundamental_div_mod(pr, one);
    let pw = p * w;
    assert(n * (100 * i) <= (n + 1) * pw) by (nonlinear_arith)
        requires
            n * (100 * pr) <= (n + 1) * (pw * one),
            n > 0,
            one * i <= pr,
            one > 0,
    ;
    assert(n * (100 * (i + 1)) > (n - 1) * pw) by (nonlinear_arith)
        requires
            n * (100 * pr) >= (n - 1) * (pw * one),
            n > 0,
            pr < one * i + one,
            one > 0,
    ;
    assert(pw <= 100 * w) by (nonlinear_arith)
        requires
            pw == p * w,
            p <= 100,
            w > 0,
    ;
}

/// Whether an image shows the test frame: its pixels pass for white where those
/// of the frame are white.
pub open spec fn shows_test_frame(image: Image) -> bool {
    forall|x: int, y: int|
        #![trigger image.colour(x, y)]
        0 <= x < image.width && 0 <= y < image.height ==> passes_for_white(image.colour(x, y))
            == pixel_is_white(
            x,
            y,
            image.width as int,
            image.height as int,
            true,
            TEST_PATTERN,
        )
}

/// Where the columns of the self-test lie on a side of the given width.
proof fn lemma_columns(w: nat)
    requires
        w >= 18,
    ensures
        ({
            let cell0 = 100 * (2 * sampled_pixel(w, 12) + 1);
            let cell1 = 100 * (2 * sampled_pixel(w, 17) + 1);
            let cell3 = 100 * (2 * sampled_pixel(w, 27) + 1);
            let middle = 100 * (2 * sampled_pixel(w, 50) + 1);
            let margin = 100 * (2 * sampled_pixel(w, 2) + 1);
            &&& 20 * w <= cell0 < 30 * w
            &&& 30 * w <= cell1 < 40 * w
            &&& 50 * w <= cell3 < 60 * w
            &&& 30 * w <= middle <= 170 * w
            &&& margin < 30 * w
            &&& sampled_pixel(w, 12) < w
            &&& sampled_pixel(w, 17) < w
            &&& sampled_pixel(w, 27) < w
            &&& sampled_pixel(w, 50) < w
            &&& sampled_pixel(w, 2) < w
        }),
{
    law_sample_is_in_place(w, 12);
    law_sample_is_in_place(w, 17);
    law_sample_is_in_place(w, 27);
    law_sample_is_in_place(w, 50);
    law_sample_is_in_place(w, 2);
}

/// Where the rows of the self-test lie on a side of the given height.
proof fn lemma_rows(h: nat)
    requires
        h >= 9,
    ensures
        ({
            let strip = 100 * (2 * sampled_pixel(h, 4) + 1);
            let middle = 100 * (2 * sampled_pixel(h, 50) + 1);
            &&& 4 * h <= strip <= 12 * h
            &&& 24 * h <= middle <= 184 * h
            &&& sampled_pixel(h, 4) < h
            &&& sampled_pixel(h, 50) < h
        }),
{
    law_sample_is_in_place(h, 4);
    law_sample_is_in_place(h, 50);
}

/// The cell of a column of the strip.
proof fn lemma_cell_is(x: int, w: int, cell: int)
    requires
        w > 0,
        0 <= cell < 15,
        (20 + 10 * cell) * w <= 100 * (2 * x + 1) < (30 + 10 * cell) * w,
    ensures
        cell_at(x, w) == cell,
{
    let offset = 100 * (2 * x + 1) - 10 * (2 * w);
    let whole = 80 * (2 * w);
    assert(cell * whole <= 16 * offset < cell * whole + whole) by (nonlinear_arith)
        requires
            (20 + 10 * cell) * w <= 100 * (2 * x + 1) < (30 + 10 * cell) * w,
            offset == 100 * (2 * x + 1) - 10 * (2 * w),
            whole == 80 * (2 * w),
    ;
    vstd::arithmetic::div_mod::lemma_fundamental_div_mod_converse(
        16 * offset,
        whole,
        cell,
        16 * offset - cell * whole,
    );
}

/// An image of the test frame gets the verdict `ok` on every point, if it has at
/// least eighteen columns and nine rows; in a coarser one the points can fall on
/// pixels of their neighbours.
pub proof fn law_selftest_accepts_test_frame(image: Image)
    requires
        image.width >= 18,
        image.height >= 9,
        shows_test_frame(image),
    ensures
        ({
            let samples = scene_samples(image);
            &&& verdict_text(samples.flash, true) == "ok"@
            &&& verdict_text(samples.dark, false) == "ok"@
            &&& verdict_text(samples.bar0, false) == "ok"@
            &&& verdict_text(samples.bar1, true) == "ok"@
            &&& verdict_text(samples.bar3, true) == "ok"@
        }),
{
    let w = image.width as nat;
    let h = image.height as nat;
    lemma_columns(w);
    lemma_rows(h);
    let strip = sampled_pixel(h, 4) as int;
    let middle = sampled_pixel(h, 50) as int;
    let wi = w as int;
    let hi = h as int;
    lemma_cell_is(sampled_pixel(w, 12) as int, wi, 0);
    lemma_cell_is(sampled_pixel(w, 17) as int, wi, 1);
    lemma_cell_is(sampled_pixel(w, 27) as int, wi, 3);
    assert((0xAAAAu32 >> 0u32) & 1 == 0) by (bit_vector);
    assert((0xAAAAu32 >> 1u32) & 1 == 1) by (bit_vector);
    assert((0xAAAAu32 >> 3u32) & 1 == 1) by (bit_vector);
    assert(!is_white(TEST_PATTERN, 0));
    assert(is_white(TEST_PATTERN, 1));
    assert(is_white(TEST_PATTERN, 3));
    assert(!pixel_is_white(sampled_pixel(w, 12) as int, strip, wi, hi, true, TEST_PATTERN));
    assert(pixel_is_white(sampled_pixel(w, 17) as int, strip, wi, hi, true, TEST_PATTERN));
    assert(pixel_is_white(sampled_pixel(w, 27) as int, strip, wi, hi, true, TEST_PATTERN));
    assert(pixel_is_white(sampled_pixel(w, 50) as int, middle, wi, hi, true, TEST_PATTERN));
    assert(!pixel_is_white(sampled_pixel(w, 2) as int, middle, wi, hi, true, TEST_PATTERN));
}

/// A sampled pixel is the one that single precision gives: whatever `f`, `s` and
/// `p` are nearest, with 24 significant bits and ties to even, to the fraction, to
/// the size and to `f * s`, it is the integer part of `p`, or the last pixel where
/// that is beyond the side. No hundredths along the side is its first pixel.
pub proof fn law_sample_is_single_precision(
    size: nat,
    percent: nat,
    f: Dyadic,
    s: Dyadic,
    p: Dyadic,
)
    requires
        size > 0,
        percent > 0,
        ({
            let is_nearest = (|n: nat, d: nat, exp: int, x: Dyadic|
                {
                    let num = n * pow2(
                        if exp > x.exp {
                            (exp - x.exp) as nat
                        } else {
                            0
                        },
                    ) as int;
                    let den = d * pow2(
                        if exp > x.exp {
                            0
                        } else {
                            (x.exp - exp) as nat
                        },
                    ) as int;
                    let off = num - x.mant * den;
                    &&& 0x80_0000 * den <= num < 0x100_0000 * den
                    &&& -den <= 2 * off <= den
                    &&& 2 * off == den || 2 * off == -den ==> x.mant % 2 == 0
                });
            &&& is_nearest(percent, 100, 0, f)
            &&& is_nearest(size, 1, 0, s)
            &&& is_nearest(s.mant * f.mant, 1, s.exp + f.exp, p)
        }),
    ensures
        sampled_pixel(size, 0) == 0,
        ({
            let i = sampled_pixel(size, percent) as int;
            &&& 0 <= i < size
            &&& p.exp >= 0 ==> i == if p.mant * pow2(p.exp as nat) < size {
                p.mant * pow2(p.exp as nat) as int
            } else {
                size - 1
            }
            &&& p.exp < 0 ==> i * pow2((-p.exp) as nat) <= p.mant && (p.mant < (i + 1) * pow2(
                (-p.exp) as nat,
            ) || i == size - 1)
        }),
{
    let least = SINGLE as nat;
    lemma_first_pixel(size);
    lemma_nearest_is_rounded(percent, 100, least, 0, f);
    lemma_nearest_is_rounded(size, 1, least, 0, s);
    law_rounding_keeps_precision(percent, 100, least, 0);
    law_rounding_keeps_precision(size, 1, least, 0);
    assert(s.mant * f.mant > 0) by (nonlinear_arith)
        requires
            s.mant > 0,
            f.mant > 0,
    ;
    lemma_nearest_is_rounded(s.mant * f.mant, 1, least, s.exp + f.exp, p);
    law_whole_cuts_off(p);
    if p.exp < 0 && whole(p) >= size {
        let power = pow2((-p.exp) as nat) as int;
        let w = whole(p) as int;
        assert((size - 1) * power <= w * power) by (nonlinear_arith)
            requires
                size - 1 <= w,
                power >= 0,
        ;
    }
}

/// A sample is made of the red, the green and the blue byte of its pixel, four
/// bytes a pixel along the row and the pitch from row to row.
pub proof fn law_sample_is_read_from_bytes(image: Image, across: nat, down: nat)
    requires
        image.wf(),
    ensures
        ({
            let x = sampled_pixel(image.width as nat, across) as int;
            let y = sampled_pixel(image.height as nat, down) as int;
            let row = image.bytes@.skip(y * image.row_pitch);
            let colour = image.sampled(across, down);
            row.skip(4 * x).take(3) == seq![colour.r, colour.g, colour.b]
        }),
{
    let x = sampled_pixel(image.width as nat, across) as int;
    let y = sampled_pixel(image.height as nat, down) as int;
    let start = y * image.row_pitch;
    assert(0 <= start <= (image.height - 1) * image.row_pitch) by (nonlinear_arith)
        requires
            0 <= y <= image.height - 1,
            start == y * image.row_pitch,
            image.row_pitch >= 0,
    ;
    let colour = image.sampled(across, down);
    assert(image.bytes@.skip(start).skip(4 * x).take(3) =~= seq![colour.r, colour.g, colour.b]);
}

/// Which points are sampled: five along the diagonal of the coordinate image, and
/// the flash, the left margin and three cells of the strip of the test frame.
pub proof fn law_points_of_the_selftest(image: Image)
    ensures
        ({
            let grid = grid_samples(image);
            let scene = scene_samples(image);
            &&& grid.len() == 5
            &&& grid[0] == image.sampled(10, 10)
            &&& grid[1] == image.sampled(25, 25)
            &&& grid[2] == image.sampled(50, 50)
            &&& grid[3] == image.sampled(75, 75)
            &&& grid[4] == image.sampled(90, 90)
            &&& scene.flash == image.sampled(50, 50)
            &&& scene.dark == image.sampled(2, 50)
            &&& scene.bar0 == image.sampled(12, 4)
            &&& scene.bar1 == image.sampled(17, 4)
            &&& scene.bar3 == image.sampled(27, 4)
        }),
{
}

/// A colour gets the verdict `ok` if and only if it is bright in all three parts
/// where it should be white, and not bright in one of them where it should be
/// black.
pub proof fn law_verdict_compares(p: Rgb, want_white: bool)
    ensures
        ({
            let darkest = if p.r <= p.g && p.r <= p.b {
                p.r
            } else if p.g <= p.b {
                p.g
            } else {
                p.b
            };
            &&& passes_for_white(p) <==> darkest >= 201
            &&& (darkest >= 201) == want_white ==> verdict_text(p, want_white) == "ok"@
            &&& (darkest >= 201) != want_white ==> verdict_text(p, want_white) == "MISMATCH"@
        }),
{
}

/// The report is made up of the size, the white image, the five points of the
/// coordinate image, each to the nearest whole, and the five points of the test
/// frame with what they should be and the verdict.
pub proof fn law_report_tells_everything(
    width: nat,
    height: nat,
    row_pitch: nat,
    white: Rgb,
    grid: Seq<Rgb>,
    scene: SceneSamples,
)
    ensures
        ({
            let colour = |p: Rgb|
                "("@ + decimal(p.r as nat) + ", "@ + decimal(p.g as nat) + ", "@ + decimal(
                    p.b as nat,
                ) + ")"@;
            let low = |p: Rgb| "    ("@ + seq!['0'] + ","@ + seq!['0'] + ")="@ + colour(p) + "\n"@;
            let high = |p: Rgb| "    ("@ + seq!['1'] + ","@ + seq!['1'] + ")="@ + colour(p) + "\n"@;
            let on_white = |name: Seq<char>, p: Rgb|
                "[pass2 scene]  "@ + name + " = "@ + colour(p) + "  want white  "@ + (if p.r >= 201
                    && p.g >= 201 && p.b >= 201 {
                    "ok"@
                } else {
                    "MISMATCH"@
                }) + "\n"@;
            let on_black = |name: Seq<char>, p: Rgb|
                "[pass2 scene]  "@ + name + " = "@ + colour(p) + "  want black  "@ + (if p.r >= 201
                    && p.g >= 201 && p.b >= 201 {
                    "MISMATCH"@
                } else {
                    "ok"@
                }) + "\n"@;
            &&& report_head_text(width, height, row_pitch, white) == "offscreen "@ + decimal(width)
                + "x"@ + decimal(height) + "  rowPitch "@ + decimal(row_pitch) + "\n"@
                + "[pass1 white-shader] center = "@ + colour(white) + "  (want white)\n"@
            &&& report_grid_text(grid) == "[pass1b diag uv grid] R=uv.x G=uv.y B=cbflag\n"@ + low(
                grid[0],
            ) + low(grid[1]) + low(grid[2]) + high(grid[3]) + high(grid[4])
            &&& report_scene_text(scene) == on_white("flash(0.50,0.50)"@, scene.flash) + on_black(
                "dark(0.02,0.50) "@,
                scene.dark,
            ) + on_black("barcode cell0   "@, scene.bar0) + on_white(
                "barcode cell1   "@,
                scene.bar1,
            ) + on_white("barcode cell3   "@, scene.bar3)
        }),
{
    assert(decimal(0) =~= seq!['0']);
    assert(decimal(1) =~= seq!['1']);
}

/// In the test frame the cells of the strip alternate: those with an odd number
/// are white.
pub proof fn law_test_pattern_alternates(k: nat)
    requires
        k < 16,
    ensures
        TEST_PATTERN < 0x1_0000,
        (TEST_PATTERN as nat / pow2(k)) % 2 == k % 2,
{
    let cell = k as u32;
    law_cell_shows_bit(TEST_PATTERN, cell);
    assert((0xAAAAu32 >> cell) & 1 == cell % 2) by (bit_vector)
        requires
            cell < 16,
    ;
}

} // verus!
