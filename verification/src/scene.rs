//! What a frame looks like: a barcode strip and a flash on black.
//!
//! Regions are given in percent of the screen and tested at the centre of a
//! pixel. The pixel shader makes the same tests in single precision on the
//! graphics processor; here they are exact. A pixel whose centre lies exactly on an
//! edge may fall to either side there: column 341 of a frame 1366 pixels wide is
//! one, between cells 2 and 3 of the strip.
use crate::barcode::{
    cell_is_white, differ_only_in, is_white, law_cell_shows_bit, law_one_cell_changes, next_index, pattern, CELLS,
};
use vstd::arithmetic::power2::*;
use vstd::prelude::*;

verus! {

/// The edges of the barcode strip, in percent of the screen.
pub const STRIP_LEFT: u64 = 10;

pub const STRIP_RIGHT: u64 = 90;

pub const STRIP_TOP: u64 = 2;

pub const STRIP_BOTTOM: u64 = 6;

/// The edges of the flash, in percent of the screen.
pub const FLASH_LEFT: u64 = 15;

pub const FLASH_RIGHT: u64 = 85;

pub const FLASH_TOP: u64 = 12;

pub const FLASH_BOTTOM: u64 = 92;

/// Whether the centre of pixel `i` of `size` lies between two edges that are
/// given in percent.
pub open spec fn centre_between(i: int, size: int, low: int, high: int) -> bool {
    low * (2 * size) <= 100 * (2 * i + 1) <= high * (2 * size)
}

/// Whether a pixel belongs to the barcode strip.
pub open spec fn in_strip(x: int, y: int, w: int, h: int) -> bool {
    centre_between(x, w, STRIP_LEFT as int, STRIP_RIGHT as int) && centre_between(
        y,
        h,
        STRIP_TOP as int,
        STRIP_BOTTOM as int,
    )
}

/// Whether a pixel belongs to the flash.
pub open spec fn in_flash(x: int, y: int, w: int, h: int) -> bool {
    centre_between(x, w, FLASH_LEFT as int, FLASH_RIGHT as int) && centre_between(
        y,
        h,
        FLASH_TOP as int,
        FLASH_BOTTOM as int,
    )
}

/// The cell of the strip in which column `x` lies: the strip is cut into
/// [`CELLS`] equal parts, and its right edge belongs to the last one.
pub open spec fn cell_at(x: int, w: int) -> int {
    let cell = CELLS * (100 * (2 * x + 1) - STRIP_LEFT * (2 * w)) / ((STRIP_RIGHT - STRIP_LEFT) * (2
        * w));
    if cell < CELLS {
        cell
    } else {
        CELLS - 1
    }
}

/// Whether a pixel of a frame is white; it is black otherwise.
pub open spec fn pixel_is_white(
    x: int,
    y: int,
    w: int,
    h: int,
    flash_active: bool,
    code: u32,
) -> bool {
    if in_strip(x, y, w, h) {
        is_white(code, cell_at(x, w) as u32)
    } else {
        flash_active && in_flash(x, y, w, h)
    }
}

/// Whether the centre of pixel `i` of `size` lies between two edges.
fn between(i: u32, size: u32, low: u64, high: u64) -> (inside: bool)
    requires
        low <= 100,
        high <= 100,
    ensures
        inside == centre_between(i as int, size as int, low as int, high as int),
{
    assert(low * (2 * size) <= 100 * (2 * size)) by (nonlinear_arith)
        requires
            low <= 100,
    ;
    assert(high * (2 * size) <= 100 * (2 * size)) by (nonlinear_arith)
        requires
            high <= 100,
    ;
    let centre: u64 = 100 * (2 * (i as u64) + 1);
    low * (2 * (size as u64)) <= centre && centre <= high * (2 * (size as u64))
}

/// Whether pixel `(x, y)` of a frame of `w` by `h` pixels is white, with or
/// without the flash and with the given pattern in the barcode strip.
pub fn scene_pixel(x: u32, y: u32, w: u32, h: u32, flash_active: bool, code: u32) -> (white: bool)
    requires
        x < w,
        y < h,
    ensures
        white == pixel_is_white(x as int, y as int, w as int, h as int, flash_active, code),
{
    if between(x, w, STRIP_LEFT, STRIP_RIGHT) && between(y, h, STRIP_TOP, STRIP_BOTTOM) {
        let offset: u64 = 100 * (2 * (x as u64) + 1) - STRIP_LEFT * (2 * (w as u64));
        assert(offset <= 160 * w);
        let cells: u64 = CELLS as u64;
        assert(cells * offset <= 0x10_0000_0000_0000) by (nonlinear_arith)
            requires
                cells == 16,
                offset <= 160 * w,
        ;
        let cell: u64 = cells * offset / ((STRIP_RIGHT - STRIP_LEFT) * (2 * (w as u64)));
        if cell < cells {
            cell_is_white(code, cell as u32)
        } else {
            cell_is_white(code, CELLS - 1)
        }
    } else {
        flash_active && between(x, w, FLASH_LEFT, FLASH_RIGHT) && between(
            y,
            h,
            FLASH_TOP,
            FLASH_BOTTOM,
        )
    }
}

/// The barcode strip is drawn whether or not the flash is.
pub proof fn law_strip_ignores_flash(x: int, y: int, w: int, h: int, code: u32)
    requires
        in_strip(x, y, w, h),
    ensures
        pixel_is_white(x, y, w, h, true, code) == pixel_is_white(x, y, w, h, false, code),
{
}

/// Outside the strip a frame is black but for the flash, whatever the pattern;
/// the flash and the strip have no pixel in common, so the flash is white all
/// over.
pub proof fn law_flash_is_white_on_black(x: int, y: int, w: int, h: int, code: u32)
    requires
        0 <= x < w,
        0 <= y < h,
    ensures
        !in_strip(x, y, w, h) ==> !pixel_is_white(x, y, w, h, false, code),
        !in_strip(x, y, w, h) && !in_flash(x, y, w, h) ==> !pixel_is_white(
            x,
            y,
            w,
            h,
            true,
            code,
        ),
        in_flash(x, y, w, h) ==> !in_strip(x, y, w, h) && pixel_is_white(x, y, w, h, true, code),
{
}

/// The first column or row whose pixel centre is not before an edge that is
/// given in percent.
pub open spec fn first_from(size: int, edge: int) -> int {
    (edge * size + 49) / 100
}

/// The first column or row whose pixel centre is after an edge that is given in
/// percent.
pub open spec fn first_after(size: int, edge: int) -> int {
    (edge * size - 50) / 100 + 1
}

/// The flash is a rectangle of pixels that covers at least two fifths of the
/// screen. A screen four pixels wide is the one exception: two of its columns
/// flash, which is enough only where four fifths of the rows do.
pub proof fn law_flash_covers_two_fifths(w: int, h: int)
    requires
        w > 0,
        h > 0,
    ensures
        ({
            let left = first_from(w, FLASH_LEFT as int);
            let right = first_after(w, FLASH_RIGHT as int);
            let top = first_from(h, FLASH_TOP as int);
            let bottom = first_after(h, FLASH_BOTTOM as int);
            let covers = 5 * ((right - left) * (bottom - top)) >= 2 * (w * h);
            &&& forall|x: int, y: int|
                #![trigger in_flash(x, y, w, h)]
                in_flash(x, y, w, h) <==> left <= x < right && top <= y < bottom
            &&& 0 <= left < right <= w
            &&& 0 <= top < bottom <= h
            &&& w != 4 ==> covers
            &&& w == 4 ==> (covers <==> 5 * (bottom - top) >= 4 * h)
        }),
{
    let columns = first_after(w, FLASH_RIGHT as int) - first_from(w, FLASH_LEFT as int);
    let rows = first_after(h, FLASH_BOTTOM as int) - first_from(h, FLASH_TOP as int);
    assert(3 * rows >= 2 * h);
    if w == 4 {
        assert(columns == 2);
    } else {
        assert(5 * columns >= 3 * w);
        assert(5 * (columns * rows) >= 2 * (w * h)) by (nonlinear_arith)
            requires
                5 * columns >= 3 * w,
                3 * rows >= 2 * h,
                w > 0,
                h > 0,
        ;
    }
}

/// The flash keeps clear of the edges of the screen: by at least 15 percent of the
/// width at the sides, 12 percent of the height at the top and 8 at the bottom. So
/// the outermost pixels stay dark on any screen of at least four columns and seven
/// rows.
pub proof fn law_flash_is_clear_of_edges(x: int, y: int, w: int, h: int)
    requires
        0 <= x < w,
        0 <= y < h,
        in_flash(x, y, w, h),
    ensures
        100 * (2 * x + 1) >= 15 * (2 * w),
        100 * (2 * (w - 1 - x) + 1) >= 15 * (2 * w),
        100 * (2 * y + 1) >= 12 * (2 * h),
        100 * (2 * (h - 1 - y) + 1) >= 8 * (2 * h),
        w >= 4 ==> 0 < x < w - 1,
        h >= 7 ==> 0 < y < h - 1,
{
}

/// From one frame to the next, the strip changes in the pixels of one cell and
/// in no others.
pub proof fn law_frames_differ_in_one_cell(i: u32)
    ensures
        exists|cell: u32|
            cell < CELLS && #[trigger] differ_only_in(pattern(i), pattern(next_index(i)), cell)
                && forall|x: int, y: int, w: int, h: int, flash: bool|
                #![trigger pixel_is_white(x, y, w, h, flash, pattern(i))]
                0 <= x < w && in_strip(x, y, w, h) ==> (pixel_is_white(
                    x,
                    y,
                    w,
                    h,
                    flash,
                    pattern(i),
                ) != pixel_is_white(x, y, w, h, flash, pattern(next_index(i))) <==> cell_at(x, w)
                    == cell),
{
    law_one_cell_changes(i);
    let a = pattern(i);
    let b = pattern(next_index(i));
    let cell = choose|cell: u32| cell < CELLS && #[trigger] differ_only_in(a, b, cell);
    assert forall|x: int, y: int, w: int, h: int, flash: bool|
        #![trigger pixel_is_white(x, y, w, h, flash, a)]
        0 <= x < w && in_strip(x, y, w, h) implies (pixel_is_white(x, y, w, h, flash, a)
        != pixel_is_white(x, y, w, h, flash, b) <==> cell_at(x, w) == cell) by {
        lemma_cell_in_range(x, w);
    }
}

/// A column of the strip lies in one of its cells.
proof fn lemma_cell_in_range(x: int, w: int)
    requires
        0 <= x < w,
        100 * (2 * x + 1) >= STRIP_LEFT * (2 * w),
    ensures
        0 <= cell_at(x, w) < CELLS,
{
    assert(CELLS * (100 * (2 * x + 1) - STRIP_LEFT * (2 * w)) / ((STRIP_RIGHT - STRIP_LEFT) * (2
        * w)) >= 0) by (nonlinear_arith)
        requires
            0 <= x < w,
            100 * (2 * x + 1) >= STRIP_LEFT * (2 * w),
    ;
}

/// A pixel of the strip with `k` whole sixteenths of the strip to its left is white
/// where bit `k` of the pattern is set. The strip goes from a tenth to nine tenths
/// of the width, so a sixteenth of it is a twentieth of the width, and from two to
/// six hundredths of the height.
pub proof fn law_strip_shows_pattern(
    x: int,
    y: int,
    w: int,
    h: int,
    flash_active: bool,
    code: u32,
    k: int,
)
    requires
        0 <= x < w,
        2 * (2 * h) <= 100 * (2 * y + 1) <= 6 * (2 * h),
        0 <= k < 16,
        (20 + 10 * k) * w <= 100 * (2 * x + 1),
        100 * (2 * x + 1) < (30 + 10 * k) * w || (k == 15 && 100 * (2 * x + 1) == 180 * w),
    ensures
        pixel_is_white(x, y, w, h, flash_active, code) <==> (code as nat / pow2(k as nat)) % 2 == 1,
        cell_at(x, w) == k,
{
    let offset = 100 * (2 * x + 1) - 10 * (2 * w);
    let whole = 80 * (2 * w);
    assert((20 + 10 * k) * w == 20 * w + k * (10 * w)) by (nonlinear_arith);
    assert((30 + 10 * k) * w == 30 * w + k * (10 * w)) by (nonlinear_arith);
    assert(k * whole == 16 * (k * (10 * w))) by (nonlinear_arith)
        requires
            whole == 80 * (2 * w),
    ;
    assert(0 <= k * (10 * w) <= 15 * (10 * w)) by (nonlinear_arith)
        requires
            0 <= k <= 15,
            w > 0,
    ;
    if 100 * (2 * x + 1) == 180 * w {
        assert(16 * offset == 16 * whole + 0);
        vstd::arithmetic::div_mod::lemma_fundamental_div_mod_converse(16 * offset, whole, 16, 0);
    } else {
        vstd::arithmetic::div_mod::lemma_fundamental_div_mod_converse(
            16 * offset,
            whole,
            k,
            16 * offset - k * whole,
        );
    }
    law_cell_shows_bit(code, k as u32);
}

/// Outside the strip a pixel is white where the flash is, while it is shown: from
/// 15 to 85 hundredths of the width and from 12 to 92 hundredths of the height.
pub proof fn law_flash_is_where_it_should_be(
    x: int,
    y: int,
    w: int,
    h: int,
    flash_active: bool,
    code: u32,
)
    requires
        !(20 * w <= 100 * (2 * x + 1) <= 180 * w && 4 * h <= 100 * (2 * y + 1) <= 12 * h),
    ensures
        pixel_is_white(x, y, w, h, flash_active, code) <==> flash_active && 30 * w <= 100 * (2 * x
            + 1) <= 170 * w && 24 * h <= 100 * (2 * y + 1) <= 184 * h,
{
}

} // verus!
