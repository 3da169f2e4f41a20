//! The self-test: images are rendered off screen, read back and compared with
//! what they should show.
//!
//! The first image is white all over, the second encodes the coordinates of
//! each pixel in its colour, and the third is a frame with the flash lit and
//! [`TEST_PATTERN`] in the barcode strip.
use crate::rounding::{nearest, round_quotient, round_to, whole, whole_part, Rounded, SINGLE};
use crate::text::{decimal, push_decimal};
use vstd::arithmetic::power2::*;
use vstd::prelude::*;

verus! {

/// The pattern in the barcode strip of the test frame: every other cell is
/// white.
pub const TEST_PATTERN: u32 = 0xAAAA;

/// The pixel that lies `percent` hundredths along a side of `size` pixels. The
/// fraction and its product with the size are taken in single precision; the
/// product loses its fractional part and is kept within the side.
pub open spec fn sampled_pixel(size: nat, percent: nat) -> nat {
    let fraction = round_to(percent, 100, SINGLE as nat, 0);
    let side = round_to(size, 1, SINGLE as nat, 0);
    let product = round_to(side.mant * fraction.mant, 1, SINGLE as nat, side.exp + fraction.exp);
    if whole(product) < size {
        whole(product)
    } else {
        (size - 1) as nat
    }
}

/// No hundredths along a side lies its first pixel.
pub(crate) proof fn lemma_first_pixel(size: nat)
    requires
        size > 0,
    ensures
        sampled_pixel(size, 0) == 0,
{
    let side = round_to(size, 1, SINGLE as nat, 0);
    assert(side.mant * 0 == 0) by (nonlinear_arith);
    if side.exp >= 0 {
        assert(0 * pow2(side.exp as nat) == 0) by (nonlinear_arith);
    } else {
        lemma_pow2_pos((-side.exp) as nat);
        vstd::arithmetic::div_mod::lemma_basic_div(0, pow2((-side.exp) as nat) as int);
    }
}

/// The pixel that lies `percent` hundredths along a side of `size` pixels.
pub fn sample_index(size: u32, percent: u32) -> (i: u32)
    requires
        size > 0,
    ensures
        i == sampled_pixel(size as nat, percent as nat),
        i < size,
{
    if percent == 0 {
        proof {
            lemma_first_pixel(size as nat);
        }
        return 0;
    }
    let fraction: Rounded = round_quotient(percent as u64, 100, SINGLE, 0);
    let side: Rounded = round_quotient(size as u64, 1, SINGLE, 0);
    assert(0 < side.mant * fraction.mant <= 0x100_0000 * 0x100_0000) by (nonlinear_arith)
        requires
            0 < side.mant <= 0x100_0000,
            0 < fraction.mant <= 0x100_0000,
    ;
    let product: Rounded = round_quotient(
        side.mant * fraction.mant,
        1,
        SINGLE,
        side.exp + fraction.exp,
    );
    let i: u64 = whole_part(product);
    if i < size as u64 {
        i as u32
    } else {
        size - 1
    }
}

/// A colour.
#[derive(Clone, Copy, PartialEq, Eq, Debug)]
pub struct Rgb {
    pub r: u8,
    pub g: u8,
    pub b: u8,
}

/// An image that was read back: rows of four bytes a pixel, red, green, blue
/// and alpha, the rows `row_pitch` bytes apart.
pub struct Image<'a> {
    pub bytes: &'a [u8],
    pub row_pitch: u32,
    pub width: u32,
    pub height: u32,
}

impl<'a> Image<'a> {
    /// The image has a pixel, its rows do not overlap and its bytes hold them
    /// all.
    pub open spec fn wf(&self) -> bool {
        &&& self.width > 0
        &&& self.height > 0
        &&& self.row_pitch >= 4 * self.width
        &&& self.bytes@.len() >= (self.height - 1) * self.row_pitch + 4 * self.width
    }

    /// The colour of a pixel.
    pub open spec fn colour(&self, x: int, y: int) -> Rgb {
        let start = y * self.row_pitch + 4 * x;
        Rgb { r: self.bytes@[start], g: self.bytes@[start + 1], b: self.bytes@[start + 2] }
    }

    /// The colour at a point that is given in percent of the sides.
    pub open spec fn sampled(&self, across: nat, down: nat) -> Rgb {
        self.colour(
            sampled_pixel(self.width as nat, across) as int,
            sampled_pixel(self.height as nat, down) as int,
        )
    }

    /// The colour at a point that is given in percent of the sides.
    pub fn sample(&self, across: u32, down: u32) -> (colour: Rgb)
        requires
            self.wf(),
        ensures
            colour == self.sampled(across as nat, down as nat),
    {
        let x: usize = sample_index(self.width, across) as usize;
        let y: usize = sample_index(self.height, down) as usize;
        let pitch: usize = self.row_pitch as usize;
        assert(0 <= y * pitch <= (self.height - 1) * self.row_pitch) by (nonlinear_arith)
            requires
                0 <= y <= self.height - 1,
                pitch == self.row_pitch,
        ;
        assert(self.bytes.len() <= usize::MAX);
        let start: usize = y * pitch + 4 * x;
        Rgb { r: self.bytes[start], g: self.bytes[start + 1], b: self.bytes[start + 2] }
    }
}

/// The points of the coordinate image that are sampled, in percent along both
/// sides.
pub open spec fn grid_points() -> Seq<nat> {
    seq![10, 25, 50, 75, 90]
}

/// What was found at the points of the coordinate image.
pub open spec fn grid_samples(image: Image) -> Seq<Rgb> {
    grid_points().map_values(|p: nat| image.sampled(p, p))
}

/// Samples the coordinate image along its diagonal.
pub fn sample_grid(image: &Image) -> (samples: Vec<Rgb>)
    requires
        image.wf(),
    ensures
        samples@ == grid_samples(*image),
{
    let mut samples: Vec<Rgb> = Vec::new();
    samples.push(image.sample(10, 10));
    samples.push(image.sample(25, 25));
    samples.push(image.sample(50, 50));
    samples.push(image.sample(75, 75));
    samples.push(image.sample(90, 90));
    assert(samples@ =~= grid_samples(*image));
    samples
}

/// What was found at the points of the test frame.
#[derive(Clone, Copy)]
pub struct SceneSamples {
    /// The middle of the flash.
    pub flash: Rgb,
    /// The left margin.
    pub dark: Rgb,
    /// Three cells of the barcode strip.
    pub bar0: Rgb,
    pub bar1: Rgb,
    pub bar3: Rgb,
}

/// What was found at the points of the test frame.
pub open spec fn scene_samples(image: Image) -> SceneSamples {
    SceneSamples {
        flash: image.sampled(50, 50),
        dark: image.sampled(2, 50),
        bar0: image.sampled(12, 4),
        bar1: image.sampled(17, 4),
        bar3: image.sampled(27, 4),
    }
}

/// Samples the test frame.
pub fn sample_scene(image: &Image) -> (samples: SceneSamples)
    requires
        image.wf(),
    ensures
        samples == scene_samples(*image),
{
    SceneSamples {
        flash: image.sample(50, 50),
        dark: image.sample(2, 50),
        bar0: image.sample(12, 4),
        bar1: image.sample(17, 4),
        bar3: image.sample(27, 4),
    }
}

/// Whether a colour passes for white.
pub open spec fn passes_for_white(p: Rgb) -> bool {
    p.r > 200 && p.g > 200 && p.b > 200
}

/// The verdict on a colour that should be white or should be black.
pub open spec fn verdict_text(p: Rgb, want_white: bool) -> Seq<char> {
    if passes_for_white(p) == want_white {
        "ok"@
    } else {
        "MISMATCH"@
    }
}

/// The verdict on a colour that should be white or should be black.
pub fn verdict(p: Rgb, want_white: bool) -> (text: &'static str)
    ensures
        text@ == verdict_text(p, want_white),
{
    let is_white: bool = p.r > 200 && p.g > 200 && p.b > 200;
    if is_white == want_white {
        "ok"
    } else {
        "MISMATCH"
    }
}

/// A colour as three numbers in brackets.
pub open spec fn colour_text(p: Rgb) -> Seq<char> {
    "("@ + decimal(p.r as nat) + ", "@ + decimal(p.g as nat) + ", "@ + decimal(p.b as nat) + ")"@
}

fn push_colour(line: &mut String, p: Rgb)
    ensures
        final(line)@ == old(line)@ + colour_text(p),
{
    line.append("(");
    push_decimal(line, p.r as u64);
    line.append(", ");
    push_decimal(line, p.g as u64);
    line.append(", ");
    push_decimal(line, p.b as u64);
    line.append(")");
    assert(line@ =~= old(line)@ + colour_text(p));
}

/// A line on a point of the coordinate image: the point, to the nearest whole,
/// and what was found there.
pub open spec fn grid_line_text(percent: nat, p: Rgb) -> Seq<char> {
    "    ("@ + decimal(nearest(percent, 100)) + ","@ + decimal(nearest(percent, 100)) + ")="@
        + colour_text(p) + "\n"@
}

fn push_grid_line(line: &mut String, percent: u64, p: Rgb)
    requires
        percent < 100,
    ensures
        final(line)@ == old(line)@ + grid_line_text(percent as nat, p),
{
    let whole: u64 = if percent > 50 {
        1
    } else {
        0
    };
    line.append("    (");
    push_decimal(line, whole);
    line.append(",");
    push_decimal(line, whole);
    line.append(")=");
    push_colour(line, p);
    line.append("\n");
    assert(line@ =~= old(line)@ + grid_line_text(percent as nat, p));
}

/// A line on a point of the test frame.
pub open spec fn scene_line_text(name: Seq<char>, p: Rgb, want_white: bool) -> Seq<char> {
    "[pass2 scene]  "@ + name + " = "@ + colour_text(p) + (if want_white {
        "  want white  "@
    } else {
        "  want black  "@
    }) + verdict_text(p, want_white) + "\n"@
}

fn push_scene_line(line: &mut String, name: &str, p: Rgb, want_white: bool)
    ensures
        final(line)@ == old(line)@ + scene_line_text(name@, p, want_white),
{
    line.append("[pass2 scene]  ");
    line.append(name);
    line.append(" = ");
    push_colour(line, p);
    line.append(
        if want_white {
            "  want white  "
        } else {
            "  want black  "
        },
    );
    line.append(verdict(p, want_white));
    line.append("\n");
    assert(line@ =~= old(line)@ + scene_line_text(name@, p, want_white));
}

/// The part of the report that tells of the size and of the white image.
pub open spec fn report_head_text(width: nat, height: nat, row_pitch: nat, white: Rgb) -> Seq<
    char,
> {
    "offscreen "@ + decimal(width) + "x"@ + decimal(height) + "  rowPitch "@ + decimal(row_pitch)
        + "\n"@ + "[pass1 white-shader] center = "@ + colour_text(white) + "  (want white)\n"@
}

/// The part of the report that tells of the coordinate image.
pub open spec fn report_grid_text(grid: Seq<Rgb>) -> Seq<char> {
    "[pass1b diag uv grid] R=uv.x G=uv.y B=cbflag\n"@ + grid_line_text(10, grid[0])
        + grid_line_text(25, grid[1]) + grid_line_text(50, grid[2]) + grid_line_text(75, grid[3])
        + grid_line_text(90, grid[4])
}

/// The part of the report that tells of the test frame.
pub open spec fn report_scene_text(scene: SceneSamples) -> Seq<char> {
    scene_line_text("flash(0.50,0.50)"@, scene.flash, true) + scene_line_text(
        "dark(0.02,0.50) "@,
        scene.dark,
        false,
    ) + scene_line_text("barcode cell0   "@, scene.bar0, false) + scene_line_text(
        "barcode cell1   "@,
        scene.bar1,
        true,
    ) + scene_line_text("barcode cell3   "@, scene.bar3, true)
}

fn push_head(report: &mut String, width: u32, height: u32, row_pitch: u32, white: Rgb)
    ensures
        final(report)@ == old(report)@ + report_head_text(
            width as nat,
            height as nat,
            row_pitch as nat,
            white,
        ),
{
    report.append("offscreen ");
    push_decimal(report, width as u64);
    report.append("x");
    push_decimal(report, height as u64);
    report.append("  rowPitch ");
    push_decimal(report, row_pitch as u64);
    report.append("\n");
    report.append("[pass1 white-shader] center = ");
    push_colour(report, white);
    report.append("  (want white)\n");
    assert(report@ =~= old(report)@ + report_head_text(
        width as nat,
        height as nat,
        row_pitch as nat,
        white,
    ));
}

fn push_grid(report: &mut String, grid: &Vec<Rgb>)
    requires
        grid@.len() == grid_points().len(),
    ensures
        final(report)@ == old(report)@ + report_grid_text(grid@),
{
    report.append("[pass1b diag uv grid] R=uv.x G=uv.y B=cbflag\n");
    push_grid_line(report, 10, grid[0]);
    push_grid_line(report, 25, grid[1]);
    push_grid_line(report, 50, grid[2]);
    push_grid_line(report, 75, grid[3]);
    push_grid_line(report, 90, grid[4]);
    assert(report@ =~= old(report)@ + report_grid_text(grid@));
}

fn push_scene(report: &mut String, scene: &SceneSamples)
    ensures
        final(report)@ == old(report)@ + report_scene_text(*scene),
{
    push_scene_line(report, "flash(0.50,0.50)", scene.flash, true);
    push_scene_line(report, "dark(0.02,0.50) ", scene.dark, false);
    push_scene_line(report, "barcode cell0   ", scene.bar0, false);
    push_scene_line(report, "barcode cell1   ", scene.bar1, true);
    push_scene_line(report, "barcode cell3   ", scene.bar3, true);
    assert(report@ =~= old(report)@ + report_scene_text(*scene));
}

/// The report on the self-test.
pub fn selftest_report(
    width: u32,
    height: u32,
    row_pitch: u32,
    white: Rgb,
    grid: &Vec<Rgb>,
    scene: &SceneSamples,
) -> (report: String)
    requires
        grid@.len() == grid_points().len(),
    ensures
        report@ == report_head_text(width as nat, height as nat, row_pitch as nat, white)
            + report_grid_text(grid@) + report_scene_text(*scene),
{
    let mut report: String = String::new();
    push_head(&mut report, width, height, row_pitch, white);
    push_grid(&mut report, grid);
    push_scene(&mut report, scene);
    report
}

/// The message that closes the self-test.
pub fn selftest_message(report: &str) -> (message: String)
    ensures
        message@ == "selftest written to selftest.txt\n\n"@ + report@,
{
    let mut message: String = String::from_str("selftest written to selftest.txt\n\n");
    message.append(report);
    message
}

} // verus!
