use latency_agent::scene::scene_pixel;
use latency_agent::selftest::{
    sample_grid, sample_index, sample_scene, selftest_message, selftest_report, verdict, Image, Rgb,
    SceneSamples, TEST_PATTERN,
};

const WHITE: Rgb = Rgb { r: 255, g: 255, b: 255 };
const BLACK: Rgb = Rgb { r: 0, g: 0, b: 0 };

fn single(percent: u32) -> f32 {
    match percent {
        0 => 0.0,
        100 => 1.0,
        2 => 0.02,
        4 => 0.04,
        10 => 0.1,
        12 => 0.12,
        17 => 0.17,
        25 => 0.25,
        27 => 0.27,
        50 => 0.5,
        75 => 0.75,
        90 => 0.9,
        _ => unreachable!(),
    }
}

fn frame_bytes(w: u32, h: u32, pitch: u32, pixel: impl Fn(u32, u32) -> Rgb) -> Vec<u8> {
    let mut bytes = vec![77u8; ((h - 1) * pitch + 4 * w) as usize];
    for y in 0..h {
        for x in 0..w {
            let p = pixel(x, y);
            let start = (y * pitch + 4 * x) as usize;
            bytes[start] = p.r;
            bytes[start + 1] = p.g;
            bytes[start + 2] = p.b;
            bytes[start + 3] = 255;
        }
    }
    bytes
}

#[test]
fn sampled_pixels_agree_with_single_precision() {
    let mut sizes: Vec<u32> = (1..3000).collect();
    for shift in 0..32 {
        sizes.push(1 << shift);
        sizes.push((1u32 << shift).wrapping_sub(1).max(1));
        sizes.push((1u32 << shift).wrapping_mul(3).max(1));
    }
    for size in sizes {
        for percent in [0, 2, 4, 10, 12, 17, 25, 27, 50, 75, 90, 100] {
            let expected = ((size as f32 * single(percent)) as usize).min(size as usize - 1);
            assert_eq!(sample_index(size, percent) as usize, expected, "{} {}", size, percent);
        }
    }
}

#[test]
fn sampled_pixels_of_a_common_width() {
    assert_eq!(sample_index(1264, 50), 632);
    assert_eq!(sample_index(1264, 2), 25);
    assert_eq!(sample_index(100, 90), 90);
    assert_eq!(sample_index(1, 90), 0);
}

#[test]
fn samples_are_read_from_padded_rows() {
    let (w, h, pitch) = (40, 30, 256);
    let bytes = frame_bytes(w, h, pitch, |x, y| Rgb { r: x as u8, g: y as u8, b: 9 });
    let image = Image { bytes: &bytes, row_pitch: pitch, width: w, height: h };
    assert_eq!(image.sample(50, 50), Rgb { r: 20, g: 15, b: 9 });
    let grid = sample_grid(&image);
    let expected: Vec<Rgb> =
        [(4, 3), (10, 7), (20, 15), (30, 22), (36, 27)].iter().map(|&(r, g)| Rgb { r, g, b: 9 }).collect();
    assert_eq!(grid, expected);
}

#[test]
fn test_frame_is_accepted_at_every_size() {
    for (w, h) in [(18u32, 9u32), (19, 10), (25, 25), (26, 26), (640, 360), (1264, 681), (1920, 1080)] {
        let bytes = frame_bytes(w, h, 4 * w, |x, y| {
            if scene_pixel(x, y, w, h, true, TEST_PATTERN) {
                WHITE
            } else {
                BLACK
            }
        });
        let image = Image { bytes: &bytes, row_pitch: 4 * w, width: w, height: h };
        let samples = sample_scene(&image);
        assert_eq!(verdict(samples.flash, true), "ok");
        assert_eq!(verdict(samples.dark, false), "ok");
        assert_eq!(verdict(samples.bar0, false), "ok");
        assert_eq!(verdict(samples.bar1, true), "ok");
        assert_eq!(verdict(samples.bar3, true), "ok");
    }
}

#[test]
fn verdicts() {
    assert_eq!(verdict(WHITE, true), "ok");
    assert_eq!(verdict(WHITE, false), "MISMATCH");
    assert_eq!(verdict(BLACK, false), "ok");
    assert_eq!(verdict(BLACK, true), "MISMATCH");
    assert_eq!(verdict(Rgb { r: 201, g: 201, b: 201 }, true), "ok");
    assert_eq!(verdict(Rgb { r: 201, g: 201, b: 200 }, true), "MISMATCH");
    assert_eq!(verdict(Rgb { r: 255, g: 200, b: 255 }, false), "ok");
    assert_eq!(verdict(Rgb { r: 200, g: 255, b: 255 }, false), "ok");
}

#[test]
fn report_on_a_run() {
    let grid: Vec<Rgb> = (1..6).map(|k| Rgb { r: 10 * k, g: 20 * k, b: 255 }).collect();
    let scene = SceneSamples { flash: WHITE, dark: BLACK, bar0: WHITE, bar1: BLACK, bar3: WHITE };
    let report = selftest_report(1264, 681, 5120, WHITE, &grid, &scene);
    let points = [0.1f32, 0.25, 0.5, 0.75, 0.9];
    let lines: Vec<String> = points
        .iter()
        .zip(&grid)
        .map(|(f, p)| format!("({:.0},{:.0})={:?}", f, f, (p.r, p.g, p.b)))
        .collect();
    let expected = format!(
        "offscreen 1264x681  rowPitch 5120\n\
         [pass1 white-shader] center = (255, 255, 255)  (want white)\n\
         [pass1b diag uv grid] R=uv.x G=uv.y B=cbflag\n    {}\n\
         [pass2 scene]  flash(0.50,0.50) = (255, 255, 255)  want white  ok\n\
         [pass2 scene]  dark(0.02,0.50)  = (0, 0, 0)  want black  ok\n\
         [pass2 scene]  barcode cell0    = (255, 255, 255)  want black  MISMATCH\n\
         [pass2 scene]  barcode cell1    = (0, 0, 0)  want white  MISMATCH\n\
         [pass2 scene]  barcode cell3    = (255, 255, 255)  want white  ok\n",
        lines.join("\n    ")
    );
    assert_eq!(report, expected);
    assert_eq!(selftest_message("r"), "selftest written to selftest.txt\n\nr");
}
