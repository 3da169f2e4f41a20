use latency_agent::barcode::barcode;
use latency_agent::scene::scene_pixel;

/// The tests of the pixel shader, in single precision.
fn shader(x: u32, y: u32, w: u32, h: u32, flash: bool, code: u32) -> bool {
    let u = (x as f32 + 0.5) / w as f32;
    let v = (y as f32 + 0.5) / h as f32;
    if v >= 0.02 && v <= 0.06 && u >= 0.10 && u <= 0.90 {
        let fx = (u - 0.10) / 0.80;
        let mut cell = (fx * 16.0) as u32;
        if cell > 15 {
            cell = 15;
        }
        return (code >> cell) & 1 != 0;
    }
    flash && u >= 0.15 && u <= 0.85 && v >= 0.12 && v <= 0.92
}

#[test]
fn scene_agrees_with_the_shader() {
    // Sides for which no pixel centre lies on an edge.
    for (w, h) in [(1264u32, 681u32), (1904, 1041), (333, 111)] {
        for y in 0..h {
            for x in 0..w {
                let expected = shader(x, y, w, h, true, 0xAAAA);
                assert_eq!(scene_pixel(x, y, w, h, true, 0xAAAA), expected, "{} {} of {} {}", x, y, w, h);
            }
        }
    }
}

#[test]
fn flash_covers_two_fifths_of_the_screen() {
    for (w, h) in [(1920u32, 1080u32), (100, 100), (18, 9), (5, 7)] {
        let mut lit = 0;
        for y in 0..h {
            for x in 0..w {
                if scene_pixel(x, y, w, h, true, 0) {
                    lit += 1;
                }
            }
        }
        assert!(5 * lit >= 2 * w * h);
        if (w, h) == (100, 100) {
            assert_eq!(lit, 5600);
        }
    }
}

#[test]
fn flash_is_clear_of_the_edges() {
    for (w, h) in [(1920u32, 1080u32), (100, 100), (4, 7)] {
        for x in 0..w {
            assert!(!scene_pixel(x, 0, w, h, true, 0));
            assert!(!scene_pixel(x, h - 1, w, h, true, 0));
        }
        for y in 0..h {
            assert!(!scene_pixel(0, y, w, h, true, 0));
            assert!(!scene_pixel(w - 1, y, w, h, true, 0));
        }
    }
    assert!(scene_pixel(15, 12, 100, 100, true, 0));
    assert!(!scene_pixel(14, 12, 100, 100, true, 0));
    assert!(scene_pixel(84, 91, 100, 100, true, 0));
    assert!(!scene_pixel(84, 92, 100, 100, true, 0));
}

#[test]
fn strip_is_the_same_with_and_without_flash() {
    for code in [0, 0xFFFF, barcode(12345)] {
        for x in 0..200 {
            for y in 2..6 {
                assert_eq!(scene_pixel(x, y, 200, 100, true, code), scene_pixel(x, y, 200, 100, false, code));
            }
        }
    }
    assert!(scene_pixel(20, 2, 200, 100, false, 1));
    assert!(!scene_pixel(19, 2, 200, 100, false, 0xFFFF));
    assert!(scene_pixel(179, 5, 200, 100, false, 0x8000));
    assert!(!scene_pixel(180, 5, 200, 100, false, 0xFFFF));
    assert!(!scene_pixel(100, 50, 200, 100, false, 0xFFFF));
}

#[test]
fn one_cell_of_the_strip_changes_from_frame_to_frame() {
    for index in [0u32, 9, 0xFFFF] {
        let (a, b) = (barcode(index), barcode(index.wrapping_add(1)));
        let changed = (0..1600)
            .filter(|&x| scene_pixel(x, 30, 1600, 900, false, a) != scene_pixel(x, 30, 1600, 900, false, b))
            .count();
        assert_eq!(changed, 80);
    }
}
