use latency_agent::barcode::{barcode, cell_is_white, gray, CELLS, PATTERNS};

#[test]
fn gray_codes() {
    let codes: Vec<u32> = (0..8).map(gray).collect();
    assert_eq!(codes, vec![0, 1, 3, 2, 6, 7, 5, 4]);
    assert_eq!(gray(0xFFFF), 0x8000);
    assert_eq!(gray(u32::MAX), 0x8000_0000);
}

#[test]
fn barcode_shows_the_index_modulo_the_patterns() {
    assert_eq!(barcode(5), 7);
    assert_eq!(barcode(0xFFFF), 0x8000);
    assert_eq!(barcode(0x1_0000), 0);
    assert_eq!(barcode(0x1_0005), 7);
    assert_eq!(barcode(0x1_8000), barcode(0x8000));
}

#[test]
fn one_cell_changes_from_frame_to_frame() {
    let mut index: u32 = 0u32.wrapping_sub(70_000);
    for _ in 0..140_000 {
        let next = index.wrapping_add(1);
        let (a, b) = (barcode(index), barcode(next));
        assert_eq!((a ^ b).count_ones(), 1);
        let changed = (0..CELLS).filter(|&k| cell_is_white(a, k) != cell_is_white(b, k)).count();
        assert_eq!(changed, 1);
        index = next;
    }
}

#[test]
fn no_two_frames_in_a_row_of_patterns_look_alike() {
    let mut seen = vec![false; PATTERNS as usize];
    for index in 40_000..40_000 + PATTERNS {
        let code = barcode(index) as usize;
        assert!(!seen[code]);
        seen[code] = true;
    }
}

#[test]
fn a_torn_strip_reads_as_one_of_two_frames() {
    for index in [0u32, 1, 77, 0x7FFF, 0xFFFF, u32::MAX] {
        let (a, b) = (barcode(index), barcode(index.wrapping_add(1)));
        for split in 0..=CELLS {
            let low = (1u32 << split) - 1;
            let seen = (a & low) | (b & !low);
            assert!(seen == a || seen == b);
        }
    }
}
