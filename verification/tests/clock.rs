use latency_agent::clock::elapsed_ms;

#[test]
fn milliseconds_agree_with_double_precision() {
    let mut state: u64 = 0x9E37_79B9_7F4A_7C15;
    for i in 0..20000u32 {
        state ^= state << 13;
        state ^= state >> 7;
        state ^= state << 17;
        let ticks = state >> (i % 64);
        state ^= state << 13;
        state ^= state >> 7;
        state ^= state << 17;
        let freq = state >> ((i / 64) % 64);
        let expected = (ticks as f64 / freq as f64 * 1000.0) as u64;
        assert_eq!(elapsed_ms(ticks, freq), expected, "{} {}", ticks, freq);
    }
}

#[test]
fn milliseconds_of_ordinary_readings() {
    assert_eq!(elapsed_ms(0, 10_000_000), 0);
    assert_eq!(elapsed_ms(9_999, 10_000_000), 0);
    assert_eq!(elapsed_ms(10_000, 10_000_000), 1);
    assert_eq!(elapsed_ms(12_345_678, 10_000_000), 1234);
    assert_eq!(elapsed_ms(987_654_321_012, 10_000_000), 98_765_432);
}

#[test]
fn milliseconds_keep_the_error_of_double_precision() {
    assert_eq!(elapsed_ms(1001, 1000), 1000);
    assert_eq!((1001f64 / 1000f64 * 1000.0) as u64, elapsed_ms(1001, 1000));
    assert_eq!((29f64 / 1000f64 * 1000.0) as u64, elapsed_ms(29, 1000));
    for ticks in 0..5000u64 {
        let expected = (ticks as f64 / 3_579_545f64 * 1000.0) as u64;
        assert_eq!(elapsed_ms(ticks, 3_579_545), expected);
        let expected = (ticks as f64 / 1000f64 * 1000.0) as u64;
        assert_eq!(elapsed_ms(ticks, 1000), expected);
    }
}

#[test]
fn milliseconds_at_the_edges() {
    assert_eq!(elapsed_ms(0, 0), 0);
    assert_eq!(elapsed_ms(1, 0), u64::MAX);
    assert_eq!(elapsed_ms(u64::MAX, 1), u64::MAX);
    assert_eq!(elapsed_ms(u64::MAX, u64::MAX), 1000);
    assert_eq!(elapsed_ms(1, u64::MAX), 0);
    assert_eq!(elapsed_ms(u64::MAX, 1000), u64::MAX);
    assert_eq!(elapsed_ms(u64::MAX, 1001), (u64::MAX as f64 / 1001.0 * 1000.0) as u64);
    assert!(elapsed_ms(u64::MAX, 1001) < u64::MAX);
}

#[test]
fn milliseconds_do_not_run_backwards() {
    let mut last = 0;
    for ticks in 0..100_000u64 {
        let ms = elapsed_ms(ticks, 2_441);
        assert!(last <= ms);
        last = ms;
    }
    assert_eq!(last, 40_966);
}

#[test]
fn milliseconds_are_right_to_one() {
    for ticks in (0..10_000_000_000u64).step_by(7_654_321) {
        let exact = ticks as i128 * 1000 / 10_000_000;
        let ms = elapsed_ms(ticks, 10_000_000) as i128;
        assert!((ms - exact).abs() <= 1);
    }
}
