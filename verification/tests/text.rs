use latency_agent::text::{push_decimal, push_signed, wide};

#[test]
fn decimals_match_the_standard_library() {
    let mut n: u64 = 0;
    for i in 0..64u32 {
        for v in [n, n.wrapping_add(9), (1u64 << i) - 1, 1u64 << i] {
            let mut line = String::from("x");
            push_decimal(&mut line, v);
            assert_eq!(line, format!("x{}", v));
            let mut line = String::from("y");
            push_signed(&mut line, v as i64);
            assert_eq!(line, format!("y{}", v as i64));
        }
        n = n.wrapping_mul(10).wrapping_add(u64::from(i % 10));
    }
    let mut line = String::new();
    push_signed(&mut line, i64::MIN);
    line.push(' ');
    push_decimal(&mut line, u64::MAX);
    assert_eq!(line, "-9223372036854775808 18446744073709551615");
}

#[test]
fn wide_strings_are_terminated_utf16() {
    assert_eq!(wide(""), vec![0]);
    assert_eq!(wide("Az"), vec![0x41, 0x7A, 0]);
    assert_eq!(wide("\u{1F4A1}"), vec![0xD83D, 0xDCA1, 0]);
    for text in ["latency-agent [windowed]", "\u{FFFF}\u{10000}\u{10FFFF}", "\u{E9}\u{20AC}\u{D7FF}\u{E000}"] {
        let expected: Vec<u16> = text.encode_utf16().chain([0]).collect();
        assert_eq!(wide(text), expected);
    }
}
