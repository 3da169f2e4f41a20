use latency_agent::rounding::{round_quotient, whole_part, Rounded, DOUBLE, SINGLE};

#[test]
fn rounding_goes_to_the_nearest_and_to_the_even() {
    // The first integer that double precision does not hold, and its neighbours.
    for v in [(1u64 << 53) - 1, 1 << 53, (1 << 53) + 1, (1 << 53) + 2, (1 << 53) + 3] {
        let r = round_quotient(v, 1, DOUBLE, 0);
        assert_eq!(r.mant as f64 * 2f64.powi(r.exp), v as f64);
    }
    let r = round_quotient((1 << 53) + 1, 1, DOUBLE, 0);
    assert_eq!((r.mant, r.exp), (1 << 52, 1));
    let r = round_quotient((1 << 53) + 3, 1, DOUBLE, 0);
    assert_eq!((r.mant, r.exp), ((1 << 52) + 2, 1));
}

#[test]
fn rounding_agrees_with_single_precision() {
    for n in 1..300u64 {
        for d in 1..300u64 {
            let r = round_quotient(n, d, SINGLE, 0);
            assert!(SINGLE <= r.mant && r.mant <= 2 * SINGLE);
            assert_eq!(r.mant as f32 * 2f32.powi(r.exp), n as f32 / d as f32);
        }
    }
}

#[test]
fn whole_part_cuts_off_and_saturates() {
    assert_eq!(whole_part(Rounded { mant: 7, exp: -1 }), 3);
    assert_eq!(whole_part(Rounded { mant: 7, exp: 2 }), 28);
    assert_eq!(whole_part(Rounded { mant: 7, exp: -64 }), 0);
    assert_eq!(whole_part(Rounded { mant: 1, exp: 63 }), 1 << 63);
    assert_eq!(whole_part(Rounded { mant: 1, exp: 64 }), u64::MAX);
    assert_eq!(whole_part(Rounded { mant: u64::MAX, exp: 0 }), u64::MAX);
}

#[test]
fn rounding_keeps_the_order() {
    let mut last = 0.0f32;
    for n in 16_777_000..16_778_000u64 {
        let r = round_quotient(n, 7, SINGLE, 0);
        let value = r.mant as f32 * 2f32.powi(r.exp);
        assert!(last <= value);
        last = value;
    }
}

#[test]
fn rounding_is_off_by_half_a_unit_at_most() {
    for n in 1..2000u64 {
        let r = round_quotient(n, 997, SINGLE, 0);
        let exact = n as f64 / 997.0;
        let off = (r.mant as f64 * 2f64.powi(r.exp) - exact).abs();
        assert!(off <= 2f64.powi(r.exp - 1));
    }
}
