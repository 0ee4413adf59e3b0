use gateway_mesh::fixed::to_fixed;
use gateway_mesh::single::Single;

fn s(x: f32) -> Single {
    Single { bits: x.to_bits() }
}

fn same(a: Single, b: f32) -> bool {
    f32::from_bits(a.bits).to_bits() == b.to_bits() || (a.is_nan() && b.is_nan())
}

/// Edge values and pseudo-random bit patterns.
fn samples(count: usize) -> Vec<f32> {
    let mut out = vec![
        0.0,
        -0.0,
        1.0,
        -1.0,
        0.5,
        1.5,
        2.5,
        0.1,
        12.25,
        1_000_000.0,
        16777215.0,
        16777216.0,
        16777218.0,
        f32::MIN_POSITIVE,
        f32::MAX,
        f32::MIN,
        f32::INFINITY,
        f32::NEG_INFINITY,
        f32::NAN,
        f32::from_bits(1),
        f32::from_bits(0x007f_ffff),
        f32::from_bits(0x8000_0001),
        f32::from_bits(0x3f7f_ffff),
        f32::from_bits(0x3f80_0001),
    ];
    let mut state: u64 = 0x1234_5678_9abc_def1;
    while out.len() < count {
        state ^= state << 13;
        state ^= state >> 7;
        state ^= state << 17;
        out.push(f32::from_bits((state >> 16) as u32));
        // A value of ordinary size beside each arbitrary one.
        let small = 0x3000_0000 + ((state >> 20) as u32 % 0x2000_0000);
        out.push(f32::from_bits(small | ((state as u32) & 0x8000_0000)));
    }
    out
}

#[test]
fn arithmetic_agrees_with_the_machine() {
    let values = samples(700);
    for &a in &values {
        for &b in &values {
            assert!(same(s(a).plus(s(b)), a + b), "{:?} + {:?}", a, b);
            assert!(same(s(a).minus(s(b)), a - b), "{:?} - {:?}", a, b);
            assert!(same(s(a).times(s(b)), a * b), "{:?} * {:?}", a, b);
            assert!(same(s(a).over(s(b)), a / b), "{:?} / {:?}", a, b);
        }
    }
}

#[test]
fn comparisons_agree_with_the_machine() {
    let values = samples(900);
    for &a in &values {
        assert_eq!(s(a).is_nan(), a.is_nan());
        assert_eq!(s(a).is_finite(), a.is_finite());
        for &b in &values {
            assert_eq!(s(a).below(s(b)), a < b, "{:?} < {:?}", a, b);
            assert_eq!(s(a).not_above(s(b)), a <= b, "{:?} <= {:?}", a, b);
            if a != b {
                assert!(same(s(a).max(s(b)), a.max(b)), "{:?} max {:?}", a, b);
            }
        }
        assert!(same(s(a).clamp(s(0.01), s(1.0)), a.clamp(0.01, 1.0)));
    }
}

#[test]
fn conversions_agree_with_the_machine() {
    for &a in &samples(200_000) {
        assert!(same(s(a).ceil(), a.ceil()), "ceil {:?}", a);
        assert_eq!(s(a).to_u32(), a as u32, "{:?} as u32", a);
        assert_eq!(s(a).to_i8(), a as i8, "{:?} as i8", a);
    }
    for n in 0..5000u64 {
        let wide = n.wrapping_mul(0x9e37_79b9_7f4a_7c15);
        for v in [n, wide, wide >> 20, wide >> 38, (1 << 24) + n, (1 << 25) + n] {
            assert!(same(Single::from_integer(v), v as f32), "{} as f32", v);
        }
    }
    for n in -128..=127i8 {
        assert!(same(Single::from_i8(n), n as f32));
    }
}

#[test]
fn fixed_text_agrees_with_the_machine() {
    for &a in &samples(60_000) {
        assert_eq!(to_fixed(s(a), 2), format!("{:.2}", a), "{:?}", a);
        assert_eq!(to_fixed(s(a), 3), format!("{:.3}", a), "{:?}", a);
    }
    // Numbers that lie exactly between two decimals.
    for k in 0..4000 {
        let a = k as f32 / 16.0;
        assert_eq!(to_fixed(s(a), 3), format!("{:.3}", a));
        let a = k as f32 / 8.0;
        assert_eq!(to_fixed(s(a), 2), format!("{:.2}", a));
    }
}
