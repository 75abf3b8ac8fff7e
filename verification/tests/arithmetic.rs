use portfolio_wasm::single::Single;

fn s(x: f32) -> Single {
    Single::from_bits(x.to_bits())
}

fn same(got: Single, want: f32) -> bool {
    if want.is_nan() {
        got.is_nan()
    } else {
        got.to_bits() == want.to_bits()
    }
}

fn next(state: &mut u64) -> u32 {
    *state = state.wrapping_mul(6364136223846793005).wrapping_add(1442695040888963407);
    (*state >> 32) as u32
}

/// Bit patterns that crowd the corners: zeros, subnormals, powers of two,
/// the largest finite numbers, infinities and a not-a-number.
fn corners() -> Vec<u32> {
    let mut v = vec![
        0x0000_0000, 0x8000_0000, 0x0000_0001, 0x8000_0001, 0x0000_0002, 0x007f_ffff, 0x0080_0000,
        0x0080_0001, 0x00ff_ffff, 0x0100_0000, 0x3f80_0000, 0xbf80_0000, 0x3f7f_ffff, 0x3f80_0001,
        0x4000_0000, 0x4040_0000, 0x3f00_0000, 0x7f7f_ffff, 0xff7f_ffff, 0x7f00_0000, 0x7f80_0000,
        0xff80_0000, 0x7fc0_0000, 0x4b00_0005, 0x3fc0_0000, 0x4b00_0004, 0x4300_0000, 0x3640_0000,
        0x42c8_0000, 0x3dcc_cccd, 0x3a83_126f, 0x411c_f5c3, 0x4120_0000, 0x4270_0000, 0x3c88_8889,
    ];
    let mut e = 0u32;
    while e < 255 {
        v.push(e << 23);
        v.push((e << 23) | 0x7f_ffff);
        v.push((e << 23) | 0x40_0000);
        e += 9;
    }
    v
}

#[test]
fn add_matches_hardware_on_corners() {
    let c = corners();
    for &a in &c {
        for &b in &c {
            let x = f32::from_bits(a);
            let y = f32::from_bits(b);
            assert!(same(s(x).add(s(y)), x + y), "{:08x} + {:08x}", a, b);
            assert!(same(s(x).sub(s(y)), x - y), "{:08x} - {:08x}", a, b);
        }
    }
}

#[test]
fn mul_matches_hardware_on_corners() {
    let c = corners();
    for &a in &c {
        for &b in &c {
            let x = f32::from_bits(a);
            let y = f32::from_bits(b);
            assert!(same(s(x).mul(s(y)), x * y), "{:08x} * {:08x}", a, b);
        }
    }
}

#[test]
fn div_matches_hardware_on_corners() {
    let c = corners();
    for &a in &c {
        for &b in &c {
            let x = f32::from_bits(a);
            let y = f32::from_bits(b);
            assert!(same(s(x).div(s(y)), x / y), "{:08x} / {:08x}", a, b);
        }
    }
}

#[test]
fn sqrt_matches_hardware_on_corners() {
    for &a in &corners() {
        let x = f32::from_bits(a);
        assert!(same(s(x).sqrt(), x.sqrt()), "sqrt {:08x}", a);
    }
}

#[test]
fn order_matches_hardware_on_corners() {
    let c = corners();
    for &a in &c {
        for &b in &c {
            let x = f32::from_bits(a);
            let y = f32::from_bits(b);
            assert_eq!(s(x).lt(s(y)), x < y);
            assert_eq!(s(x).gt(s(y)), x > y);
            assert_eq!(s(x).le(s(y)), x <= y);
            let hi = s(x).max(s(y));
            let lo = s(x).min(s(y));
            if x.is_nan() && y.is_nan() {
                assert!(hi.is_nan() && lo.is_nan());
            } else {
                assert!(f32::from_bits(hi.to_bits()) == x.max(y));
                assert!(f32::from_bits(lo.to_bits()) == x.min(y));
            }
        }
    }
}

#[test]
fn arithmetic_matches_hardware_on_a_sweep() {
    let mut state = 0x2545_f491_4f6c_dd1du64;
    let mut i = 0;
    while i < 20000 {
        let a = next(&mut state);
        let b = next(&mut state);
        let x = f32::from_bits(a);
        let y = f32::from_bits(b);
        assert!(same(s(x).add(s(y)), x + y), "{:08x} + {:08x}", a, b);
        assert!(same(s(x).sub(s(y)), x - y), "{:08x} - {:08x}", a, b);
        assert!(same(s(x).mul(s(y)), x * y), "{:08x} * {:08x}", a, b);
        assert!(same(s(x).div(s(y)), x / y), "{:08x} / {:08x}", a, b);
        assert!(same(s(x).sqrt(), x.sqrt()), "sqrt {:08x}", a);
        assert_eq!(s(x).lt(s(y)), x < y);
        i += 1;
    }
}

#[test]
fn arithmetic_matches_hardware_near_each_other() {
    // Operands within a few binades of each other, where cancellation and
    // ties are common.
    let mut state = 0x9e37_79b9_7f4a_7c15u64;
    let mut i = 0;
    while i < 20000 {
        let a = 0x3f00_0000 + (next(&mut state) % 0x0400_0000);
        let low = next(&mut state);
        let b = if low % 4 == 0 { a ^ (low >> 28) } else { 0x3e80_0000 + (low % 0x0300_0000) };
        let sign = (next(&mut state) & 1) << 31;
        let x = f32::from_bits(a);
        let y = f32::from_bits(b | sign);
        assert!(same(s(x).add(s(y)), x + y), "{:08x} + {:08x}", a, b | sign);
        assert!(same(s(x).sub(s(y)), x - y), "{:08x} - {:08x}", a, b | sign);
        assert!(same(s(x).mul(s(y)), x * y), "{:08x} * {:08x}", a, b | sign);
        assert!(same(s(x).div(s(y)), x / y), "{:08x} / {:08x}", a, b | sign);
        assert!(same(s(x).sqrt(), x.sqrt()), "sqrt {:08x}", a);
        i += 1;
    }
}

#[test]
fn exact_values() {
    assert_eq!(s(1.5).add(s(2.25)).to_bits(), 3.75f32.to_bits());
    assert_eq!(s(1.0).div(s(60.0)).to_bits(), 0x3c88_8889);
    assert_eq!(s(9.81).mul(s(10.0)).to_bits(), (9.81f32 * 10.0).to_bits());
    assert_eq!(s(2.0).sqrt().to_bits(), 0x3fb5_04f3);
    assert_eq!(s(-0.0).add(s(-0.0)).to_bits(), 0x8000_0000);
    assert_eq!(s(1.0).sub(s(1.0)).to_bits(), 0);
    assert!(s(-1.0).sqrt().is_nan());
    assert!(s(0.0).div(s(0.0)).is_nan());
    assert_eq!(s(1.0).div(s(0.0)).to_bits(), 0x7f80_0000);
    assert_eq!(s(3.0e38).mul(s(10.0)).to_bits(), 0x7f80_0000);
    assert_eq!(s(5.0).neg().to_bits(), (-5.0f32).to_bits());
}

#[test]
fn results_near_the_ends_of_the_range_match_hardware() {
    // Products and quotients that fall among the subnormals or beyond the
    // largest finite number, and sums whose operands lie far apart.
    let mut state = 0x1234_5678_9abc_def0u64;
    let mut i = 0;
    while i < 20000 {
        let fa = next(&mut state) & 0x007f_ffff;
        let fb = next(&mut state) & 0x007f_ffff;
        let ea = next(&mut state) % 255;
        let low = next(&mut state);
        // Exponents that add up to about the least, or differ by about the most.
        let eb_mul = (127 + 127 - 149 + 252 - ea + (low % 60)) % 255;
        let eb_div = (ea + 127 + 148 - (low % 60) + 510) % 255;
        let eb_add = (ea + 255 - (low % 70)) % 255;
        let x = f32::from_bits((ea << 23) | fa);
        for eb in [eb_mul, eb_div, eb_add, 0, 1, 254] {
            let y = f32::from_bits((eb << 23) | fb | ((low & 1) << 31));
            assert!(same(s(x).mul(s(y)), x * y), "{:08x} * {:08x}", x.to_bits(), y.to_bits());
            assert!(same(s(x).div(s(y)), x / y), "{:08x} / {:08x}", x.to_bits(), y.to_bits());
            assert!(same(s(y).div(s(x)), y / x), "{:08x} / {:08x}", y.to_bits(), x.to_bits());
            assert!(same(s(x).add(s(y)), x + y), "{:08x} + {:08x}", x.to_bits(), y.to_bits());
            assert!(same(s(y).sub(s(x)), y - x), "{:08x} - {:08x}", y.to_bits(), x.to_bits());
        }
        assert!(same(s(x).sqrt(), x.sqrt()), "sqrt {:08x}", x.to_bits());
        i += 1;
    }
}

#[test]
fn ties_round_to_even() {
    // 2^24 + 1 lies halfway between two numbers: the even one is taken.
    assert_eq!(s(16777216.0).add(s(1.0)).to_bits(), 16777216.0f32.to_bits());
    assert_eq!(s(16777218.0).add(s(1.0)).to_bits(), 16777220.0f32.to_bits());
    assert_eq!(s(16777216.0).add(s(3.0)).to_bits(), 16777220.0f32.to_bits());
    // The smallest subnormal halved is a tie between zero and itself.
    assert_eq!(s(f32::from_bits(1)).mul(s(0.5)).to_bits(), 0);
    assert_eq!(s(f32::from_bits(3)).mul(s(0.5)).to_bits(), 2);
    assert_eq!(s(f32::from_bits(1)).div(s(2.0)).to_bits(), 0);
    assert_eq!(s(f32::from_bits(3)).div(s(2.0)).to_bits(), 2);
    // Just below and at the overflow threshold.
    assert_eq!(s(f32::MAX).add(s(f32::from_bits(0x7300_0000))).to_bits(), 0x7f80_0000);
    assert_eq!(s(f32::MAX).add(s(f32::from_bits(0x72ff_ffff))).to_bits(), f32::MAX.to_bits());
}

#[test]
fn every_square_root_of_a_binade_matches_hardware() {
    // All significands of two neighbouring binades: an even and an odd exponent.
    let mut fraction = 0u32;
    while fraction < 0x0080_0000 {
        for exponent in [127u32, 128] {
            let x = f32::from_bits((exponent << 23) | fraction);
            assert_eq!(s(x).sqrt().to_bits(), x.sqrt().to_bits(), "sqrt {:08x}", x.to_bits());
        }
        fraction += 7;
    }
}
