use pascal_interp::reals::Real;

fn same(r: Real, x: f32) -> bool {
    if x.is_nan() {
        r.is_nan()
    } else {
        r.to_bits() == x.to_bits()
    }
}

fn samples() -> Vec<u32> {
    let mut v: Vec<u32> = vec![
        0x0000_0000, 0x8000_0000, 0x0000_0001, 0x8000_0001, 0x007F_FFFF, 0x0080_0000,
        0x0080_0001, 0x3F80_0000, 0xBF80_0000, 0x3F00_0000, 0x4000_0000, 0x4040_0000,
        0x3FC0_0000, 0x7F7F_FFFF, 0xFF7F_FFFF, 0x7F80_0000, 0xFF80_0000, 0x7FC0_0000,
        0x4B00_0000, 0x4B80_0000, 0x4B7F_FFFF, 0x4F00_0000, 0xCF00_0000, 0x4EFF_FFFF,
        0x3F80_0001, 0x3F7F_FFFF, 0x0040_0000, 0x3380_0000, 0x3400_0000, 0x7F00_0000,
        0x0100_0000, 0x3DCC_CCCD, 0x4049_0FDB, 0x0000_0002, 0x0000_0003, 0x1F80_0000,
    ];
    let mut state: u64 = 0x9E37_79B9_7F4A_7C15;
    let mut i = 0;
    while i < 400 {
        state = state.wrapping_mul(6364136223846793005).wrapping_add(1442695040888963407);
        v.push((state >> 32) as u32);
        i += 1;
    }
    v
}

#[test]
fn arithmetic_agrees_with_the_machine() {
    let v = samples();
    for &a in v.iter() {
        for &b in v.iter() {
            let x = f32::from_bits(a);
            let y = f32::from_bits(b);
            let p = Real::from_bits(a);
            let q = Real::from_bits(b);
            assert!(same(p.add(q), x + y), "{:08x} + {:08x}", a, b);
            assert!(same(p.sub(q), x - y), "{:08x} - {:08x}", a, b);
            assert!(same(p.mul(q), x * y), "{:08x} * {:08x}", a, b);
            assert!(same(p.div(q), x / y), "{:08x} / {:08x}", a, b);
        }
    }
}

#[test]
fn truncation_agrees_with_the_machine() {
    for &a in samples().iter() {
        assert_eq!(Real::from_bits(a).truncate(), f32::from_bits(a) as i32, "{:08x}", a);
    }
}

#[test]
fn conversion_from_integers_agrees_with_the_machine() {
    let mut ints: Vec<i32> = vec![
        0, 1, -1, 2, 10, 16777215, 16777216, 16777217, 16777218, 16777219, 33554431,
        33554433, i32::MAX, i32::MIN, i32::MAX - 63, i32::MAX - 64, i32::MAX - 65, -16777217,
        25165826, 8388609,
    ];
    for &a in samples().iter() {
        ints.push(a as i32);
    }
    for &i in ints.iter() {
        assert_eq!(Real::from_i32(i).to_bits(), (i as f32).to_bits(), "{}", i);
    }
}

#[test]
fn negation_turns_the_sign_only() {
    for &a in samples().iter() {
        assert_eq!(Real::from_bits(a).neg().to_bits(), (-f32::from_bits(a)).to_bits());
    }
}

#[test]
fn one_and_a_half_is_three_halves() {
    let q = Real::from_i32(3).div(Real::from_i32(2));
    assert_eq!(q.to_bits(), 1.5f32.to_bits());
}

fn next(state: &mut u64) -> u32 {
    *state = state.wrapping_mul(6364136223846793005).wrapping_add(1442695040888963407);
    (*state >> 32) as u32
}

fn with_exponent(bits: u32, low: u32, high: u32, pick: u32) -> u32 {
    let field = low + pick % (high - low + 1);
    (bits & 0x807F_FFFF) | (field << 23)
}

#[test]
fn results_near_the_smallest_and_largest_values_agree_with_the_machine() {
    let mut state: u64 = 0x0123_4567_89AB_CDEF;
    for _ in 0..200_000 {
        let a = with_exponent(next(&mut state), 0, 40, next(&mut state));
        let b = with_exponent(next(&mut state), 90, 140, next(&mut state));
        let c = with_exponent(next(&mut state), 215, 254, next(&mut state));
        let d = with_exponent(next(&mut state), 0, 3, next(&mut state));
        for (p, q) in [(a, b), (b, a), (a, d), (d, a), (c, b), (b, c), (c, c), (d, d), (a, a), (c, d)] {
            let (x, y) = (f32::from_bits(p), f32::from_bits(q));
            let (r, s) = (Real::from_bits(p), Real::from_bits(q));
            assert!(same(r.mul(s), x * y), "{:08x} * {:08x}", p, q);
            assert!(same(r.div(s), x / y), "{:08x} / {:08x}", p, q);
            assert!(same(r.add(s), x + y), "{:08x} + {:08x}", p, q);
            assert!(same(r.sub(s), x - y), "{:08x} - {:08x}", p, q);
        }
    }
}

#[test]
fn operands_of_nearly_the_same_size_agree_with_the_machine() {
    let mut state: u64 = 0xFEDC_BA98_7654_3210;
    for _ in 0..300_000 {
        let a = next(&mut state);
        let shift = next(&mut state) % 30;
        let field = (a >> 23) & 0xFF;
        let other = if field >= shift { field - shift } else { field + shift };
        let b = (next(&mut state) & 0x807F_FFFF) | ((other & 0xFF) << 23);
        let (x, y) = (f32::from_bits(a), f32::from_bits(b));
        let (r, s) = (Real::from_bits(a), Real::from_bits(b));
        assert!(same(r.add(s), x + y), "{:08x} + {:08x}", a, b);
        assert!(same(r.sub(s), x - y), "{:08x} - {:08x}", a, b);
        assert!(same(r.div(s), x / y), "{:08x} / {:08x}", a, b);
        assert_eq!(r.truncate(), x as i32, "{:08x}", a);
        let i = a as i32;
        assert_eq!(Real::from_i32(i).to_bits(), (i as f32).to_bits(), "{}", i);
    }
}
