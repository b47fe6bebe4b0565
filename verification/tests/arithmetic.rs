use table_layout::binary32::Binary32;

/// Bits that look random, the same ones in every run.
fn next(state: &mut u64) -> u32 {
    *state = state
        .wrapping_mul(6364136223846793005)
        .wrapping_add(1442695040888963407);
    (*state >> 32) as u32
}

/// Bits that cover small and large numbers, close numbers and special ones.
fn sample(state: &mut u64) -> u32 {
    let special: [u32; 14] = [
        0, 0x8000_0000, 1, 0x8000_0001, 0x7f_ffff, 0x80_0000, 0x7f7f_ffff, 0x7f80_0000,
        0xff80_0000, 0x7fc0_0000, 0x3f80_0000, 0xbf80_0000, 0x3c23_d70a, 0x4b80_0000,
    ];
    match next(state) % 5 {
        0 => special[(next(state) % 14) as usize],
        1 => next(state),
        2 => 0x4000_0000 + next(state) % 0x0600_0000,
        3 => 0x3f00_0000 + next(state) % 0x0100_0000,
        _ => (next(state) % 4096) << 12 | 0x4200_0000,
    }
}

fn same(ours: Binary32, theirs: f32) -> bool {
    if theirs.is_nan() {
        f32::from_bits(ours.to_bits()).is_nan()
    } else {
        ours.to_bits() == theirs.to_bits()
    }
}

#[test]
fn operations_round_as_hardware_does() {
    let mut state: u64 = 7;
    for _ in 0..400_000 {
        let (a, b) = (sample(&mut state), sample(&mut state));
        let (x, y) = (Binary32::from_bits(a), Binary32::from_bits(b));
        let (u, v) = (f32::from_bits(a), f32::from_bits(b));
        assert!(same(x.plus(y), u + v), "{:08x} + {:08x}", a, b);
        assert!(same(x.minus(y), u - v), "{:08x} - {:08x}", a, b);
        assert!(same(x.times(y), u * v), "{:08x} * {:08x}", a, b);
        assert!(same(x.over(y), u / v), "{:08x} / {:08x}", a, b);
    }
}

#[test]
fn comparisons_agree_with_hardware() {
    let mut state: u64 = 11;
    for _ in 0..400_000 {
        let (a, b) = (sample(&mut state), sample(&mut state));
        let (x, y) = (Binary32::from_bits(a), Binary32::from_bits(b));
        let (u, v) = (f32::from_bits(a), f32::from_bits(b));
        assert_eq!(x.lt(y), u < v);
        assert_eq!(x.le(y), u <= v);
        assert_eq!(x.equals_zero(), u == 0.0);
        let larger = f32::from_bits(x.max(y).to_bits());
        let smaller = f32::from_bits(x.min(y).to_bits());
        assert!(larger == u.max(v) || (larger.is_nan() && u.max(v).is_nan()));
        assert!(smaller == u.min(v) || (smaller.is_nan() && u.min(v).is_nan()));
    }
}

#[test]
fn counts_round_as_hardware_does() {
    let mut state: u64 = 13;
    for n in 0..70_000usize {
        assert_eq!(Binary32::from_count(n).to_bits(), (n as f32).to_bits());
    }
    for _ in 0..100_000 {
        let wide = (next(&mut state) as u64) << 32 | next(&mut state) as u64;
        let n = (wide >> (next(&mut state) % 64)) as usize;
        assert_eq!(Binary32::from_count(n).to_bits(), (n as f32).to_bits());
    }
}

#[test]
fn exact_results() {
    let bits = |x: f32| Binary32::from_bits(x.to_bits());
    assert_eq!(bits(1.5).plus(bits(2.25)), bits(3.75));
    assert_eq!(bits(1.5).minus(bits(2.25)), bits(-0.75));
    assert_eq!(bits(1.5).times(bits(-2.5)), bits(-3.75));
    assert_eq!(bits(1.0).over(bits(3.0)).to_bits(), 0x3eaa_aaab);
    assert_eq!(bits(1.0).over(bits(0.0)).to_bits(), 0x7f80_0000);
    assert_eq!(bits(0.0).over(bits(0.0)).to_bits(), 0x7fc0_0000);
    assert_eq!(bits(2.0).minus(bits(2.0)).to_bits(), 0);
    assert_eq!(bits(1.0).negated(), bits(-1.0));
    assert_eq!(Binary32::nil().to_bits(), 0);
}
