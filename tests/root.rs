use uint_root::Uint;

fn u(bits: usize, v: u64) -> Uint {
    Uint::try_new(bits, v).unwrap()
}

fn check_bounds(value: Uint, degree: usize) {
    let root = value.root(degree);
    assert_eq!(root.bits(), value.bits());
    let lower = root.checked_pow(degree).expect("the root's power fits");
    assert!(value.to_u64() >= lower.to_u64());
    let upper = root
        .checked_add(u(value.bits(), 1))
        .and_then(|n| n.checked_pow(degree));
    if let Some(upper) = upper {
        assert!(value.to_u64() < upper.to_u64());
    }
}

fn sample_values(bits: usize) -> Vec<u64> {
    let max: u64 = if bits == 64 { u64::MAX } else { (1u64 << bits) - 1 };
    let mut out = vec![0, 1, 2, 3, max, max - 1, max / 2, max / 3];
    let mut state: u64 = 0x9e37_79b9_7f4a_7c15;
    for _ in 0..200 {
        state = state.wrapping_mul(6364136223846793005).wrapping_add(1442695040888963407);
        out.push(state & max);
    }
    out
}

#[test]
fn test_root() {
    for bits in [4usize, 7, 8, 16, 31, 32, 63, 64] {
        for v in sample_values(bits) {
            for degree in 1..=5usize {
                check_bounds(u(bits, v), degree);
            }
        }
    }
}

#[test]
fn test_root_large() {
    for bits in [4usize, 7, 8, 16, 31, 32, 63, 64] {
        for v in sample_values(bits) {
            for degree in 1..=bits {
                check_bounds(u(bits, v), degree);
            }
        }
    }
}

#[test]
fn root_of_zero_square() {
    assert_eq!(u(64, 0).root(2).to_u64(), 0);
}

#[test]
fn root_of_one_degree_63() {
    assert_eq!(u(64, 1).root(63).to_u64(), 1);
}

#[test]
fn huge_degree_in_63_bits() {
    assert_eq!(u(63, 0x0e75e26c01f2898c).root(8181384194531620469).to_u64(), 1);
}

#[test]
fn degree_above_width_in_63_bits() {
    assert_eq!(u(63, 0x0032da8b0f88575d).root(64).to_u64(), 1);
}

#[test]
fn degree_34_in_63_bits() {
    assert_eq!(u(63, 0x1756800000000000).root(34).to_u64(), 3);
}

#[test]
fn exact_roots() {
    assert_eq!(u(64, 1_000_000).root(2).to_u64(), 1000);
    assert_eq!(u(64, 999_999).root(2).to_u64(), 999);
    assert_eq!(u(64, 1 << 60).root(3).to_u64(), 1 << 20);
    assert_eq!(u(64, u64::MAX).root(2).to_u64(), 4_294_967_295);
    assert_eq!(u(64, u64::MAX).root(63).to_u64(), 2);
    assert_eq!(u(8, 255).root(7).to_u64(), 2);
}

#[test]
fn zero_identity_all_degrees() {
    for degree in [1usize, 2, 3, 63, 64, 1000] {
        assert_eq!(u(64, 0).root(degree).to_u64(), 0);
    }
    assert_eq!(u(0, 0).root(5).to_u64(), 0);
}

#[test]
fn degree_one_identity() {
    for v in sample_values(64) {
        assert_eq!(u(64, v).root(1).to_u64(), v);
    }
}

#[test]
fn saturation_at_width() {
    for v in [1u64, 2, 12345, u64::MAX] {
        assert_eq!(u(64, v).root(64).to_u64(), 1);
        assert_eq!(u(64, v).root(usize::MAX).to_u64(), 1);
    }
}

#[test]
fn monotonic_in_operand() {
    for degree in 1..=6usize {
        let mut last = 0u64;
        for v in 0..5000u64 {
            let r = u(16, v).root(degree).to_u64();
            assert!(r >= last);
            last = r;
        }
    }
}

#[test]
fn width_limits() {
    assert!(Uint::try_new(8, 256).is_none());
    assert!(Uint::try_new(65, 0).is_none());
    assert!(Uint::zero(0).is_some());
    assert!(u(8, 200).checked_add(u(8, 56)).is_none());
    assert_eq!(u(8, 200).checked_add(u(8, 55)).unwrap().to_u64(), 255);
    assert_eq!(u(64, 3).checked_pow(40).unwrap().to_u64(), 12157665459056928801);
    assert!(u(64, 3).checked_pow(41).is_none());
    assert!(u(0, 0).checked_pow(0).is_none());
    assert_eq!(u(8, 0).checked_pow(usize::MAX).unwrap().to_u64(), 0);
}
