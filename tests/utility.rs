use bs::power::{is_power_of_two_or_zero, log2, previous_power_of_two};

fn check(value: usize, is_power: bool, expected_log: Option<u32>, previous: usize) {
    assert_eq!(is_power_of_two_or_zero(value), is_power, "is_power_of_two_or_zero({})", value);
    assert_eq!(log2(value), expected_log, "log2({})", value);
    assert_eq!(previous_power_of_two(value), previous, "previous_power_of_two({})", value);
}

#[test]
fn utility_tests() {
    // exact powers
    check(1usize << 0u32, true, Some(0), 0);
    for k in 1u32..=7 {
        check(1usize << k, true, Some(k), 1usize << (k - 1));
    }
    // one below a power
    for k in 2u32..=7 {
        check((1usize << k) - 1, false, Some(k - 1), 1usize << (k - 1));
    }
    // one above a power
    for k in 1u32..=7 {
        check((1usize << k) + 1, false, Some(k), 1usize << k);
    }
    // specials
    check(0, true, None, 0);
    check(1, true, Some(0), 0);
    check(1usize << 61u32, true, Some(61), 1usize << 60u32);
    check(1usize << 62u32, true, Some(62), 1usize << 61u32);
    check(1usize << 63u32, true, Some(63), 1usize << 62u32);
    check(u8::MAX as usize, false, Some(7), 1usize << 7u32);
    check(u16::MAX as usize, false, Some(15), 1usize << 15u32);
    check(u32::MAX as usize, false, Some(31), 1usize << 31u32);
    check(u64::MAX as usize, false, Some(63), 1usize << 63u32);
    check(usize::MAX, false, Some(63), 1usize << 63u32);
}

#[test]
fn utility_small_values() {
    assert!(is_power_of_two_or_zero(0));
    assert!(is_power_of_two_or_zero(1));
    assert!(!is_power_of_two_or_zero(6));
    assert_eq!(log2(0), None);
    assert_eq!(log2(1), Some(0));
    assert_eq!(previous_power_of_two(0), 0);
    assert_eq!(previous_power_of_two(6), 4);
}

#[test]
fn utility_every_power_of_two() {
    for k in 0u32..64 {
        let p = 1usize << k;
        assert!(is_power_of_two_or_zero(p));
        assert_eq!(log2(p), Some(k));
        let half = if k == 0 { 0 } else { 1usize << (k - 1) };
        assert_eq!(previous_power_of_two(p), half);
        if k >= 1 {
            assert!(!is_power_of_two_or_zero(p + 1));
            assert_eq!(previous_power_of_two(p + 1), p);
        }
    }
}
