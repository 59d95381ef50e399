use bs::alternative;
use bs::binary_search::DynamicBinarySearch;
use bs::helpers::Dynamic;
use bs::power;
use bs::range;
use bs::traditional;

const SIZES: [usize; 10] = [0, 1, 2, 3, 10, 100, 511, 512, 513, 1 << 16];

#[test]
fn binary_search_dynamic_tests() {
    for &n in SIZES.iter() {
        let data: Vec<i32> = Dynamic::filler::<i32, isize>(n);
        assert_eq!(data.len(), n);
        assert!(Dynamic::test::<i32, isize, _>(&traditional::SignedImplementation, &data), "signed traditional, n = {}", n);
        assert!(Dynamic::test::<i32, usize, _>(&traditional::UnsignedImplementation, &data), "unsigned traditional, n = {}", n);
        assert!(Dynamic::test::<i32, usize, _>(&alternative::Implementation, &data), "alternative, n = {}", n);
        assert!(Dynamic::test::<i32, usize, _>(&range::Implementation, &data), "range, n = {}", n);
        assert!(Dynamic::test::<i32, usize, _>(&power::DynamicImplementation, &data), "power, n = {}", n);
    }
}

#[test]
fn filler_values() {
    let data: Vec<i32> = Dynamic::filler::<i32, u8>(5);
    assert_eq!(data, vec![0, 2, 4, 6, 8]);
    let empty: Vec<i32> = Dynamic::filler::<i32, u8>(0);
    assert!(empty.is_empty());
}

#[test]
fn empty_sequence_finds_nothing() {
    let data: Vec<i32> = Vec::new();
    for v in -3i32..=3 {
        let a: Option<isize> = traditional::SignedImplementation.search(&data, &v);
        let a_unsigned: Option<u8> = traditional::SignedImplementation.search(&data, &v);
        assert_eq!(a_unsigned, None);
        let b: Option<usize> = traditional::UnsignedImplementation.search(&data, &v);
        let c: Option<usize> = alternative::Implementation.search(&data, &v);
        let d: Option<usize> = range::Implementation.search(&data, &v);
        let e: Option<usize> = power::DynamicImplementation.search(&data, &v);
        assert_eq!((a, b, c, d, e), (None, None, None, None, None));
    }
}

#[test]
fn singleton_sequence() {
    let data: Vec<i32> = vec![0];
    let expected = [(-1, None), (0, Some(0usize)), (1, None)];
    for &(v, want) in expected.iter() {
        let a: Option<isize> = traditional::SignedImplementation.search(&data, &v);
        assert_eq!(a.map(|i| i as usize), want);
        let b: Option<u8> = traditional::UnsignedImplementation.search(&data, &v);
        assert_eq!(b.map(|i| i as usize), want);
        let c: Option<u8> = alternative::Implementation.search(&data, &v);
        assert_eq!(c.map(|i| i as usize), want);
        let d: Option<u8> = range::Implementation.search(&data, &v);
        assert_eq!(d.map(|i| i as usize), want);
        let e: Option<u8> = power::DynamicImplementation.search(&data, &v);
        assert_eq!(e.map(|i| i as usize), want);
    }
}

#[test]
fn searches_on_duplicates_return_an_equal_element() {
    let data: Vec<i32> = vec![1, 3, 3, 3, 7, 7, 9];
    for v in 0i32..=10 {
        let present = data.contains(&v);
        let results: Vec<Option<usize>> = vec![
            traditional::SignedImplementation.search(&data, &v).map(|i: i16| i as usize),
            traditional::UnsignedImplementation.search(&data, &v).map(|i: u16| i as usize),
            alternative::Implementation.search(&data, &v).map(|i: u16| i as usize),
            range::Implementation.search(&data, &v).map(|i: u16| i as usize),
            power::DynamicImplementation.search(&data, &v).map(|i: u16| i as usize),
        ];
        for r in results {
            match r {
                Some(i) => assert_eq!(data[i], v),
                None => assert!(!present),
            }
        }
    }
}

#[test]
fn power_forms_agree_on_powers_of_two() {
    for k in 0u32..=10 {
        let n = 1usize << k;
        let data: Vec<i32> = Dynamic::filler::<i32, u32>(n);
        for v in -1i32..=(2 * n as i32) {
            let unchecked: Option<u32> = power::DynamicImplementation::without_bound_check(&data, &v);
            let checked: Option<u32> = power::DynamicImplementation::with_bound_check(&data, &v);
            assert_eq!(unchecked, checked, "n = {}, v = {}", n, v);
        }
    }
}

#[test]
fn power_checked_form_matches_oracle() {
    for n in [3usize, 5, 6, 7, 100, 513].iter().copied() {
        let data: Vec<i32> = Dynamic::filler::<i32, u32>(n);
        for v in -1i32..=(2 * n as i32) {
            let got: Option<u32> = power::DynamicImplementation::with_bound_check(&data, &v);
            let want = if v >= 0 && v % 2 == 0 && ((v / 2) as usize) < n { Some((v / 2) as u32) } else { None };
            assert_eq!(got, want, "n = {}, v = {}", n, v);
        }
    }
}

#[test]
fn correctness_tests() {
    // the largest dataset whose length an 8-bit index carries
    const SIZE: usize = u8::MAX as usize;
    let data: Vec<i32> = Dynamic::filler::<i32, u8>(SIZE);
    assert_eq!(data.len(), SIZE);
    assert!(Dynamic::test::<i32, u8, _>(&power::DynamicImplementation, &data));
}

#[test]
fn incorrectness_tests() {
    // a strictly ascending sequence that is not the generated dataset
    let data: Vec<i32> = vec![0, 3, 4];
    assert!(!Dynamic::test::<i32, u8, _>(&traditional::UnsignedImplementation, &data));
    assert!(!Dynamic::test::<i32, u8, _>(&alternative::Implementation, &data));
    let shifted: Vec<i32> = vec![2, 4, 6];
    assert!(!Dynamic::test::<i32, u8, _>(&range::Implementation, &shifted));
    let empty: Vec<i32> = Vec::new();
    assert!(Dynamic::test::<i32, u8, _>(&power::DynamicImplementation, &empty));
}

#[test]
fn repeated_values_give_the_last_equal_element() {
    let data: Vec<i32> = vec![1, 3, 3, 3, 7, 7, 9, 9, 9, 9];
    let last = |v: i32| data.iter().rposition(|&x| x == v);
    for v in 0i32..=10 {
        let want = last(v);
        let c: Option<u8> = alternative::Implementation.search(&data, &v);
        assert_eq!(c.map(|i| i as usize), want, "alternative, v = {}", v);
        let d: Option<u8> = range::Implementation.search(&data, &v);
        assert_eq!(d.map(|i| i as usize), want, "range, v = {}", v);
        let e: Option<u8> = power::DynamicImplementation.search(&data, &v);
        assert_eq!(e.map(|i| i as usize), want, "power, v = {}", v);
        let f: Option<u8> = power::DynamicImplementation::with_bound_check(&data, &v);
        assert_eq!(f.map(|i| i as usize), want, "checked power, v = {}", v);
    }
    let twins: Vec<i32> = vec![5, 5];
    let r: Option<u8> = power::DynamicImplementation::without_bound_check(&twins, &5);
    assert_eq!(r, Some(1));
}
