use bs::alternative;
use bs::binary_search::{DynamicBinarySearch, StaticBinarySearch};
use bs::helpers::Static;
use bs::power;
use bs::range;
use bs::traditional;

fn power_on<const SIZE: usize>() -> bool {
    let data: [i32; SIZE] = Static::filler::<i32, isize, SIZE>();
    Static::test::<i32, usize, SIZE, _>(&power::StaticImplementation, &data)
}

fn others_on<const SIZE: usize>() -> bool {
    let data: [i32; SIZE] = Static::filler::<i32, isize, SIZE>();
    Static::test::<i32, isize, SIZE, _>(&traditional::SignedImplementation, &data)
        && Static::test::<i32, usize, SIZE, _>(&traditional::UnsignedImplementation, &data)
        && Static::test::<i32, usize, SIZE, _>(&alternative::Implementation, &data)
        && Static::test::<i32, usize, SIZE, _>(&range::Implementation, &data)
}

#[test]
fn binary_search_static_tests() {
    assert!(power_on::<0>());
    assert!(power_on::<1>());
    assert!(power_on::<2>());
    assert!(power_on::<3>());
    assert!(power_on::<10>());
    assert!(power_on::<100>());
    assert!(power_on::<511>());
    assert!(power_on::<512>());
    assert!(power_on::<513>());
    assert!(power_on::<{ 1usize << 16u32 }>());
}

#[test]
fn static_other_searches() {
    assert!(others_on::<0>());
    assert!(others_on::<1>());
    assert!(others_on::<2>());
    assert!(others_on::<3>());
    assert!(others_on::<10>());
    assert!(others_on::<100>());
    assert!(others_on::<513>());
}

#[test]
fn static_filler_values() {
    let data: [i32; 4] = Static::filler::<i32, u8, 4>();
    assert_eq!(data, [0, 2, 4, 6]);
}

#[test]
fn static_power_with_small_index() {
    const SIZE: usize = u8::MAX as usize;
    let data: [i32; SIZE] = Static::filler::<i32, u8, SIZE>();
    assert!(Static::test::<i32, u8, SIZE, _>(&power::StaticImplementation, &data));
}

#[test]
fn static_singleton_and_empty() {
    let one: [i32; 1] = [0];
    let r: Vec<Option<u8>> = [-1i32, 0, 1].iter().map(|v| power::StaticImplementation.search_fixed(&one, v)).collect();
    assert_eq!(r, vec![None, Some(0), None]);
    let none: [i32; 0] = [];
    let r: Option<u8> = power::StaticImplementation.search_fixed(&none, &0);
    assert_eq!(r, None);
}

#[test]
fn fixed_and_slice_forms_agree() {
    let data: [i32; 7] = [2, 2, 4, 4, 4, 8, 8];
    for v in 0i32..=9 {
        let fixed: Option<u16> = power::StaticImplementation.search_fixed(&data, &v);
        let slice: Option<u16> = power::DynamicImplementation.search(&data[..], &v);
        assert_eq!(fixed, slice, "v = {}", v);
        let fixed_checked: Option<u16> = power::StaticImplementation::with_bound_check(&data, &v);
        let slice_checked: Option<u16> = power::DynamicImplementation::with_bound_check(&data[..], &v);
        assert_eq!(fixed_checked, slice_checked, "v = {}", v);
        let fixed_range: Option<u16> = range::Implementation.search_fixed(&data, &v);
        let slice_range: Option<u16> = range::Implementation.search(&data[..], &v);
        assert_eq!(fixed_range, slice_range, "v = {}", v);
    }
}
