use bs::binary_search::{DynamicBinarySearch, StaticBinarySearch};
use bs::eytzinger::{
    eytzinger_layout, ffs, ImplementationBranchless, ImplementationPrefetching,
    ImplementationWithoutHints,
};

fn in_order(layout: &[i32], k: usize, out: &mut Vec<i32>) {
    if k <= layout.len() {
        in_order(layout, 2 * k, out);
        out.push(layout[k - 1]);
        in_order(layout, 2 * k + 1, out);
    }
}

fn layout_of(sorted: &[i32]) -> Vec<i32> {
    let mut layout = vec![0i32; sorted.len()];
    assert!(eytzinger_layout(&mut layout, sorted));
    layout
}

#[test]
fn layout_round_trip() {
    for n in 0usize..=600 {
        let sorted: Vec<i32> = (0..n as i32).map(|i| 2 * i).collect();
        let layout = layout_of(&sorted);
        let mut read = Vec::new();
        in_order(&layout, 1, &mut read);
        assert_eq!(read, sorted, "n = {}", n);
    }
}

#[test]
fn layout_of_seven() {
    let layout = layout_of(&[1, 2, 3, 4, 5, 6, 7]);
    assert_eq!(layout, vec![4, 2, 6, 1, 3, 5, 7]);
    let layout = layout_of(&[10, 20, 30, 40, 50]);
    assert_eq!(layout, vec![40, 20, 50, 10, 30]);
}

#[test]
fn layout_length_mismatch() {
    let mut layout = vec![9i32; 3];
    assert!(!eytzinger_layout(&mut layout, &[1, 2]));
    assert_eq!(layout, vec![9, 9, 9]);
}

#[test]
fn ffs_values() {
    assert_eq!(ffs(0u8), 16);
    assert_eq!(ffs(0usize), 16);
    assert_eq!(ffs(1u8), 1);
    assert_eq!(ffs(8u16), 4);
    assert_eq!(ffs(0b1011_0000u32), 5);
    assert_eq!(ffs(1usize << 40), 41);
    assert_eq!(ffs(0x80u8), 8);
}

fn check_all(sorted: &[i32]) {
    let layout = layout_of(sorted);
    let lo = sorted.first().copied().unwrap_or(0) - 1;
    let hi = sorted.last().copied().unwrap_or(0) + 1;
    for v in lo..=hi {
        let present = sorted.contains(&v);
        let results: [Option<u32>; 3] = [
            ImplementationWithoutHints.search(&layout, &v),
            ImplementationBranchless.search(&layout, &v),
            ImplementationPrefetching.search(&layout, &v),
        ];
        for r in results.iter() {
            match r {
                Some(i) => assert_eq!(layout[*i as usize], v),
                None => assert!(!present, "{} is present but was not found", v),
            }
        }
    }
}

#[test]
fn eytzinger_searches_every_probe() {
    for n in 0usize..=300 {
        let sorted: Vec<i32> = (0..n as i32).map(|i| 2 * i).collect();
        check_all(&sorted);
    }
    let big: Vec<i32> = (0..65536i32).map(|i| 2 * i).collect();
    check_all(&big);
}

#[test]
fn eytzinger_with_duplicates() {
    check_all(&[1, 1, 2, 3, 3, 3, 8, 9, 9]);
}

#[test]
fn eytzinger_small_index_type() {
    // an 8-bit index serves layouts of up to 126 elements
    let sorted: Vec<i32> = (0..126i32).map(|i| 3 * i).collect();
    let layout = layout_of(&sorted);
    for v in -1i32..=380 {
        let r: Option<u8> = ImplementationBranchless.search(&layout, &v);
        match r {
            Some(i) => assert_eq!(layout[i as usize], v),
            None => assert!(v < 0 || v % 3 != 0 || v / 3 >= 126),
        }
    }
}

#[test]
fn eytzinger_fixed_arrays() {
    let layout: [i32; 6] = {
        let mut a = [0i32; 6];
        assert!(eytzinger_layout(&mut a, &[0, 2, 4, 6, 8, 10]));
        a
    };
    for v in -1i32..=11 {
        let r: Option<u16> = ImplementationPrefetching.search_fixed(&layout, &v);
        if v >= 0 && v % 2 == 0 {
            assert_eq!(layout[r.unwrap() as usize], v);
        } else {
            assert_eq!(r, None);
        }
    }
    let empty: [i32; 0] = [];
    let r: Option<u16> = ImplementationWithoutHints.search_fixed(&empty, &3);
    assert_eq!(r, None);
}

#[test]
fn eytzinger_variants_return_the_first_equal_element() {
    let sorted: Vec<i32> = vec![1, 1, 2, 3, 3, 3, 8, 9, 9];
    let layout = layout_of(&sorted);
    let mut order = Vec::new();
    positions(layout.len(), 1, &mut order);
    for v in 0i32..=10 {
        // the first layout position, in in-order, that holds v
        let want = order.iter().map(|&p| p - 1).find(|&p| layout[p] == v);
        let a: Option<u8> = ImplementationWithoutHints.search(&layout, &v);
        let b: Option<u8> = ImplementationBranchless.search(&layout, &v);
        let c: Option<u8> = ImplementationPrefetching.search(&layout, &v);
        assert_eq!(a.map(|i| i as usize), want, "v = {}", v);
        assert_eq!(b, a);
        assert_eq!(c, a);
    }
}

fn positions(n: usize, k: usize, out: &mut Vec<usize>) {
    if k <= n {
        positions(n, 2 * k, out);
        out.push(k);
        positions(n, 2 * k + 1, out);
    }
}
