//! Two-comparison binary search, in a signed and an unsigned form.
use crate::binary_search::{
    is_search_result, lemma_total_order, not_after, precedes, same, sorted, DynamicBinarySearch,
    StaticBinarySearch,
};
use crate::index::BoundedInt;
use vstd::laws_cmp::obeys_cmp;
use vstd::prelude::*;
use vstd::std_specs::cmp::OrdSpec;

verus! {

/// Two comparisons per step, over a signed index: `high` may fall to `-1`.
pub struct SignedImplementation;

/// Two comparisons per step, over an unsigned index: the interval is narrowed
/// with a rounded-up midpoint so that `high` never falls below zero.
pub struct UnsignedImplementation;

impl SignedImplementation {
    pub fn two_conditions<D: Ord, I: BoundedInt>(data: &[D], value: &D) -> (r: Option<I>)
        requires
            obeys_cmp::<D>(),
            sorted(data@),
            1 <= data@.len() <= I::highest(),
            I::lowest() < 0,
        ensures
            is_search_result(data@, *value, r),
    {
        proof {
            lemma_total_order::<D>();
        }
        let n = data.len();
        let mut low: I = I::zero();
        let mut high: I = I::from_usize(n - 1).unwrap();
        while low.less_eq(high)
            invariant
                obeys_cmp::<D>(),
                sorted(data@),
                n == data@.len(),
                n <= I::highest(),
                I::lowest() < 0,
                0 <= low.as_int() <= high.as_int() + 1 <= n,
                forall|j: int| 0 <= j < low.as_int() ==> precedes(#[trigger] data@[j], *value),
                forall|j: int| high.as_int() < j < n ==> precedes(*value, #[trigger] data@[j]),
            decreases high.as_int() - low.as_int() + 1,
        {
            proof {
                lemma_total_order::<D>();
            }
            let mid: I = low.plus(high.minus(low).half());
            let index: usize = mid.to_usize();
            if data[index] > *value {
                assert(data@[mid.as_int()].cmp_spec(value) == core::cmp::Ordering::Greater);
                assert(precedes(*value, data@[mid.as_int()]));
                high = mid.minus(I::one());
                assert forall|j: int| high.as_int() < j < n implies precedes(*value, #[trigger] data@[j]) by {
                    if j <= mid.as_int() {
                        assert(not_after(data@[mid.as_int()], data@[j]));
                    }
                }
            } else if data[index] < *value {
                assert(precedes(data@[mid.as_int()], *value));
                low = mid.plus(I::one());
                assert forall|j: int| 0 <= j < low.as_int() implies precedes(#[trigger] data@[j], *value) by {
                    if j >= mid.as_int() {
                        assert(not_after(data@[j], data@[mid.as_int()]));
                    }
                }
            } else {
                return Some(mid);
            }
        }
        proof {
            assert forall|j: int| 0 <= j < n implies !same(#[trigger] data@[j], *value) by {
                if j < low.as_int() {
                    assert(precedes(data@[j], *value));
                } else {
                    assert(precedes(*value, data@[j]));
                }
            }
        }
        None
    }
}

impl UnsignedImplementation {
    pub fn two_conditions<D: Ord, I: BoundedInt>(data: &[D], value: &D) -> (r: Option<I>)
        requires
            obeys_cmp::<D>(),
            sorted(data@),
            1 <= data@.len() <= I::highest(),
        ensures
            is_search_result(data@, *value, r),
    {
        proof {
            lemma_total_order::<D>();
        }
        let n = data.len();
        let mut low: I = I::zero();
        let mut high: I = I::from_usize(n - 1).unwrap();
        while low.less(high)
            invariant
                obeys_cmp::<D>(),
                sorted(data@),
                n == data@.len(),
                n <= I::highest(),
                0 <= low.as_int() <= high.as_int() + 1 <= n,
                high.as_int() < n,
                forall|j: int| 0 <= j < low.as_int() ==> precedes(#[trigger] data@[j], *value),
                forall|j: int| high.as_int() < j < n ==> precedes(*value, #[trigger] data@[j]),
            decreases high.as_int() + 1 - low.as_int(),
        {
            proof {
                lemma_total_order::<D>();
                I::lemma_bounds(low);
            }
            let mid: I = low.plus(high.minus(low).plus(I::one()).half());
            assert(low.as_int() < mid.as_int() <= high.as_int());
            let index: usize = mid.to_usize();
            if data[index] > *value {
                assert(precedes(*value, data@[mid.as_int()]));
                high = mid.minus(I::one());
                assert forall|j: int| high.as_int() < j < n implies precedes(*value, #[trigger] data@[j]) by {
                    if j <= mid.as_int() {
                        assert(not_after(data@[mid.as_int()], data@[j]));
                    }
                }
            } else if data[index] < *value {
                assert(precedes(data@[mid.as_int()], *value));
                low = mid.plus(I::one());
                assert forall|j: int| 0 <= j < low.as_int() implies precedes(#[trigger] data@[j], *value) by {
                    if j >= mid.as_int() {
                        assert(not_after(data@[j], data@[mid.as_int()]));
                    }
                }
            } else {
                return Some(mid);
            }
        }
        proof {
            lemma_total_order::<D>();
        }
        let index: usize = low.to_usize();
        if index < n && data[index] == *value {
            return Some(low);
        }
        proof {
            assert forall|j: int| 0 <= j < n implies !same(#[trigger] data@[j], *value) by {
                if j < low.as_int() {
                    assert(precedes(data@[j], *value));
                } else if j > high.as_int() {
                    assert(precedes(*value, data@[j]));
                }
            }
        }
        None
    }
}

impl<D: Ord, I: BoundedInt> DynamicBinarySearch<D, I> for SignedImplementation {
    open spec fn admits(data: Seq<D>) -> bool {
        &&& sorted(data)
        &&& data.len() <= I::highest()
        &&& data.len() > 0 ==> I::lowest() < 0
    }

    /// The two-comparison search stops at the first equal element it meets.
    open spec fn picks(data: Seq<D>, value: D, r: Option<I>) -> bool {
        true
    }

    fn search(&self, data: &[D], value: &D) -> (r: Option<I>) {
        if data.len() > 0 {
            return Self::two_conditions(data, value);
        }
        None
    }
}

impl<D: Ord, I: BoundedInt, const N: usize> StaticBinarySearch<D, I, N> for SignedImplementation {
    open spec fn admits(data: Seq<D>) -> bool {
        &&& sorted(data)
        &&& data.len() <= I::highest()
        &&& data.len() > 0 ==> I::lowest() < 0
    }

    /// The two-comparison search stops at the first equal element it meets.
    open spec fn picks(data: Seq<D>, value: D, r: Option<I>) -> bool {
        true
    }

    fn search_fixed(&self, data: &[D; N], value: &D) -> (r: Option<I>) {
        if N > 0 {
            return Self::two_conditions(data.as_slice(), value);
        }
        None
    }
}

impl<D: Ord, I: BoundedInt> DynamicBinarySearch<D, I> for UnsignedImplementation {
    open spec fn admits(data: Seq<D>) -> bool {
        &&& sorted(data)
        &&& data.len() <= I::highest()
    }

    /// The two-comparison search stops at the first equal element it meets.
    open spec fn picks(data: Seq<D>, value: D, r: Option<I>) -> bool {
        true
    }

    fn search(&self, data: &[D], value: &D) -> (r: Option<I>) {
        if data.len() > 0 {
            return Self::two_conditions(data, value);
        }
        None
    }
}

impl<D: Ord, I: BoundedInt, const N: usize> StaticBinarySearch<D, I, N> for UnsignedImplementation {
    open spec fn admits(data: Seq<D>) -> bool {
        &&& sorted(data)
        &&& data.len() <= I::highest()
    }

    /// The two-comparison search stops at the first equal element it meets.
    open spec fn picks(data: Seq<D>, value: D, r: Option<I>) -> bool {
        true
    }

    fn search_fixed(&self, data: &[D; N], value: &D) -> (r: Option<I>) {
        if N > 0 {
            return Self::two_conditions(data.as_slice(), value);
        }
        None
    }
}

} // verus!
