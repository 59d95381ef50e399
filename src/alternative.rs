//! One-comparison binary search: the interval collapses onto the last element
//! that is not greater than the probe, and equality is tested once at the end.
use crate::binary_search::{
    is_last_equal, is_search_result, lemma_total_order, not_after, precedes, same, sorted,
    DynamicBinarySearch, StaticBinarySearch,
};
use crate::index::{BoundedInt, UnsignedInt};
use vstd::laws_cmp::obeys_cmp;
use vstd::prelude::*;

verus! {

/// One comparison per step, with a rounded-up midpoint.
pub struct Implementation;

impl Implementation {
    pub fn one_condition<D: Ord, I: UnsignedInt>(data: &[D], value: &D) -> (r: Option<I>)
        requires
            obeys_cmp::<D>(),
            sorted(data@),
            1 <= data@.len() <= I::highest(),
        ensures
            is_search_result(data@, *value, r),
            is_last_equal(data@, *value, r),
    {
        proof {
            lemma_total_order::<D>();
            I::lemma_unsigned();
        }
        let n = data.len();
        let mut low: I = I::zero();
        let mut high: I = I::from_usize(n - 1).unwrap();
        while low.less(high)
            invariant
                obeys_cmp::<D>(),
                sorted(data@),
                n == data@.len(),
                n <= I::highest(),
                0 <= low.as_int() <= high.as_int() < n,
                low.as_int() > 0 ==> not_after(data@[low.as_int()], *value),
                forall|j: int| high.as_int() < j < n ==> precedes(*value, #[trigger] data@[j]),
            decreases high.as_int() - low.as_int(),
        {
            proof {
                lemma_total_order::<D>();
                I::lemma_unsigned();
            }
            let mid: I = low.plus(high.minus(low).plus(I::one()).half());
            assert(low.as_int() < mid.as_int() <= high.as_int());
            let index: usize = mid.to_usize();
            if data[index] > *value {
                assert(precedes(*value, data@[mid.as_int()]));
                high = mid.minus(I::one());
                assert forall|j: int| high.as_int() < j < n implies precedes(*value, #[trigger] data@[j]) by {
                    if j <= mid.as_int() {
                        assert(not_after(data@[mid.as_int()], data@[j]));
                    }
                }
            } else {
                low = mid;
            }
        }
        proof {
            lemma_total_order::<D>();
        }
        let index: usize = low.to_usize();
        if data[index] == *value {
            return Some(low);
        }
        proof {
            assert(!same(data@[low.as_int()], *value));
            assert forall|j: int| 0 <= j < n implies !same(#[trigger] data@[j], *value) by {
                if j < low.as_int() {
                    assert(precedes(data@[low.as_int()], *value));
                    assert(not_after(data@[j], data@[low.as_int()]));
                } else if j > low.as_int() {
                    assert(precedes(*value, data@[j]));
                }
            }
        }
        None
    }
}

impl<D: Ord, I: UnsignedInt> DynamicBinarySearch<D, I> for Implementation {
    open spec fn admits(data: Seq<D>) -> bool {
        &&& sorted(data)
        &&& data.len() <= I::highest()
    }

    /// The last of the equal elements.
    open spec fn picks(data: Seq<D>, value: D, r: Option<I>) -> bool {
        is_last_equal(data, value, r)
    }

    fn search(&self, data: &[D], value: &D) -> (r: Option<I>) {
        if data.len() > 0 {
            Self::one_condition(data, value)
        } else {
            None
        }
    }
}

impl<D: Ord, I: UnsignedInt, const N: usize> StaticBinarySearch<D, I, N> for Implementation {
    open spec fn admits(data: Seq<D>) -> bool {
        &&& sorted(data)
        &&& data.len() <= I::highest()
    }

    /// The last of the equal elements.
    open spec fn picks(data: Seq<D>, value: D, r: Option<I>) -> bool {
        is_last_equal(data, value, r)
    }

    fn search_fixed(&self, data: &[D; N], value: &D) -> (r: Option<I>) {
        if N > 0 {
            Self::one_condition(data.as_slice(), value)
        } else {
            None
        }
    }
}

} // verus!
