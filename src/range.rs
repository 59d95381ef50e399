//! Uniform binary search: a fixed lower bound and a width that halves, rounded up.
use crate::binary_search::{
    is_last_equal, is_search_result, lemma_total_order, not_after, precedes, same, sorted,
    DynamicBinarySearch, StaticBinarySearch,
};
use crate::index::{BoundedInt, UnsignedInt};
use vstd::laws_cmp::obeys_cmp;
use vstd::prelude::*;

verus! {

/// Halves a width instead of recomputing a midpoint from two bounds.
pub struct Implementation;

impl Implementation {
    pub fn with_width<D: Ord, I: UnsignedInt>(data: &[D], value: &D) -> (r: Option<I>)
        requires
            obeys_cmp::<D>(),
            sorted(data@),
            1 <= data@.len() <= I::highest(),
        ensures
            is_search_result(data@, *value, r),
            is_last_equal(data@, *value, r),
    {
        proof {
            lemma_total_order::<D>();
            I::lemma_unsigned();
        }
        let mut low: I = I::zero();
        let n: I = I::from_usize(data.len()).unwrap();
        let mut width: I = n;
        while I::one().less(width)
            invariant
                obeys_cmp::<D>(),
                sorted(data@),
                n.as_int() == data@.len(),
                0 <= low.as_int() < n.as_int(),
                1 <= width.as_int() <= n.as_int(),
                low.as_int() > 0 ==> not_after(data@[low.as_int()], *value),
                forall|j: int|
                    low.as_int() + width.as_int() <= j < n.as_int() ==> precedes(
                        *value,
                        #[trigger] data@[j],
                    ),
            decreases width.as_int(),
        {
            proof {
                lemma_total_order::<D>();
                I::lemma_unsigned();
                I::lemma_bounds(width);
                I::lemma_bounds(n);
            }
            // the width rounded up after halving, computed without overflow
            width = width.minus(width.half());
            // `low + width < n`, tested without forming a sum that may not fit
            if width.less(n.minus(low)) {
                let mid: I = low.plus(width);
                if data[mid.to_usize()] <= *value {
                    low = mid;
                } else {
                    assert(precedes(*value, data@[mid.as_int()]));
                    assert forall|j: int|
                        low.as_int() + width.as_int() <= j < n.as_int() implies precedes(
                        *value,
                        #[trigger] data@[j],
                    ) by {
                        assert(not_after(data@[mid.as_int()], data@[j]));
                    }
                }
            }
        }
        proof {
            lemma_total_order::<D>();
        }
        if data[low.to_usize()] == *value {
            Some(low)
        } else {
            proof {
                assert(!same(data@[low.as_int()], *value));
                assert forall|j: int| 0 <= j < n.as_int() implies !same(#[trigger] data@[j], *value) by {
                    if j < low.as_int() {
                        assert(!same(data@[low.as_int()], *value));
                        assert(precedes(data@[low.as_int()], *value));
                        assert(not_after(data@[j], data@[low.as_int()]));
                    } else if j > low.as_int() {
                        assert(precedes(*value, data@[j]));
                    }
                }
            }
            None
        }
    }
}

impl<D: Ord, I: UnsignedInt> DynamicBinarySearch<D, I> for Implementation {
    open spec fn admits(data: Seq<D>) -> bool {
        &&& sorted(data)
        &&& data.len() <= I::highest()
    }

    /// The last of the equal elements.
    open spec fn picks(data: Seq<D>, value: D, r: Option<I>) -> bool {
        is_last_equal(data, value, r)
    }

    fn search(&self, data: &[D], value: &D) -> (r: Option<I>) {
        if data.len() > 0 {
            Self::with_width(data, value)
        } else {
            None
        }
    }
}

impl<D: Ord, I: UnsignedInt, const N: usize> StaticBinarySearch<D, I, N> for Implementation {
    open spec fn admits(data: Seq<D>) -> bool {
        &&& sorted(data)
        &&& data.len() <= I::highest()
    }

    /// The last of the equal elements.
    open spec fn picks(data: Seq<D>, value: D, r: Option<I>) -> bool {
        is_last_equal(data, value, r)
    }

    fn search_fixed(&self, data: &[D; N], value: &D) -> (r: Option<I>) {
        if N > 0 {
            Self::with_width(data.as_slice(), value)
        } else {
            None
        }
    }
}

} // verus!
