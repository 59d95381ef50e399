//! The datasets the searches are checked on, the oracle that predicts each
//! answer, and the validator that holds a search to the oracle.
use crate::binary_search::{
    is_search_result, lemma_total_order, not_after, precedes, same, sorted, strictly_sorted,
    DynamicBinarySearch, StaticBinarySearch,
};
use crate::index::BoundedInt;
use vstd::laws_cmp::obeys_cmp;
use vstd::prelude::*;

verus! {

/// The generated dataset of length `n`: position `i` holds `2 * i`.
pub open spec fn is_dataset<D: BoundedInt>(s: Seq<D>, n: int) -> bool {
    &&& s.len() == n
    &&& forall|i: int| 0 <= i < n ==> (#[trigger] s[i]).as_int() == 2 * i
}

/// The oracle: over the generated dataset of length `n`, a probe `v` is found
/// at `v / 2` exactly when it is even and `v / 2` is a position.
pub open spec fn expected(v: int, n: int) -> Option<int> {
    if v % 2 == 0 && 0 <= v / 2 < n {
        Some(v / 2)
    } else {
        None
    }
}

/// The positions of `s` that hold `v` are exactly the one the oracle predicts.
pub open spec fn agrees_with_oracle<D: BoundedInt>(s: Seq<D>, v: D) -> bool {
    forall|j: int|
        0 <= j < s.len() ==> (same(#[trigger] s[j], v) <==> expected(v.as_int(), s.len() as int)
            == Some(j))
}

/// The position a search returned, as an integer.
pub open spec fn position_of<I: BoundedInt>(r: Option<I>) -> Option<int> {
    match r {
        Some(i) => Some(i.as_int()),
        None => None,
    }
}

/// The lowest probe of the validator: one below the first element, or `-1`.
pub open spec fn first_probe<D: BoundedInt>(s: Seq<D>) -> int {
    if s.len() == 0 {
        -1
    } else {
        s[0].as_int() - 1
    }
}

/// The highest probe of the validator: one above the last element, or `1`.
pub open spec fn last_probe<D: BoundedInt>(s: Seq<D>) -> int {
    if s.len() == 0 {
        1
    } else {
        s[s.len() - 1].as_int() + 1
    }
}

/// Every probe of the validator fits the element type.
pub open spec fn probes_fit<D: BoundedInt>(s: Seq<D>) -> bool {
    D::lowest() <= first_probe(s) && last_probe(s) <= D::highest()
}

/// On the generated dataset every correct search result is the oracle's
/// prediction: a probe is found at `i` exactly when it is even and equals `2 * i`.
pub proof fn lemma_dataset_oracle<D: BoundedInt, I: BoundedInt>(s: Seq<D>, v: D, r: Option<I>)
    requires
        is_dataset(s, s.len() as int),
        is_search_result(s, v, r),
    ensures
        position_of(r) == expected(v.as_int(), s.len() as int),
        agrees_with_oracle(s, v),
{
    D::lemma_order();
    lemma_total_order::<D>();
    assert forall|j: int| 0 <= j < s.len() implies (same(#[trigger] s[j], v) <==> expected(
        v.as_int(),
        s.len() as int,
    ) == Some(j)) by {
        assert(s[j].as_int() == 2 * j);
    }
    if expected(v.as_int(), s.len() as int) is Some {
        let k = v.as_int() / 2;
        assert(s[k].as_int() == 2 * k);
        assert(same(s[k], v));
    }
}

/// The generated dataset is strictly ascending, and the oracle is right about
/// every probe: the validator passes on it, for every search that admits it.
pub proof fn lemma_generated_dataset_passes<D: BoundedInt>(s: Seq<D>)
    requires
        is_dataset(s, s.len() as int),
    ensures
        obeys_cmp::<D>(),
        sorted(s),
        strictly_sorted(s),
        forall|v: D| #[trigger] agrees_with_oracle(s, v),
{
    D::lemma_order();
    assert forall|i: int, j: int| 0 <= i < j < s.len() implies precedes(s[i], s[j]) by {
        assert(s[i].as_int() == 2 * i);
        assert(s[j].as_int() == 2 * j);
    }
    assert forall|i: int, j: int| 0 <= i <= j < s.len() implies not_after(s[i], s[j]) by {
        assert(s[i].as_int() == 2 * i);
        assert(s[j].as_int() == 2 * j);
    }
    assert forall|v: D| #[trigger] agrees_with_oracle(s, v) by {
        assert forall|j: int| 0 <= j < s.len() implies (same(#[trigger] s[j], v) <==> expected(
            v.as_int(),
            s.len() as int,
        ) == Some(j)) by {
            assert(s[j].as_int() == 2 * j);
        }
    }
}

/// Over a strictly ascending sequence, a correct search result matches the
/// oracle exactly when the oracle is right about the sequence.
proof fn lemma_result_matches<D: BoundedInt, I: BoundedInt>(s: Seq<D>, v: D, r: Option<I>)
    requires
        strictly_sorted(s),
        is_search_result(s, v, r),
    ensures
        (position_of(r) == expected(v.as_int(), s.len() as int)) == agrees_with_oracle(s, v),
{
    D::lemma_order();
    lemma_total_order::<D>();
    let e = expected(v.as_int(), s.len() as int);
    if position_of(r) == e {
        assert forall|j: int| 0 <= j < s.len() implies (same(#[trigger] s[j], v) <==> e == Some(j)) by {
            if let Some(i) = r {
                if same(s[j], v) && j != i.as_int() {
                    if j < i.as_int() {
                        assert(precedes(s[j], s[i.as_int()]));
                    } else {
                        assert(precedes(s[i.as_int()], s[j]));
                    }
                }
            }
        }
    } else {
        match r {
            Some(i) => {
                assert(same(s[i.as_int()], v));
                assert(e != Some(i.as_int()));
            },
            None => {
                let k = e->0;
                assert(!same(s[k], v));
            },
        }
    }
}

/// Runs one probe and compares the search's answer with the oracle.
fn probe_agrees<D: BoundedInt, I: BoundedInt>(result: Option<I>, value: D, n: usize) -> (r: bool)
    requires
        result matches Some(i) ==> i.as_int() >= 0,
    ensures
        r == (position_of(result) == expected(value.as_int(), n as int)),
{
    proof {
        D::lemma_bounds(value);
    }
    let predicted: Option<usize> = if value.less(D::zero()) {
        None
    } else {
        let u: usize = value.to_usize();
        if u % 2 == 0 && u / 2 < n {
            Some(u / 2)
        } else {
            None
        }
    };
    match (result, predicted) {
        (Some(i), Some(e)) => i.to_usize() == e,
        (None, None) => true,
        _ => false,
    }
}

/// Validation over slices.
pub struct Dynamic;

/// Validation over arrays whose length is fixed at compile time.
pub struct Static;

impl Dynamic {
    /// The dataset of `n` elements where position `i` holds `2 * i`.
    pub fn filler<D: BoundedInt, I: BoundedInt>(n: usize) -> (r: Vec<D>)
        requires
            n <= I::highest() + 1,
            n >= 1 ==> 2 * (n - 1) <= D::highest(),
        ensures
            is_dataset(r@, n as int),
    {
        proof {
            D::lemma_range();
        }
        let mut tmp: Vec<D> = Vec::with_capacity(n);
        for i in 0..n
            invariant
                n >= 1 ==> 2 * (n - 1) <= D::highest(),
                D::highest() <= usize::MAX,
                is_dataset(tmp@, i as int),
        {
            let dv: D = D::from_usize(2 * i).unwrap();
            tmp.push(dv);
        }
        tmp
    }

    /// Probes every value from one below the first element to one above the
    /// last, and tells whether the search agreed with the oracle on each.
    pub fn test<D: BoundedInt, I: BoundedInt, B: DynamicBinarySearch<D, I>>(bs: &B, data: &[D]) -> (r:
        bool)
        requires
            B::admits(data@),
            strictly_sorted(data@),
            probes_fit(data@),
        ensures
            r == forall|v: D|
                first_probe(data@) <= v.as_int() <= last_probe(data@) ==> agrees_with_oracle(
                    data@,
                    v,
                ),
    {
        proof {
            D::lemma_order();
        }
        let n: usize = data.len();
        proof {
            D::lemma_range();
            if n > 0 {
                D::lemma_bounds(data@[0]);
                D::lemma_bounds(data@[n - 1]);
            }
            if n > 1 {
                assert(precedes(data@[0], data@[n - 1]));
            }
        }
        let start_value: D = if n > 0 {
            data[0].minus(D::one())
        } else {
            D::zero().minus(D::one())
        };
        let end_value: D = if n > 0 {
            data[n - 1].plus(D::one())
        } else {
            D::one()
        };
        let mut success: bool = true;
        let mut value: D = start_value;
        loop
            invariant_except_break
                B::admits(data@),
                strictly_sorted(data@),
                obeys_cmp::<D>(),
                forall|a: D, b: D| a.as_int() == b.as_int() ==> a == b,
                n == data@.len(),
                start_value.as_int() == first_probe(data@),
                end_value.as_int() == last_probe(data@),
                start_value.as_int() <= value.as_int() <= end_value.as_int(),
                success == forall|v: D|
                    start_value.as_int() <= v.as_int() < value.as_int() ==> agrees_with_oracle(
                        data@,
                        v,
                    ),
            ensures
                success == forall|v: D|
                    start_value.as_int() <= v.as_int() <= end_value.as_int() ==> agrees_with_oracle(
                        data@,
                        v,
                    ),
            decreases end_value.as_int() - value.as_int(),
        {
            let result: Option<I> = bs.search(data, &value);
            let subsuccess: bool = probe_agrees(result, value, n);
            proof {
                lemma_result_matches(data@, value, result);
            }
            let ghost before = success;
            success = success && subsuccess;
            proof {
                assert(success == forall|v: D|
                    start_value.as_int() <= v.as_int() <= value.as_int() ==> agrees_with_oracle(
                        data@,
                        v,
                    )) by {
                    if !before {
                        let w = choose|w: D|
                            start_value.as_int() <= w.as_int() < value.as_int()
                                && !agrees_with_oracle(data@, w);
                    }
                }
            }
            if !value.less(end_value) {
                break ;
            }
            proof {
                D::lemma_bounds(end_value);
                D::lemma_bounds(value);
            }
            value = value.plus(D::one());
        }
        success
    }
}


impl Static {
    /// The dataset of `N` elements where position `i` holds `2 * i`.
    pub fn filler<D: BoundedInt, I: BoundedInt, const N: usize>() -> (r: [D; N])
        requires
            N <= I::highest() + 1,
            N >= 1 ==> 2 * (N - 1) <= D::highest(),
        ensures
            is_dataset(r@, N as int),
    {
        proof {
            D::lemma_range();
        }
        let mut tmp: [D; N] = [D::zero(); N];
        for i in 0..N
            invariant
                N >= 1 ==> 2 * (N - 1) <= D::highest(),
                D::highest() <= usize::MAX,
                tmp@.len() == N,
                forall|j: int| 0 <= j < i ==> (#[trigger] tmp@[j]).as_int() == 2 * j,
        {
            let dv: D = D::from_usize(2 * i).unwrap();
            tmp[i] = dv;
        }
        tmp
    }

    /// Probes every value from one below the first element to one above the
    /// last, and tells whether the search agreed with the oracle on each.
    pub fn test<D: BoundedInt, I: BoundedInt, const N: usize, B: StaticBinarySearch<D, I, N>>(
        bs: &B,
        data: &[D; N],
    ) -> (r: bool)
        requires
            B::admits(data@),
            strictly_sorted(data@),
            probes_fit(data@),
        ensures
            r == forall|v: D|
                first_probe(data@) <= v.as_int() <= last_probe(data@) ==> agrees_with_oracle(
                    data@,
                    v,
                ),
    {
        proof {
            D::lemma_order();
        }
        let n: usize = N;
        proof {
            D::lemma_range();
            if n > 0 {
                D::lemma_bounds(data@[0]);
                D::lemma_bounds(data@[n - 1]);
            }
            if n > 1 {
                assert(precedes(data@[0], data@[n - 1]));
            }
        }
        let start_value: D = if n > 0 {
            data[0].minus(D::one())
        } else {
            D::zero().minus(D::one())
        };
        let end_value: D = if n > 0 {
            data[n - 1].plus(D::one())
        } else {
            D::one()
        };
        let mut success: bool = true;
        let mut value: D = start_value;
        loop
            invariant_except_break
                B::admits(data@),
                strictly_sorted(data@),
                obeys_cmp::<D>(),
                forall|a: D, b: D| a.as_int() == b.as_int() ==> a == b,
                n == data@.len(),
                start_value.as_int() == first_probe(data@),
                end_value.as_int() == last_probe(data@),
                start_value.as_int() <= value.as_int() <= end_value.as_int(),
                success == forall|v: D|
                    start_value.as_int() <= v.as_int() < value.as_int() ==> agrees_with_oracle(
                        data@,
                        v,
                    ),
            ensures
                success == forall|v: D|
                    start_value.as_int() <= v.as_int() <= end_value.as_int() ==> agrees_with_oracle(
                        data@,
                        v,
                    ),
            decreases end_value.as_int() - value.as_int(),
        {
            let result: Option<I> = bs.search_fixed(data, &value);
            let subsuccess: bool = probe_agrees(result, value, n);
            proof {
                lemma_result_matches(data@, value, result);
            }
            let ghost before = success;
            success = success && subsuccess;
            proof {
                assert(success == forall|v: D|
                    start_value.as_int() <= v.as_int() <= value.as_int() ==> agrees_with_oracle(
                        data@,
                        v,
                    )) by {
                    if !before {
                        let w = choose|w: D|
                            start_value.as_int() <= w.as_int() < value.as_int()
                                && !agrees_with_oracle(data@, w);
                    }
                }
            }
            if !value.less(end_value) {
                break ;
            }
            proof {
                D::lemma_bounds(end_value);
                D::lemma_bounds(value);
            }
            value = value.plus(D::one());
        }
        success
    }
}

} // verus!
