//! What every search promises, and the two entry points through which it is offered.
use crate::index::BoundedInt;
use core::cmp::Ordering;
use vstd::laws_cmp::obeys_cmp;
use vstd::prelude::*;
use vstd::std_specs::cmp::{OrdSpec, PartialEqSpec, PartialOrdSpec};

verus! {

/// `a` orders strictly before `b`.
pub open spec fn precedes<D: Ord>(a: D, b: D) -> bool {
    a.cmp_spec(&b) == Ordering::Less
}

/// `a` orders before or with `b`.
pub open spec fn not_after<D: Ord>(a: D, b: D) -> bool {
    a.cmp_spec(&b) != Ordering::Greater
}

/// `a` compares equal to `b`.
pub open spec fn same<D: Ord>(a: D, b: D) -> bool {
    a.cmp_spec(&b) == Ordering::Equal
}

/// The sequence is ascending.
pub open spec fn sorted<D: Ord>(s: Seq<D>) -> bool {
    forall|i: int, j: int| 0 <= i <= j < s.len() ==> not_after(s[i], s[j])
}

/// The sequence is strictly ascending: every value occurs at most once.
pub open spec fn strictly_sorted<D: Ord>(s: Seq<D>) -> bool {
    forall|i: int, j: int| 0 <= i < j < s.len() ==> precedes(s[i], s[j])
}

/// Some position of the sequence holds a value equal to `v`.
pub open spec fn occurs<D: Ord>(s: Seq<D>, v: D) -> bool {
    exists|j: int| 0 <= j < s.len() && same(s[j], v)
}

/// `r` is a correct answer to a search for `v` in `s`: a position that holds a
/// value equal to `v`, or nothing when no position does.
pub open spec fn is_search_result<D: Ord, I: BoundedInt>(s: Seq<D>, v: D, r: Option<I>) -> bool {
    match r {
        Some(i) => 0 <= i.as_int() < s.len() && same(s[i.as_int()], v),
        None => !occurs(s, v),
    }
}

/// Of several equal elements, `r` is the last: the element after it, if any,
/// is greater than `v`.
pub open spec fn is_last_equal<D: Ord, I: BoundedInt>(s: Seq<D>, v: D, r: Option<I>) -> bool {
    r matches Some(i) ==> i.as_int() + 1 == s.len() || precedes(v, s[i.as_int() + 1])
}

/// Over an ascending sequence, two correct answers that are both the last of
/// their equal elements are the same answer.
pub proof fn lemma_last_equal_unique<D: Ord, I: BoundedInt>(
    s: Seq<D>,
    v: D,
    a: Option<I>,
    b: Option<I>,
)
    requires
        obeys_cmp::<D>(),
        sorted(s),
        is_search_result(s, v, a),
        is_search_result(s, v, b),
        is_last_equal(s, v, a),
        is_last_equal(s, v, b),
    ensures
        a == b,
{
    lemma_total_order::<D>();
    I::lemma_order();
    match (a, b) {
        (Some(x), Some(y)) => {
            let (i, j) = (x.as_int(), y.as_int());
            if i < j {
                assert(not_after(s[i + 1], s[j]));
                assert(precedes(v, s[j]));
            } else if j < i {
                assert(not_after(s[j + 1], s[i]));
                assert(precedes(v, s[i]));
            }
        },
        (Some(x), None) => {
            assert(same(s[x.as_int()], v));
        },
        (None, Some(y)) => {
            assert(same(s[y.as_int()], v));
        },
        (None, None) => {},
    }
}

/// The facts of a total order that the searches use.
pub proof fn lemma_total_order<D: Ord>()
    requires
        obeys_cmp::<D>(),
    ensures
        D::obeys_cmp_spec(),
        D::obeys_partial_cmp_spec(),
        D::obeys_eq_spec(),
        forall|a: D, b: D| #[trigger] a.partial_cmp_spec(&b) == Some(a.cmp_spec(&b)),
        forall|a: D, b: D| #[trigger] a.eq_spec(&b) <==> same(a, b),
        forall|a: D, b: D| #[trigger] a.cmp_spec(&b) == Ordering::Less <==> b.cmp_spec(&a) == Ordering::Greater,
        forall|a: D, b: D| #[trigger] a.cmp_spec(&b) == Ordering::Equal <==> b.cmp_spec(&a) == Ordering::Equal,
        forall|a: D, b: D, c: D|
            not_after(a, b) && #[trigger] not_after(b, c) && #[trigger] precedes(a, b) ==> precedes(a, c),
        forall|a: D, b: D, c: D|
            #[trigger] not_after(a, b) && #[trigger] not_after(b, c) ==> not_after(a, c),
        forall|a: D, b: D, c: D|
            #[trigger] not_after(a, b) && #[trigger] precedes(b, c) ==> precedes(a, c),
        forall|a: D, b: D, c: D|
            #[trigger] precedes(a, b) && #[trigger] not_after(b, c) ==> precedes(a, c),
{
    reveal(vstd::laws_cmp::obeys_cmp_ord);
    reveal(vstd::laws_cmp::obeys_cmp_partial_ord);
    reveal(vstd::laws_cmp::obeys_partial_cmp_spec_properties);
    reveal(vstd::laws_eq::obeys_eq_spec_properties);
    assert forall|a: D, b: D| #[trigger] a.cmp_spec(&b) == Ordering::Equal implies b.cmp_spec(&a) == Ordering::Equal by {
        assert(a.partial_cmp_spec(&b) == Some(a.cmp_spec(&b)));
        assert(b.partial_cmp_spec(&a) == Some(b.cmp_spec(&a)));
    }
    assert forall|a: D, b: D| #[trigger] a.cmp_spec(&b) == Ordering::Less <==> b.cmp_spec(&a) == Ordering::Greater by {
        assert(a.partial_cmp_spec(&b) == Some(a.cmp_spec(&b)));
        assert(b.partial_cmp_spec(&a) == Some(b.cmp_spec(&a)));
    }
    assert forall|a: D, b: D, c: D| #[trigger] not_after(a, b) && #[trigger] not_after(b, c) implies not_after(a, c) by {
        assert(a.partial_cmp_spec(&b) == Some(a.cmp_spec(&b)));
        assert(b.partial_cmp_spec(&c) == Some(b.cmp_spec(&c)));
        assert(a.partial_cmp_spec(&c) == Some(a.cmp_spec(&c)));
        assert(c.partial_cmp_spec(&a) == Some(c.cmp_spec(&a)));
        assert(b.partial_cmp_spec(&a) == Some(b.cmp_spec(&a)));
        assert(c.partial_cmp_spec(&b) == Some(c.cmp_spec(&b)));
    }
    assert forall|a: D, b: D, c: D| #[trigger] not_after(a, b) && #[trigger] precedes(b, c) implies precedes(a, c) by {
        assert(a.partial_cmp_spec(&b) == Some(a.cmp_spec(&b)));
        assert(b.partial_cmp_spec(&c) == Some(b.cmp_spec(&c)));
        assert(a.partial_cmp_spec(&c) == Some(a.cmp_spec(&c)));
        assert(c.partial_cmp_spec(&a) == Some(c.cmp_spec(&a)));
        assert(b.partial_cmp_spec(&a) == Some(b.cmp_spec(&a)));
        assert(c.partial_cmp_spec(&b) == Some(c.cmp_spec(&b)));
    }
    assert forall|a: D, b: D, c: D| #[trigger] precedes(a, b) && #[trigger] not_after(b, c) implies precedes(a, c) by {
        assert(a.partial_cmp_spec(&b) == Some(a.cmp_spec(&b)));
        assert(b.partial_cmp_spec(&c) == Some(b.cmp_spec(&c)));
        assert(a.partial_cmp_spec(&c) == Some(a.cmp_spec(&c)));
        assert(c.partial_cmp_spec(&a) == Some(c.cmp_spec(&a)));
        assert(b.partial_cmp_spec(&a) == Some(b.cmp_spec(&a)));
        assert(c.partial_cmp_spec(&b) == Some(c.cmp_spec(&b)));
    }
}

/// A search over an empty sequence finds nothing, whatever the probe.
pub proof fn lemma_empty_not_found<D: Ord, I: BoundedInt>(v: D, r: Option<I>)
    requires
        is_search_result(Seq::<D>::empty(), v, r),
    ensures
        r is None,
{
}

/// Over a strictly ascending sequence a probe has one correct answer: any two
/// searches, such as the two forms of power search, return the same result.
pub proof fn lemma_results_agree<D: Ord, I: BoundedInt>(
    s: Seq<D>,
    v: D,
    a: Option<I>,
    b: Option<I>,
)
    requires
        obeys_cmp::<D>(),
        strictly_sorted(s),
        is_search_result(s, v, a),
        is_search_result(s, v, b),
    ensures
        a == b,
{
    lemma_total_order::<D>();
    I::lemma_order();
    match (a, b) {
        (Some(x), Some(y)) => {
            let (i, j) = (x.as_int(), y.as_int());
            if i < j {
                assert(precedes(s[i], s[j]));
                assert(not_after(s[j], v));
                assert(precedes(s[i], v));
            } else if j < i {
                assert(precedes(s[j], s[i]));
                assert(not_after(s[i], v));
                assert(precedes(s[j], v));
            }
        },
        (Some(x), None) => {
            assert(same(s[x.as_int()], v));
        },
        (None, Some(y)) => {
            assert(same(s[y.as_int()], v));
        },
        (None, None) => {},
    }
}

/// A search over a sequence whose length is known only at run time.
pub trait DynamicBinarySearch<D: Ord, I: BoundedInt> {
    /// The sequences, together with the index type, on which this search is defined.
    spec fn admits(data: Seq<D>) -> bool;

    /// Which of several positions holding an equal value this search returns.
    spec fn picks(data: Seq<D>, value: D, r: Option<I>) -> bool;

    fn search(&self, data: &[D], value: &D) -> (r: Option<I>)
        requires
            obeys_cmp::<D>(),
            Self::admits(data@),
        ensures
            is_search_result(data@, *value, r),
            Self::picks(data@, *value, r),
    ;
}

/// A search over an array whose length `N` is fixed at compile time.
pub trait StaticBinarySearch<D: Ord, I: BoundedInt, const N: usize> {
    /// The arrays, together with the index type, on which this search is defined.
    spec fn admits(data: Seq<D>) -> bool;

    /// Which of several positions holding an equal value this search returns.
    spec fn picks(data: Seq<D>, value: D, r: Option<I>) -> bool;

    fn search_fixed(&self, data: &[D; N], value: &D) -> (r: Option<I>)
        requires
            obeys_cmp::<D>(),
            Self::admits(data@),
        ensures
            is_search_result(data@, *value, r),
            Self::picks(data@, *value, r),
    ;
}

} // verus!
