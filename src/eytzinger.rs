//! The Eytzinger layout: a sorted sequence permuted into implicit-heap order,
//! where the children of 1-based position `k` sit at `2k` and `2k + 1`, and the
//! searches that walk it.
use crate::binary_search::{
    is_search_result, lemma_total_order, not_after, occurs, precedes, same, sorted,
    DynamicBinarySearch, StaticBinarySearch,
};
use crate::helpers::{agrees_with_oracle, expected, is_dataset, lemma_generated_dataset_passes};
use crate::index::{trailing_zeros_of, BoundedInt, UnsignedInt};
use vstd::arithmetic::power2::{lemma2_to64, lemma_pow2_pos, lemma_pow2_unfold, pow2};
use vstd::laws_cmp::obeys_cmp;
use vstd::prelude::*;
use vstd::set_lib::{lemma_int_range, set_int_range};

verus! {

/// 1-based position `p` lies in the subtree rooted at `k`.
pub open spec fn is_desc(p: int, k: int) -> bool
    decreases p,
{
    if k < 1 || p < k {
        false
    } else if p == k {
        true
    } else {
        is_desc(p / 2, k)
    }
}

/// `p` lies in the left subtree of `k`.
pub open spec fn left_of(p: int, k: int) -> bool {
    is_desc(p, 2 * k)
}

/// `p` lies in the right subtree of `k`.
pub open spec fn right_of(p: int, k: int) -> bool {
    is_desc(p, 2 * k + 1)
}

/// The 1-based positions of the subtree rooted at `k`, in order, in a tree of `n` nodes.
pub open spec fn in_order(k: int, n: int) -> Seq<int>
    decreases (if 1 <= k <= n { n + 1 - k } else { 0 }),
{
    if k < 1 || k > n {
        Seq::empty()
    } else {
        in_order(2 * k, n) + seq![k] + in_order(2 * k + 1, n)
    }
}

/// The elements of a layout read in the order of an in-order traversal.
pub open spec fn in_order_read<D>(s: Seq<D>) -> Seq<D> {
    in_order(1, s.len() as int).map_values(|p: int| s[p - 1])
}

/// Every node is ordered after its left subtree and before its right subtree.
pub open spec fn eytzinger_ordered<D: Ord>(s: Seq<D>) -> bool {
    forall|k: int, p: int|
        #![trigger left_of(p, k)]
        #![trigger right_of(p, k)]
        1 <= k <= s.len() && 1 <= p <= s.len() ==> {
            &&& left_of(p, k) ==> not_after(s[p - 1], s[k - 1])
            &&& right_of(p, k) ==> not_after(s[k - 1], s[p - 1])
        }
}

proof fn lemma_desc_ge(p: int, k: int)
    requires
        is_desc(p, k),
    ensures
        p >= k >= 1,
    decreases p,
{
}

proof fn lemma_child_in_parent(p: int, k: int)
    requires
        k >= 1,
        is_desc(p, 2 * k) || is_desc(p, 2 * k + 1),
    ensures
        is_desc(p, k),
    decreases p,
{
    if p > 2 * k + 1 {
        lemma_child_in_parent(p / 2, k);
    } else {
        assert(is_desc(p / 2, k));
    }
}

proof fn lemma_desc_trans(p: int, k: int, c: int)
    requires
        is_desc(p, k),
        is_desc(k, c),
    ensures
        is_desc(p, c),
    decreases p,
{
    lemma_desc_ge(k, c);
    if p > k {
        lemma_desc_trans(p / 2, k, c);
    }
}

proof fn lemma_desc_split(p: int, k: int)
    requires
        is_desc(p, k),
        p != k,
    ensures
        is_desc(p, 2 * k) || is_desc(p, 2 * k + 1),
    decreases p,
{
    if p / 2 != k {
        lemma_desc_split(p / 2, k);
        if is_desc(p / 2, 2 * k) {
            lemma_desc_ge(p / 2, 2 * k);
        } else {
            lemma_desc_ge(p / 2, 2 * k + 1);
        }
    }
}

proof fn lemma_children_disjoint(p: int, k: int)
    requires
        k >= 1,
    ensures
        !(is_desc(p, 2 * k) && is_desc(p, 2 * k + 1)),
    decreases p,
{
    if p > 2 * k + 1 {
        lemma_children_disjoint(p / 2, k);
    } else if p == 2 * k + 1 {
        assert(!is_desc(k, 2 * k));
    }
}

proof fn lemma_desc_of_root(p: int)
    requires
        p >= 1,
    ensures
        is_desc(p, 1),
    decreases p,
{
    if p > 1 {
        lemma_desc_of_root(p / 2);
    }
}

/// The positions of a subtree are in range, lie below its root, and occur once;
/// every position of the subtree occurs.
proof fn lemma_in_order(k: int, n: int)
    requires
        k >= 1,
    ensures
        forall|j: int|
            0 <= j < in_order(k, n).len() ==> 1 <= #[trigger] in_order(k, n)[j] <= n && is_desc(
                in_order(k, n)[j],
                k,
            ),
        in_order(k, n).no_duplicates(),
        forall|p: int| 1 <= p <= n && is_desc(p, k) ==> #[trigger] in_order(k, n).contains(p),
    decreases (if 1 <= k <= n { n + 1 - k } else { 0 }),
{
    if k <= n {
        lemma_in_order(2 * k, n);
        lemma_in_order(2 * k + 1, n);
        let l = in_order(2 * k, n);
        let r = in_order(2 * k + 1, n);
        let s = in_order(k, n);
        assert(s == l + seq![k] + r);
        assert forall|j: int| 0 <= j < s.len() implies 1 <= #[trigger] s[j] <= n && is_desc(s[j], k) by {
            if j < l.len() {
                assert(s[j] == l[j]);
                lemma_child_in_parent(l[j], k);
            } else if j > l.len() {
                assert(s[j] == r[j - l.len() - 1]);
                lemma_child_in_parent(r[j - l.len() - 1], k);
            }
        }
        assert forall|a: int, b: int| 0 <= a < s.len() && 0 <= b < s.len() && a != b implies s[a]
            != s[b] by {
            if a < l.len() {
                lemma_desc_ge(l[a], 2 * k);
                if b > l.len() {
                    lemma_children_disjoint(l[a], k);
                }
            } else if a > l.len() {
                lemma_desc_ge(r[a - l.len() - 1], 2 * k + 1);
                if b < l.len() {
                    lemma_children_disjoint(r[a - l.len() - 1], k);
                }
            } else {
                if b < l.len() {
                    lemma_desc_ge(l[b], 2 * k);
                } else if b > l.len() {
                    lemma_desc_ge(r[b - l.len() - 1], 2 * k + 1);
                }
            }
        }
        assert forall|p: int| 1 <= p <= n && is_desc(p, k) implies #[trigger] s.contains(p) by {
            if p == k {
                assert(s[l.len() as int] == k);
            } else {
                lemma_desc_split(p, k);
                if is_desc(p, 2 * k) {
                    assert(l.contains(p));
                    let j = choose|j: int| 0 <= j < l.len() && l[j] == p;
                    assert(s[j] == p);
                } else {
                    assert(r.contains(p));
                    let j = choose|j: int| 0 <= j < r.len() && r[j] == p;
                    assert(s[j + l.len() + 1] == p);
                }
            }
        }
    }
}

/// The in-order traversal of a tree of `n` nodes visits each position exactly once.
pub proof fn lemma_in_order_len(n: int)
    requires
        n >= 0,
    ensures
        in_order(1, n).len() == n,
        in_order(1, n).to_set() == set_int_range(1, n + 1),
{
    let s = in_order(1, n);
    lemma_in_order(1, n);
    assert forall|p: int| #[trigger] s.to_set().contains(p) <==> set_int_range(1, n + 1).contains(p) by {
        if 1 <= p <= n {
            lemma_desc_of_root(p);
        }
        if s.contains(p) {
            let j = choose|j: int| 0 <= j < s.len() && s[j] == p;
        }
    }
    assert(s.to_set() =~= set_int_range(1, n + 1));
    s.unique_seq_to_set();
    lemma_int_range(1, n + 1);
}

/// Places `monotonic[i..]` into the subtree of `eytzinger` rooted at 1-based
/// position `k`, in order, and returns the first element not consumed.
fn recursive_eytzinger_layout<D: Copy>(
    eytzinger: &mut [D],
    monotonic: &[D],
    i: usize,
    k: usize,
) -> (r: usize)
    requires
        k >= 1,
        old(eytzinger)@.len() <= isize::MAX,
        i + in_order(k as int, old(eytzinger)@.len() as int).len() <= monotonic@.len(),
    ensures
        final(eytzinger)@.len() == old(eytzinger)@.len(),
        r == i + in_order(k as int, old(eytzinger)@.len() as int).len(),
        forall|j: int|
            0 <= j < in_order(k as int, old(eytzinger)@.len() as int).len() ==> final(eytzinger)@[
            #[trigger] in_order(k as int, old(eytzinger)@.len() as int)[j] - 1] == monotonic@[i + j],
        forall|p: int|
            1 <= p <= old(eytzinger)@.len() && !is_desc(p, k as int) ==> #[trigger] final(eytzinger)@[p - 1]
                == old(eytzinger)@[p - 1],
    decreases (if k <= old(eytzinger)@.len() { old(eytzinger)@.len() + 1 - k } else { 0 }),
{
    let ghost n = eytzinger@.len() as int;
    let mut next: usize = i;
    if k <= eytzinger.len() {
        let ghost l = in_order(2 * k as int, n);
        let ghost r = in_order(2 * k + 1 as int, n);
        let ghost e0 = eytzinger@;
        assert(in_order(k as int, n) == l + seq![k as int] + r);
        next = recursive_eytzinger_layout(eytzinger, monotonic, next, 2 * k);
        let ghost e1 = eytzinger@;
        eytzinger[k - 1] = monotonic[next];
        let ghost e2 = eytzinger@;
        next = next + 1;
        next = recursive_eytzinger_layout(eytzinger, monotonic, next, 2 * k + 1);
        proof {
            lemma_in_order(2 * k as int, n);
            lemma_in_order(2 * k + 1 as int, n);
            let s = in_order(k as int, n);
            assert forall|j: int| 0 <= j < s.len() implies eytzinger@[#[trigger] s[j] - 1]
                == monotonic@[i + j] by {
                if j < l.len() {
                    assert(s[j] == l[j]);
                    lemma_desc_ge(l[j], 2 * k as int);
                    lemma_children_disjoint(l[j], k as int);
                    assert(e1[l[j] - 1] == monotonic@[i + j]);
                } else if j == l.len() {
                    assert(s[j] == k);
                    assert(!is_desc(k as int, 2 * k + 1));
                } else {
                    assert(s[j] == r[j - l.len() - 1]);
                }
            }
            assert forall|p: int| 1 <= p <= n && !is_desc(p, k as int) implies #[trigger] eytzinger@[p
                - 1] == e0[p - 1] by {
                if is_desc(p, 2 * k as int) || is_desc(p, 2 * k + 1 as int) {
                    lemma_child_in_parent(p, k as int);
                }
            }
        }
    }
    next
}

/// Writes the Eytzinger layout of `monotonic` into `eytzinger`. Returns `false`,
/// and leaves `eytzinger` as it was, where the two lengths differ. The length
/// is at most `isize::MAX`, as that of every slice of non-zero-sized elements is.
pub fn eytzinger_layout<D: Copy>(eytzinger: &mut [D], monotonic: &[D]) -> (r: bool)
    requires
        old(eytzinger)@.len() <= isize::MAX,
    ensures
        r == (old(eytzinger)@.len() == monotonic@.len()),
        r ==> in_order_read(final(eytzinger)@) == monotonic@,
        !r ==> final(eytzinger)@ == old(eytzinger)@,
{
    if eytzinger.len() != monotonic.len() {
        return false;
    }
    proof {
        lemma_in_order_len(monotonic@.len() as int);
    }
    let length: usize = recursive_eytzinger_layout(eytzinger, monotonic, 0, 1);
    proof {
        let s = in_order(1, monotonic@.len() as int);
        assert(in_order_read(eytzinger@) =~= monotonic@);
    }
    length == monotonic.len()
}

/// Where `p` lies in a subtree of `k`, and `k` under `r`, the in-order
/// traversal from `r` visits `p` before `k` for the left subtree and after it
/// for the right one. Returns the two positions in the traversal.
proof fn lemma_positions(r: int, k: int, p: int, n: int) -> (ab: (int, int))
    requires
        r >= 1,
        is_desc(k, r),
        1 <= k <= n,
        1 <= p <= n,
        left_of(p, k) || right_of(p, k),
    ensures
        0 <= ab.0 < in_order(r, n).len(),
        0 <= ab.1 < in_order(r, n).len(),
        in_order(r, n)[ab.0] == p,
        in_order(r, n)[ab.1] == k,
        left_of(p, k) ==> ab.0 < ab.1,
        right_of(p, k) ==> ab.1 < ab.0,
    decreases (if 1 <= r <= n { n + 1 - r } else { 0 }),
{
    lemma_desc_ge(k, r);
    let l = in_order(2 * r, n);
    let rr = in_order(2 * r + 1, n);
    let s = in_order(r, n);
    assert(s == l + seq![r] + rr);
    lemma_in_order(2 * r, n);
    lemma_in_order(2 * r + 1, n);
    lemma_children_disjoint(p, k);
    if k == r {
        if left_of(p, k) {
            assert(l.contains(p));
            let a = choose|a: int| 0 <= a < l.len() && l[a] == p;
            assert(s[a] == p);
            assert(s[l.len() as int] == k);
            (a, l.len() as int)
        } else {
            assert(rr.contains(p));
            let a = choose|a: int| 0 <= a < rr.len() && rr[a] == p;
            assert(s[a + l.len() + 1] == p);
            assert(s[l.len() as int] == k);
            (a + l.len() + 1, l.len() as int)
        }
    } else {
        lemma_desc_split(k, r);
        lemma_child_in_parent(p, k);
        if is_desc(k, 2 * r) {
            lemma_desc_trans(p, k, 2 * r);
            let ab = lemma_positions(2 * r, k, p, n);
            assert(s[ab.0] == p);
            assert(s[ab.1] == k);
            ab
        } else {
            lemma_desc_trans(p, k, 2 * r + 1);
            let ab = lemma_positions(2 * r + 1, k, p, n);
            let off = l.len() + 1;
            assert(s[ab.0 + off] == p);
            assert(s[ab.1 + off] == k);
            (ab.0 + off, ab.1 + off)
        }
    }
}

/// The layout of an ascending sequence orders every node after its left
/// subtree and before its right subtree: it is what the Eytzinger searches take.
pub proof fn lemma_layout_is_ordered<D: Ord>(eytzinger: Seq<D>, monotonic: Seq<D>)
    requires
        obeys_cmp::<D>(),
        sorted(monotonic),
        in_order_read(eytzinger) == monotonic,
    ensures
        eytzinger_ordered(eytzinger),
{
    let n = eytzinger.len() as int;
    let s = in_order(1, n);
    lemma_in_order_len(n);
    assert forall|k: int, p: int|
        #![trigger left_of(p, k)]
        #![trigger right_of(p, k)]
        1 <= k <= eytzinger.len() && 1 <= p <= eytzinger.len() implies {
            &&& left_of(p, k) ==> not_after(eytzinger[p - 1], eytzinger[k - 1])
            &&& right_of(p, k) ==> not_after(eytzinger[k - 1], eytzinger[p - 1])
        } by {
        if left_of(p, k) || right_of(p, k) {
            lemma_desc_of_root(k);
            let ab = lemma_positions(1, k, p, n);
            assert(in_order_read(eytzinger)[ab.0] == eytzinger[p - 1]);
            assert(in_order_read(eytzinger)[ab.1] == eytzinger[k - 1]);
            if left_of(p, k) {
                assert(not_after(monotonic[ab.0], monotonic[ab.1]));
            } else {
                assert(not_after(monotonic[ab.1], monotonic[ab.0]));
            }
        }
    }
}

/// The value that is left once the trailing one bits of `x`, and the zero
/// bit above them, are shifted out.
pub open spec fn strip_ones(x: int) -> int
    decreases x,
{
    if x <= 0 {
        0
    } else if x % 2 == 1 {
        strip_ones(x / 2)
    } else {
        x / 2
    }
}

/// The number of trailing one bits of a non-negative integer.
pub open spec fn trailing_ones_of(x: int) -> nat
    decreases x,
{
    if x <= 0 {
        0
    } else if x % 2 == 1 {
        1 + trailing_ones_of(x / 2)
    } else {
        0
    }
}

proof fn lemma_complement_zeros(x: int, b: nat)
    requires
        0 <= x < pow2(b) - 1,
    ensures
        trailing_zeros_of(pow2(b) - 1 - x) == trailing_ones_of(x),
        trailing_ones_of(x) < b,
    decreases b,
{
    lemma_pow2_pos(b);
    if b == 0 {
        lemma2_to64();
    } else {
        lemma_pow2_unfold(b);
        let h = pow2((b - 1) as nat) as int;
        if x % 2 == 1 {
            assert((pow2(b) - 1 - x) / 2 == h - 1 - x / 2);
            lemma_complement_zeros(x / 2, (b - 1) as nat);
        }
    }
}

proof fn lemma_strip_is_shift(x: int)
    requires
        x >= 0,
    ensures
        x / (pow2(trailing_ones_of(x) + 1) as int) == strip_ones(x),
    decreases x,
{
    lemma2_to64();
    if x > 0 && x % 2 == 1 {
        lemma_strip_is_shift(x / 2);
        let t = trailing_ones_of(x / 2);
        lemma_pow2_unfold(t + 2);
        lemma_pow2_pos(t + 1);
        vstd::arithmetic::div_mod::lemma_div_denominator(x, 2, pow2(t + 1) as int);
    }
}

proof fn lemma_trailing_zeros_below(x: int)
    requires
        x >= 1,
    ensures
        pow2(trailing_zeros_of(x)) <= x,
    decreases x,
{
    lemma2_to64();
    if x % 2 == 0 {
        lemma_trailing_zeros_below(x / 2);
        lemma_pow2_unfold(trailing_zeros_of(x));
    }
}

/// Find first set: one more than the number of trailing zero bits, and 16 for zero.
pub fn ffs<I: UnsignedInt>(value: I) -> (r: u16)
    ensures
        value.as_int() == 0 ==> r == 16,
        value.as_int() != 0 ==> r == trailing_zeros_of(value.as_int()) + 1,
{
    proof {
        I::lemma_unsigned();
        I::lemma_bounds(value);
    }
    if !I::zero().less(value) {
        16
    } else {
        proof {
            lemma_trailing_zeros_below(value.as_int());
            let t = trailing_zeros_of(value.as_int());
            if t >= I::bits() {
                if t > I::bits() {
                    vstd::arithmetic::power2::lemma_pow2_strictly_increases(I::bits(), t);
                }
                assert(false);
            }
        }
        1u16 + value.trailing_zeros() as u16
    }
}

/// Recovers, from the position a descent overshot to, the last node at which it
/// turned left: `index >> ffs(!index)`.
fn last_left_turn<I: UnsignedInt>(index: I) -> (r: I)
    requires
        0 <= index.as_int() < I::highest(),
    ensures
        r.as_int() == strip_ones(index.as_int()),
{
    proof {
        I::lemma_unsigned();
        lemma_complement_zeros(index.as_int(), I::bits());
        lemma_strip_is_shift(index.as_int());
    }
    let shift: u16 = ffs(index.complement());
    index.shift_right(shift as u32)
}

/// A descent step to the right keeps the descent's invariant.
proof fn lemma_step_right<D: Ord>(s: Seq<D>, v: D, i: int, c: int)
    requires
        obeys_cmp::<D>(),
        eytzinger_ordered(s),
        1 <= i <= s.len(),
        0 <= c <= s.len(),
        precedes(s[i - 1], v),
        c >= 1 ==> not_after(v, s[c - 1]) && is_desc(i, 2 * c),
        forall|j: int|
            0 <= j < s.len() && same(#[trigger] s[j], v) ==> is_desc(j + 1, i) || (c >= 1 && same(
                s[c - 1],
                v,
            )),
    ensures
        strip_ones(2 * i + 1) == strip_ones(i),
        c >= 1 ==> is_desc(2 * i + 1, 2 * c),
        forall|j: int|
            0 <= j < s.len() && same(#[trigger] s[j], v) ==> is_desc(j + 1, 2 * i + 1) || (c >= 1
                && same(s[c - 1], v)),
{
    lemma_total_order::<D>();
    assert((2 * i + 1) / 2 == i);
    assert(is_desc(i, i));
    assert(is_desc(2 * i + 1, i));
    if c >= 1 {
        lemma_desc_trans(2 * i + 1, i, 2 * c);
    }
    assert forall|j: int| 0 <= j < s.len() && same(#[trigger] s[j], v) implies is_desc(j + 1, 2 * i + 1)
        || (c >= 1 && same(s[c - 1], v)) by {
        if is_desc(j + 1, i) {
            if j + 1 == i {
                assert(!same(s[i - 1], v));
            } else {
                lemma_desc_split(j + 1, i);
                if left_of(j + 1, i) {
                    assert(not_after(s[j], s[i - 1]));
                }
            }
        }
    }
}

/// A descent step to the left, which makes the current node the candidate,
/// keeps the descent's invariant.
proof fn lemma_step_left<D: Ord>(s: Seq<D>, v: D, i: int, c: int)
    requires
        obeys_cmp::<D>(),
        eytzinger_ordered(s),
        1 <= i <= s.len(),
        0 <= c <= s.len(),
        not_after(v, s[i - 1]),
        c >= 1 ==> not_after(v, s[c - 1]) && is_desc(i, 2 * c),
        forall|j: int|
            0 <= j < s.len() && same(#[trigger] s[j], v) ==> is_desc(j + 1, i) || (c >= 1 && same(
                s[c - 1],
                v,
            )),
    ensures
        strip_ones(2 * i) == i,
        is_desc(2 * i, 2 * i),
        forall|j: int|
            0 <= j < s.len() && same(#[trigger] s[j], v) ==> is_desc(j + 1, 2 * i) || same(
                s[i - 1],
                v,
            ),
{
    lemma_total_order::<D>();
    assert((2 * i) % 2 == 0);
    assert forall|j: int| 0 <= j < s.len() && same(#[trigger] s[j], v) implies is_desc(j + 1, 2 * i)
        || same(s[i - 1], v) by {
        if !same(s[i - 1], v) {
            assert(precedes(v, s[i - 1]));
            if is_desc(j + 1, i) {
                if j + 1 != i {
                    lemma_desc_split(j + 1, i);
                    if right_of(j + 1, i) {
                        assert(not_after(s[i - 1], s[j]));
                    }
                }
            } else {
                assert(left_of(i, c));
                assert(not_after(s[i - 1], s[c - 1]));
            }
        }
    }
}

/// Eytzinger search with an explicit branch per step.
pub struct ImplementationWithoutHints;

/// Eytzinger search whose step is `(index << 1) | (element < value)`.
pub struct ImplementationBranchless;

/// Branchless Eytzinger search that touches the next level before comparing.
pub struct ImplementationPrefetching;


/// Of several equal elements, `r` is the one the in-order read meets first:
/// no position earlier in that read holds an equal value.
pub open spec fn is_first_in_order<D: Ord, I: BoundedInt>(s: Seq<D>, v: D, r: Option<I>) -> bool {
    r matches Some(i) ==> forall|a: int, b: int|
        #![trigger in_order_read(s)[a], in_order(1, s.len() as int)[b]]
        0 <= a < b < s.len() && in_order(1, s.len() as int)[b] == i.as_int() + 1 ==> !same(
            in_order_read(s)[a],
            v,
        )
}

/// The subtree of `i` splits into its left subtree, `i`, and its right
/// subtree, in the place it holds in the traversal of the whole tree.
proof fn lemma_block_split(n: int, i: int, lo: int)
    requires
        1 <= i <= n,
        0 <= lo,
        lo + in_order(i, n).len() <= in_order(1, n).len(),
        in_order(1, n).subrange(lo, lo + in_order(i, n).len()) == in_order(i, n),
    ensures
        in_order(i, n).len() == in_order(2 * i, n).len() + 1 + in_order(2 * i + 1, n).len(),
        in_order(1, n).subrange(lo, lo + in_order(2 * i, n).len()) == in_order(2 * i, n),
        in_order(1, n)[lo + in_order(2 * i, n).len()] == i,
        in_order(1, n).subrange(lo + in_order(2 * i, n).len() + 1, lo + in_order(i, n).len())
            == in_order(2 * i + 1, n),
{
    let s = in_order(1, n);
    let l = in_order(2 * i, n);
    let r = in_order(2 * i + 1, n);
    let b = in_order(i, n);
    assert(b == l + seq![i] + r);
    assert(s[lo + l.len()] == s.subrange(lo, lo + b.len())[l.len() as int]);
    assert(s.subrange(lo, lo + l.len()) =~= l) by {
        assert forall|j: int| 0 <= j < l.len() implies s.subrange(lo, lo + l.len())[j] == l[j] by {
            assert(s.subrange(lo, lo + b.len())[j] == b[j]);
        }
    }
    assert(s.subrange(lo + l.len() + 1, lo + b.len()) =~= r) by {
        assert forall|j: int| 0 <= j < r.len() implies s.subrange(lo + l.len() + 1, lo + b.len())[j]
            == r[j] by {
            assert(s.subrange(lo, lo + b.len())[j + l.len() + 1] == b[j + l.len() + 1]);
        }
    }
}

/// Where the descent ended with the candidate `c` at place `lo` of the
/// traversal, and the place before it holds a smaller value, no earlier place
/// holds a value equal to the probe.
proof fn lemma_first_in_order<D: Ord>(data: Seq<D>, v: D, lo: int, c: int)
    requires
        obeys_cmp::<D>(),
        sorted(in_order_read(data)),
        in_order(1, data.len() as int).len() == data.len(),
        0 <= lo < data.len(),
        in_order(1, data.len() as int)[lo] == c,
        lo > 0 ==> precedes(in_order_read(data)[lo - 1], v),
    ensures
        forall|a: int, b: int|
            #![trigger in_order_read(data)[a], in_order(1, data.len() as int)[b]]
            0 <= a < b < data.len() && in_order(1, data.len() as int)[b] == c ==> !same(
                in_order_read(data)[a],
                v,
            ),
{
    lemma_total_order::<D>();
    lemma_in_order(1, data.len() as int);
    let s = in_order(1, data.len() as int);
    assert forall|a: int, b: int|
        #![trigger in_order_read(data)[a], in_order(1, data.len() as int)[b]]
        0 <= a < b < data.len() && s[b] == c implies !same(in_order_read(data)[a], v) by {
        assert(b == lo);
        assert(not_after(in_order_read(data)[a], in_order_read(data)[lo - 1]));
    }
}

/// Over a layout whose in-order read is ascending, two correct answers that
/// are both the first equal element of that read are the same answer: the
/// three Eytzinger searches, and their slice and array forms, agree.
pub proof fn lemma_first_in_order_unique<D: Ord, I: BoundedInt>(
    data: Seq<D>,
    v: D,
    a: Option<I>,
    b: Option<I>,
)
    requires
        is_search_result(data, v, a),
        is_search_result(data, v, b),
        is_first_in_order(data, v, a),
        is_first_in_order(data, v, b),
    ensures
        a == b,
{
    I::lemma_order();
    let n = data.len() as int;
    let s = in_order(1, n);
    lemma_in_order_len(n);
    lemma_in_order(1, n);
    match (a, b) {
        (Some(x), Some(y)) => {
            let (i, j) = (x.as_int(), y.as_int());
            lemma_desc_of_root(i + 1);
            lemma_desc_of_root(j + 1);
            assert(s.contains(i + 1));
            assert(s.contains(j + 1));
            let bi = choose|k: int| 0 <= k < s.len() && s[k] == i + 1;
            let bj = choose|k: int| 0 <= k < s.len() && s[k] == j + 1;
            assert(in_order_read(data)[bi] == data[i]);
            assert(in_order_read(data)[bj] == data[j]);
            if bi < bj {
                assert(!same(in_order_read(data)[bi], v));
            } else if bj < bi {
                assert(!same(in_order_read(data)[bj], v));
            }
        },
        (Some(x), None) => {
            assert(same(data[x.as_int()], v));
        },
        (None, Some(y)) => {
            assert(same(data[y.as_int()], v));
        },
        (None, None) => {},
    }
}

/// On the layout of the generated dataset every correct search result agrees
/// with the oracle: a probe is found exactly when it is even and `v / 2` is a
/// position, and then the returned layout position holds the probe.
pub proof fn lemma_layout_dataset_oracle<D: BoundedInt, I: BoundedInt>(
    monotonic: Seq<D>,
    eytzinger: Seq<D>,
    v: D,
    r: Option<I>,
)
    requires
        is_dataset(monotonic, monotonic.len() as int),
        in_order_read(eytzinger) == monotonic,
        is_search_result(eytzinger, v, r),
    ensures
        (r is Some) == (expected(v.as_int(), monotonic.len() as int) is Some),
        r matches Some(j) ==> eytzinger[j.as_int()].as_int() == v.as_int(),
{
    D::lemma_order();
    let n = eytzinger.len() as int;
    let s = in_order(1, n);
    lemma_in_order_len(n);
    lemma_in_order(1, n);
    lemma_generated_dataset_passes(monotonic);
    assert(agrees_with_oracle(monotonic, v));
    match r {
        Some(j) => {
            let i = j.as_int();
            lemma_desc_of_root(i + 1);
            assert(s.contains(i + 1));
            let k = choose|k: int| 0 <= k < s.len() && s[k] == i + 1;
            assert(monotonic[k] == eytzinger[i]);
            assert(same(monotonic[k], v));
        },
        None => {
            if expected(v.as_int(), n) is Some {
                let k = expected(v.as_int(), n)->0;
                assert(same(monotonic[k], v));
                assert(monotonic[k] == eytzinger[s[k] - 1]);
            }
        },
    }
}

/// Std's `black_box` stands in for a prefetch hint, which spec allows to be
/// a no-op: the reference to the element one level down is formed and treated
/// as used, and nothing is read through it.
#[verifier::external_body]
fn touch<D>(item: Option<&D>) {
    std::hint::black_box(item);
}

impl ImplementationWithoutHints {
    pub fn eytzinger_layout_search<D: Ord, I: UnsignedInt>(data: &[D], value: &D) -> (r: Option<
        I,
    >)
        requires
            obeys_cmp::<D>(),
            sorted(in_order_read(data@)),
            1 <= data@.len(),
            2 * data@.len() + 1 < I::highest(),
        ensures
            is_search_result(data@, *value, r),
            is_first_in_order(data@, *value, r),
    {
        proof {
            I::lemma_unsigned();
            lemma_layout_is_ordered(data@, in_order_read(data@));
            lemma_in_order_len(data@.len() as int);
        }
        let n: I = I::from_usize(data.len()).unwrap();
        let mut index: I = I::one();
        let ghost mut c: int = 0;
        let ghost mut lo: int = 0;
        let ghost s = in_order(1, n.as_int());
        proof {
            assert(strip_ones(0) == 0);
            assert(strip_ones(1) == 0);
            assert(s.subrange(0, s.len() as int) == s);
            assert forall|j: int| 0 <= j < n.as_int() && same(#[trigger] data@[j], *value) implies is_desc(
                j + 1,
                1,
            ) by {
                lemma_desc_of_root(j + 1);
            }
        }
        while index.less_eq(n)
            invariant
                obeys_cmp::<D>(),
                eytzinger_ordered(data@),
                sorted(in_order_read(data@)),
                n.as_int() == data@.len(),
                s == in_order(1, n.as_int()),
                s.len() == n.as_int(),
                2 * n.as_int() + 1 < I::highest(),
                I::lowest() == 0,
                1 <= index.as_int() <= 2 * n.as_int() + 1,
                strip_ones(index.as_int()) == c,
                0 <= c <= n.as_int(),
                c >= 1 ==> not_after(*value, data@[c - 1]) && is_desc(index.as_int(), 2 * c),
                forall|j: int|
                    0 <= j < n.as_int() && same(#[trigger] data@[j], *value) ==> is_desc(
                        j + 1,
                        index.as_int(),
                    ) || (c >= 1 && same(data@[c - 1], *value)),
                0 <= lo,
                lo + in_order(index.as_int(), n.as_int()).len() <= n.as_int(),
                s.subrange(lo, lo + in_order(index.as_int(), n.as_int()).len()) == in_order(
                    index.as_int(),
                    n.as_int(),
                ),
                lo > 0 ==> precedes(in_order_read(data@)[lo - 1], *value),
                lo + in_order(index.as_int(), n.as_int()).len() < n.as_int() ==> c >= 1 && s[lo
                    + in_order(index.as_int(), n.as_int()).len()] == c,
                lo + in_order(index.as_int(), n.as_int()).len() == n.as_int() ==> c == 0,
            decreases 2 * n.as_int() + 2 - index.as_int(),
        {
            proof {
                lemma_total_order::<D>();
                lemma_block_split(n.as_int(), index.as_int(), lo);
            }
            let ghost i = index.as_int();
            let ghost left = in_order(2 * i, n.as_int()).len() as int;
            if data[index.to_usize() - 1] < *value {
                index = index.shl_or(true);
                proof {
                    lemma_step_right(data@, *value, i, c);
                    lo = lo + left + 1;
                }
            } else {
                index = index.shl_or(false);
                proof {
                    lemma_step_left(data@, *value, i, c);
                    c = i;
                }
            }
        }
        proof {
            lemma_total_order::<D>();
        }
        let ghost overshoot = index.as_int();
        index = last_left_turn(index);
        if !I::zero().less(index) || data[index.to_usize() - 1] != *value {
            proof {
                // the descent left the tree, so no position lies below where it ended
                assert forall|j: int| 0 <= j < n.as_int() implies !same(#[trigger] data@[j], *value) by {
                    assert(!is_desc(j + 1, overshoot));
                }
            }
            None
        } else {
            proof {
                lemma_first_in_order(data@, *value, lo, c);
            }
            Some(index.minus(I::one()))
        }
    }
}

impl ImplementationBranchless {
    pub fn eytzinger_layout_search<D: Ord, I: UnsignedInt>(data: &[D], value: &D) -> (r: Option<
        I,
    >)
        requires
            obeys_cmp::<D>(),
            sorted(in_order_read(data@)),
            1 <= data@.len(),
            2 * data@.len() + 1 < I::highest(),
        ensures
            is_search_result(data@, *value, r),
            is_first_in_order(data@, *value, r),
    {
        proof {
            I::lemma_unsigned();
            lemma_layout_is_ordered(data@, in_order_read(data@));
            lemma_in_order_len(data@.len() as int);
        }
        let n: I = I::from_usize(data.len()).unwrap();
        let mut index: I = I::one();
        let ghost mut c: int = 0;
        let ghost mut lo: int = 0;
        let ghost s = in_order(1, n.as_int());
        proof {
            assert(strip_ones(0) == 0);
            assert(strip_ones(1) == 0);
            assert(s.subrange(0, s.len() as int) == s);
            assert forall|j: int| 0 <= j < n.as_int() && same(#[trigger] data@[j], *value) implies is_desc(
                j + 1,
                1,
            ) by {
                lemma_desc_of_root(j + 1);
            }
        }
        while index.less_eq(n)
            invariant
                obeys_cmp::<D>(),
                eytzinger_ordered(data@),
                sorted(in_order_read(data@)),
                n.as_int() == data@.len(),
                s == in_order(1, n.as_int()),
                s.len() == n.as_int(),
                2 * n.as_int() + 1 < I::highest(),
                I::lowest() == 0,
                1 <= index.as_int() <= 2 * n.as_int() + 1,
                strip_ones(index.as_int()) == c,
                0 <= c <= n.as_int(),
                c >= 1 ==> not_after(*value, data@[c - 1]) && is_desc(index.as_int(), 2 * c),
                forall|j: int|
                    0 <= j < n.as_int() && same(#[trigger] data@[j], *value) ==> is_desc(
                        j + 1,
                        index.as_int(),
                    ) || (c >= 1 && same(data@[c - 1], *value)),
                0 <= lo,
                lo + in_order(index.as_int(), n.as_int()).len() <= n.as_int(),
                s.subrange(lo, lo + in_order(index.as_int(), n.as_int()).len()) == in_order(
                    index.as_int(),
                    n.as_int(),
                ),
                lo > 0 ==> precedes(in_order_read(data@)[lo - 1], *value),
                lo + in_order(index.as_int(), n.as_int()).len() < n.as_int() ==> c >= 1 && s[lo
                    + in_order(index.as_int(), n.as_int()).len()] == c,
                lo + in_order(index.as_int(), n.as_int()).len() == n.as_int() ==> c == 0,
            decreases 2 * n.as_int() + 2 - index.as_int(),
        {
            proof {
                lemma_total_order::<D>();
                lemma_block_split(n.as_int(), index.as_int(), lo);
            }
            let ghost i = index.as_int();
            let ghost left = in_order(2 * i, n.as_int()).len() as int;
            let less: bool = data[index.to_usize() - 1] < *value;
            index = index.shl_or(less);
            proof {
                if less {
                    lemma_step_right(data@, *value, i, c);
                    lo = lo + left + 1;
                } else {
                    lemma_step_left(data@, *value, i, c);
                    c = i;
                }
            }
        }
        proof {
            lemma_total_order::<D>();
        }
        let ghost overshoot = index.as_int();
        index = last_left_turn(index);
        if !I::zero().less(index) || data[index.to_usize() - 1] != *value {
            proof {
                // the descent left the tree, so no position lies below where it ended
                assert forall|j: int| 0 <= j < n.as_int() implies !same(#[trigger] data@[j], *value) by {
                    assert(!is_desc(j + 1, overshoot));
                }
            }
            None
        } else {
            proof {
                lemma_first_in_order(data@, *value, lo, c);
            }
            Some(index.minus(I::one()))
        }
    }
}

impl ImplementationPrefetching {
    pub fn eytzinger_layout_search<D: Ord, I: UnsignedInt>(data: &[D], value: &D) -> (r: Option<
        I,
    >)
        requires
            obeys_cmp::<D>(),
            sorted(in_order_read(data@)),
            1 <= data@.len(),
            2 * data@.len() + 1 < I::highest(),
        ensures
            is_search_result(data@, *value, r),
            is_first_in_order(data@, *value, r),
    {
        proof {
            I::lemma_unsigned();
            lemma_layout_is_ordered(data@, in_order_read(data@));
            lemma_in_order_len(data@.len() as int);
        }
        let n: I = I::from_usize(data.len()).unwrap();
        let mut index: I = I::one();
        let ghost mut c: int = 0;
        touch(data.get(0));
        let ghost mut lo: int = 0;
        let ghost s = in_order(1, n.as_int());
        proof {
            assert(strip_ones(0) == 0);
            assert(strip_ones(1) == 0);
            assert(s.subrange(0, s.len() as int) == s);
            assert forall|j: int| 0 <= j < n.as_int() && same(#[trigger] data@[j], *value) implies is_desc(
                j + 1,
                1,
            ) by {
                lemma_desc_of_root(j + 1);
            }
        }
        while index.less_eq(n)
            invariant
                obeys_cmp::<D>(),
                eytzinger_ordered(data@),
                sorted(in_order_read(data@)),
                n.as_int() == data@.len(),
                s == in_order(1, n.as_int()),
                s.len() == n.as_int(),
                2 * n.as_int() + 1 < I::highest(),
                I::lowest() == 0,
                1 <= index.as_int() <= 2 * n.as_int() + 1,
                strip_ones(index.as_int()) == c,
                0 <= c <= n.as_int(),
                c >= 1 ==> not_after(*value, data@[c - 1]) && is_desc(index.as_int(), 2 * c),
                forall|j: int|
                    0 <= j < n.as_int() && same(#[trigger] data@[j], *value) ==> is_desc(
                        j + 1,
                        index.as_int(),
                    ) || (c >= 1 && same(data@[c - 1], *value)),
                0 <= lo,
                lo + in_order(index.as_int(), n.as_int()).len() <= n.as_int(),
                s.subrange(lo, lo + in_order(index.as_int(), n.as_int()).len()) == in_order(
                    index.as_int(),
                    n.as_int(),
                ),
                lo > 0 ==> precedes(in_order_read(data@)[lo - 1], *value),
                lo + in_order(index.as_int(), n.as_int()).len() < n.as_int() ==> c >= 1 && s[lo
                    + in_order(index.as_int(), n.as_int()).len()] == c,
                lo + in_order(index.as_int(), n.as_int()).len() == n.as_int() ==> c == 0,
            decreases 2 * n.as_int() + 2 - index.as_int(),
        {
            proof {
                lemma_total_order::<D>();
                lemma_block_split(n.as_int(), index.as_int(), lo);
            }
            let ghost i = index.as_int();
            let ghost left = in_order(2 * i, n.as_int()).len() as int;
            proof {
                I::lemma_bounds(index);
            }
            touch(data.get(2 * index.to_usize()));
            let less: bool = data[index.to_usize() - 1] < *value;
            index = index.shl_or(less);
            proof {
                if less {
                    lemma_step_right(data@, *value, i, c);
                    lo = lo + left + 1;
                } else {
                    lemma_step_left(data@, *value, i, c);
                    c = i;
                }
            }
        }
        proof {
            lemma_total_order::<D>();
        }
        let ghost overshoot = index.as_int();
        index = last_left_turn(index);
        if !I::zero().less(index) || data[index.to_usize() - 1] != *value {
            proof {
                // the descent left the tree, so no position lies below where it ended
                assert forall|j: int| 0 <= j < n.as_int() implies !same(#[trigger] data@[j], *value) by {
                    assert(!is_desc(j + 1, overshoot));
                }
            }
            None
        } else {
            proof {
                lemma_first_in_order(data@, *value, lo, c);
            }
            Some(index.minus(I::one()))
        }
    }
}

impl<D: Ord, I: UnsignedInt> DynamicBinarySearch<D, I> for ImplementationWithoutHints {
    open spec fn admits(data: Seq<D>) -> bool {
        &&& sorted(in_order_read(data))
        &&& 2 * data.len() + 1 < I::highest()
    }

    /// The equal element that the in-order read meets first.
    open spec fn picks(data: Seq<D>, value: D, r: Option<I>) -> bool {
        is_first_in_order(data, value, r)
    }

    fn search(&self, data: &[D], value: &D) -> (r: Option<I>) {
        if data.len() > 0 {
            Self::eytzinger_layout_search(data, value)
        } else {
            None
        }
    }
}

impl<D: Ord, I: UnsignedInt, const N: usize> StaticBinarySearch<D, I, N> for ImplementationWithoutHints {
    open spec fn admits(data: Seq<D>) -> bool {
        &&& sorted(in_order_read(data))
        &&& 2 * data.len() + 1 < I::highest()
    }

    /// The equal element that the in-order read meets first.
    open spec fn picks(data: Seq<D>, value: D, r: Option<I>) -> bool {
        is_first_in_order(data, value, r)
    }

    fn search_fixed(&self, data: &[D; N], value: &D) -> (r: Option<I>) {
        if N > 0 {
            Self::eytzinger_layout_search(data.as_slice(), value)
        } else {
            None
        }
    }
}

impl<D: Ord, I: UnsignedInt> DynamicBinarySearch<D, I> for ImplementationBranchless {
    open spec fn admits(data: Seq<D>) -> bool {
        &&& sorted(in_order_read(data))
        &&& 2 * data.len() + 1 < I::highest()
    }

    /// The equal element that the in-order read meets first.
    open spec fn picks(data: Seq<D>, value: D, r: Option<I>) -> bool {
        is_first_in_order(data, value, r)
    }

    fn search(&self, data: &[D], value: &D) -> (r: Option<I>) {
        if data.len() > 0 {
            Self::eytzinger_layout_search(data, value)
        } else {
            None
        }
    }
}

impl<D: Ord, I: UnsignedInt, const N: usize> StaticBinarySearch<D, I, N> for ImplementationBranchless {
    open spec fn admits(data: Seq<D>) -> bool {
        &&& sorted(in_order_read(data))
        &&& 2 * data.len() + 1 < I::highest()
    }

    /// The equal element that the in-order read meets first.
    open spec fn picks(data: Seq<D>, value: D, r: Option<I>) -> bool {
        is_first_in_order(data, value, r)
    }

    fn search_fixed(&self, data: &[D; N], value: &D) -> (r: Option<I>) {
        if N > 0 {
            Self::eytzinger_layout_search(data.as_slice(), value)
        } else {
            None
        }
    }
}

impl<D: Ord, I: UnsignedInt> DynamicBinarySearch<D, I> for ImplementationPrefetching {
    open spec fn admits(data: Seq<D>) -> bool {
        &&& sorted(in_order_read(data))
        &&& 2 * data.len() + 1 < I::highest()
    }

    /// The equal element that the in-order read meets first.
    open spec fn picks(data: Seq<D>, value: D, r: Option<I>) -> bool {
        is_first_in_order(data, value, r)
    }

    fn search(&self, data: &[D], value: &D) -> (r: Option<I>) {
        if data.len() > 0 {
            Self::eytzinger_layout_search(data, value)
        } else {
            None
        }
    }
}

impl<D: Ord, I: UnsignedInt, const N: usize> StaticBinarySearch<D, I, N> for ImplementationPrefetching {
    open spec fn admits(data: Seq<D>) -> bool {
        &&& sorted(in_order_read(data))
        &&& 2 * data.len() + 1 < I::highest()
    }

    /// The equal element that the in-order read meets first.
    open spec fn picks(data: Seq<D>, value: D, r: Option<I>) -> bool {
        is_first_in_order(data, value, r)
    }

    fn search_fixed(&self, data: &[D; N], value: &D) -> (r: Option<I>) {
        if N > 0 {
            Self::eytzinger_layout_search(data.as_slice(), value)
        } else {
            None
        }
    }
}

} // verus!
