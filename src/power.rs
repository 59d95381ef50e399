//! Power search: a jump search driven by the largest power of two below the
//! length, with and without a bound check on the probed position.
use crate::binary_search::{
    is_last_equal, is_search_result, lemma_total_order, not_after, precedes, same, sorted,
    DynamicBinarySearch, StaticBinarySearch,
};
use crate::index::{BoundedInt, UnsignedInt};
use vstd::arithmetic::power2::{
    lemma2_to64, lemma_pow2_pos, lemma_pow2_strictly_increases, lemma_pow2_unfold, pow2,
};
use vstd::laws_cmp::obeys_cmp;
use vstd::prelude::*;
use vstd::std_specs::bits::u64_leading_zeros;

verus! {

/// `x` is a power of two.
pub open spec fn is_pow2(x: int) -> bool
    decreases x,
{
    if x <= 0 {
        false
    } else if x == 1 {
        true
    } else {
        x % 2 == 0 && is_pow2(x / 2)
    }
}

/// The exponent of the largest power of two not above `x` (zero below two).
pub open spec fn floor_log2(x: int) -> nat
    decreases x,
{
    if x <= 1 {
        0
    } else {
        1 + floor_log2(x / 2)
    }
}

/// The number of one bits of a non-negative integer.
pub open spec fn ones_of(x: int) -> nat
    decreases x,
{
    if x <= 0 {
        0
    } else {
        (x % 2) as nat + ones_of(x / 2)
    }
}

/// What `log2` returns: the position of the highest one bit, nothing for zero.
pub open spec fn log2_of(n: int) -> Option<u32> {
    if n == 0 {
        None
    } else {
        Some(floor_log2(n) as u32)
    }
}

/// What `previous_power_of_two` returns: half of `n` where `n` is zero or a
/// power of two, and otherwise the largest power of two below `n`.
pub open spec fn previous_power_of(n: int) -> int {
    if n == 0 || is_pow2(n) {
        n / 2
    } else {
        pow2(floor_log2(n)) as int
    }
}

/// Relies on `usize::count_ones`: the number of one bits of `n`.
#[verifier::external_body]
fn count_ones(n: usize) -> (r: u32)
    ensures
        r == ones_of(n as int),
{
    n.count_ones()
}

proof fn lemma_ones_of_zero(x: int)
    requires
        x >= 0,
    ensures
        ones_of(x) == 0 <==> x == 0,
    decreases x,
{
    if x > 0 {
        lemma_ones_of_zero(x / 2);
    }
}

proof fn lemma_ones_of_pow2(x: int)
    requires
        x >= 0,
    ensures
        (ones_of(x) <= 1) == (x == 0 || is_pow2(x)),
    decreases x,
{
    if x > 1 {
        lemma_ones_of_pow2(x / 2);
        lemma_ones_of_zero(x / 2);
    } else {
        reveal_with_fuel(ones_of, 2);
    }
}

/// Powers of two are recognised, and their logarithm is their exponent.
pub proof fn lemma_pow2_facts(k: nat)
    ensures
        is_pow2(pow2(k) as int),
        floor_log2(pow2(k) as int) == k,
    decreases k,
{
    lemma_pow2_pos(k);
    if k == 0 {
        lemma2_to64();
    } else {
        lemma_pow2_unfold(k);
        lemma_pow2_facts((k - 1) as nat);
        lemma_pow2_pos((k - 1) as nat);
        assert((pow2(k) as int) / 2 == pow2((k - 1) as nat));
    }
}

/// A power of two is two to the power of its logarithm.
pub proof fn lemma_pow2_of_log(x: int)
    requires
        is_pow2(x),
    ensures
        x == pow2(floor_log2(x)),
    decreases x,
{
    if x == 1 {
        lemma2_to64();
    } else {
        lemma_pow2_of_log(x / 2);
        lemma_pow2_unfold(floor_log2(x));
    }
}

/// The logarithm brackets its argument between two powers of two.
pub proof fn lemma_floor_log2_bounds(x: int)
    requires
        x >= 1,
    ensures
        pow2(floor_log2(x)) <= x < pow2(floor_log2(x) + 1),
    decreases x,
{
    if x == 1 {
        lemma2_to64();
    } else {
        lemma_floor_log2_bounds(x / 2);
        lemma_pow2_unfold(floor_log2(x));
        lemma_pow2_unfold(floor_log2(x) + 1);
    }
}

proof fn lemma_leading_zeros(x: u64)
    requires
        x >= 1,
    ensures
        u64_leading_zeros(x) == 63 - floor_log2(x as int),
    decreases x,
{
    reveal(u64_leading_zeros);
    if x > 1 {
        lemma_leading_zeros(x / 2);
    } else {
        reveal_with_fuel(u64_leading_zeros, 2);
    }
}

/// Whether `n` has at most one bit set: zero, or a power of two.
pub fn is_power_of_two_or_zero(n: usize) -> (r: bool)
    ensures
        r == (n == 0 || is_pow2(n as int)),
{
    proof {
        lemma_ones_of_pow2(n as int);
    }
    count_ones(n) <= 1u32
}

/// The position of the highest one bit of `n`; `None` for zero.
pub fn log2(n: usize) -> (r: Option<u32>)
    ensures
        r == log2_of(n as int),
{
    if n != 0 {
        proof {
            lemma_leading_zeros(n as u64);
            lemma_floor_log2_bounds(n as int);
            lemma2_to64();
            if floor_log2(n as int) > 63 {
                lemma_pow2_strictly_increases(63, floor_log2(n as int));
            }
        }
        Some(63u32 - (n as u64).leading_zeros())
    } else {
        None
    }
}

/// Half of `n` where `n` is zero or a power of two; otherwise the largest
/// power of two below `n`.
pub fn previous_power_of_two(n: usize) -> (r: usize)
    ensures
        r == previous_power_of(n as int),
{
    if is_power_of_two_or_zero(n) {
        n / 2
    } else {
        let k = log2(n).unwrap();
        proof {
            let f = floor_log2(n as int);
            lemma_floor_log2_bounds(n as int);
            <usize as UnsignedInt>::lemma_unsigned();
            if f >= usize::BITS {
                if f > usize::BITS {
                    lemma_pow2_strictly_increases(usize::BITS as nat, f);
                }
                assert(false);
            }
            assert(k == f);
            vstd::bits::lemma_usize_shl_is_mul(1, k as usize);
        }
        1usize << (k as usize)
    }
}

/// The logarithm is the one exponent whose power brackets its argument.
proof fn lemma_floor_log2_unique(x: int, m: nat)
    requires
        pow2(m) <= x < pow2(m + 1),
    ensures
        floor_log2(x) == m,
{
    lemma_pow2_pos(m);
    lemma_floor_log2_bounds(x);
    let f = floor_log2(x);
    if f < m {
        if f + 1 < m {
            lemma_pow2_strictly_increases(f + 1, m);
        }
    } else if f > m {
        if m + 1 < f {
            lemma_pow2_strictly_increases(m + 1, f);
        }
    }
}

/// On powers of two the utilities behave as expected: a power is recognised,
/// its logarithm is its exponent, its previous power is its half, and the
/// value one past a power of two (from two on) falls back to that power.
pub proof fn lemma_utilities_on_powers(k: nat)
    requires
        k < 64,
    ensures
        is_pow2(pow2(k) as int),
        log2_of(pow2(k) as int) == Some(k as u32),
        previous_power_of(pow2(k) as int) == (if k == 0 {
            0
        } else {
            pow2((k - 1) as nat) as int
        }),
        k >= 1 ==> !is_pow2(pow2(k) + 1int),
        k >= 1 ==> previous_power_of(pow2(k) + 1int) == pow2(k),
{
    lemma_pow2_facts(k);
    lemma_pow2_pos(k);
    if k == 0 {
        lemma2_to64();
    } else {
        lemma_pow2_unfold(k);
        lemma_pow2_unfold(k + 1);
        let x: int = pow2(k) + 1int;
        assert(x % 2 == 1);
        lemma_pow2_pos((k - 1) as nat);
        lemma_floor_log2_unique(x, k);
    }
}

/// Where a multiple of `2 * pow2(k)` gains `pow2(k)` or not, it stays a multiple of `pow2(k)`.
proof fn lemma_halve(low: int, k: nat)
    requires
        k >= 1,
        low >= 0,
        low % (2 * pow2(k) as int) == 0,
    ensures
        low % (2 * pow2((k - 1) as nat) as int) == 0,
        (low + pow2(k)) % (2 * pow2((k - 1) as nat) as int) == 0,
        pow2(k) as int / 2 == pow2((k - 1) as nat),
{
    lemma_pow2_unfold(k);
    lemma_pow2_pos((k - 1) as nat);
    let w: int = pow2(k) as int;
    let q: int = low / (2 * w);
    vstd::arithmetic::div_mod::lemma_fundamental_div_mod(low, 2 * w);
    assert(low == w * (2 * q)) by (nonlinear_arith)
        requires
            low == (2 * w) * q + low % (2 * w),
            low % (2 * w) == 0,
    ;
    vstd::arithmetic::div_mod::lemma_mod_multiples_basic(2 * q, w);
    assert(low + w == w * (2 * q + 1)) by (nonlinear_arith)
        requires
            low == w * (2 * q),
    ;
    vstd::arithmetic::div_mod::lemma_mod_multiples_basic(2 * q + 1, w);
}

/// The first width of a jump search over `n` elements, and the room its
/// probes need in an index type.
proof fn lemma_first_width<I: UnsignedInt>(n: int)
    requires
        1 <= n <= I::highest() + 1,
    ensures
        I::lowest() == 0,
        previous_power_of(n) == 0 ==> n == 1,
        previous_power_of(n) > 0 ==> previous_power_of(n) == pow2(floor_log2(previous_power_of(n))),
        previous_power_of(n) > 0 ==> 0int % (2 * pow2(floor_log2(previous_power_of(n))) as int) == 0,
        n <= 2 * previous_power_of(n) || n == 1,
        2 * previous_power_of(n) <= I::highest() + 1,
        previous_power_of(n) < n,
{
    I::lemma_unsigned();
    lemma_pow2_pos(floor_log2(previous_power_of(n)));
    if is_pow2(n) {
        lemma_pow2_of_log(n);
        if n > 1 {
            let f = floor_log2(n);
            lemma_pow2_unfold(f);
            lemma_pow2_facts((f - 1) as nat);
        }
    } else {
        let f = floor_log2(n);
        lemma_floor_log2_bounds(n);
        lemma_pow2_facts(f);
        lemma_pow2_unfold(f + 1);
        if f >= I::bits() {
            if f > I::bits() {
                lemma_pow2_strictly_increases(I::bits(), f);
            }
            assert(false);
        } else if f + 1 < I::bits() {
            lemma_pow2_strictly_increases(f + 1, I::bits());
        }
    }
}

/// The end of the window that still may hold the probe, past `low`: twice the
/// width while a width is left, and `low + 1` once it has run out.
pub open spec fn window_end(low: int, width: int) -> int {
    if width == 0 {
        low + 1
    } else {
        low + 2 * width
    }
}

/// Jump search over a slice.
pub struct DynamicImplementation;

/// Jump search over an array, with the number of steps fixed by its length.
pub struct StaticImplementation;

impl DynamicImplementation {
    /// Probes without a bound check: every probed position is in range because
    /// the length is a power of two.
    pub fn without_bound_check<D: Ord, I: UnsignedInt>(data: &[D], value: &D) -> (r: Option<I>)
        requires
            obeys_cmp::<D>(),
            sorted(data@),
            is_pow2(data@.len() as int),
            data@.len() <= I::highest(),
        ensures
            is_search_result(data@, *value, r),
            is_last_equal(data@, *value, r),
    {
        let n: usize = data.len();
        let half_power: usize = previous_power_of_two(n);
        proof {
            I::lemma_unsigned();
            lemma_pow2_of_log(n as int);
            if n > 1 {
                lemma_pow2_facts((floor_log2(n as int) - 1) as nat);
                lemma_halve(0, floor_log2(n as int));
            }
        }
        let mut low: I = I::zero();
        let mut width: I = I::from_usize(half_power).unwrap();
        let ghost mut k: nat = if n > 1 { (floor_log2(n as int) - 1) as nat } else { 0 };
        while I::zero().less(width)
            invariant
                obeys_cmp::<D>(),
                sorted(data@),
                n == data@.len(),
                n <= I::highest() + 1,
                I::lowest() == 0,
                width.as_int() == 0 || width.as_int() == pow2(k),
                width.as_int() > 0 ==> low.as_int() % (2 * pow2(k) as int) == 0,
                width.as_int() > 0 ==> low.as_int() + 2 * width.as_int() <= n,
                0 <= low.as_int() < n,
                low.as_int() > 0 ==> not_after(data@[low.as_int()], *value),
                forall|j: int|
                    window_end(low.as_int(), width.as_int()) <= j < n ==> precedes(
                        *value,
                        #[trigger] data@[j],
                    ),
            decreases width.as_int(),
        {
            proof {
                lemma_total_order::<D>();
                lemma_pow2_pos(k);
            }
            let mid: I = low.or_width(width, Ghost(k));
            let index: usize = mid.to_usize();
            if data[index] <= *value {
                low = mid;
            } else {
                assert(precedes(*value, data@[mid.as_int()]));
                assert forall|j: int| mid.as_int() <= j < n implies precedes(*value, #[trigger] data@[j]) by {
                    assert(not_after(data@[mid.as_int()], data@[j]));
                }
            }
            proof {
                if k >= 1 {
                    lemma_halve(low.as_int() - (if low == mid { width.as_int() } else { 0 }), k);
                } else {
                    lemma2_to64();
                }
            }
            let ghost old_width = width.as_int();
            width = width.half();
            proof {
                if k >= 1 {
                    k = (k - 1) as nat;
                    lemma_pow2_unfold(k + 1);
                    assert(2 * width.as_int() == old_width);
                } else {
                    assert(width.as_int() == 0);
                }
                if low == mid {
                    assert(window_end(low.as_int(), width.as_int()) == mid.as_int() + old_width);
                } else {
                    assert(window_end(low.as_int(), width.as_int()) == mid.as_int());
                }
            }
        }
        proof {
            lemma_total_order::<D>();
        }
        let index: usize = low.to_usize();
        if data[index] == *value {
            return Some(low);
        }
        proof {
            assert(!same(data@[low.as_int()], *value));
            assert forall|j: int| 0 <= j < n implies !same(#[trigger] data@[j], *value) by {
                if j < low.as_int() {
                    assert(precedes(data@[low.as_int()], *value));
                    assert(not_after(data@[j], data@[low.as_int()]));
                } else if j > low.as_int() {
                    assert(precedes(*value, data@[j]));
                }
            }
        }
        None
    }

    /// Probes with a bound check, for any length.
    pub fn with_bound_check<D: Ord, I: UnsignedInt>(data: &[D], value: &D) -> (r: Option<I>)
        requires
            obeys_cmp::<D>(),
            sorted(data@),
            1 <= data@.len() <= I::highest(),
        ensures
            is_search_result(data@, *value, r),
            is_last_equal(data@, *value, r),
    {
        let n: usize = data.len();
        let half_power: usize = previous_power_of_two(n);
        proof {
            lemma_first_width::<I>(n as int);
        }
        let mut low: I = I::zero();
        let mut width: I = I::from_usize(half_power).unwrap();
        let ghost cap: int = 2 * half_power;
        let ghost mut k: nat = floor_log2(half_power as int);
        while I::zero().less(width)
            invariant
                obeys_cmp::<D>(),
                sorted(data@),
                n == data@.len(),
                n <= I::highest() + 1,
                I::lowest() == 0,
                width.as_int() == 0 || width.as_int() == pow2(k),
                width.as_int() > 0 ==> low.as_int() % (2 * pow2(k) as int) == 0,
                width.as_int() > 0 ==> low.as_int() + 2 * width.as_int() <= cap,
                cap <= I::highest() + 1,
                0 <= low.as_int() < n,
                low.as_int() > 0 ==> not_after(data@[low.as_int()], *value),
                forall|j: int|
                    window_end(low.as_int(), width.as_int()) <= j < n ==> precedes(
                        *value,
                        #[trigger] data@[j],
                    ),
            decreases width.as_int(),
        {
            proof {
                lemma_total_order::<D>();
                lemma_pow2_pos(k);
            }
            let mid: I = low.or_width(width, Ghost(k));
            let index: usize = mid.to_usize();
            if (index < n) && (data[index] <= *value) {
                low = mid;
            } else if index < n {
                assert(precedes(*value, data@[mid.as_int()]));
                assert forall|j: int| mid.as_int() <= j < n implies precedes(*value, #[trigger] data@[j]) by {
                    assert(not_after(data@[mid.as_int()], data@[j]));
                }
            }
            proof {
                if k >= 1 {
                    lemma_halve(low.as_int() - (if low == mid { width.as_int() } else { 0 }), k);
                } else {
                    lemma2_to64();
                }
            }
            let ghost old_width = width.as_int();
            width = width.half();
            proof {
                if k >= 1 {
                    k = (k - 1) as nat;
                    lemma_pow2_unfold(k + 1);
                    assert(2 * width.as_int() == old_width);
                } else {
                    assert(width.as_int() == 0);
                }
                if low == mid {
                    assert(window_end(low.as_int(), width.as_int()) == mid.as_int() + old_width);
                } else {
                    assert(window_end(low.as_int(), width.as_int()) == mid.as_int());
                }
            }
        }
        proof {
            lemma_total_order::<D>();
        }
        let index: usize = low.to_usize();
        if data[index] == *value {
            return Some(low);
        }
        proof {
            assert(!same(data@[low.as_int()], *value));
            assert forall|j: int| 0 <= j < n implies !same(#[trigger] data@[j], *value) by {
                if j < low.as_int() {
                    assert(precedes(data@[low.as_int()], *value));
                    assert(not_after(data@[j], data@[low.as_int()]));
                } else if j > low.as_int() {
                    assert(precedes(*value, data@[j]));
                }
            }
        }
        None
    }
}

impl StaticImplementation {
    /// Probes without a bound check: every probed position is in range because
    /// the length is a power of two.
    pub fn without_bound_check<D: Ord, I: UnsignedInt, const N: usize>(
        data: &[D; N],
        value: &D,
    ) -> (r: Option<I>)
        requires
            obeys_cmp::<D>(),
            sorted(data@),
            is_pow2(data@.len() as int),
            data@.len() <= I::highest(),
        ensures
            is_search_result(data@, *value, r),
            is_last_equal(data@, *value, r),
    {
        let n: usize = N;
        let half_power: usize = previous_power_of_two(n);
        let ghost k0: nat = floor_log2(half_power as int);
        proof {
            I::lemma_unsigned();
            lemma_pow2_of_log(n as int);
            if n > 1 {
                lemma_pow2_facts((floor_log2(n as int) - 1) as nat);
                lemma_halve(0, floor_log2(n as int));
            }
        }
        let steps: u32 = if half_power > 0 {
            proof {
                lemma_pow2_facts(k0);
                lemma_floor_log2_bounds(half_power as int);
                lemma2_to64();
                if k0 >= 64 {
                    if k0 > 64 {
                        lemma_pow2_strictly_increases(64, k0);
                    }
                    assert(false);
                }
            }
            1 + log2(half_power).unwrap()
        } else {
            0
        };
        let mut low: I = I::zero();
        let mut width: I = I::from_usize(half_power).unwrap();
        let ghost mut k: nat = if n > 1 { (floor_log2(n as int) - 1) as nat } else { 0 };
        for step in 0..steps
            invariant
                obeys_cmp::<D>(),
                sorted(data@),
                n == data@.len(),
                n <= I::highest() + 1,
                I::lowest() == 0,
                width.as_int() == 0 || width.as_int() == pow2(k),
                width.as_int() > 0 ==> low.as_int() % (2 * pow2(k) as int) == 0,
                width.as_int() > 0 ==> low.as_int() + 2 * width.as_int() <= n,
                0 <= low.as_int() < n,
                low.as_int() > 0 ==> not_after(data@[low.as_int()], *value),
                forall|j: int|
                    window_end(low.as_int(), width.as_int()) <= j < n ==> precedes(
                        *value,
                        #[trigger] data@[j],
                    ),
                (step < steps) == (width.as_int() > 0),
                width.as_int() > 0 ==> k + 1 + step == steps,
        {
            proof {
                lemma_total_order::<D>();
                lemma_pow2_pos(k);
            }
            let mid: I = low.or_width(width, Ghost(k));
            let index: usize = mid.to_usize();
            if data[index] <= *value {
                low = mid;
            } else {
                assert(precedes(*value, data@[mid.as_int()]));
                assert forall|j: int| mid.as_int() <= j < n implies precedes(*value, #[trigger] data@[j]) by {
                    assert(not_after(data@[mid.as_int()], data@[j]));
                }
            }
            proof {
                if k >= 1 {
                    lemma_halve(low.as_int() - (if low == mid { width.as_int() } else { 0 }), k);
                } else {
                    lemma2_to64();
                }
            }
            let ghost old_width = width.as_int();
            width = width.half();
            proof {
                if k >= 1 {
                    k = (k - 1) as nat;
                    lemma_pow2_unfold(k + 1);
                    assert(2 * width.as_int() == old_width);
                } else {
                    assert(width.as_int() == 0);
                }
                if low == mid {
                    assert(window_end(low.as_int(), width.as_int()) == mid.as_int() + old_width);
                } else {
                    assert(window_end(low.as_int(), width.as_int()) == mid.as_int());
                }
            }
        }
        proof {
            lemma_total_order::<D>();
        }
        let index: usize = low.to_usize();
        if data[index] == *value {
            return Some(low);
        }
        proof {
            assert(!same(data@[low.as_int()], *value));
            assert forall|j: int| 0 <= j < n implies !same(#[trigger] data@[j], *value) by {
                if j < low.as_int() {
                    assert(precedes(data@[low.as_int()], *value));
                    assert(not_after(data@[j], data@[low.as_int()]));
                } else if j > low.as_int() {
                    assert(precedes(*value, data@[j]));
                }
            }
        }
        None
    }

    /// Probes with a bound check, for any length.
    pub fn with_bound_check<D: Ord, I: UnsignedInt, const N: usize>(
        data: &[D; N],
        value: &D,
    ) -> (r: Option<I>)
        requires
            obeys_cmp::<D>(),
            sorted(data@),
            1 <= data@.len() <= I::highest(),
        ensures
            is_search_result(data@, *value, r),
            is_last_equal(data@, *value, r),
    {
        let n: usize = N;
        let half_power: usize = previous_power_of_two(n);
        let ghost k0: nat = floor_log2(half_power as int);
        proof {
            lemma_first_width::<I>(n as int);
        }
        let steps: u32 = if half_power > 0 {
            proof {
                lemma_pow2_facts(k0);
                lemma_floor_log2_bounds(half_power as int);
                lemma2_to64();
                if k0 >= 64 {
                    if k0 > 64 {
                        lemma_pow2_strictly_increases(64, k0);
                    }
                    assert(false);
                }
            }
            1 + log2(half_power).unwrap()
        } else {
            0
        };
        let mut low: I = I::zero();
        let mut width: I = I::from_usize(half_power).unwrap();
        let ghost cap: int = 2 * half_power;
        let ghost mut k: nat = floor_log2(half_power as int);
        for step in 0..steps
            invariant
                obeys_cmp::<D>(),
                sorted(data@),
                n == data@.len(),
                n <= I::highest() + 1,
                I::lowest() == 0,
                width.as_int() == 0 || width.as_int() == pow2(k),
                width.as_int() > 0 ==> low.as_int() % (2 * pow2(k) as int) == 0,
                width.as_int() > 0 ==> low.as_int() + 2 * width.as_int() <= cap,
                cap <= I::highest() + 1,
                0 <= low.as_int() < n,
                low.as_int() > 0 ==> not_after(data@[low.as_int()], *value),
                forall|j: int|
                    window_end(low.as_int(), width.as_int()) <= j < n ==> precedes(
                        *value,
                        #[trigger] data@[j],
                    ),
                (step < steps) == (width.as_int() > 0),
                width.as_int() > 0 ==> k + 1 + step == steps,
        {
            proof {
                lemma_total_order::<D>();
                lemma_pow2_pos(k);
            }
            let mid: I = low.or_width(width, Ghost(k));
            let index: usize = mid.to_usize();
            if (index < n) && (data[index] <= *value) {
                low = mid;
            } else if index < n {
                assert(precedes(*value, data@[mid.as_int()]));
                assert forall|j: int| mid.as_int() <= j < n implies precedes(*value, #[trigger] data@[j]) by {
                    assert(not_after(data@[mid.as_int()], data@[j]));
                }
            }
            proof {
                if k >= 1 {
                    lemma_halve(low.as_int() - (if low == mid { width.as_int() } else { 0 }), k);
                } else {
                    lemma2_to64();
                }
            }
            let ghost old_width = width.as_int();
            width = width.half();
            proof {
                if k >= 1 {
                    k = (k - 1) as nat;
                    lemma_pow2_unfold(k + 1);
                    assert(2 * width.as_int() == old_width);
                } else {
                    assert(width.as_int() == 0);
                }
                if low == mid {
                    assert(window_end(low.as_int(), width.as_int()) == mid.as_int() + old_width);
                } else {
                    assert(window_end(low.as_int(), width.as_int()) == mid.as_int());
                }
            }
        }
        proof {
            lemma_total_order::<D>();
        }
        let index: usize = low.to_usize();
        if data[index] == *value {
            return Some(low);
        }
        proof {
            assert(!same(data@[low.as_int()], *value));
            assert forall|j: int| 0 <= j < n implies !same(#[trigger] data@[j], *value) by {
                if j < low.as_int() {
                    assert(precedes(data@[low.as_int()], *value));
                    assert(not_after(data@[j], data@[low.as_int()]));
                } else if j > low.as_int() {
                    assert(precedes(*value, data@[j]));
                }
            }
        }
        None
    }
}

impl<D: Ord, I: UnsignedInt> DynamicBinarySearch<D, I> for DynamicImplementation {
    open spec fn admits(data: Seq<D>) -> bool {
        &&& sorted(data)
        &&& data.len() <= I::highest()
    }

    /// The last of the equal elements.
    open spec fn picks(data: Seq<D>, value: D, r: Option<I>) -> bool {
        is_last_equal(data, value, r)
    }

    fn search(&self, data: &[D], value: &D) -> (r: Option<I>) {
        if data.len() > 0 {
            if is_power_of_two_or_zero(data.len()) {
                return Self::without_bound_check(data, value);
            } else {
                return Self::with_bound_check(data, value);
            }
        }
        None
    }
}

impl<D: Ord, I: UnsignedInt, const N: usize> StaticBinarySearch<D, I, N> for StaticImplementation {
    open spec fn admits(data: Seq<D>) -> bool {
        &&& sorted(data)
        &&& data.len() <= I::highest()
    }

    /// The last of the equal elements.
    open spec fn picks(data: Seq<D>, value: D, r: Option<I>) -> bool {
        is_last_equal(data, value, r)
    }

    fn search_fixed(&self, data: &[D; N], value: &D) -> (r: Option<I>) {
        if N > 0 {
            if is_power_of_two_or_zero(N) {
                return Self::without_bound_check(data, value);
            } else {
                return Self::with_bound_check(data, value);
            }
        }
        None
    }
}

} // verus!
