//! The arithmetic that every search asks of its index type.
use core::cmp::Ordering;
use vstd::arithmetic::power2::{lemma2_to64, pow2};
use vstd::laws_cmp::obeys_cmp;
use vstd::prelude::*;
use vstd::std_specs::bits::u64_trailing_zeros;
use vstd::std_specs::cmp::OrdSpec;

verus! {

/// A primitive integer seen through its mathematical value, with the
/// checked conversions and the overflow-free operations the searches use.
pub trait BoundedInt: Copy + Ord + Sized {
    /// The mathematical value.
    spec fn as_int(&self) -> int;

    /// The least value of the type.
    spec fn lowest() -> int;

    /// The greatest value of the type.
    spec fn highest() -> int;

    /// Every value lies between the bounds of its type.
    proof fn lemma_bounds(x: Self)
        ensures
            Self::lowest() <= x.as_int() <= Self::highest(),
            Self::lowest() <= 0,
            127 <= Self::highest() <= usize::MAX,
    ;

    /// The bounds of the type: a zero, at least seven value bits, and no more than `usize` holds.
    proof fn lemma_range()
        ensures
            Self::lowest() <= 0,
            127 <= Self::highest() <= usize::MAX,
    ;

    /// The order of the type is the order of the values, and equal values are equal.
    proof fn lemma_order()
        ensures
            obeys_cmp::<Self>(),
            forall|a: Self, b: Self|
                #[trigger] a.cmp_spec(&b) == (if a.as_int() < b.as_int() {
                    Ordering::Less
                } else if a.as_int() > b.as_int() {
                    Ordering::Greater
                } else {
                    Ordering::Equal
                }),
            forall|a: Self, b: Self| a.as_int() == b.as_int() ==> a == b,
    ;

    /// The additive identity.
    fn zero() -> (r: Self)
        ensures
            r.as_int() == 0,
    ;

    /// The multiplicative identity.
    fn one() -> (r: Self)
        ensures
            r.as_int() == 1,
    ;

    /// Converts a length or a position; `None` where it does not fit.
    fn from_usize(n: usize) -> (r: Option<Self>)
        ensures
            r is Some <==> n <= Self::highest(),
            r matches Some(x) ==> x.as_int() == n,
    ;

    /// Converts a non-negative value back to a position.
    fn to_usize(self) -> (r: usize)
        requires
            self.as_int() >= 0,
        ensures
            r == self.as_int(),
    ;

    /// The sum, which must fit.
    fn plus(self, o: Self) -> (r: Self)
        requires
            Self::lowest() <= self.as_int() + o.as_int() <= Self::highest(),
        ensures
            r.as_int() == self.as_int() + o.as_int(),
    ;

    /// The difference, which must fit.
    fn minus(self, o: Self) -> (r: Self)
        requires
            Self::lowest() <= self.as_int() - o.as_int() <= Self::highest(),
        ensures
            r.as_int() == self.as_int() - o.as_int(),
    ;

    /// Shifts a non-negative value right by one bit.
    fn half(self) -> (r: Self)
        requires
            self.as_int() >= 0,
        ensures
            r.as_int() == self.as_int() / 2,
    ;

    /// `self < o`.
    fn less(self, o: Self) -> (r: bool)
        ensures
            r == (self.as_int() < o.as_int()),
    ;

    /// `self <= o`.
    fn less_eq(self, o: Self) -> (r: bool)
        ensures
            r == (self.as_int() <= o.as_int()),
    ;
}


/// Number of trailing zero bits of a positive integer (zero for zero).
pub open spec fn trailing_zeros_of(x: int) -> nat
    decreases x,
{
    if x <= 0 {
        0
    } else if x % 2 == 1 {
        0
    } else {
        1 + trailing_zeros_of(x / 2)
    }
}

/// An unsigned index type: the bit operations of the power and Eytzinger searches.
pub trait UnsignedInt: BoundedInt {
    /// The width in bits.
    spec fn bits() -> nat;

    /// An unsigned type spans exactly the values of its bits.
    proof fn lemma_unsigned()
        ensures
            Self::lowest() == 0,
            Self::highest() + 1 == pow2(Self::bits()),
            8 <= Self::bits() <= 64,
    ;

    /// `self | width`, where `width` is a power of two and `self` a multiple of twice it.
    fn or_width(self, width: Self, Ghost(k): Ghost<nat>) -> (r: Self)
        requires
            width.as_int() == pow2(k),
            self.as_int() % (2 * pow2(k) as int) == 0,
            self.as_int() + width.as_int() <= Self::highest(),
        ensures
            r.as_int() == self.as_int() + width.as_int(),
    ;

    /// `(self << 1) | bit`.
    fn shl_or(self, bit: bool) -> (r: Self)
        requires
            2 * self.as_int() + 1 <= Self::highest(),
        ensures
            r.as_int() == 2 * self.as_int() + (if bit { 1int } else { 0int }),
    ;

    /// The bitwise complement `!self`.
    fn complement(self) -> (r: Self)
        ensures
            r.as_int() == Self::highest() - self.as_int(),
    ;

    /// The number of trailing zero bits of a non-zero value.
    fn trailing_zeros(self) -> (r: u32)
        requires
            self.as_int() != 0,
        ensures
            r == trailing_zeros_of(self.as_int()),
    ;

    /// `self >> k`, where a shift by the full width clears the value.
    fn shift_right(self, k: u32) -> (r: Self)
        requires
            k <= Self::bits(),
        ensures
            r.as_int() == self.as_int() / (pow2(k as nat) as int),
    ;
}

/// The trailing-zero count of `std` agrees with `trailing_zeros_of`.
proof fn lemma_u64_trailing_zeros(x: u64)
    requires
        x != 0,
    ensures
        u64_trailing_zeros(x) == trailing_zeros_of(x as int),
{
    vstd::std_specs::bits::axiom_u64_trailing_zeros(x);
    let t = u64_trailing_zeros(x) as u64;
    lemma_low_zero_bits(x, t);
}

proof fn lemma_low_zero_bits(x: u64, t: u64)
    requires
        t < 64,
        (x >> t) & 1u64 == 1u64,
        forall|j: u64| 0 <= j < t ==> #[trigger] ((x >> j) & 1u64) == 0u64,
    ensures
        trailing_zeros_of(x as int) == t,
    decreases t,
{
    if t == 0 {
        assert((x >> 0u64) & 1u64 == 1u64 ==> x % 2 == 1 && x > 0) by (bit_vector);
    } else {
        assert(((x >> 0u64) & 1u64) == 0u64);
        assert((x >> 0u64) & 1u64 == 0u64 ==> x % 2 == 0) by (bit_vector);
        assert((x >> t) & 1u64 == 1u64 ==> x != 0) by (bit_vector);
        let y = x / 2;
        assert(0 < t < 64 ==> (x / 2) >> ((t - 1) as u64) == x >> t) by (bit_vector);
        assert forall|j: u64| 0 <= j < t - 1 implies #[trigger] ((y >> j) & 1u64) == 0u64 by {
            assert(j < 63 ==> (x / 2) >> j == x >> ((j + 1) as u64)) by (bit_vector);
            assert(((x >> ((j + 1) as u64)) & 1u64) == 0u64);
        }
        lemma_low_zero_bits(y, (t - 1) as u64);
    }
}

/// `a | w == a + w` when `w` is a power of two and `a` a multiple of `2 * w`.
proof fn lemma_u64_or_width(a: u64, w: u64, k: nat)
    requires
        w == pow2(k),
        a as int % (2 * pow2(k) as int) == 0,
        a + w <= u64::MAX,
    ensures
        a | w == a + w,
    decreases k,
{
    vstd::arithmetic::power2::lemma_pow2_pos(k);
    if k == 0 {
        lemma2_to64();
        assert(a % 2 == 0 ==> a | 1u64 == a + 1) by (bit_vector);
    } else {
        vstd::arithmetic::power2::lemma_pow2_unfold(k);
        let h: int = pow2((k - 1) as nat) as int;
        let m: int = 2 * pow2(k) as int;
        let q: int = a as int / m;
        vstd::arithmetic::div_mod::lemma_fundamental_div_mod(a as int, m);
        assert(a as int == 2 * (2 * h * q)) by (nonlinear_arith)
            requires
                a as int == m * q + a as int % m,
                a as int % m == 0,
                m == 2 * (2 * h),
        ;
        assert((a as int / 2) % (2 * h) == 0) by {
            vstd::arithmetic::div_mod::lemma_mod_multiples_basic(q, 2 * h);
            assert(a as int / 2 == q * (2 * h)) by (nonlinear_arith)
                requires
                    a as int == 2 * (2 * h * q),
            ;
        }
        lemma_u64_or_width(a / 2, w / 2, (k - 1) as nat);
        assert(a % 2 == 0 && w % 2 == 0 && (a / 2) | (w / 2) == a / 2 + w / 2 ==> a | w == a + w)
            by (bit_vector);
    }
}


impl BoundedInt for u8 {
    open spec fn as_int(&self) -> int {
        *self as int
    }

    open spec fn lowest() -> int {
        0
    }

    open spec fn highest() -> int {
        u8::MAX as int
    }

    proof fn lemma_bounds(x: Self) {
    }

    proof fn lemma_range() {
    }

    proof fn lemma_order() {
        broadcast use vstd::laws_cmp::group_laws_cmp;

    }

    fn zero() -> (r: Self) {
        0
    }

    fn one() -> (r: Self) {
        1
    }

    fn from_usize(n: usize) -> (r: Option<Self>) {
        if n <= u8::MAX as usize {
            Some(n as u8)
        } else {
            None
        }
    }

    fn to_usize(self) -> (r: usize) {
        self as usize
    }

    fn plus(self, o: Self) -> (r: Self) {
        self + o
    }

    fn minus(self, o: Self) -> (r: Self) {
        self - o
    }

    fn half(self) -> (r: Self) {
        self / 2
    }

    fn less(self, o: Self) -> (r: bool) {
        self < o
    }

    fn less_eq(self, o: Self) -> (r: bool) {
        self <= o
    }
}

impl BoundedInt for u16 {
    open spec fn as_int(&self) -> int {
        *self as int
    }

    open spec fn lowest() -> int {
        0
    }

    open spec fn highest() -> int {
        u16::MAX as int
    }

    proof fn lemma_bounds(x: Self) {
    }

    proof fn lemma_range() {
    }

    proof fn lemma_order() {
        broadcast use vstd::laws_cmp::group_laws_cmp;

    }

    fn zero() -> (r: Self) {
        0
    }

    fn one() -> (r: Self) {
        1
    }

    fn from_usize(n: usize) -> (r: Option<Self>) {
        if n <= u16::MAX as usize {
            Some(n as u16)
        } else {
            None
        }
    }

    fn to_usize(self) -> (r: usize) {
        self as usize
    }

    fn plus(self, o: Self) -> (r: Self) {
        self + o
    }

    fn minus(self, o: Self) -> (r: Self) {
        self - o
    }

    fn half(self) -> (r: Self) {
        self / 2
    }

    fn less(self, o: Self) -> (r: bool) {
        self < o
    }

    fn less_eq(self, o: Self) -> (r: bool) {
        self <= o
    }
}

impl BoundedInt for u32 {
    open spec fn as_int(&self) -> int {
        *self as int
    }

    open spec fn lowest() -> int {
        0
    }

    open spec fn highest() -> int {
        u32::MAX as int
    }

    proof fn lemma_bounds(x: Self) {
    }

    proof fn lemma_range() {
    }

    proof fn lemma_order() {
        broadcast use vstd::laws_cmp::group_laws_cmp;

    }

    fn zero() -> (r: Self) {
        0
    }

    fn one() -> (r: Self) {
        1
    }

    fn from_usize(n: usize) -> (r: Option<Self>) {
        if n <= u32::MAX as usize {
            Some(n as u32)
        } else {
            None
        }
    }

    fn to_usize(self) -> (r: usize) {
        self as usize
    }

    fn plus(self, o: Self) -> (r: Self) {
        self + o
    }

    fn minus(self, o: Self) -> (r: Self) {
        self - o
    }

    fn half(self) -> (r: Self) {
        self / 2
    }

    fn less(self, o: Self) -> (r: bool) {
        self < o
    }

    fn less_eq(self, o: Self) -> (r: bool) {
        self <= o
    }
}

impl BoundedInt for usize {
    open spec fn as_int(&self) -> int {
        *self as int
    }

    open spec fn lowest() -> int {
        0
    }

    open spec fn highest() -> int {
        usize::MAX as int
    }

    proof fn lemma_bounds(x: Self) {
    }

    proof fn lemma_range() {
    }

    proof fn lemma_order() {
        broadcast use vstd::laws_cmp::group_laws_cmp;

    }

    fn zero() -> (r: Self) {
        0
    }

    fn one() -> (r: Self) {
        1
    }

    fn from_usize(n: usize) -> (r: Option<Self>) {
        Some(n)
    }

    fn to_usize(self) -> (r: usize) {
        self as usize
    }

    fn plus(self, o: Self) -> (r: Self) {
        self + o
    }

    fn minus(self, o: Self) -> (r: Self) {
        self - o
    }

    fn half(self) -> (r: Self) {
        self / 2
    }

    fn less(self, o: Self) -> (r: bool) {
        self < o
    }

    fn less_eq(self, o: Self) -> (r: bool) {
        self <= o
    }
}

impl BoundedInt for i8 {
    open spec fn as_int(&self) -> int {
        *self as int
    }

    open spec fn lowest() -> int {
        i8::MIN as int
    }

    open spec fn highest() -> int {
        i8::MAX as int
    }

    proof fn lemma_bounds(x: Self) {
    }

    proof fn lemma_range() {
    }

    proof fn lemma_order() {
        broadcast use vstd::laws_cmp::group_laws_cmp;

    }

    fn zero() -> (r: Self) {
        0
    }

    fn one() -> (r: Self) {
        1
    }

    fn from_usize(n: usize) -> (r: Option<Self>) {
        if n <= i8::MAX as usize {
            Some(n as i8)
        } else {
            None
        }
    }

    fn to_usize(self) -> (r: usize) {
        self as usize
    }

    fn plus(self, o: Self) -> (r: Self) {
        self + o
    }

    fn minus(self, o: Self) -> (r: Self) {
        self - o
    }

    fn half(self) -> (r: Self) {
        self / 2
    }

    fn less(self, o: Self) -> (r: bool) {
        self < o
    }

    fn less_eq(self, o: Self) -> (r: bool) {
        self <= o
    }
}

impl BoundedInt for i16 {
    open spec fn as_int(&self) -> int {
        *self as int
    }

    open spec fn lowest() -> int {
        i16::MIN as int
    }

    open spec fn highest() -> int {
        i16::MAX as int
    }

    proof fn lemma_bounds(x: Self) {
    }

    proof fn lemma_range() {
    }

    proof fn lemma_order() {
        broadcast use vstd::laws_cmp::group_laws_cmp;

    }

    fn zero() -> (r: Self) {
        0
    }

    fn one() -> (r: Self) {
        1
    }

    fn from_usize(n: usize) -> (r: Option<Self>) {
        if n <= i16::MAX as usize {
            Some(n as i16)
        } else {
            None
        }
    }

    fn to_usize(self) -> (r: usize) {
        self as usize
    }

    fn plus(self, o: Self) -> (r: Self) {
        self + o
    }

    fn minus(self, o: Self) -> (r: Self) {
        self - o
    }

    fn half(self) -> (r: Self) {
        self / 2
    }

    fn less(self, o: Self) -> (r: bool) {
        self < o
    }

    fn less_eq(self, o: Self) -> (r: bool) {
        self <= o
    }
}

impl BoundedInt for i32 {
    open spec fn as_int(&self) -> int {
        *self as int
    }

    open spec fn lowest() -> int {
        i32::MIN as int
    }

    open spec fn highest() -> int {
        i32::MAX as int
    }

    proof fn lemma_bounds(x: Self) {
    }

    proof fn lemma_range() {
    }

    proof fn lemma_order() {
        broadcast use vstd::laws_cmp::group_laws_cmp;

    }

    fn zero() -> (r: Self) {
        0
    }

    fn one() -> (r: Self) {
        1
    }

    fn from_usize(n: usize) -> (r: Option<Self>) {
        if n <= i32::MAX as usize {
            Some(n as i32)
        } else {
            None
        }
    }

    fn to_usize(self) -> (r: usize) {
        self as usize
    }

    fn plus(self, o: Self) -> (r: Self) {
        self + o
    }

    fn minus(self, o: Self) -> (r: Self) {
        self - o
    }

    fn half(self) -> (r: Self) {
        self / 2
    }

    fn less(self, o: Self) -> (r: bool) {
        self < o
    }

    fn less_eq(self, o: Self) -> (r: bool) {
        self <= o
    }
}

impl BoundedInt for isize {
    open spec fn as_int(&self) -> int {
        *self as int
    }

    open spec fn lowest() -> int {
        isize::MIN as int
    }

    open spec fn highest() -> int {
        isize::MAX as int
    }

    proof fn lemma_bounds(x: Self) {
    }

    proof fn lemma_range() {
    }

    proof fn lemma_order() {
        broadcast use vstd::laws_cmp::group_laws_cmp;

    }

    fn zero() -> (r: Self) {
        0
    }

    fn one() -> (r: Self) {
        1
    }

    fn from_usize(n: usize) -> (r: Option<Self>) {
        if n <= isize::MAX as usize {
            Some(n as isize)
        } else {
            None
        }
    }

    fn to_usize(self) -> (r: usize) {
        self as usize
    }

    fn plus(self, o: Self) -> (r: Self) {
        self + o
    }

    fn minus(self, o: Self) -> (r: Self) {
        self - o
    }

    fn half(self) -> (r: Self) {
        self / 2
    }

    fn less(self, o: Self) -> (r: bool) {
        self < o
    }

    fn less_eq(self, o: Self) -> (r: bool) {
        self <= o
    }
}

impl UnsignedInt for u8 {
    open spec fn bits() -> nat {
        8
    }

    proof fn lemma_unsigned() {
        lemma2_to64();
    }

    fn or_width(self, width: Self, Ghost(k): Ghost<nat>) -> (r: Self) {
        let r = self | width;
        proof {
            lemma_u64_or_width(self as u64, width as u64, k);
            assert(r as u64 == (self as u64) | (width as u64)) by (bit_vector)
                requires
                    r == self | width,
            ;
        }
        r
    }

    fn shl_or(self, bit: bool) -> (r: Self) {
        let b: u8 = if bit {
            1
        } else {
            0
        };
        let r = (self << 1u32) | b;
        assert(r == 2 * self + b) by (bit_vector)
            requires
                r == (self << 1u32) | b,
                b <= 1,
                2 * self + 1 <= u8::MAX,
        ;
        r
    }

    fn complement(self) -> (r: Self) {
        let r = !self;
        assert(r == u8::MAX - self) by (bit_vector)
            requires
                r == !self,
        ;
        r
    }

    fn trailing_zeros(self) -> (r: u32) {
        proof {
            lemma_u64_trailing_zeros(self as u64);
        }
        (self as u64).trailing_zeros()
    }

    fn shift_right(self, k: u32) -> (r: Self) {
        proof {
            Self::lemma_unsigned();
            lemma2_to64();
        }
        if k >= u8::BITS {
            proof {
                vstd::arithmetic::power2::lemma_pow2_pos(k as nat);
                vstd::arithmetic::div_mod::lemma_basic_div(self as int, pow2(k as nat) as int);
            }
            0
        } else {
            proof {
                vstd::bits::lemma_u8_shr_is_div(self, k as u8);
            }
            self >> k
        }
    }
}

impl UnsignedInt for u16 {
    open spec fn bits() -> nat {
        16
    }

    proof fn lemma_unsigned() {
        lemma2_to64();
    }

    fn or_width(self, width: Self, Ghost(k): Ghost<nat>) -> (r: Self) {
        let r = self | width;
        proof {
            lemma_u64_or_width(self as u64, width as u64, k);
            assert(r as u64 == (self as u64) | (width as u64)) by (bit_vector)
                requires
                    r == self | width,
            ;
        }
        r
    }

    fn shl_or(self, bit: bool) -> (r: Self) {
        let b: u16 = if bit {
            1
        } else {
            0
        };
        let r = (self << 1u32) | b;
        assert(r == 2 * self + b) by (bit_vector)
            requires
                r == (self << 1u32) | b,
                b <= 1,
                2 * self + 1 <= u16::MAX,
        ;
        r
    }

    fn complement(self) -> (r: Self) {
        let r = !self;
        assert(r == u16::MAX - self) by (bit_vector)
            requires
                r == !self,
        ;
        r
    }

    fn trailing_zeros(self) -> (r: u32) {
        proof {
            lemma_u64_trailing_zeros(self as u64);
        }
        (self as u64).trailing_zeros()
    }

    fn shift_right(self, k: u32) -> (r: Self) {
        proof {
            Self::lemma_unsigned();
            lemma2_to64();
        }
        if k >= u16::BITS {
            proof {
                vstd::arithmetic::power2::lemma_pow2_pos(k as nat);
                vstd::arithmetic::div_mod::lemma_basic_div(self as int, pow2(k as nat) as int);
            }
            0
        } else {
            proof {
                vstd::bits::lemma_u16_shr_is_div(self, k as u16);
            }
            self >> k
        }
    }
}

impl UnsignedInt for u32 {
    open spec fn bits() -> nat {
        32
    }

    proof fn lemma_unsigned() {
        lemma2_to64();
    }

    fn or_width(self, width: Self, Ghost(k): Ghost<nat>) -> (r: Self) {
        let r = self | width;
        proof {
            lemma_u64_or_width(self as u64, width as u64, k);
            assert(r as u64 == (self as u64) | (width as u64)) by (bit_vector)
                requires
                    r == self | width,
            ;
        }
        r
    }

    fn shl_or(self, bit: bool) -> (r: Self) {
        let b: u32 = if bit {
            1
        } else {
            0
        };
        let r = (self << 1u32) | b;
        assert(r == 2 * self + b) by (bit_vector)
            requires
                r == (self << 1u32) | b,
                b <= 1,
                2 * self + 1 <= u32::MAX,
        ;
        r
    }

    fn complement(self) -> (r: Self) {
        let r = !self;
        assert(r == u32::MAX - self) by (bit_vector)
            requires
                r == !self,
        ;
        r
    }

    fn trailing_zeros(self) -> (r: u32) {
        proof {
            lemma_u64_trailing_zeros(self as u64);
        }
        (self as u64).trailing_zeros()
    }

    fn shift_right(self, k: u32) -> (r: Self) {
        proof {
            Self::lemma_unsigned();
            lemma2_to64();
        }
        if k >= u32::BITS {
            proof {
                vstd::arithmetic::power2::lemma_pow2_pos(k as nat);
                vstd::arithmetic::div_mod::lemma_basic_div(self as int, pow2(k as nat) as int);
            }
            0
        } else {
            proof {
                vstd::bits::lemma_u32_shr_is_div(self, k as u32);
            }
            self >> k
        }
    }
}

impl UnsignedInt for usize {
    open spec fn bits() -> nat {
        usize::BITS as nat
    }

    proof fn lemma_unsigned() {
        lemma2_to64();
        assert(usize::BITS == 32 || usize::BITS == 64);
        if usize::BITS == 32 {
            assert(usize::MAX == 0xffff_ffff);
        } else {
            assert(usize::MAX == 0xffff_ffff_ffff_ffff);
        }
    }

    fn or_width(self, width: Self, Ghost(k): Ghost<nat>) -> (r: Self) {
        let r = self | width;
        proof {
            lemma_u64_or_width(self as u64, width as u64, k);
            assert(r as u64 == (self as u64) | (width as u64)) by (bit_vector)
                requires
                    r == self | width,
            ;
        }
        r
    }

    fn shl_or(self, bit: bool) -> (r: Self) {
        let b: usize = if bit {
            1
        } else {
            0
        };
        2 * self + b
    }

    fn complement(self) -> (r: Self) {
        usize::MAX - self
    }

    fn trailing_zeros(self) -> (r: u32) {
        proof {
            lemma_u64_trailing_zeros(self as u64);
        }
        (self as u64).trailing_zeros()
    }

    fn shift_right(self, k: u32) -> (r: Self) {
        proof {
            Self::lemma_unsigned();
            lemma2_to64();
        }
        if k >= usize::BITS {
            proof {
                vstd::arithmetic::power2::lemma_pow2_pos(k as nat);
                vstd::arithmetic::div_mod::lemma_basic_div(self as int, pow2(k as nat) as int);
            }
            0
        } else {
            proof {
                vstd::bits::lemma_usize_shr_is_div(self, k as usize);
            }
            self >> k
        }
    }
}

} // verus!
