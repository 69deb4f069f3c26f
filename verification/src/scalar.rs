//! Arithmetic that the filters, the prefix sums and the layout are generic
//! over.
//!
//! The traits carry spec functions that say what each operation computes, so
//! that contracts of generic code can be stated over them, and proof
//! functions for the few algebraic facts that the proofs need.
use vstd::prelude::*;

verus! {

/// A value with a zero, an addition and a subtraction.
pub trait Additive: Copy + Sized {
    /// The zero value.
    spec fn spec_zero() -> Self;

    /// The sum of two values.
    spec fn spec_plus(self, rhs: Self) -> Self;

    /// The difference of two values.
    spec fn spec_minus(self, rhs: Self) -> Self;

    /// The zero value.
    fn zero() -> (res: Self)
        ensures
            res == Self::spec_zero(),
    ;

    /// Sum of `self` and `rhs`.
    fn plus(self, rhs: Self) -> (res: Self)
        ensures
            res == self.spec_plus(rhs),
    ;

    /// Difference of `self` and `rhs`.
    fn minus(self, rhs: Self) -> (res: Self)
        ensures
            res == self.spec_minus(rhs),
    ;

    /// Zero plus zero and zero minus zero are zero.
    proof fn lemma_zero_arith()
        ensures
            Self::spec_zero().spec_plus(Self::spec_zero()) == Self::spec_zero(),
            Self::spec_zero().spec_minus(Self::spec_zero()) == Self::spec_zero(),
    ;
}

/// A value with the ring operations that a biquad section uses.
pub trait Scalar: Additive {
    /// The product of two values.
    spec fn spec_times(self, rhs: Self) -> Self;

    /// The negation of a value.
    spec fn spec_negate(self) -> Self;

    /// Product of `self` and `rhs`.
    fn times(self, rhs: Self) -> (res: Self)
        ensures
            res == self.spec_times(rhs),
    ;

    /// Negation of `self`.
    fn negate(self) -> (res: Self)
        ensures
            res == self.spec_negate(),
    ;

    /// Multiplying by zero gives zero.
    proof fn lemma_times_zero(c: Self)
        ensures
            c.spec_times(Self::spec_zero()) == Self::spec_zero(),
    ;
}

/// A value with a total order and an infinity, such as a time.
pub trait Ordered: Additive {
    /// `self` is not greater than `rhs`.
    spec fn spec_leq(self, rhs: Self) -> bool;

    /// The value is neither infinite nor undefined.
    spec fn spec_is_finite(self) -> bool;

    /// The value above every other.
    spec fn spec_infinity() -> Self;

    /// `self` is not greater than `rhs`.
    fn leq(self, rhs: Self) -> (res: bool)
        ensures
            res == self.spec_leq(rhs),
    ;

    /// The value is neither infinite nor undefined.
    fn is_finite(self) -> (res: bool)
        ensures
            res == self.spec_is_finite(),
    ;

    /// The value above every other.
    fn infinity() -> (res: Self)
        ensures
            res == Self::spec_infinity(),
    ;

    /// The order is total, transitive and antisymmetric, with the infinity on
    /// top.
    proof fn lemma_total_order(a: Self, b: Self, c: Self)
        ensures
            a.spec_leq(a),
            a.spec_leq(b) || b.spec_leq(a),
            a.spec_leq(b) && b.spec_leq(c) ==> a.spec_leq(c),
            a.spec_leq(b) && b.spec_leq(a) ==> a == b,
            a.spec_leq(Self::spec_infinity()),
    ;

    /// Adding a value that is not negative never decreases.
    proof fn lemma_plus_monotone(a: Self, s: Self)
        requires
            Self::spec_zero().spec_leq(s),
        ensures
            a.spec_leq(a.spec_plus(s)),
    ;

    /// Zero added to a value leaves it as it is.
    proof fn lemma_zero_plus(a: Self)
        ensures
            Self::spec_zero().spec_plus(a) == a,
    ;

    /// A value above another minus that other is not negative.
    proof fn lemma_minus_of_greater(a: Self, b: Self)
        requires
            !a.spec_leq(b),
        ensures
            Self::spec_zero().spec_leq(a.spec_minus(b)),
    ;
}

/// A value that can also be divided, as the grid needs for sharing space
/// between columns.
pub trait Divisible: Scalar + Ordered {
    /// The quotient of two values.
    spec fn spec_div(self, rhs: Self) -> Self;

    /// The value of a count.
    spec fn spec_from_count(n: usize) -> Self;

    /// Quotient of `self` and `rhs`.
    fn div(self, rhs: Self) -> (res: Self)
        ensures
            res == self.spec_div(rhs),
    ;

    /// The value of the count `n`.
    fn from_count(n: usize) -> (res: Self)
        ensures
            res == Self::spec_from_count(n),
    ;

    /// A value that is not negative, shared among a positive count, gives
    /// shares that are not negative.
    proof fn lemma_share_not_negative(a: Self, n: usize)
        requires
            Self::spec_zero().spec_leq(a),
            n > 0,
        ensures
            Self::spec_zero().spec_leq(a.spec_div(Self::spec_from_count(n))),
    ;
}

/// A time or duration counted in integer ticks.
///
/// The arithmetic saturates at the ends of the range, which stand for minus
/// and plus infinity, as floating point arithmetic does; so adding a value
/// that is not negative never decreases.
#[derive(Debug, Clone, Copy, PartialEq, Eq, Structural)]
pub struct Ticks(pub i64);

/// The sum of two tick counts, saturated to the range of `i64`.
pub open spec fn saturate(v: int) -> i64 {
    if v > i64::MAX {
        i64::MAX
    } else if v < i64::MIN {
        i64::MIN
    } else {
        v as i64
    }
}

impl Additive for Ticks {
    open spec fn spec_zero() -> Ticks {
        Ticks(0)
    }

    open spec fn spec_plus(self, rhs: Ticks) -> Ticks {
        Ticks(saturate(self.0 + rhs.0))
    }

    open spec fn spec_minus(self, rhs: Ticks) -> Ticks {
        Ticks(saturate(self.0 - rhs.0))
    }

    fn zero() -> (res: Ticks) {
        Ticks(0)
    }

    fn plus(self, rhs: Ticks) -> (res: Ticks) {
        let v = self.0 as i128 + rhs.0 as i128;
        if v > i64::MAX as i128 {
            Ticks(i64::MAX)
        } else if v < i64::MIN as i128 {
            Ticks(i64::MIN)
        } else {
            Ticks(v as i64)
        }
    }

    fn minus(self, rhs: Ticks) -> (res: Ticks) {
        let v = self.0 as i128 - rhs.0 as i128;
        if v > i64::MAX as i128 {
            Ticks(i64::MAX)
        } else if v < i64::MIN as i128 {
            Ticks(i64::MIN)
        } else {
            Ticks(v as i64)
        }
    }

    proof fn lemma_zero_arith() {
    }
}

impl Ordered for Ticks {
    open spec fn spec_leq(self, rhs: Ticks) -> bool {
        self.0 <= rhs.0
    }

    open spec fn spec_is_finite(self) -> bool {
        i64::MIN < self.0 < i64::MAX
    }

    open spec fn spec_infinity() -> Ticks {
        Ticks(i64::MAX)
    }

    fn leq(self, rhs: Ticks) -> (res: bool) {
        self.0 <= rhs.0
    }

    fn is_finite(self) -> (res: bool) {
        i64::MIN < self.0 && self.0 < i64::MAX
    }

    fn infinity() -> (res: Ticks) {
        Ticks(i64::MAX)
    }

    proof fn lemma_total_order(a: Ticks, b: Ticks, c: Ticks) {
    }

    proof fn lemma_plus_monotone(a: Ticks, s: Ticks) {
    }

    proof fn lemma_zero_plus(a: Ticks) {
    }

    proof fn lemma_minus_of_greater(a: Ticks, b: Ticks) {
    }
}

/// The quotient of two integers, rounded toward zero.
pub open spec fn truncated_div(a: int, b: int) -> int {
    let q = (if a < 0 { -a } else { a }) / (if b < 0 { -b } else { b });
    if (a < 0) != (b < 0) {
        -q
    } else {
        q
    }
}

impl Scalar for Ticks {
    open spec fn spec_times(self, rhs: Ticks) -> Ticks {
        Ticks(saturate(self.0 * rhs.0))
    }

    open spec fn spec_negate(self) -> Ticks {
        Ticks(saturate(0 - self.0))
    }

    fn negate(self) -> (res: Ticks) {
        if self.0 == i64::MIN {
            Ticks(i64::MAX)
        } else {
            Ticks(-self.0)
        }
    }

    fn times(self, rhs: Ticks) -> (res: Ticks) {
        let a = self.0 as i128;
        let b = rhs.0 as i128;
        assert(-0x8000_0000_0000_0000 <= a < 0x8000_0000_0000_0000);
        assert(-0x8000_0000_0000_0000 <= b < 0x8000_0000_0000_0000);
        assert(-0x4000_0000_0000_0000_0000_0000_0000_0000 <= a * b
            <= 0x4000_0000_0000_0000_0000_0000_0000_0000) by (nonlinear_arith)
            requires
                -0x8000_0000_0000_0000 <= a < 0x8000_0000_0000_0000,
                -0x8000_0000_0000_0000 <= b < 0x8000_0000_0000_0000,
        ;
        let v = a * b;
        if v > i64::MAX as i128 {
            Ticks(i64::MAX)
        } else if v < i64::MIN as i128 {
            Ticks(i64::MIN)
        } else {
            Ticks(v as i64)
        }
    }

    proof fn lemma_times_zero(c: Ticks) {
        assert(c.0 * 0int == 0) by (nonlinear_arith);
    }
}

impl Divisible for Ticks {
    /// Integer division rounded toward zero and saturated; a division by zero
    /// gives the infinity of the dividend's sign, or zero for zero.
    open spec fn spec_div(self, rhs: Ticks) -> Ticks {
        if rhs.0 == 0 {
            if self.0 > 0 {
                Ticks(i64::MAX)
            } else if self.0 < 0 {
                Ticks(i64::MIN)
            } else {
                Ticks(0)
            }
        } else {
            Ticks(saturate(truncated_div(self.0 as int, rhs.0 as int)))
        }
    }

    open spec fn spec_from_count(n: usize) -> Ticks {
        Ticks(saturate(n as int))
    }

    proof fn lemma_share_not_negative(a: Ticks, n: usize) {
        let d = saturate(n as int) as int;
        vstd::arithmetic::div_mod::lemma_div_pos_is_pos(a.0 as int, d);
    }

    fn div(self, rhs: Ticks) -> (res: Ticks) {
        if rhs.0 == 0 {
            return if self.0 > 0 {
                Ticks(i64::MAX)
            } else if self.0 < 0 {
                Ticks(i64::MIN)
            } else {
                Ticks(0)
            };
        }
        let a = self.0 as i128;
        let b = rhs.0 as i128;
        let ua: u128 = if a < 0 {
            (-a) as u128
        } else {
            a as u128
        };
        let ub: u128 = if b < 0 {
            (-b) as u128
        } else {
            b as u128
        };
        let uq = ua / ub;
        assert(uq <= ua) by (nonlinear_arith)
            requires
                uq == ua / ub,
                ub > 0,
        ;
        let q = uq as i128;
        let v = if (a < 0) != (b < 0) {
            -q
        } else {
            q
        };
        if v > i64::MAX as i128 {
            Ticks(i64::MAX)
        } else if v < i64::MIN as i128 {
            Ticks(i64::MIN)
        } else {
            Ticks(v as i64)
        }
    }

    fn from_count(n: usize) -> (res: Ticks) {
        if n as u64 > i64::MAX as u64 {
            Ticks(i64::MAX)
        } else {
            Ticks(n as i64)
        }
    }
}

/// The smaller of two values; the first one when they are equal.
pub open spec fn spec_min<T: Ordered>(a: T, b: T) -> T {
    if a.spec_leq(b) {
        a
    } else {
        b
    }
}

/// The larger of two values; the second one when they are equal.
pub open spec fn spec_max<T: Ordered>(a: T, b: T) -> T {
    if a.spec_leq(b) {
        b
    } else {
        a
    }
}

/// The smaller of two values; the first one when they are equal.
pub fn min<T: Ordered>(a: T, b: T) -> (res: T)
    ensures
        res == spec_min(a, b),
{
    if a.leq(b) {
        a
    } else {
        b
    }
}

/// The larger of two values; the second one when they are equal.
pub fn max<T: Ordered>(a: T, b: T) -> (res: T)
    ensures
        res == spec_max(a, b),
{
    if a.leq(b) {
        b
    } else {
        a
    }
}

impl Additive for i32 {
    open spec fn spec_zero() -> i32 {
        0
    }

    open spec fn spec_plus(self, rhs: i32) -> i32 {
        vstd::wrapping::i32_specs::wrapping_add(self, rhs)
    }

    open spec fn spec_minus(self, rhs: i32) -> i32 {
        vstd::wrapping::i32_specs::wrapping_sub(self, rhs)
    }

    fn zero() -> (res: i32) {
        0
    }

    fn plus(self, rhs: i32) -> (res: i32) {
        self.wrapping_add(rhs)
    }

    fn minus(self, rhs: i32) -> (res: i32) {
        self.wrapping_sub(rhs)
    }

    proof fn lemma_zero_arith() {
    }
}

impl Scalar for i32 {
    open spec fn spec_times(self, rhs: i32) -> i32 {
        vstd::wrapping::i32_specs::wrapping_mul(self, rhs)
    }

    open spec fn spec_negate(self) -> i32 {
        vstd::wrapping::i32_specs::wrapping_sub(0, self)
    }

    fn negate(self) -> (res: i32) {
        (0 as i32).wrapping_sub(self)
    }

    fn times(self, rhs: i32) -> (res: i32) {
        self.wrapping_mul(rhs)
    }

    proof fn lemma_times_zero(c: i32) {
        assert(c * 0int == 0) by (nonlinear_arith);
    }
}


impl Additive for i64 {
    open spec fn spec_zero() -> i64 {
        0
    }

    open spec fn spec_plus(self, rhs: i64) -> i64 {
        vstd::wrapping::i64_specs::wrapping_add(self, rhs)
    }

    open spec fn spec_minus(self, rhs: i64) -> i64 {
        vstd::wrapping::i64_specs::wrapping_sub(self, rhs)
    }

    fn zero() -> (res: i64) {
        0
    }

    fn plus(self, rhs: i64) -> (res: i64) {
        self.wrapping_add(rhs)
    }

    fn minus(self, rhs: i64) -> (res: i64) {
        self.wrapping_sub(rhs)
    }

    proof fn lemma_zero_arith() {
    }
}

impl Scalar for i64 {
    open spec fn spec_times(self, rhs: i64) -> i64 {
        vstd::wrapping::i64_specs::wrapping_mul(self, rhs)
    }

    open spec fn spec_negate(self) -> i64 {
        vstd::wrapping::i64_specs::wrapping_sub(0, self)
    }

    fn negate(self) -> (res: i64) {
        (0 as i64).wrapping_sub(self)
    }

    fn times(self, rhs: i64) -> (res: i64) {
        self.wrapping_mul(rhs)
    }

    proof fn lemma_times_zero(c: i64) {
        assert(c * 0int == 0) by (nonlinear_arith);
    }
}


/// `x` and `y` leave the same remainder modulo `m`.
pub open spec fn congruent(x: int, y: int, m: int) -> bool {
    x % m == y % m
}

/// Sums, differences and products of congruent values are congruent.
pub proof fn lemma_congruent_ops(x: int, xx: int, y: int, yy: int, m: int)
    requires
        0 < m,
        congruent(x, xx, m),
        congruent(y, yy, m),
    ensures
        congruent(x + y, xx + yy, m),
        congruent(x - y, xx - yy, m),
        congruent(x * y, xx * yy, m),
{
    vstd::arithmetic::div_mod::lemma_add_mod_noop(x, y, m);
    vstd::arithmetic::div_mod::lemma_add_mod_noop(xx, yy, m);
    vstd::arithmetic::div_mod::lemma_sub_mod_noop(x, y, m);
    vstd::arithmetic::div_mod::lemma_sub_mod_noop(xx, yy, m);
    vstd::arithmetic::div_mod::lemma_mul_mod_noop_left(x, y, m);
    vstd::arithmetic::div_mod::lemma_mul_mod_noop_right(x % m, y, m);
    vstd::arithmetic::div_mod::lemma_mul_mod_noop_left(xx, yy, m);
    vstd::arithmetic::div_mod::lemma_mul_mod_noop_right(xx % m, yy, m);
}

/// Adding or taking away the modulus leaves the remainder as it is.
proof fn lemma_congruent_shift(x: int, m: int)
    requires
        0 < m,
    ensures
        congruent(x + m, x, m),
        congruent(x - m, x, m),
        congruent(x % m - m, x, m),
{
    vstd::arithmetic::div_mod::lemma_mod_add_multiples_vanish(x, m);
    vstd::arithmetic::div_mod::lemma_mod_sub_multiples_vanish(x, m);
    vstd::arithmetic::div_mod::lemma_mod_sub_multiples_vanish(x % m, m);
    vstd::arithmetic::div_mod::lemma_mod_twice(x, m);
}

/// The number of values of an `i64`.
pub open spec fn i64_modulus() -> int {
    0x1_0000_0000_0000_0000
}

/// The number of values of an `i32`.
pub open spec fn i32_modulus() -> int {
    0x1_0000_0000
}

/// Wrapping `i64` arithmetic agrees with exact arithmetic modulo 2^64, and
/// two `i64` values that agree modulo 2^64 are equal.
pub proof fn lemma_i64_wrapping(a: i64, b: i64)
    ensures
        congruent(a.spec_plus(b) as int, a + b, i64_modulus()),
        congruent(a.spec_minus(b) as int, a - b, i64_modulus()),
        congruent(a.spec_times(b) as int, a * b, i64_modulus()),
        congruent(a as int, b as int, i64_modulus()) ==> a == b,
{
    let m = i64_modulus();
    lemma_congruent_shift(a + b, m);
    lemma_congruent_shift(a - b, m);
    lemma_congruent_shift(a * b, m);
    vstd::arithmetic::div_mod::lemma_mod_twice(a * b, m);
    lemma_congruent_shift(a as int, m);
    lemma_congruent_shift(b as int, m);
    if a >= 0 {
        vstd::arithmetic::div_mod::lemma_small_mod(a as nat, m as nat);
    } else {
        vstd::arithmetic::div_mod::lemma_small_mod((a + m) as nat, m as nat);
    }
    if b >= 0 {
        vstd::arithmetic::div_mod::lemma_small_mod(b as nat, m as nat);
    } else {
        vstd::arithmetic::div_mod::lemma_small_mod((b + m) as nat, m as nat);
    }
}

/// Wrapping `i32` arithmetic agrees with exact arithmetic modulo 2^32, and
/// two `i32` values that agree modulo 2^32 are equal.
pub proof fn lemma_i32_wrapping(a: i32, b: i32)
    ensures
        congruent(a.spec_plus(b) as int, a + b, i32_modulus()),
        congruent(a.spec_minus(b) as int, a - b, i32_modulus()),
        congruent(a.spec_times(b) as int, a * b, i32_modulus()),
        congruent(a as int, b as int, i32_modulus()) ==> a == b,
{
    let m = i32_modulus();
    lemma_congruent_shift(a + b, m);
    lemma_congruent_shift(a - b, m);
    lemma_congruent_shift(a * b, m);
    vstd::arithmetic::div_mod::lemma_mod_twice(a * b, m);
    lemma_congruent_shift(a as int, m);
    lemma_congruent_shift(b as int, m);
    if a >= 0 {
        vstd::arithmetic::div_mod::lemma_small_mod(a as nat, m as nat);
    } else {
        vstd::arithmetic::div_mod::lemma_small_mod((a + m) as nat, m as nat);
    }
    if b >= 0 {
        vstd::arithmetic::div_mod::lemma_small_mod(b as nat, m as nat);
    } else {
        vstd::arithmetic::div_mod::lemma_small_mod((b + m) as nat, m as nat);
    }
}

} // verus!
