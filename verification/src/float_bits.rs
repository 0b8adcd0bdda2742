//! IEEE-754 single-precision values held as their bit patterns.
//!
//! Quantisation never adds or multiplies coordinates: it compares them. On
//! the bit pattern a comparison is integer arithmetic, so the ordering of
//! finite values, the sign test and the total order are all stated and proved
//! here over integers.

use vstd::arithmetic::power2::{
    lemma2_to64, lemma_pow2_adds, lemma_pow2_pos, lemma_pow2_strictly_increases, lemma_pow2_unfold,
    pow2,
};
use vstd::prelude::*;

verus! {

/// The bit that carries the sign.
pub const SIGN_BIT: u32 = 0x8000_0000;

/// The magnitude of an infinity: magnitudes below it are finite, above it NaN.
pub const INFINITY_MAGNITUDE: u32 = 0x7F80_0000;

/// A single-precision value, given by its IEEE-754 bit pattern.
#[derive(Clone, Copy, PartialEq, Eq, Structural, Debug)]
pub struct F32Bits {
    /// The bit pattern: sign, exponent, fraction, from the high bit down.
    pub bits: u32,
}

impl F32Bits {
    /// The sign bit is set.
    pub open spec fn negative(self) -> bool {
        self.bits >= SIGN_BIT
    }

    /// The bit pattern without its sign bit.
    pub open spec fn magnitude(self) -> int {
        if self.negative() {
            self.bits - SIGN_BIT
        } else {
            self.bits as int
        }
    }

    /// Neither an infinity nor a NaN.
    pub open spec fn finite(self) -> bool {
        self.magnitude() < INFINITY_MAGNITUDE
    }

    /// A NaN.
    pub open spec fn nan(self) -> bool {
        self.magnitude() > INFINITY_MAGNITUDE
    }

    /// An integer that orders values as the numbers they stand for: on values
    /// that are not NaN, `a < b` exactly when `a.value_key() < b.value_key()`,
    /// and the two zeros share the key `0`.
    pub open spec fn value_key(self) -> int {
        if self.negative() {
            -self.magnitude()
        } else {
            self.magnitude()
        }
    }

    /// Greater than zero as a number.
    pub open spec fn positive(self) -> bool {
        !self.nan() && self.value_key() > 0
    }

    /// An integer that orders all values by the IEEE-754 `totalOrder`
    /// predicate: negative zero directly below positive zero, negative NaNs
    /// below everything, positive NaNs above everything.
    pub open spec fn total_key(self) -> int {
        if self.negative() {
            -self.magnitude() - 1
        } else {
            self.magnitude()
        }
    }

    /// The sum of the value and positive zero: negative zero becomes positive
    /// zero, and every other value stays as it is.
    pub open spec fn plus_zero(self) -> F32Bits {
        if self.bits == SIGN_BIT {
            F32Bits { bits: 0 }
        } else {
            self
        }
    }

    /// The value with the given bit pattern.
    pub fn from_bits(bits: u32) -> (v: F32Bits)
        ensures
            v.bits == bits,
    {
        F32Bits { bits }
    }

    /// The bit pattern.
    pub fn to_bits(self) -> (bits: u32)
        ensures
            bits == self.bits,
    {
        self.bits
    }

    /// Negative infinity, the score of an empty result slot.
    pub fn neg_infinity() -> (v: F32Bits)
        ensures
            v.bits == 0xFF80_0000u32,
    {
        F32Bits { bits: 0xFF80_0000 }
    }

    /// Whether the value is neither an infinity nor a NaN.
    pub fn is_finite(self) -> (r: bool)
        ensures
            r == self.finite(),
    {
        if self.bits >= SIGN_BIT {
            self.bits - SIGN_BIT < INFINITY_MAGNITUDE
        } else {
            self.bits < INFINITY_MAGNITUDE
        }
    }

    /// Whether the value is greater than zero.
    pub fn is_positive(self) -> (r: bool)
        ensures
            r == self.positive(),
    {
        0 < self.bits && self.bits <= INFINITY_MAGNITUDE
    }

    /// Negative zero as positive zero, and every other value as it is.
    pub fn with_zero_added(self) -> (v: F32Bits)
        ensures
            v == self.plus_zero(),
    {
        if self.bits == SIGN_BIT {
            F32Bits { bits: 0 }
        } else {
            self
        }
    }

    /// The value key, moved into the unsigned range.
    pub fn sort_key(self) -> (k: u32)
        ensures
            k == self.value_key() + SIGN_BIT,
    {
        if self.bits >= SIGN_BIT {
            SIGN_BIT - (self.bits - SIGN_BIT)
        } else {
            SIGN_BIT + self.bits
        }
    }

    /// The total-order key, moved into the unsigned range.
    pub fn total_sort_key(self) -> (k: u32)
        ensures
            k == self.total_key() + SIGN_BIT,
    {
        if self.bits >= SIGN_BIT {
            (SIGN_BIT - 1) - (self.bits - SIGN_BIT)
        } else {
            SIGN_BIT + self.bits
        }
    }
}

/// Every value of the slice is finite.
pub open spec fn all_finite(v: Seq<F32Bits>) -> bool {
    forall|i: int| 0 <= i < v.len() ==> (#[trigger] v[i]).finite()
}

/// The total order separates any two different bit patterns.
pub proof fn lemma_total_key_injective(a: F32Bits, b: F32Bits)
    ensures
        a.total_key() == b.total_key() ==> a == b,
{
}

/// On values that are not NaN, the total order refines the numeric order.
pub proof fn lemma_total_key_refines_value(a: F32Bits, b: F32Bits)
    ensures
        a.value_key() < b.value_key() ==> a.total_key() < b.total_key(),
{
}

/// Adding positive zero changes no number, keeps the total order, and leaves it
/// the numeric order on values that are not NaN: the two zeros tie.
pub proof fn lemma_plus_zero_orders_by_value(a: F32Bits, b: F32Bits)
    ensures
        a.plus_zero().value_key() == a.value_key(),
        a.plus_zero().plus_zero() == a.plus_zero(),
        a.total_key() <= b.total_key() ==> a.plus_zero().total_key() <= b.plus_zero().total_key(),
        a.plus_zero().total_key() <= INFINITY_MAGNITUDE <==> a.total_key() <= INFINITY_MAGNITUDE,
        !a.nan() && !b.nan() ==> (a.plus_zero().total_key() < b.plus_zero().total_key()
            <==> a.value_key() < b.value_key()),
{
}

/// The position of the highest set bit of a positive number.
pub open spec fn top_bit(n: int) -> nat
    decreases n,
{
    if n < 2 {
        0
    } else {
        top_bit(n / 2) + 1
    }
}

/// The bit pattern of a count below `2^24`, all of which are exact in single
/// precision: the exponent is that of the highest bit, the fraction the bits
/// below it.
pub open spec fn count_pattern(n: int) -> int {
    if n == 0 {
        0
    } else {
        (127 + top_bit(n)) * 8388608 + (n - pow2(top_bit(n))) * pow2((23 - top_bit(n)) as nat)
    }
}

/// A count lies between the power of its highest bit and the next one.
pub proof fn lemma_top_bit(n: int)
    requires
        n >= 1,
    ensures
        pow2(top_bit(n)) <= n < 2 * pow2(top_bit(n)),
    decreases n,
{
    lemma2_to64();
    if n >= 2 {
        lemma_top_bit(n / 2);
        lemma_pow2_unfold(top_bit(n));
    }
}

/// A count below `2^24` has its highest bit below position 24, and its pattern
/// lies between that of the power of two below it and that of the next one.
proof fn lemma_count_pattern(n: int)
    requires
        1 <= n < 16777216,
    ensures
        top_bit(n) <= 23,
        (127 + top_bit(n)) * 8388608 <= count_pattern(n) < (128 + top_bit(n)) * 8388608,
        pow2(top_bit(n)) * pow2((23 - top_bit(n)) as nat) == 8388608,
{
    let e = top_bit(n);
    lemma_top_bit(n);
    lemma2_to64();
    if e >= 24 {
        if e > 24 {
            lemma_pow2_strictly_increases(24, e);
        }
        assert(false);
    }
    lemma_pow2_adds(e, (23 - e) as nat);
    lemma_pow2_pos((23 - e) as nat);
    let p = pow2(e) as int;
    let u = pow2((23 - e) as nat) as int;
    assert(0 <= (n - p) * u && (n - p) * u < p * u) by (nonlinear_arith)
        requires
            p <= n < 2 * p,
            u > 0,
    ;
}

/// Counts keep their order as scores.
pub proof fn lemma_count_pattern_increases(a: int, b: int)
    requires
        0 <= a < b < 16777216,
    ensures
        0 <= count_pattern(a) < count_pattern(b) < INFINITY_MAGNITUDE,
{
    lemma_count_pattern(b);
    if a > 0 {
        lemma_count_pattern(a);
        lemma_top_bit(a);
        lemma_top_bit(b);
        let e = top_bit(a);
        let f = top_bit(b);
        if e == f {
            let u = pow2((23 - e) as nat) as int;
            lemma_pow2_pos((23 - e) as nat);
            assert((a - pow2(e)) * u < (b - pow2(e)) * u) by (nonlinear_arith)
                requires
                    a < b,
                    u > 0,
            ;
        } else if e > f {
            if f + 1 < e {
                lemma_pow2_strictly_increases((f + 1) as nat, e);
            }
            lemma_pow2_unfold((f + 1) as nat);
            assert(false);
        }
    }
}

impl F32Bits {
    /// The count `n` as a score.
    pub fn from_count(n: u32) -> (v: F32Bits)
        requires
            n < 16777216,
        ensures
            v.bits == count_pattern(n as int),
    {
        if n == 0 {
            return F32Bits { bits: 0 };
        }
        let mut rest: u32 = n;
        let mut e: u32 = 0;
        let mut p: u32 = 1;
        let mut u: u32 = 8388608;
        proof {
            lemma2_to64();
            lemma_count_pattern(n as int);
        }
        while rest >= 2
            invariant
                1 <= rest,
                e + top_bit(rest as int) == top_bit(n as int),
                top_bit(n as int) <= 23,
                p == pow2(e as nat),
                u == pow2((23 - e) as nat),
                p <= 8388608,
            decreases rest,
        {
            proof {
                lemma2_to64();
                lemma_pow2_unfold((e + 1) as nat);
                lemma_pow2_unfold((23 - e) as nat);
                if e + 1 < 23 {
                    lemma_pow2_strictly_increases((e + 1) as nat, 23);
                }
            }
            rest = rest / 2;
            e = e + 1;
            p = p * 2;
            u = u / 2;
        }
        proof {
            lemma_top_bit(n as int);
        }
        let ghost low = (n - p) * u;
        assert(0 <= low < 8388608);
        (F32Bits { bits: (127 + e) * 8388608 + (n - p) * u })
    }
}

} // verus!
