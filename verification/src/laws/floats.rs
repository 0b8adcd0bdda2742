//! What the bit patterns of floats stand for.

use vstd::arithmetic::power2::{
    lemma2_to64, lemma_pow2_adds, lemma_pow2_pos, lemma_pow2_strictly_increases, lemma_pow2_unfold,
    pow2,
};
use vstd::prelude::*;

use crate::float_bits::{
    all_finite, count_pattern, lemma_count_pattern_increases, lemma_top_bit, top_bit, F32Bits,
};

verus! {

/// The magnitude of a finite pattern in units of the smallest positive float,
/// `2^-149`: the fraction, with the leading bit of a normal number, shifted by
/// the exponent.
pub open spec fn units(m: int) -> int {
    let e = m / 0x80_0000;
    let f = m % 0x80_0000;
    if e == 0 {
        f
    } else {
        (0x80_0000 + f) * pow2((e - 1) as nat)
    }
}

/// The number that a finite pattern stands for, in units of `2^-149`.
pub open spec fn number(v: F32Bits) -> int {
    if v.bits >= 0x8000_0000u32 {
        -units(v.bits - 0x8000_0000)
    } else {
        units(v.bits as int)
    }
}

proof fn lemma_units_increase(a: int, b: int)
    requires
        0 <= a < b < 0x7F80_0000,
    ensures
        0 <= units(a) < units(b),
{
    let ea = a / 0x80_0000;
    let eb = b / 0x80_0000;
    let fa = a % 0x80_0000;
    let fb = b % 0x80_0000;
    if ea == 0 {
        if eb > 0 {
            lemma_pow2_pos((eb - 1) as nat);
            let s = pow2((eb - 1) as nat) as int;
            assert((0x80_0000 + fb) * s >= 0x80_0000) by (nonlinear_arith)
                requires
                    fb >= 0,
                    s >= 1,
            ;
        }
    } else {
        lemma_pow2_pos((ea - 1) as nat);
        lemma_pow2_pos((eb - 1) as nat);
        let s = pow2((ea - 1) as nat) as int;
        let t = pow2((eb - 1) as nat) as int;
        if ea == eb {
            assert(0 <= (0x80_0000 + fa) * s < (0x80_0000 + fb) * s) by (nonlinear_arith)
                requires
                    0 <= fa < fb,
                    s >= 1,
            ;
        } else {
            lemma_pow2_unfold(ea as nat);
            if ea < eb - 1 {
                lemma_pow2_strictly_increases(ea as nat, (eb - 1) as nat);
            }
            assert(2 * s <= t);
            assert(0 <= (0x80_0000 + fa) * s && (0x80_0000 + fa) * s < (0x80_0000 + fb) * t)
                by (nonlinear_arith)
                requires
                    0 <= fa < 0x80_0000,
                    0 <= fb,
                    1 <= s,
                    2 * s <= t,
            ;
        }
    }
}

/// Finite values are compared as the numbers they stand for, and the two zeros
/// are equal.
pub proof fn law_keys_order_numbers(a: F32Bits, b: F32Bits)
    requires
        a.finite(),
        b.finite(),
    ensures
        a.value_key() < b.value_key() <==> number(a) < number(b),
        a.value_key() == b.value_key() <==> number(a) == number(b),
{
    let x = if a.bits >= 0x8000_0000u32 {
        a.bits - 0x8000_0000
    } else {
        a.bits as int
    };
    let y = if b.bits >= 0x8000_0000u32 {
        b.bits - 0x8000_0000
    } else {
        b.bits as int
    };
    assert(units(0) == 0);
    if 0 < x {
        lemma_units_increase(0, x);
    }
    if 0 < y {
        lemma_units_increase(0, y);
    }
    if x < y {
        lemma_units_increase(x, y);
    } else if y < x {
        lemma_units_increase(y, x);
    }
}

/// A value is finite exactly when not all bits of its exponent are set, and a
/// NaN exactly when they are and the fraction is not zero. It is positive
/// exactly when it is a number above zero or positive infinity.
pub proof fn law_classes_of_patterns(v: F32Bits)
    ensures
        v.finite() <==> (v.bits as int / 0x80_0000) % 256 != 255,
        v.nan() <==> (v.bits as int / 0x80_0000) % 256 == 255 && v.bits as int % 0x80_0000 != 0,
        v.finite() ==> (v.positive() <==> number(v) > 0),
        !v.finite() ==> (v.positive() <==> v.bits == 0x7F80_0000u32),
{
    if v.finite() {
        let zero = F32Bits { bits: 0 };
        assert(units(0) == 0);
        law_keys_order_numbers(zero, v);
    }
}

/// A vector is finite exactly when each of its values is.
pub proof fn law_finite_vectors(v: Seq<F32Bits>)
    ensures
        all_finite(v) <==> forall|i: int|
            0 <= i < v.len() ==> ((#[trigger] v[i]).bits as int / 0x80_0000) % 256 != 255,
{
    assert forall|i: int| 0 <= i < v.len() implies (#[trigger] v[i]).finite() == ((v[i].bits as int
        / 0x80_0000) % 256 != 255) by {
        law_classes_of_patterns(v[i]);
    }
}

/// The total order agrees with the order of numbers, puts negative zero below
/// positive zero, every NaN outside the infinities on the side of its sign, and
/// tells any two patterns apart.
pub proof fn law_total_order(a: F32Bits, b: F32Bits)
    ensures
        a.finite() && b.finite() && number(a) < number(b) ==> a.total_key() < b.total_key(),
        a.bits == 0x8000_0000u32 && b.bits == 0 ==> a.total_key() + 1 == b.total_key(),
        a.bits < b.bits < 0x8000_0000u32 ==> a.total_key() < b.total_key(),
        0x8000_0000u32 <= b.bits < a.bits ==> a.total_key() < b.total_key(),
        b.bits < 0x8000_0000u32 <= a.bits ==> a.total_key() < b.total_key(),
        a.total_key() == b.total_key() ==> a == b,
{
    if a.finite() && b.finite() {
        law_keys_order_numbers(a, b);
    }
}

/// Adding positive zero changes the pattern of negative zero alone, to that of
/// positive zero, and changes no number.
pub proof fn law_adding_zero(v: F32Bits)
    ensures
        v.bits == 0x8000_0000u32 ==> v.plus_zero().bits == 0,
        v.bits != 0x8000_0000u32 ==> v.plus_zero() == v,
        number(v.plus_zero()) == number(v),
{
    assert(units(0) == 0);
}

/// A count as a score is a finite float that stands for exactly that count.
pub proof fn law_counts_are_exact(n: int)
    requires
        0 <= n < 16777216,
    ensures
        0 <= count_pattern(n) < 0x7F80_0000,
        number(F32Bits { bits: count_pattern(n) as u32 }) == n * pow2(149),
{
    lemma2_to64();
    if n > 0 {
        let t = top_bit(n);
        lemma_count_pattern_increases(0, n);
        lemma_top_bit(n);
        if t >= 24 {
            if t > 24 {
                lemma_pow2_strictly_increases(24, t);
            }
            assert(false);
        }
        let p = pow2(t) as int;
        let u = pow2((23 - t) as nat) as int;
        lemma_pow2_adds(t, (23 - t) as nat);
        lemma_pow2_pos((23 - t) as nat);
        let f = (n - p) * u;
        assert(0 <= f < 0x80_0000) by (nonlinear_arith)
            requires
                f == (n - p) * u,
                p <= n < 2 * p,
                p * u == 0x80_0000,
                u > 0,
        ;
        let m = count_pattern(n);
        assert(m == (127 + t) * 0x80_0000 + f);
        assert(m / 0x80_0000 == 127 + t && m % 0x80_0000 == f);
        let s = pow2((126 + t) as nat) as int;
        lemma_pow2_adds((23 - t) as nat, (126 + t) as nat);
        assert((0x80_0000 + f) * s == n * (u * s)) by (nonlinear_arith)
            requires
                f == (n - p) * u,
                p * u == 0x80_0000,
        ;
    } else {
        assert(units(0) == 0);
    }
}

} // verus!
