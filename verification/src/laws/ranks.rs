//! Ranks, buckets, packed codes and the products they are scored by.

use vstd::arithmetic::div_mod::{lemma_fundamental_div_mod, lemma_fundamental_div_mod_converse};
use vstd::arithmetic::power2::{lemma2_to64, lemma_pow2_pos, pow2};
use vstd::prelude::*;

use crate::counting::{
    at, compose, count_where, is_permutation, lemma_count_eq_where, lemma_count_ext, lemma_sum_add,
    lemma_sum_ext, lemma_sum_scale, sum_to,
};
use crate::float_bits::F32Bits;
use crate::laws::floats::{law_keys_order_numbers, number};
use crate::quant::{
    balanced, code_product, code_term, codes_of, packed_codes, packed_len, valid_codes,
};
use crate::rank::{
    before, bucket_codes, bucket_count, bucket_of, centred_square, code_fn, codes_per_byte,
    is_rank_row, lemma_levels, lemma_rank_norm_is_analytic, lemma_rank_preserves_order,
    lemma_rank_transform_is_permutation, levels, packable, rank_ints, rank_of, ranks_of, unpacked,
};
use crate::rank_index::{centred_product, centred_term};

verus! {

/// A rank transform gives each coordinate its own rank below the length, and
/// orders the ranks as the coordinates are ordered as numbers, equal ones by
/// their position.
pub proof fn law_ranks_follow_values(v: Seq<F32Bits>)
    requires
        v.len() <= 65535,
        forall|i: int| 0 <= i < v.len() ==> (#[trigger] v[i]).finite(),
    ensures
        ranks_of(v).len() == v.len(),
        forall|i: int| 0 <= i < v.len() ==> #[trigger] ranks_of(v)[i] < v.len(),
        forall|i: int, j: int|
            0 <= i < v.len() && 0 <= j < v.len() && i != j ==> (#[trigger] ranks_of(v)[i]
                < #[trigger] ranks_of(v)[j] <==> number(v[i]) < number(v[j]) || (number(v[i])
                == number(v[j]) && i < j)),
{
    let r = ranks_of(v);
    lemma_rank_transform_is_permutation(v);
    let s = rank_ints(r);
    assert forall|i: int| 0 <= i < v.len() implies #[trigger] r[i] < v.len() by {
        assert(0 <= s[i] < s.len());
    }
    assert forall|i: int, j: int|
        0 <= i < v.len() && 0 <= j < v.len() && i != j implies (#[trigger] r[i] < #[trigger] r[j]
        <==> number(v[i]) < number(v[j]) || (number(v[i]) == number(v[j]) && i < j)) by {
        law_keys_order_numbers(v[i], v[j]);
        law_keys_order_numbers(v[j], v[i]);
        assert(r[i] == rank_of(v, i) && r[j] == rank_of(v, j));
        if number(v[i]) < number(v[j]) || (number(v[i]) == number(v[j]) && i < j) {
            lemma_rank_preserves_order(v, i, j);
        } else {
            lemma_rank_preserves_order(v, j, i);
        }
    }
}

/// The rank of a coordinate is the number of coordinates below it as numbers,
/// equal ones at lower positions included.
pub proof fn law_rank_counts_smaller(v: Seq<F32Bits>, k: int)
    requires
        v.len() <= 65535,
        forall|i: int| 0 <= i < v.len() ==> (#[trigger] v[i]).finite(),
        0 <= k < v.len(),
    ensures
        ranks_of(v)[k] == count_where(
            v.len() as int,
            |j: int| number(v[j]) < number(v[k]) || (number(v[j]) == number(v[k]) && j < k),
        ),
{
    let p = |j: int| number(v[j]) < number(v[k]) || (number(v[j]) == number(v[k]) && j < k);
    lemma_rank_transform_is_permutation(v);
    assert(ranks_of(v)[k] == rank_of(v, k));
    assert forall|j: int| 0 <= j < v.len() implies #[trigger] before(v, k)(j) == p(j) by {
        law_keys_order_numbers(v[j], v[k]);
    }
    lemma_count_ext(v.len() as int, before(v, k), p);
}

/// A row of ranks takes every value below its length exactly once.
pub proof fn law_rank_rows_are_permutations(ranks: Seq<u16>)
    ensures
        is_rank_row(ranks) <==> (forall|i: int|
            0 <= i < ranks.len() ==> #[trigger] ranks[i] < ranks.len()) && ranks.no_duplicates(),
{
    let s = rank_ints(ranks);
    if is_rank_row(ranks) {
        assert forall|i: int| 0 <= i < ranks.len() implies #[trigger] ranks[i] < ranks.len() by {
            assert(0 <= s[i] < s.len());
        }
        assert forall|i: int, j: int| 0 <= i < ranks.len() && 0 <= j < ranks.len() && i != j implies
            ranks[i] != ranks[j] by {
            if i < j {
                assert(s[i] != s[j]);
            } else {
                assert(s[j] != s[i]);
            }
        }
    }
    if (forall|i: int| 0 <= i < ranks.len() ==> #[trigger] ranks[i] < ranks.len())
        && ranks.no_duplicates() {
        assert(is_permutation(s)) by {
            assert forall|i: int| 0 <= i < s.len() implies 0 <= #[trigger] s[i] < s.len() by {
                assert(ranks[i] < ranks.len());
            }
            assert forall|i: int, j: int| 0 <= i < j < s.len() implies s[i] != s[j] by {
                assert(ranks[i] != ranks[j]);
            }
        }
    }
}

/// The bucket counts of all widths.
pub proof fn law_levels(bits: u8)
    requires
        bits <= 8,
    ensures
        bits == 0 ==> levels(bits) == 1,
        bits == 1 ==> levels(bits) == 2,
        bits == 2 ==> levels(bits) == 4,
        bits == 3 ==> levels(bits) == 8,
        bits == 4 ==> levels(bits) == 16,
        bits == 5 ==> levels(bits) == 32,
        bits == 6 ==> levels(bits) == 64,
        bits == 7 ==> levels(bits) == 128,
        bits == 8 ==> levels(bits) == 256,
{
    lemma2_to64();
}

proof fn lemma_quotient_bounds(x: int, d: int)
    requires
        0 <= x,
        0 < d,
    ensures
        0 <= x / d,
        (x / d) * d <= x < (x / d + 1) * d,
{
    lemma_fundamental_div_mod(x, d);
    let b = x / d;
    assert(0 <= b && b * d <= x < (b + 1) * d) by (nonlinear_arith)
        requires
            x == d * b + x % d,
            0 <= x % d < d,
            0 <= x,
            0 < d,
    ;
}

/// Buckets are bins of equal width: bucket `b` of `2^bits` holds the ranks
/// between `b / 2^bits` and `(b + 1) / 2^bits` of the dimension.
pub proof fn law_buckets_are_equal_width_bins(r: int, d: int, bits: u8)
    requires
        0 <= r < d,
        bits <= 8,
    ensures
        0 <= bucket_of(r, d, bits) < pow2(bits as nat),
        bucket_of(r, d, bits) * d <= r * pow2(bits as nat) < (bucket_of(r, d, bits) + 1) * d,
{
    let n = pow2(bits as nat) as int;
    lemma_pow2_pos(bits as nat);
    assert(0 <= r * n && r * n < d * n) by (nonlinear_arith)
        requires
            0 <= r < d,
            n > 0,
    ;
    lemma_quotient_bounds(r * n, d);
    let b = bucket_of(r, d, bits);
    assert(b < n) by (nonlinear_arith)
        requires
            b * d <= r * n,
            r * n < d * n,
            0 < d,
    ;
}

/// Buckets follow the ranks: a higher rank never has a lower bucket, and the
/// lowest rank has the lowest one.
pub proof fn law_buckets_follow_ranks(r: int, s: int, d: int, bits: u8)
    requires
        0 <= r <= s < d,
        bits <= 8,
    ensures
        bucket_of(r, d, bits) <= bucket_of(s, d, bits),
        bucket_of(0, d, bits) == 0,
{
    let n = pow2(bits as nat) as int;
    law_buckets_are_equal_width_bins(r, d, bits);
    law_buckets_are_equal_width_bins(s, d, bits);
    law_buckets_are_equal_width_bins(0, d, bits);
    let x = bucket_of(r, d, bits);
    let y = bucket_of(s, d, bits);
    let z = bucket_of(0, d, bits);
    lemma_pow2_pos(bits as nat);
    assert(x <= y && z == 0) by (nonlinear_arith)
        requires
            x * d <= r * n,
            s * n < (y + 1) * d,
            z * d <= 0 * n,
            0 <= z,
            r <= s,
            0 < n,
            0 < d,
    ;
}

/// The codes of a row of ranks are the buckets of its entries.
pub proof fn law_codes_are_equal_width_bins(ranks: Seq<u16>, bits: u8, i: int)
    requires
        bits <= 8,
        0 <= i < ranks.len(),
        ranks[i] < ranks.len(),
    ensures
        bucket_codes(ranks, bits).len() == ranks.len(),
        bucket_codes(ranks, bits)[i] < pow2(bits as nat),
        bucket_codes(ranks, bits)[i] * ranks.len() <= ranks[i] * pow2(bits as nat) < (bucket_codes(
            ranks,
            bits,
        )[i] + 1) * ranks.len(),
{
    law_buckets_are_equal_width_bins(ranks[i] as int, ranks.len() as int, bits);
    lemma_levels(bits);
}

/// The code of a coordinate places the number of coordinates below it among
/// `2^bits` equal parts of the dimension.
pub proof fn law_vector_codes(v: Seq<F32Bits>, bits: u8, k: int)
    requires
        v.len() <= 65535,
        forall|i: int| 0 <= i < v.len() ==> (#[trigger] v[i]).finite(),
        bits <= 8,
        0 <= k < v.len(),
    ensures
        codes_of(v, bits).len() == v.len(),
        ({
            let below = count_where(
                v.len() as int,
                |j: int| number(v[j]) < number(v[k]) || (number(v[j]) == number(v[k]) && j < k),
            );
            let c = codes_of(v, bits)[k] as int;
            &&& c < pow2(bits as nat)
            &&& c * v.len() <= below * pow2(bits as nat) < (c + 1) * v.len()
        }),
{
    law_ranks_follow_values(v);
    law_rank_counts_smaller(v, k);
    law_codes_are_equal_width_bins(ranks_of(v), bits, k);
}

/// The codes of a vector are ordered as its coordinates are as numbers.
pub proof fn law_vector_codes_follow_values(v: Seq<F32Bits>, bits: u8, i: int, j: int)
    requires
        v.len() <= 65535,
        forall|i: int| 0 <= i < v.len() ==> (#[trigger] v[i]).finite(),
        bits <= 8,
        0 <= i < v.len(),
        0 <= j < v.len(),
        number(v[i]) < number(v[j]),
    ensures
        codes_of(v, bits)[i] <= codes_of(v, bits)[j],
{
    let d = v.len() as int;
    law_ranks_follow_values(v);
    let r = ranks_of(v);
    assert(r[i] < r[j]);
    law_buckets_follow_ranks(r[i] as int, r[j] as int, d, bits);
    law_buckets_are_equal_width_bins(r[i] as int, d, bits);
    law_buckets_are_equal_width_bins(r[j] as int, d, bits);
    lemma_levels(bits);
}

/// How many coordinates lie in a bucket, and that a document is balanced
/// exactly when every bucket holds the same share of them.
pub proof fn law_balance_counts_coordinates(codes: Seq<u8>, bits: u8)
    requires
        bits <= 8,
    ensures
        forall|b: int|
            #![trigger bucket_count(codes, b)]
            bucket_count(codes, b) == count_where(
                codes.len() as int,
                |i: int| codes[i] == b,
            ),
        codes.len() as int % (pow2(bits as nat) as int) == 0 ==> (balanced(codes, bits)
            <==> forall|b: int|
            #![trigger bucket_count(codes, b)]
            0 <= b < pow2(bits as nat) ==> bucket_count(codes, b) * pow2(bits as nat)
                == codes.len()),
{
    let n = pow2(bits as nat) as int;
    let d = codes.len() as int;
    lemma_pow2_pos(bits as nat);
    assert forall|b: int| #![trigger bucket_count(codes, b)] bucket_count(codes, b) == count_where(
        d,
        |i: int| codes[i] == b,
    ) by {
        let p = |i: int| codes[i] == b;
        lemma_count_eq_where(d, code_fn(codes), b, p);
    }
    if d % n == 0 {
        lemma_fundamental_div_mod(d, n);
        let per = d / n;
        assert forall|b: int| #![trigger bucket_count(codes, b)] (bucket_count(codes, b) * n == d)
            == (bucket_count(codes, b) == per) by {
            let c = bucket_count(codes, b);
            assert((c * n == d) == (c == per)) by (nonlinear_arith)
                requires
                    d == n * per,
                    n > 0,
            ;
        }
    }
}

/// The parameters of an index of packed codes: at most 65535 dimensions, in
/// multiples of eight at one bit, of four at two bits and of sixteen at four
/// bits, and of any number from two on at eight bits.
pub proof fn law_code_parameters(dim: int, bits: u8)
    ensures
        valid_codes(dim, bits) <==> 2 <= dim <= 65535 && ((bits == 1 && dim % 8 == 0) || (bits == 2
            && dim % 4 == 0) || (bits == 4 && dim % 16 == 0) || bits == 8),
{
    if packable(bits) {
        lemma_levels(bits);
        if bits == 1 {
            assert(codes_per_byte(bits) == 8);
        } else if bits == 2 {
            assert(codes_per_byte(bits) == 4);
        } else if bits == 4 {
            assert(codes_per_byte(bits) == 2);
        } else {
            assert(codes_per_byte(bits) == 1);
        }
    }
}

proof fn lemma_code_in_byte(
    packed: Seq<u8>,
    d: int,
    bits: u8,
    per: int,
    j: int,
    t: int,
    shift: int,
)
    requires
        packable(bits),
        per == codes_per_byte(bits),
        d * bits == packed.len() * 8,
        0 <= j < packed.len(),
        0 <= t < per,
        shift == (per - 1 - t) * bits,
    ensures
        0 <= j * per + t < d,
        unpacked(packed, d, bits)[j * per + t] == (packed[j] as int / (pow2(shift as nat) as int))
            % levels(bits),
        unpacked(packed, d, bits)[j * per + t] < levels(bits),
{
    let i = j * per + t;
    lemma_levels(bits);
    assert(per * bits == 8);
    lemma_fundamental_div_mod_converse(i, per, j, t);
    let n = packed.len() as int;
    let b = bits as int;
    assert(0 <= i < d) by (nonlinear_arith)
        requires
            i == j * per + t,
            0 <= t < per,
            0 <= j < n,
            per * b == 8,
            d * b == n * 8,
            0 < b,
    ;
}

/// A packed byte spells its codes in base `2^bits`, the first code at the high
/// end.
pub proof fn law_bytes_spell_codes(packed: Seq<u8>, d: int, bits: u8, j: int)
    requires
        0 <= j < packed.len(),
        bits == 1 || bits == 2 || bits == 4 || bits == 8,
        d * bits == packed.len() * 8,
    ensures
        ({
            let c = unpacked(packed, d, bits);
            &&& c.len() == d
            &&& bits == 8 ==> packed[j] == c[j]
            &&& bits == 4 ==> packed[j] == 16 * c[2 * j] + c[2 * j + 1] && c[2 * j] < 16 && c[2 * j
                + 1] < 16
            &&& bits == 2 ==> packed[j] == 64 * c[4 * j] + 16 * c[4 * j + 1] + 4 * c[4 * j + 2]
                + c[4 * j + 3] && c[4 * j] < 4 && c[4 * j + 1] < 4 && c[4 * j + 2] < 4 && c[4 * j
                + 3] < 4
            &&& bits == 1 ==> packed[j] == 128 * c[8 * j] + 64 * c[8 * j + 1] + 32 * c[8 * j + 2]
                + 16 * c[8 * j + 3] + 8 * c[8 * j + 4] + 4 * c[8 * j + 5] + 2 * c[8 * j + 6] + c[8
                * j + 7] && c[8 * j] < 2 && c[8 * j + 1] < 2 && c[8 * j + 2] < 2 && c[8 * j + 3] < 2
                && c[8 * j + 4] < 2 && c[8 * j + 5] < 2 && c[8 * j + 6] < 2 && c[8 * j + 7] < 2
        }),
{
    lemma2_to64();
    lemma_levels(bits);
    if bits == 8 {
        lemma_code_in_byte(packed, d, bits, 1, j, 0, 0);
    } else if bits == 4 {
        lemma_code_in_byte(packed, d, bits, 2, j, 0, 4);
        lemma_code_in_byte(packed, d, bits, 2, j, 1, 0);
        lemma_digits(packed[j]);
    } else if bits == 2 {
        lemma_code_in_byte(packed, d, bits, 4, j, 0, 6);
        lemma_code_in_byte(packed, d, bits, 4, j, 1, 4);
        lemma_code_in_byte(packed, d, bits, 4, j, 2, 2);
        lemma_code_in_byte(packed, d, bits, 4, j, 3, 0);
        lemma_digits(packed[j]);
    } else {
        lemma_code_in_byte(packed, d, bits, 8, j, 0, 7);
        lemma_code_in_byte(packed, d, bits, 8, j, 1, 6);
        lemma_code_in_byte(packed, d, bits, 8, j, 2, 5);
        lemma_code_in_byte(packed, d, bits, 8, j, 3, 4);
        lemma_code_in_byte(packed, d, bits, 8, j, 4, 3);
        lemma_code_in_byte(packed, d, bits, 8, j, 5, 2);
        lemma_code_in_byte(packed, d, bits, 8, j, 6, 1);
        lemma_code_in_byte(packed, d, bits, 8, j, 7, 0);
        lemma_digits(packed[j]);
    }
}

proof fn lemma_digits(p: u8)
    ensures
        p == 16 * (p / 16 % 16) + p % 16,
        p == 64 * (p / 64 % 4) + 16 * (p / 16 % 4) + 4 * (p / 4 % 4) + p % 4,
        p == 128 * (p / 128 % 2) + 64 * (p / 64 % 2) + 32 * (p / 32 % 2) + 16 * (p / 16 % 2) + 8 * (
        p / 8 % 2) + 4 * (p / 4 % 2) + 2 * (p / 2 % 2) + p % 2,
{
    assert(p == 16 * (p / 16 % 16) + p % 16) by (bit_vector);
    assert(p == 64 * (p / 64 % 4) + 16 * (p / 16 % 4) + 4 * (p / 4 % 4) + p % 4) by (bit_vector);
    assert(p == 128 * (p / 128 % 2) + 64 * (p / 64 % 2) + 32 * (p / 32 % 2) + 16 * (p / 16 % 2) + 8
        * (p / 8 % 2) + 4 * (p / 4 % 2) + 2 * (p / 2 % 2) + p % 2) by (bit_vector);
}

/// The product of two rank vectors is Spearman's: three times it falls short of
/// its greatest value by six times the squared distance of the ranks.
pub proof fn law_rank_product_is_spearman(q: Seq<u16>, d: Seq<u16>)
    requires
        q.len() == d.len(),
        is_rank_row(q),
        is_rank_row(d),
    ensures
        3 * centred_product(q, d) == q.len() * (q.len() * q.len() - 1) - 6 * sum_to(
            q.len() as int,
            |j: int| (q[j] - d[j]) * (q[j] - d[j]),
        ),
{
    let n = q.len() as int;
    let s = |j: int| (q[j] - d[j]) * (q[j] - d[j]);
    let f = centred_term(q, d);
    let a = compose(centred_square(n - 1), at(rank_ints(q)));
    let b = compose(centred_square(n - 1), at(rank_ints(d)));
    lemma_rank_norm_is_analytic(q);
    lemma_rank_norm_is_analytic(d);
    let norms = |j: int| a(j) + b(j);
    lemma_sum_add(n, a, b, norms);
    let twice = |j: int| 2 * f(j);
    let four = |j: int| 4 * s(j);
    lemma_sum_scale(n, 2, f, twice);
    lemma_sum_scale(n, 4, s, four);
    let both = |j: int| twice(j) + four(j);
    lemma_sum_add(n, twice, four, both);
    assert forall|j: int| 0 <= j < n implies #[trigger] norms(j) == both(j) by {
        let x = 2 * q[j] - (n - 1);
        let y = 2 * d[j] - (n - 1);
        let e = q[j] - d[j];
        assert(x * x + y * y == 2 * (x * y) + 4 * (e * e)) by (nonlinear_arith)
            requires
                x - y == 2 * e,
        ;
    }
    lemma_sum_ext(n, norms, both);
}

/// The product of two rank vectors is greatest on equal ones and only there,
/// and is negated where one of them is reversed in value.
pub proof fn law_rank_product_extremes(q: Seq<u16>, d: Seq<u16>, e: Seq<u16>)
    requires
        q.len() == d.len(),
        is_rank_row(q),
        is_rank_row(d),
        e.len() == d.len(),
        forall|j: int| 0 <= j < d.len() ==> #[trigger] e[j] == d.len() - 1 - d[j],
    ensures
        3 * centred_product(q, d) == q.len() * (q.len() * q.len() - 1) <==> q == d,
        centred_product(q, e) == -centred_product(q, d),
{
    let n = q.len() as int;
    let s = |j: int| (q[j] - d[j]) * (q[j] - d[j]);
    law_rank_product_is_spearman(q, d);
    assert forall|j: int| 0 <= j < n implies 0 <= #[trigger] s(j) by {
        let x = q[j] - d[j];
        assert(0 <= x * x) by (nonlinear_arith);
    }
    lemma_squares_vanish(n, s);
    if q == d {
        assert forall|j: int| 0 <= j < n implies #[trigger] s(j) == 0 by {
            assert(0int * 0int == 0);
        }
    } else if sum_to(n, s) == 0 {
        assert forall|j: int| 0 <= j < n implies q[j] == d[j] by {
            let x = q[j] - d[j];
            assert(s(j) == 0);
            assert(x == 0) by (nonlinear_arith)
                requires
                    x * x == 0,
            ;
        }
        assert(q =~= d);
    }
    assert forall|j: int| 0 <= j < n implies #[trigger] centred_term(q, e)(j) == -1 * centred_term(
        q,
        d,
    )(j) by {
        let x = 2 * q[j] - (n - 1);
        let y = 2 * d[j] - (n - 1);
        assert(e[j] == n - 1 - d[j]);
        assert(x * (-y) == -1 * (x * y)) by (nonlinear_arith);
    }
    lemma_sum_scale(n, -1, centred_term(q, d), centred_term(q, e));
}

proof fn lemma_squares_vanish(n: int, s: spec_fn(int) -> int)
    requires
        0 <= n,
    ensures
        (forall|j: int| 0 <= j < n ==> 0 <= #[trigger] s(j)) ==> 0 <= sum_to(n, s) && (sum_to(n, s)
            == 0 <==> forall|j: int| 0 <= j < n ==> #[trigger] s(j) == 0),
    decreases n,
{
    if n > 0 {
        lemma_squares_vanish(n - 1, s);
        if forall|j: int| 0 <= j < n ==> 0 <= #[trigger] s(j) {
            assert(0 <= s(n - 1));
            if sum_to(n, s) == 0 {
                assert(s(n - 1) == 0);
                assert forall|j: int| 0 <= j < n implies #[trigger] s(j) == 0 by {
                    if j < n - 1 {
                        assert(s(j) == 0);
                    }
                }
            }
        }
    }
}

/// The product of two code vectors grows coordinate by coordinate, each adding
/// the product of its doubled distances from the middle of the buckets.
pub proof fn law_code_product_adds_coordinates(q: Seq<u8>, d: Seq<u8>, n: int, a: u8, b: u8)
    requires
        q.len() == d.len(),
    ensures
        code_product(Seq::empty(), Seq::empty(), n) == 0,
        code_product(q.push(a), d.push(b), n) == code_product(q, d, n) + (2 * a - (n - 1)) * (2 * b
            - (n - 1)),
{
    let m = q.len() as int;
    let f = code_term(q, d, n);
    let g = code_term(q.push(a), d.push(b), n);
    assert forall|j: int| 0 <= j < m implies #[trigger] g(j) == f(j) by {}
    lemma_sum_ext(m, g, f);
    assert(g(m) == (2 * a - (n - 1)) * (2 * b - (n - 1)));
}

/// The stored codes of document `i` are read from its own bytes, one document
/// after the other.
pub proof fn law_stored_codes(bytes: Seq<u8>, dim: int, bits: u8, n: int, i: int)
    requires
        valid_codes(dim, bits),
        0 <= i < n,
        bytes.len() * 8 == n * dim * bits,
    ensures
        packed_len(dim, bits) * 8 == dim * bits,
        packed_codes(bytes, dim, bits, n).len() == n,
        packed_codes(bytes, dim, bits, n)[i] == unpacked(
            bytes.subrange(i * (dim * bits / 8), (i + 1) * (dim * bits / 8)),
            dim,
            bits,
        ),
{
    law_code_parameters(dim, bits);
    let w = dim * bits / 8;
    assert(dim * bits % 8 == 0) by {
        if bits == 1 {
        } else if bits == 2 {
        } else if bits == 4 {
        } else {
        }
    }
    assert((i + 1) * w == i * w + w) by (nonlinear_arith);
}

} // verus!
