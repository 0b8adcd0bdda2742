//! The rank transform, bucket quantisation and bit packing.

use vstd::arithmetic::div_mod::{
    lemma_div_denominator, lemma_fundamental_div_mod, lemma_fundamental_div_mod_converse,
};
use vstd::arithmetic::power2::{
    lemma2_to64, lemma_pow2_adds, lemma_pow2_pos, lemma_pow2_strictly_increases, pow2,
};
use vstd::bits::{lemma_u32_shl_is_mul, lemma_u8_shr_is_div};
use vstd::prelude::*;

use crate::counting::{
    at, compose, count_eq, count_where, holds_after, is_permutation, lemma_count_bounds,
    lemma_count_eq_where, lemma_count_ext, lemma_count_full, lemma_count_permuted,
    lemma_count_strict_mono, lemma_count_window, lemma_group_sum, lemma_permutation_surjective,
    lemma_sum_permuted, lemma_sum_scale, sum_to, weighted_fibers,
};
use crate::float_bits::{all_finite, F32Bits, SIGN_BIT};
use crate::sort::{argsort, as_ints, precedes};

verus! {

/// Coordinate `j` sorts before coordinate `k`: a smaller value, or an equal
/// value at a lower index.
pub open spec fn sorts_before(v: Seq<F32Bits>, j: int, k: int) -> bool {
    v[j].value_key() < v[k].value_key() || (v[j].value_key() == v[k].value_key() && j < k)
}

/// The coordinates that sort before coordinate `k`.
pub open spec fn before(v: Seq<F32Bits>, k: int) -> spec_fn(int) -> bool {
    |j: int| sorts_before(v, j, k)
}

/// The rank of coordinate `k`: how many coordinates sort before it.
pub open spec fn rank_of(v: Seq<F32Bits>, k: int) -> int {
    count_where(v.len() as int, before(v, k))
}

/// The rank transform of `v`.
pub open spec fn ranks_of(v: Seq<F32Bits>) -> Seq<u16> {
    Seq::new(v.len(), |k: int| rank_of(v, k) as u16)
}

/// A row of ranks as mathematical integers.
pub open spec fn rank_ints(ranks: Seq<u16>) -> Seq<int> {
    Seq::new(ranks.len(), |k: int| ranks[k] as int)
}

/// `ranks` holds every value of `0..ranks.len()` exactly once.
pub open spec fn is_rank_row(ranks: Seq<u16>) -> bool {
    is_permutation(rank_ints(ranks))
}

/// Compute the dimension-wise rank transform of a single vector.
///
/// `out[k]` is the rank of `v[k]` among the coordinates of `v`, ties broken by
/// ascending index; the two zeros are equal.
pub fn rank_transform(v: &[F32Bits]) -> (out: Vec<u16>)
    requires
        v.len() <= u16::MAX,
        all_finite(v@),
    ensures
        out@ == ranks_of(v@),
        is_rank_row(out@),
        forall|k: int| 0 <= k < v.len() ==> #[trigger] out[k] == rank_of(v@, k),
{
    rank_row(v)
}

/// The rank transform of a row by the value keys of its coordinates.
pub(crate) fn rank_row(v: &[F32Bits]) -> (out: Vec<u16>)
    requires
        v.len() <= u16::MAX,
    ensures
        out@ == ranks_of(v@),
        is_rank_row(out@),
        forall|k: int| 0 <= k < v.len() ==> #[trigger] out[k] == rank_of(v@, k),
{
    let d: usize = v.len();
    let mut out: Vec<u16> = vec![0u16; d];
    rank_into(v, out.as_mut_slice());
    out
}

/// Write the rank transform of `v` over the whole of `out`.
pub fn rank_transform_into(v: &[F32Bits], out: &mut [u16])
    requires
        v.len() <= u16::MAX,
        all_finite(v@),
        old(out).len() == v.len(),
    ensures
        final(out)@ == ranks_of(v@),
        is_rank_row(final(out)@),
{
    rank_into(v, out);
}

fn rank_into(v: &[F32Bits], out: &mut [u16])
    requires
        v.len() <= u16::MAX,
        old(out).len() == v.len(),
    ensures
        final(out)@ == ranks_of(v@),
        is_rank_row(final(out)@),
        forall|k: int| 0 <= k < v.len() ==> #[trigger] final(out)[k] == rank_of(v@, k),
{
    let d: usize = v.len();
    let mut keys: Vec<u128> = Vec::with_capacity(d);
    let mut i: usize = 0;
    while i < d
        invariant
            d == v.len(),
            i <= d,
            keys.len() == i,
            forall|t: int|
                0 <= t < i ==> #[trigger] keys[t] == v[t].value_key() + SIGN_BIT,
        decreases d - i,
    {
        keys.push(v[i].sort_key() as u128);
        i = i + 1;
    }
    let order = argsort(keys.as_slice());
    let mut r: usize = 0;
    while r < d
        invariant
            d == v.len(),
            d <= u16::MAX,
            order.len() == d,
            out.len() == d,
            r <= d,
            is_permutation(as_ints(order@)),
            forall|t: int| 0 <= t < d ==> #[trigger] order[t] < d,
            forall|t: int| 0 <= t < r ==> out[#[trigger] order[t] as int] == t,
        decreases d - r,
    {
        let slot: usize = order[r];
        proof {
            assert forall|t: int| 0 <= t < r implies #[trigger] order[t] != order[r as int] by {
                assert(as_ints(order@)[t] != as_ints(order@)[r as int]);
            }
        }
        out[slot] = r as u16;
        r = r + 1;
    }
    proof {
        assert forall|k: int| 0 <= k < d implies #[trigger] out[k] == rank_of(v@, k) by {
            let w = lemma_permutation_surjective(as_ints(order@), k);
            assert(order[w] == k);
            let p = precedes(keys@, k);
            let q = before(v@, k);
            assert forall|j: int| 0 <= j < d implies #[trigger] p(j) == q(j) by {
                assert(keys[j] == v[j].value_key() + SIGN_BIT);
                assert(keys[k] == v[k].value_key() + SIGN_BIT);
            }
            lemma_count_ext(d as int, p, q);
        }
        lemma_rank_transform_is_permutation(v@);
        assert(out@ =~= ranks_of(v@));
    }
}

/// The rank transform of a vector is a permutation of `0..dim`, and each entry
/// is the number of coordinates that sort before it.
pub proof fn lemma_rank_transform_is_permutation(v: Seq<F32Bits>)
    requires
        v.len() <= u16::MAX,
    ensures
        is_rank_row(ranks_of(v)),
        forall|k: int| 0 <= k < v.len() ==> #[trigger] ranks_of(v)[k] == rank_of(v, k),
{
    let d = v.len() as int;
    let s = rank_ints(ranks_of(v));
    assert forall|k: int| 0 <= k < d implies 0 <= #[trigger] rank_of(v, k) < d by {
        let p = before(v, k);
        lemma_count_bounds(d, p);
        if count_where(d, p) == d {
            lemma_count_full(d, p, k);
        }
    }
    assert forall|k: int| 0 <= k < d implies 0 <= #[trigger] s[k] < d by {
        assert(0 <= rank_of(v, k) < d);
    }
    assert forall|i: int, j: int| 0 <= i < j < d implies s[i] != s[j] by {
        if sorts_before(v, i, j) {
            lemma_rank_preserves_order(v, i, j);
        } else {
            lemma_rank_preserves_order(v, j, i);
        }
        assert(0 <= rank_of(v, i) < d);
        assert(0 <= rank_of(v, j) < d);
    }
    assert forall|k: int| 0 <= k < d implies #[trigger] ranks_of(v)[k] == rank_of(v, k) by {
        assert(0 <= rank_of(v, k) < d);
    }
}

/// The rank transform keeps the order of the coordinates.
pub proof fn lemma_rank_preserves_order(v: Seq<F32Bits>, i: int, j: int)
    requires
        0 <= i < v.len(),
        0 <= j < v.len(),
        sorts_before(v, i, j),
    ensures
        rank_of(v, i) < rank_of(v, j),
{
    let p = before(v, i);
    let q = before(v, j);
    assert(!p(i));
    assert(q(i));
    lemma_count_strict_mono(v.len() as int, p, q, i);
}

/// The rank transform depends only on the order of the coordinates: two
/// vectors whose coordinates compare alike have the same ranks. In particular
/// a strictly increasing map applied to every coordinate changes nothing.
pub proof fn lemma_rank_transform_is_ordinal(u: Seq<F32Bits>, v: Seq<F32Bits>)
    requires
        u.len() == v.len(),
        forall|i: int, j: int|
            0 <= i < u.len() && 0 <= j < u.len() ==> (#[trigger] u[i].value_key()
                < #[trigger] u[j].value_key() <==> v[i].value_key()
                < v[j].value_key()),
    ensures
        ranks_of(u) == ranks_of(v),
{
    assert forall|k: int| 0 <= k < u.len() implies rank_of(u, k) == rank_of(v, k) by {
        let p = before(u, k);
        let q = before(v, k);
        assert forall|j: int| 0 <= j < u.len() implies #[trigger] p(j) == q(j) by {
            assert(u[j].value_key() < u[k].value_key() <==> v[j].value_key() < v[k].value_key());
            assert(u[k].value_key() < u[j].value_key() <==> v[k].value_key() < v[j].value_key());
        }
        lemma_count_ext(u.len() as int, p, q);
    }
    assert(ranks_of(u) =~= ranks_of(v));
}

/// The number of buckets of a `bits`-bit code.
pub open spec fn levels(bits: u8) -> int {
    pow2(bits as nat) as int
}

/// The bucket of `rank` among `2^bits` equal-width bins on `0..d`.
pub open spec fn bucket_of(rank: int, d: int, bits: u8) -> int {
    rank * levels(bits) / d
}

/// The bucket codes of a rank vector.
pub open spec fn bucket_codes(ranks: Seq<u16>, bits: u8) -> Seq<u8> {
    Seq::new(ranks.len(), |i: int| bucket_of(ranks[i] as int, ranks.len() as int, bits) as u8)
}

/// The codes of a row as a function of the coordinate.
pub open spec fn code_fn(codes: Seq<u8>) -> spec_fn(int) -> int {
    |i: int| codes[i] as int
}

/// How many coordinates of `codes` lie in bucket `b`.
pub open spec fn bucket_count(codes: Seq<u8>, b: int) -> int {
    count_eq(codes.len() as int, code_fn(codes), b)
}

/// Every one of the `n` buckets holds exactly `per` coordinates.
pub open spec fn constant_composition(codes: Seq<u8>, n: int, per: int) -> bool {
    forall|b: int| 0 <= b < n ==> #[trigger] bucket_count(codes, b) == per
}

/// The width is one that packs a whole number of codes into a byte.
pub open spec fn packable(bits: u8) -> bool {
    bits == 1 || bits == 2 || bits == 4 || bits == 8
}

/// Codes held by one packed byte.
pub open spec fn codes_per_byte(bits: u8) -> int {
    8int / (bits as int)
}

/// The code of coordinate `i` in a packed row: the first coordinate of a byte
/// occupies its most significant bits.
pub open spec fn code_at(packed: Seq<u8>, i: int, bits: u8) -> int {
    let per = codes_per_byte(bits);
    (packed[i / per] as int / pow2(((per - 1 - i % per) * bits) as nat) as int) % levels(bits)
}

/// The `d` codes of a packed row.
pub open spec fn unpacked(packed: Seq<u8>, d: int, bits: u8) -> Seq<u8> {
    Seq::new(d as nat, |i: int| code_at(packed, i, bits) as u8)
}

/// The bucket counts of the widths in use.
pub proof fn lemma_levels(bits: u8)
    requires
        bits <= 8,
    ensures
        1 <= levels(bits) <= 256,
        bits == 1 ==> levels(bits) == 2,
        bits == 2 ==> levels(bits) == 4,
        bits == 4 ==> levels(bits) == 16,
        bits == 8 ==> levels(bits) == 256,
{
    lemma2_to64();
    lemma_pow2_pos(bits as nat);
    if bits < 8 {
        lemma_pow2_strictly_increases(bits as nat, 8);
    }
}

/// The number of buckets of a `bits`-bit code.
pub fn n_levels(bits: u8) -> (n: u32)
    requires
        bits <= 8,
    ensures
        n == levels(bits),
        1 <= n <= 256,
{
    proof {
        lemma_levels(bits);
        lemma_u32_shl_is_mul(1, bits as u32);
    }
    1u32 << (bits as u32)
}

/// Bucket a single rank into one of `2^bits` equal-width bins on `0..d`.
pub fn rank_to_bucket(rank: u16, d: usize, bits: u8) -> (b: u8)
    requires
        bits <= 8,
        d > 0,
        rank < d,
    ensures
        b == bucket_of(rank as int, d as int, bits),
        b < levels(bits),
        b * d <= rank * pow2(bits as nat) < (b + 1) * d,
{
    let n: u32 = n_levels(bits);
    assert(0 <= (rank * n) as int <= 65535 * 256) by (nonlinear_arith)
        requires
            rank <= 65535,
            1 <= n <= 256,
    ;
    assert(0 <= (rank * n) as int / d as int) by (nonlinear_arith)
        requires
            d > 0,
            0 <= rank * n,
    ;
    assert((rank * n) as int / (d as int) < n) by (nonlinear_arith)
        requires
            rank < d,
            n >= 1,
            d > 0,
    ;
    proof {
        let x = (rank * n) as int;
        let y = d as int;
        lemma_fundamental_div_mod(x, y);
        let q = x / y;
        assert(q * y <= x < (q + 1) * y) by (nonlinear_arith)
            requires
                x == y * q + x % y,
                0 <= x % y < y,
        ;
    }
    ((rank as u64 * n as u64) / d as u64) as u8
}

/// Bucket every entry of a full rank vector.
pub fn bucket_ranks(ranks: &[u16], bits: u8) -> (codes: Vec<u8>)
    requires
        bits <= 8,
        forall|i: int| 0 <= i < ranks.len() ==> #[trigger] ranks[i] < ranks.len(),
    ensures
        codes@ == bucket_codes(ranks@, bits),
        forall|i: int|
            0 <= i < codes.len() ==> #[trigger] codes[i] == bucket_of(
                ranks[i] as int,
                ranks.len() as int,
                bits,
            ),
        forall|i: int| 0 <= i < codes.len() ==> #[trigger] codes[i] < levels(bits),
        forall|i: int|
            0 <= i < codes.len() ==> #[trigger] codes[i] * ranks.len() <= ranks[i] * pow2(
                bits as nat,
            ) < (codes[i] + 1) * ranks.len(),
{
    let d: usize = ranks.len();
    let mut codes: Vec<u8> = Vec::with_capacity(d);
    let mut i: usize = 0;
    while i < d
        invariant
            bits <= 8,
            d == ranks.len(),
            i <= d,
            codes.len() == i,
            forall|t: int| 0 <= t < d ==> #[trigger] ranks[t] < d,
            forall|t: int|
                0 <= t < i ==> #[trigger] codes[t] == bucket_of(ranks[t] as int, d as int, bits),
            forall|t: int| 0 <= t < i ==> #[trigger] codes[t] < levels(bits),
            forall|t: int|
                0 <= t < i ==> #[trigger] codes[t] * d <= ranks[t] * pow2(bits as nat) < (codes[t]
                    + 1) * d,
        decreases d - i,
    {
        codes.push(rank_to_bucket(ranks[i], d, bits));
        i = i + 1;
    }
    assert(codes@ =~= bucket_codes(ranks@, bits));
    codes
}

/// Appending a code as the low digit of `x` shifts the digits of `x` up one
/// place.
proof fn lemma_digit_shift(x: int, c: int, k: int, bits: u8)
    requires
        0 <= x,
        0 <= c < levels(bits),
        0 <= k,
    ensures
        (x * levels(bits) + c) / (pow2(((k + 1) * bits) as nat) as int) == x / (pow2(
            (k * bits) as nat,
        ) as int),
        (x * levels(bits) + c) % levels(bits) == c,
        (x * levels(bits) + c) / levels(bits) == x,
{
    let n = levels(bits);
    let y = x * n + c;
    lemma_pow2_pos(bits as nat);
    assert(0 <= k * bits) by (nonlinear_arith)
        requires
            0 <= k,
            0 <= bits,
    ;
    lemma_pow2_pos((k * bits) as nat);
    lemma_pow2_adds(bits as nat, (k * bits) as nat);
    assert(bits as int + k * bits == (k + 1) * bits) by (nonlinear_arith);
    lemma_fundamental_div_mod_converse(y, n, x, c);
    assert(y >= 0) by (nonlinear_arith)
        requires
            y == x * n + c,
            x >= 0,
            n > 0,
            c >= 0,
    ;
    lemma_div_denominator(y, n, pow2((k * bits) as nat) as int);
}

/// Pack the `per` codes from `start` on into one byte.
fn pack_byte(buckets: &[u8], start: usize, per: usize, bits: u8) -> (byte: u8)
    requires
        packable(bits),
        per == codes_per_byte(bits),
        start + per <= buckets.len(),
        forall|i: int| 0 <= i < buckets.len() ==> #[trigger] buckets[i] < levels(bits),
    ensures
        forall|t: int|
            0 <= t < per ==> #[trigger] buckets[start + t] == (byte as int / pow2(
                ((per - 1 - t) * bits) as nat,
            ) as int) % levels(bits),
{
    let n: u32 = n_levels(bits);
    let mut acc: u32 = 0;
    let mut pos: usize = 0;
    proof {
        lemma2_to64();
        lemma_levels(bits);
    }
    while pos < per
        invariant
            packable(bits),
            per == codes_per_byte(bits),
            start + per <= buckets.len(),
            forall|i: int| 0 <= i < buckets.len() ==> #[trigger] buckets[i] < levels(bits),
            n == levels(bits),
            1 <= n <= 256,
            pos <= per,
            acc < pow2((pos * bits) as nat),
            forall|t: int|
                0 <= t < pos ==> #[trigger] buckets[start + t] == (acc as int / pow2(
                    ((pos - 1 - t) * bits) as nat,
                ) as int) % levels(bits),
        decreases per - pos,
    {
        let c: u8 = buckets[start + pos];
        let ghost before = acc as int;
        proof {
            assert(pos * bits + bits == (pos + 1) * bits) by (nonlinear_arith);
            assert(0 <= pos * bits) by (nonlinear_arith);
            assert((pos + 1) * bits <= 8) by (nonlinear_arith)
                requires
                    pos + 1 <= per,
                    per * bits <= 8,
                    bits >= 0,
            ;
            lemma_pow2_adds((pos * bits) as nat, bits as nat);
            lemma_pow2_pos((pos * bits) as nat);
            assert(before * n + c < pow2(((pos + 1) * bits) as nat)) by (nonlinear_arith)
                requires
                    before + 1 <= pow2((pos * bits) as nat),
                    c < n,
                    n > 0,
                    pow2(((pos + 1) * bits) as nat) == pow2((pos * bits) as nat) * n,
            ;
            lemma2_to64();
            if (pos + 1) * bits < 8 {
                lemma_pow2_strictly_increases(((pos + 1) * bits) as nat, 8);
            }
            assert(before * n >= 0) by (nonlinear_arith)
                requires
                    before >= 0,
                    n >= 0,
            ;
            assert forall|t: int| 0 <= t < pos + 1 implies #[trigger] buckets[start + t] == (
            (before * n + c) / (pow2(((pos - t) * bits) as nat) as int)) % levels(bits) by {
                if t == pos {
                    lemma_digit_shift(before, c as int, 0, bits);
                    assert((pos - t) * bits == 0);
                    assert((before * n + c) / 1 == before * n + c);
                } else {
                    lemma_digit_shift(before, c as int, pos - 1 - t, bits);
                }
            }
        }
        acc = acc * n + c as u32;
        pos = pos + 1;
    }
    proof {
        assert(per * bits == 8);
        lemma2_to64();
    }
    acc as u8
}

/// Pack bucket codes into a dense byte stream, the first code of each byte in
/// its most significant bits.
pub fn pack_buckets(buckets: &[u8], bits: u8) -> (packed: Vec<u8>)
    requires
        packable(bits),
        buckets.len() as int % codes_per_byte(bits) == 0,
        forall|i: int| 0 <= i < buckets.len() ==> #[trigger] buckets[i] < levels(bits),
    ensures
        packed.len() * codes_per_byte(bits) == buckets.len(),
        forall|i: int|
            0 <= i < buckets.len() ==> code_at(packed@, i, bits) == #[trigger] buckets[i],
        unpacked(packed@, buckets.len() as int, bits) == buckets@,
{
    let per: usize = (8 / bits) as usize;
    let n_bytes: usize = buckets.len() / per;
    let mut packed: Vec<u8> = Vec::with_capacity(n_bytes);
    let mut j: usize = 0;
    proof {
        lemma_fundamental_div_mod(buckets.len() as int, per as int);
        assert(n_bytes * per == per * n_bytes) by (nonlinear_arith);
    }
    while j < n_bytes
        invariant
            packable(bits),
            per == codes_per_byte(bits),
            n_bytes * per == buckets.len(),
            forall|i: int| 0 <= i < buckets.len() ==> #[trigger] buckets[i] < levels(bits),
            j <= n_bytes,
            packed.len() == j,
            forall|i: int|
                0 <= i < j * per ==> code_at(packed@, i, bits) == #[trigger] buckets[i],
        decreases n_bytes - j,
    {
        assert(j * per + per == (j + 1) * per) by (nonlinear_arith);
        assert((j + 1) * per <= n_bytes * per) by (nonlinear_arith)
            requires
                j + 1 <= n_bytes,
                per >= 0,
        ;
        let byte: u8 = pack_byte(buckets, j * per, per, bits);
        let ghost prev = packed@;
        packed.push(byte);
        proof {
            assert forall|i: int| 0 <= i < (j + 1) * per implies code_at(packed@, i, bits)
                == #[trigger] buckets[i] by {
                if i < j * per {
                    assert(0 <= i / per as int && i / (per as int) < j) by (nonlinear_arith)
                        requires
                            0 <= i < j * per,
                            per > 0,
                    ;
                    assert(code_at(prev, i, bits) == buckets[i]);
                } else {
                    let t = i - j * per;
                    lemma_fundamental_div_mod_converse(i, per as int, j as int, t);
                    assert(buckets[j * per + t] == buckets[i]);
                }
            }
        }
        j = j + 1;
    }
    assert(unpacked(packed@, buckets.len() as int, bits) =~= buckets@);
    packed
}

/// Unpack a stream of `bits`-bit bucket codes.
pub fn unpack_buckets(packed: &[u8], d: usize, bits: u8) -> (codes: Vec<u8>)
    requires
        packable(bits),
        packed.len() * codes_per_byte(bits) == d,
    ensures
        codes@ == unpacked(packed@, d as int, bits),
        forall|i: int| 0 <= i < d ==> #[trigger] codes[i] == code_at(packed@, i, bits),
        forall|i: int| 0 <= i < d ==> #[trigger] codes[i] < levels(bits),
{
    let per: usize = (8 / bits) as usize;
    let n: u32 = n_levels(bits);
    let mut codes: Vec<u8> = Vec::with_capacity(d);
    let mut i: usize = 0;
    while i < d
        invariant
            packable(bits),
            per == codes_per_byte(bits),
            packed.len() * per == d,
            n == levels(bits),
            1 <= n <= 256,
            i <= d,
            codes.len() == i,
            forall|t: int| 0 <= t < i ==> #[trigger] codes[t] == code_at(packed@, t, bits),
            forall|t: int| 0 <= t < i ==> #[trigger] codes[t] < levels(bits),
        decreases d - i,
    {
        let at_byte: usize = i / per;
        let shift: usize = (per - 1 - i % per) * bits as usize;
        proof {
            assert(i / per < packed.len()) by (nonlinear_arith)
                requires
                    i < packed.len() * per,
                    per > 0,
            ;
            assert(per * bits == 8);
            assert(0 <= shift < 8) by (nonlinear_arith)
                requires
                    shift == (per - 1 - i % per) * bits,
                    per * bits == 8,
                    per > 0,
                    bits > 0,
                    0 <= i % per < per,
            ;
            lemma_u8_shr_is_div(packed[at_byte as int], shift as u8);
        }
        let high: u8 = packed[at_byte] >> (shift as u8);
        let code: u32 = high as u32 % n;
        codes.push(code as u8);
        i = i + 1;
    }
    assert(codes@ =~= unpacked(packed@, d as int, bits));
    codes
}

/// Bytes per packed document of `d` coordinates at `bits` bits each.
pub fn rankquant_bytes_per_vec(d: usize, bits: u8) -> (n: usize)
    requires
        packable(bits),
        d as int % codes_per_byte(bits) == 0,
    ensures
        n == d * bits / 8int,
        n * codes_per_byte(bits) == d,
{
    let per: usize = (8 / bits) as usize;
    proof {
        lemma_fundamental_div_mod(d as int, per as int);
        assert(per * bits == 8);
        let q = d as int / per as int;
        assert(d * bits == q * 8) by (nonlinear_arith)
            requires
                d == per * q,
                per * bits == 8,
        ;
        assert(q * per == per * q) by (nonlinear_arith);
    }
    d / per
}

/// Twice the distance of a bucket from the middle of the bucket range.
pub fn bucket_centre(bucket: u8, bits: u8) -> (twice: i32)
    requires
        bits <= 8,
        bucket < levels(bits),
    ensures
        twice == 2 * bucket - (levels(bits) - 1),
{
    2 * bucket as i32 - (n_levels(bits) as i32 - 1)
}

/// Twelve times the squared norm of a mean-centred rank vector of length `d`.
pub fn rank_norm(d: usize) -> (n: u128)
    requires
        d * (d * d - 1) <= u128::MAX,
    ensures
        n == d * (d * d - 1),
{
    if d == 0 {
        return 0;
    }
    let x: u128 = d as u128;
    proof {
        let y = x as int;
        assert(1 <= y * y <= 0xFFFF_FFFF_FFFF_FFFF * 0xFFFF_FFFF_FFFF_FFFF && 0 <= y * (y * y - 1))
            by (nonlinear_arith)
            requires
                1 <= y <= 0xFFFF_FFFF_FFFF_FFFF,
        ;
    }
    x * (x * x - 1)
}

/// Twelve times the squared norm of a mean-centred code vector of length `d`
/// whose buckets are equally occupied.
pub fn rankquant_norm(d: usize, bits: u8) -> (n: u128)
    requires
        packable(bits),
    ensures
        n == d * (levels(bits) * levels(bits) - 1),
{
    let l: u128 = n_levels(bits) as u128;
    proof {
        let y = l as int;
        let e = d as int;
        assert(1 <= y * y <= 65536) by (nonlinear_arith)
            requires
                1 <= y <= 256,
        ;
        assert(0 <= e * (y * y - 1) <= 0x1_0000_0000_0000_0000 * 65536) by (nonlinear_arith)
            requires
                0 <= e <= 0x1_0000_0000_0000_0000,
                1 <= y * y <= 65536,
        ;
    }
    d as u128 * (l * l - 1)
}

/// Two packed rows of equal length that hold the same codes are the same
/// bytes, so packing undoes unpacking as well as being undone by it.
pub proof fn lemma_packed_bytes_determined(p: Seq<u8>, q: Seq<u8>, bits: u8)
    requires
        packable(bits),
        p.len() == q.len(),
        forall|i: int|
            0 <= i < p.len() * codes_per_byte(bits) ==> #[trigger] code_at(p, i, bits) == code_at(
                q,
                i,
                bits,
            ),
    ensures
        p == q,
{
    let per = codes_per_byte(bits);
    assert forall|j: int| 0 <= j < p.len() implies p[j] == q[j] by {
        assert forall|t: int| 0 <= t < per implies #[trigger] digit(p[j] as int, t, bits) == digit(
            q[j] as int,
            t,
            bits,
        ) by {
            let i = j * per + (per - 1 - t);
            lemma_fundamental_div_mod_converse(i, per, j, per - 1 - t);
            assert(0 <= i < p.len() * per) by (nonlinear_arith)
                requires
                    i == j * per + (per - 1 - t),
                    0 <= j < p.len(),
                    0 <= t < per,
            ;
            assert(code_at(p, i, bits) == code_at(q, i, bits));
        }
        lemma2_to64();
        assert(per * bits == 8);
        lemma_digits_determine(p[j] as int, q[j] as int, per, bits);
    }
    assert(p =~= q);
}

/// The `t`-th base-`2^bits` digit of `x`, from the low end.
spec fn digit(x: int, t: int, bits: u8) -> int {
    (x / pow2((t * bits) as nat) as int) % levels(bits)
}

proof fn lemma_digits_determine(x: int, y: int, k: int, bits: u8)
    requires
        packable(bits),
        0 <= k,
        0 <= x < pow2((k * bits) as nat),
        0 <= y < pow2((k * bits) as nat),
        forall|t: int| 0 <= t < k ==> #[trigger] digit(x, t, bits) == digit(y, t, bits),
    ensures
        x == y,
    decreases k,
{
    lemma2_to64();
    lemma_levels(bits);
    if k > 0 {
        let n = levels(bits);
        assert(0 <= (k - 1) * bits && (k - 1) * bits + bits == k * bits) by (nonlinear_arith)
            requires
                k >= 1,
                bits >= 0,
        ;
        lemma_pow2_adds(((k - 1) * bits) as nat, bits as nat);
        let m = pow2(((k - 1) * bits) as nat) as int;
        assert(digit(x, 0, bits) == digit(y, 0, bits));
        assert(x / 1 == x && y / 1 == y);
        lemma_fundamental_div_mod(x, n);
        lemma_fundamental_div_mod(y, n);
        let xq = x / n;
        let yq = y / n;
        assert(0 <= xq < m) by (nonlinear_arith)
            requires
                x == n * xq + x % n,
                0 <= x % n < n,
                0 <= x < m * n,
        ;
        assert(0 <= yq < m) by (nonlinear_arith)
            requires
                y == n * yq + y % n,
                0 <= y % n < n,
                0 <= y < m * n,
        ;
        assert forall|t: int| 0 <= t < k - 1 implies #[trigger] digit(xq, t, bits) == digit(
            yq,
            t,
            bits,
        ) by {
            assert(digit(x, t + 1, bits) == digit(y, t + 1, bits));
            lemma_digit_shift(xq, x % n, t, bits);
            lemma_digit_shift(yq, y % n, t, bits);
            assert(xq * n == n * xq) by (nonlinear_arith);
            assert(yq * n == n * yq) by (nonlinear_arith);
        }
        lemma_digits_determine(xq, yq, k - 1, bits);
    }
}

/// Splitting a permutation of `0..d` into `n` equal-width bins puts exactly
/// `d / n` coordinates in every bin, when `n` divides `d`.
pub proof fn lemma_equal_width_bins(s: Seq<int>, n: int, codes: Seq<u8>)
    requires
        is_permutation(s),
        0 < n,
        0 < s.len(),
        s.len() as int % n == 0,
        codes.len() == s.len(),
        forall|i: int| 0 <= i < s.len() ==> #[trigger] codes[i] == s[i] * n / (s.len() as int),
    ensures
        constant_composition(codes, n, s.len() as int / n),
        forall|i: int| 0 <= i < s.len() ==> #[trigger] codes[i] < n,
{
    let d = s.len() as int;
    let m = d / n;
    lemma_fundamental_div_mod(d, n);
    assert(m > 0) by (nonlinear_arith)
        requires
            d == n * m,
            d > 0,
            n > 0,
    ;
    assert(d == m * n) by (nonlinear_arith)
        requires
            d == n * m,
    ;
    assert forall|i: int| 0 <= i < d implies #[trigger] codes[i] == s[i] / m && s[i] / m < n by {
        let r = s[i];
        lemma_bucket_is_quotient(r, m, n);
        assert(r / m < n) by (nonlinear_arith)
            requires
                0 <= r < m * n,
                m > 0,
        ;
    }
    assert forall|b: int| 0 <= b < n implies #[trigger] bucket_count(codes, b) == m by {
        let p = |r: int| b * m <= r < (b + 1) * m;
        let q = holds_after(p, at(s));
        assert forall|i: int| 0 <= i < d implies (#[trigger] q(i) <==> code_fn(codes)(i) == b) by {
            let r = s[i];
            assert(codes[i] == r / m);
            lemma_fundamental_div_mod(r, m);
            let c = r / m;
            assert((b * m <= r < (b + 1) * m) <==> c == b) by (nonlinear_arith)
                requires
                    r == m * c + r % m,
                    0 <= r % m < m,
                    m > 0,
            ;
        }
        lemma_count_eq_where(d, code_fn(codes), b, q);
        lemma_count_permuted(s, p);
        assert(0 <= b * m && (b + 1) * m == b * m + m) by (nonlinear_arith)
            requires
                b >= 0,
                m > 0,
        ;
        assert((b + 1) * m <= d) by (nonlinear_arith)
            requires
                b + 1 <= n,
                d == n * m,
                m > 0,
        ;
        lemma_count_window(d, b * m, m, p);
    }
}

/// Bucketing a permutation of `0..d` puts exactly `d / 2^bits` coordinates in
/// every bucket, when `2^bits` divides `d`.
pub proof fn lemma_buckets_constant_composition(ranks: Seq<u16>, bits: u8)
    requires
        bits <= 8,
        ranks.len() > 0,
        ranks.len() as int % levels(bits) == 0,
        is_rank_row(ranks),
    ensures
        constant_composition(
            bucket_codes(ranks, bits),
            levels(bits),
            ranks.len() as int / levels(bits),
        ),
{
    lemma_levels(bits);
    let n = levels(bits);
    let d = ranks.len() as int;
    let s = rank_ints(ranks);
    let codes = bucket_codes(ranks, bits);
    assert forall|i: int| 0 <= i < d implies #[trigger] codes[i] == s[i] * n / d by {
        let r = s[i];
        assert(0 <= r * n / d && r * n / d < n) by (nonlinear_arith)
            requires
                0 <= r < d,
                n > 0,
        ;
    }
    lemma_equal_width_bins(s, n, codes);
}

/// `r * n / (m * n)` is `r / m`.
proof fn lemma_bucket_is_quotient(r: int, m: int, n: int)
    requires
        0 <= r,
        0 < m,
        0 < n,
    ensures
        r * n / (m * n) == r / m,
{
    lemma_fundamental_div_mod(r, m);
    let q = r / m;
    assert(r * n == q * (m * n) + (r % m) * n) by (nonlinear_arith)
        requires
            r == m * q + r % m,
    ;
    assert(0 <= (r % m) * n < m * n) by (nonlinear_arith)
        requires
            0 <= r % m < m,
            n > 0,
    ;
    lemma_fundamental_div_mod_converse(r * n, m * n, q, (r % m) * n);
}

/// Twice the distance of a value from the middle of `0..=top`, squared.
pub open spec fn centred_square(top: int) -> spec_fn(int) -> int {
    |r: int| (2 * r - top) * (2 * r - top)
}

proof fn lemma_centred_square_sum(m: int, top: int)
    requires
        0 <= m,
    ensures
        3 * sum_to(m, centred_square(top)) == 2 * m * (m - 1) * (2 * m - 1) - 6 * top * m * (m - 1)
            + 3 * m * top * top,
    decreases m,
{
    if m > 0 {
        lemma_centred_square_sum(m - 1, top);
        let k = m - 1;
        let q = top * k;
        let t = top * top;
        assert(2 * (k + 1) * k * (2 * k + 1) - 2 * k * (k - 1) * (2 * k - 1) == 12 * (k * k))
            by (nonlinear_arith);
        assert(6 * top * (k + 1) * k - 6 * top * k * (k - 1) == 12 * q) by (nonlinear_arith)
            requires
                q == top * k,
        ;
        assert(3 * (k + 1) * top * top - 3 * k * top * top == 3 * t) by (nonlinear_arith)
            requires
                t == top * top,
        ;
        assert((2 * k - top) * (2 * k - top) == 4 * (k * k) - 4 * q + t) by (nonlinear_arith)
            requires
                q == top * k,
                t == top * top,
        ;
        assert(centred_square(top)(k) == (2 * k - top) * (2 * k - top));
    } else {
        assert(2 * m * (m - 1) * (2 * m - 1) - 6 * top * m * (m - 1) + 3 * m * top * top == 0)
            by (nonlinear_arith)
            requires
                m == 0,
        ;
    }
}

/// The full range `0..d`, centred and doubled, has squared length
/// `d * (d^2 - 1) / 3`.
proof fn lemma_full_range_norm(d: int)
    requires
        0 <= d,
    ensures
        3 * sum_to(d, centred_square(d - 1)) == d * (d * d - 1),
{
    lemma_centred_square_sum(d, d - 1);
    assert(2 * d * (d - 1) * (2 * d - 1) - 6 * (d - 1) * d * (d - 1) + 3 * d * (d - 1) * (d - 1)
        == d * (d * d - 1)) by (nonlinear_arith);
}

/// Every rank vector of dimension `d` has the same centred norm: doubling the
/// centred ranks, the squares sum to `d * (d^2 - 1) / 3`, so the squared norm
/// itself is `d * (d^2 - 1) / 12`.
pub proof fn lemma_rank_norm_is_analytic(ranks: Seq<u16>)
    requires
        is_rank_row(ranks),
    ensures
        3 * sum_to(
            ranks.len() as int,
            compose(centred_square(ranks.len() - 1), at(rank_ints(ranks))),
        ) == ranks.len() * (ranks.len() * ranks.len() - 1),
{
    let d = ranks.len() as int;
    lemma_sum_permuted(rank_ints(ranks), centred_square(d - 1));
    lemma_full_range_norm(d);
}

/// Every constant-composition code of dimension `d` over `n` buckets has the
/// same centred norm: doubling the centred codes, the squares sum to
/// `d * (n^2 - 1) / 3`.
pub proof fn lemma_bucket_norm_is_analytic(codes: Seq<u8>, n: int, per: int)
    requires
        0 < n,
        codes.len() == n * per,
        constant_composition(codes, n, per),
        forall|i: int| 0 <= i < codes.len() ==> #[trigger] codes[i] < n,
    ensures
        3 * sum_to(codes.len() as int, compose(centred_square(n - 1), code_fn(codes)))
            == codes.len() * (n * n - 1),
{
    let d = codes.len() as int;
    let w = centred_square(n - 1);
    let c = code_fn(codes);
    lemma_group_sum(d, n, c, w);
    let f = weighted_fibers(d, c, w);
    assert forall|b: int| 0 <= b < n implies #[trigger] f(b) == per * w(b) by {
        assert(bucket_count(codes, b) == per);
        let k = count_eq(d, c, b);
        assert(w(b) * k == per * w(b)) by (nonlinear_arith)
            requires
                k == per,
        ;
    }
    lemma_sum_scale(n, per, w, f);
    lemma_full_range_norm(n);
    let total = sum_to(n, w);
    assert(3 * (per * total) == d * (n * n - 1)) by (nonlinear_arith)
        requires
            3 * total == n * (n * n - 1),
            d == n * per,
    ;
}

} // verus!
