//! Bits of words, sign and top-coordinate patterns, overlaps and distances.

use vstd::arithmetic::div_mod::lemma_fundamental_div_mod;
use vstd::arithmetic::power2::pow2;
use vstd::bits::lemma_u64_shr_is_div;
use vstd::prelude::*;

use crate::bitmap::{
    ahead, bitmap_docs, lemma_document_weight, lemma_query_weight, overlap_key, overlap_scores,
    query_flags, top_flags, valid_bitmap,
};
use crate::bits::{both_set, differing, row_bit, row_bits, row_flags, words_for};
use crate::const_weight_bitmap::{
    both_flags, fiber, flag_fn, group_overlap, lemma_tail_beyond_weight, overlap_of, range_flags,
    tail, tail_term, weight_of,
};
use crate::counting::{
    count_where, lemma_count_all, lemma_count_bounds, lemma_count_disjoint, lemma_count_ext,
    lemma_count_strict_mono, lemma_sum_ext, sum_to,
};
use crate::float_bits::F32Bits;
use crate::laws::floats::{
    law_classes_of_patterns, law_counts_are_exact, law_keys_order_numbers, number,
};
use crate::laws::ranks::law_ranks_follow_values;
use crate::multi_bucket::{banded_weight, cell, encodes, falling, meets, slot, tabled, valid_multi};
use crate::rank::{lemma_rank_transform_is_permutation, rank_of, ranks_of};
use crate::rows::{lemma_row_inside, row};
use crate::sign_bitmap::{
    differing_flags, hamming, hamming_key, packed_docs, sign_flags, valid_sign_dim,
};

verus! {

/// Bit `j` of a row of words is set: the word `j / 64`, divided by two to the
/// power of `j % 64`, is odd.
pub open spec fn odd_at(words: Seq<u64>, j: int) -> bool {
    (words[j / 64] as int / (pow2((j % 64) as nat) as int)) % 2 == 1
}

/// The bits of a row are the binary digits of its words, from the low end of
/// the first word on.
pub proof fn law_row_bits_are_digits(words: Seq<u64>, j: int)
    requires
        0 <= j < 64 * words.len(),
    ensures
        row_bit(words, j) <==> odd_at(words, j),
{
    let w = words[j / 64];
    let k = (j % 64) as u64;
    lemma_u64_shr_is_div(w, k);
    let x = w >> k;
    assert((x & 1u64 == 1u64) == (x % 2 == 1)) by (bit_vector);
}

/// The flags of a row are its bits, and a row has as many words as its bits
/// need.
pub proof fn law_row_flags(words: Seq<u64>, dim: int)
    requires
        0 <= dim <= 64 * words.len(),
    ensures
        row_flags(words, dim).len() == dim,
        forall|j: int| 0 <= j < dim ==> #[trigger] row_flags(words, dim)[j] == odd_at(words, j),
        64 * words_for(dim) - 64 < dim <= 64 * words_for(dim),
{
    assert forall|j: int| 0 <= j < dim implies #[trigger] row_flags(words, dim)[j] == odd_at(
        words,
        j,
    ) by {
        law_row_bits_are_digits(words, j);
    }
}

/// The popcounts of a row, of the bits that two rows share and of those in
/// which they differ count binary digits.
pub proof fn law_popcounts_count_digits(a: Seq<u64>, b: Seq<u64>)
    requires
        a.len() == b.len(),
    ensures
        count_where(64 * a.len() as int, row_bits(a)) == count_where(
            64 * a.len() as int,
            |j: int| odd_at(a, j),
        ),
        count_where(64 * a.len() as int, both_set(a, b)) == count_where(
            64 * a.len() as int,
            |j: int| odd_at(a, j) && odd_at(b, j),
        ),
        count_where(64 * a.len() as int, differing(a, b)) == count_where(
            64 * a.len() as int,
            |j: int| odd_at(a, j) != odd_at(b, j),
        ),
{
    let n = 64 * a.len() as int;
    let p = |j: int| odd_at(a, j);
    let q = |j: int| odd_at(a, j) && odd_at(b, j);
    let r = |j: int| odd_at(a, j) != odd_at(b, j);
    assert forall|j: int| 0 <= j < n implies row_bits(a)(j) == #[trigger] p(j) && both_set(a, b)(j)
        == q(j) && differing(a, b)(j) == r(j) by {
        law_row_bits_are_digits(a, j);
        law_row_bits_are_digits(b, j);
    }
    assert forall|j: int| 0 <= j < n implies #[trigger] row_bits(a)(j) == p(j) by {}
    assert forall|j: int| 0 <= j < n implies #[trigger] both_set(a, b)(j) == q(j) by {
        assert(p(j) == row_bits(a)(j));
    }
    assert forall|j: int| 0 <= j < n implies #[trigger] differing(a, b)(j) == r(j) by {
        assert(p(j) == row_bits(a)(j));
    }
    lemma_count_ext(n, row_bits(a), p);
    lemma_count_ext(n, both_set(a, b), q);
    lemma_count_ext(n, differing(a, b), r);
}

proof fn lemma_packed_row(words: Seq<u64>, dim: int, n: int, i: int, j: int)
    requires
        0 < dim,
        dim % 64 == 0,
        words.len() == n * (dim / 64),
        0 <= i < n,
        0 <= j < dim,
    ensures
        0 <= i * dim + j < 64 * words.len(),
        row_bit(row(words, dim / 64, i), j) == odd_at(words, i * dim + j),
{
    let w = dim / 64;
    lemma_fundamental_div_mod(dim, 64);
    lemma_row_inside(i, n, w);
    let r = row(words, w, i);
    law_row_bits_are_digits(r, j);
    assert(i * dim == 64 * (i * w)) by (nonlinear_arith)
        requires
            dim == 64 * w,
    ;
    assert((i * dim + j) / 64 == i * w + j / 64 && (i * dim + j) % 64 == j % 64);
    assert(r[j / 64] == words[i * w + j / 64]);
}

/// The stored patterns of a bitmap index and of a sign bitmap are the bits of
/// their buffer, document after document.
pub proof fn law_stored_patterns(words: Seq<u64>, dim: int, n: int, i: int, j: int)
    requires
        0 < dim,
        dim % 64 == 0,
        words.len() == n * (dim / 64),
        0 <= i < n,
        0 <= j < dim,
    ensures
        bitmap_docs(words, dim, n).len() == n,
        bitmap_docs(words, dim, n)[i].len() == dim,
        bitmap_docs(words, dim, n)[i][j] <==> odd_at(words, i * dim + j),
        packed_docs(words, dim, n).len() == n,
        packed_docs(words, dim, n)[i].len() == dim,
        packed_docs(words, dim, n)[i][j] <==> odd_at(words, i * dim + j),
{
    lemma_packed_row(words, dim, n, i, j);
}

/// A sign pattern marks exactly the coordinates that are numbers above zero.
pub proof fn law_signs_of_numbers(v: Seq<F32Bits>)
    requires
        forall|j: int| 0 <= j < v.len() ==> (#[trigger] v[j]).finite(),
    ensures
        sign_flags(v).len() == v.len(),
        forall|j: int| 0 <= j < v.len() ==> (#[trigger] sign_flags(v)[j] <==> number(v[j]) > 0),
{
    assert forall|j: int| 0 <= j < v.len() implies (#[trigger] sign_flags(v)[j] <==> number(v[j])
        > 0) by {
        law_classes_of_patterns(v[j]);
    }
}

/// The distance of two patterns counts the positions in which they differ, and
/// flipping one position moves it by one.
pub proof fn law_hamming_counts_differences(a: Seq<bool>, b: Seq<bool>, j: int)
    requires
        a.len() == b.len(),
        0 <= j < a.len(),
    ensures
        hamming(a, b) == count_where(a.len() as int, |i: int| a[i] != b[i]),
        hamming(a.update(j, !a[j]), b) == hamming(a, b) + if a[j] == b[j] {
            1int
        } else {
            -1int
        },
{
    let n = a.len() as int;
    let p = |i: int| a[i] != b[i];
    lemma_count_ext(n, differing_flags(a, b), p);
    let c = a.update(j, !a[j]);
    lemma_count_flipped(n, differing_flags(a, b), differing_flags(c, b), j);
}

proof fn lemma_count_flipped(
    n: int,
    p: spec_fn(int) -> bool,
    q: spec_fn(int) -> bool,
    j: int,
)
    requires
        0 <= j < n,
        forall|i: int| 0 <= i < n && i != j ==> #[trigger] p(i) == q(i),
        p(j) != q(j),
    ensures
        count_where(n, q) == count_where(n, p) + if q(j) {
            1int
        } else {
            -1int
        },
    decreases n,
{
    if j == n - 1 {
        lemma_count_ext(n - 1, p, q);
    } else {
        assert(p(n - 1) == q(n - 1));
        lemma_count_flipped(n - 1, p, q, j);
    }
}

/// The agreement of a query and a document is the number of coordinates in
/// which both or neither are above zero.
pub proof fn law_sign_agreement(v: Seq<F32Bits>, q: Seq<F32Bits>)
    requires
        v.len() == q.len(),
        forall|j: int| 0 <= j < v.len() ==> (#[trigger] v[j]).finite(),
        forall|j: int| 0 <= j < q.len() ==> (#[trigger] q[j]).finite(),
    ensures
        v.len() - hamming(sign_flags(v), sign_flags(q)) == count_where(
            v.len() as int,
            |j: int| (number(v[j]) > 0) == (number(q[j]) > 0),
        ),
{
    let n = v.len() as int;
    let p = |j: int| (number(v[j]) > 0) == (number(q[j]) > 0);
    let d = differing_flags(sign_flags(v), sign_flags(q));
    let all = |j: int| true;
    law_signs_of_numbers(v);
    law_signs_of_numbers(q);
    assert forall|j: int| 0 <= j < n implies #[trigger] p(j) == !d(j) by {
        assert(sign_flags(v)[j] == (number(v[j]) > 0));
        assert(sign_flags(q)[j] == (number(q[j]) > 0));
    }
    lemma_count_disjoint(n, p, d, all);
    lemma_count_all(n, all);
}

/// The keys by which a sign bitmap picks documents are distances: the lowest
/// is that of the document that agrees with the query most often.
pub proof fn law_sign_keys(docs: Seq<Seq<bool>>, q: Seq<bool>, i: int)
    ensures
        hamming_key(docs, q)(i) == count_where(
            docs[i].len() as int,
            |j: int| docs[i][j] != q[j],
        ),
{
    let p = |j: int| docs[i][j] != q[j];
    lemma_count_ext(docs[i].len() as int, differing_flags(docs[i], q), p);
}

/// The pattern of a document marks `n_top` coordinates, and none that it leaves
/// out is a larger number than one that it marks; among equal numbers it marks
/// the later ones.
pub proof fn law_documents_mark_largest(v: Seq<F32Bits>, n_top: int, j: int, k: int)
    requires
        v.len() <= 65535,
        forall|i: int| 0 <= i < v.len() ==> (#[trigger] v[i]).finite(),
        0 <= n_top <= v.len(),
        0 <= j < v.len(),
        0 <= k < v.len(),
    ensures
        top_flags(v, n_top).len() == v.len(),
        count_where(v.len() as int, |i: int| top_flags(v, n_top)[i]) == n_top,
        top_flags(v, n_top)[j] && !top_flags(v, n_top)[k] ==> number(v[k]) < number(v[j]) || (
        number(v[k]) == number(v[j]) && k < j),
{
    let f = top_flags(v, n_top);
    lemma_document_weight(v, n_top);
    lemma_count_ext(v.len() as int, flag_fn(f), |i: int| f[i]);
    law_ranks_follow_values(v);
    lemma_rank_transform_is_permutation(v);
    let r = ranks_of(v);
    assert(r[j] == rank_of(v, j) && r[k] == rank_of(v, k));
    if f[j] && !f[k] {
        assert(r[k] < r[j]);
    }
}

/// The pattern of a query marks `n_top` coordinates, and none that it leaves
/// out is a larger number than one that it marks; among equal numbers it marks
/// the earlier ones.
pub proof fn law_queries_mark_largest(q: Seq<F32Bits>, n_top: int, j: int, k: int)
    requires
        forall|i: int| 0 <= i < q.len() ==> (#[trigger] q[i]).finite(),
        0 <= n_top <= q.len(),
        0 <= j < q.len(),
        0 <= k < q.len(),
    ensures
        query_flags(q, n_top).len() == q.len(),
        count_where(q.len() as int, |i: int| query_flags(q, n_top)[i]) == n_top,
        query_flags(q, n_top)[j] && !query_flags(q, n_top)[k] ==> number(q[k]) < number(q[j]) || (
        number(q[k]) == number(q[j]) && j < k),
{
    let f = query_flags(q, n_top);
    let n = q.len() as int;
    lemma_query_weight(q, n_top);
    lemma_count_ext(n, flag_fn(f), |i: int| f[i]);
    law_keys_order_numbers(q[j], q[k]);
    law_keys_order_numbers(q[k], q[j]);
    if f[j] && !f[k] && !(number(q[k]) < number(q[j]) || (number(q[k]) == number(q[j]) && j < k)) {
        if j == k {
            assert(false);
        }
        assert(ahead(q, j)(k));
        lemma_count_strict_mono(n, ahead(q, k), ahead(q, j), k);
        assert(false);
    }
}

/// Where the coordinates of a vector are all different numbers, its pattern as
/// a query is its pattern as a document.
pub proof fn law_query_is_document_without_ties(v: Seq<F32Bits>, n_top: int)
    requires
        v.len() <= 65535,
        forall|i: int| 0 <= i < v.len() ==> (#[trigger] v[i]).finite(),
        0 <= n_top <= v.len(),
        forall|i: int, j: int|
            0 <= i < j < v.len() ==> number(#[trigger] v[i]) != number(#[trigger] v[j]),
    ensures
        query_flags(v, n_top) == top_flags(v, n_top),
{
    let a = query_flags(v, n_top);
    let b = top_flags(v, n_top);
    let n = v.len() as int;
    if n > 0 {
        law_queries_mark_largest(v, n_top, 0, 0);
        law_documents_mark_largest(v, n_top, 0, 0);
    }
    let p = |i: int| a[i];
    let q = |i: int| b[i];
    assert forall|j: int| 0 <= j < n implies a[j] == b[j] by {
        if a[j] != b[j] {
            if a[j] {
                assert forall|k: int| 0 <= k < n && #[trigger] q(k) implies p(k) by {
                    law_queries_mark_largest(v, n_top, j, k);
                    law_documents_mark_largest(v, n_top, k, j);
                    if !p(k) {
                        assert(number(v[k]) != number(v[j]));
                    }
                }
                lemma_count_strict_mono(n, q, p, j);
            } else {
                assert forall|k: int| 0 <= k < n && #[trigger] p(k) implies q(k) by {
                    law_queries_mark_largest(v, n_top, k, j);
                    law_documents_mark_largest(v, n_top, j, k);
                    if !q(k) {
                        assert(number(v[k]) != number(v[j]));
                    }
                }
                lemma_count_strict_mono(n, p, q, j);
            }
        }
    }
    assert(a =~= b);
}

/// The overlap of two patterns counts the positions set in both, the weight of
/// one the positions set; setting a position that the other has adds one.
pub proof fn law_overlap_counts_shared(a: Seq<bool>, b: Seq<bool>, j: int)
    requires
        a.len() == b.len(),
        0 <= j < a.len(),
    ensures
        weight_of(a) == count_where(a.len() as int, |i: int| a[i]),
        overlap_of(a, b) == count_where(a.len() as int, |i: int| a[i] && b[i]),
        weight_of(a.update(j, true)) == weight_of(a.update(j, false)) + 1,
        overlap_of(a.update(j, true), b) == overlap_of(a.update(j, false), b) + if b[j] {
            1int
        } else {
            0int
        },
{
    let n = a.len() as int;
    lemma_count_ext(n, flag_fn(a), |i: int| a[i]);
    lemma_count_ext(n, both_flags(a, b), |i: int| a[i] && b[i]);
    let on = a.update(j, true);
    let off = a.update(j, false);
    lemma_count_flipped(n, flag_fn(off), flag_fn(on), j);
    if b[j] {
        lemma_count_flipped(n, both_flags(off, b), both_flags(on, b), j);
    } else {
        lemma_count_ext(n, both_flags(off, b), both_flags(on, b));
    }
}

/// The keys and scores of a bitmap search count shared coordinates: a key falls
/// by one, and a score rises by exactly one as a number, with each of them.
pub proof fn law_overlap_keys_and_scores(docs: Seq<Seq<bool>>, q: Seq<bool>, i: int)
    requires
        q.len() <= 65535,
        0 <= i < docs.len(),
        docs[i].len() == q.len(),
    ensures
        overlap_key(docs, q)(i) == q.len() - count_where(
            q.len() as int,
            |j: int| docs[i][j] && q[j],
        ),
        overlap_scores(docs, q).len() == docs.len(),
        overlap_scores(docs, q)[i].finite(),
        number(overlap_scores(docs, q)[i]) == count_where(
            q.len() as int,
            |j: int| docs[i][j] && q[j],
        ) * pow2(149),
{
    let n = q.len() as int;
    let p = |j: int| docs[i][j] && q[j];
    lemma_count_ext(n, both_flags(docs[i], q), p);
    lemma_count_bounds(n, p);
    law_counts_are_exact(count_where(n, p));
}

/// The flags of a range of buckets mark the coordinates whose bucket lies in
/// it, and the overlap of two top groups counts the coordinates in both.
pub proof fn law_group_overlap_counts(lhs: Seq<u8>, rhs: Seq<u8>, n: int, width: int)
    requires
        lhs.len() == rhs.len(),
    ensures
        range_flags(lhs, n - width, n - 1).len() == lhs.len(),
        forall|j: int|
            0 <= j < lhs.len() ==> (#[trigger] range_flags(lhs, n - width, n - 1)[j] <==> n - width
                <= lhs[j] < n),
        group_overlap(lhs, rhs, n, width) == count_where(
            lhs.len() as int,
            |j: int| n - width <= lhs[j] < n && n - width <= rhs[j] < n,
        ),
{
    let p = |j: int| n - width <= lhs[j] < n && n - width <= rhs[j] < n;
    lemma_count_ext(
        lhs.len() as int,
        both_flags(range_flags(lhs, n - width, n - 1), range_flags(rhs, n - width, n - 1)),
        p,
    );
}

/// The flags of any range of buckets.
pub proof fn law_range_flags(codes: Seq<u8>, start: int, end: int, j: int)
    requires
        0 <= j < codes.len(),
    ensures
        range_flags(codes, start, end).len() == codes.len(),
        range_flags(codes, start, end)[j] <==> start <= codes[j] <= end,
{
}

/// A tail is the fiber at its threshold and the tail above it.
pub proof fn law_tail_sums_fibers(dim: int, weight: int, threshold: int)
    requires
        0 <= threshold <= weight,
    ensures
        tail(dim, weight, threshold) == fiber(dim, weight, threshold) + tail(
            dim,
            weight,
            threshold + 1,
        ),
        tail(dim, weight, weight + 1) == 0,
{
    let n = weight + 1;
    let f = tail_term(dim, weight, threshold);
    let g = tail_term(dim, weight, threshold + 1);
    lemma_sum_moved(n, f, g, threshold);
    lemma_tail_beyond_weight(dim, weight, weight + 1);
}

proof fn lemma_sum_moved(n: int, f: spec_fn(int) -> int, g: spec_fn(int) -> int, j: int)
    requires
        0 <= j < n,
        forall|i: int| 0 <= i < n && i != j ==> #[trigger] f(i) == g(i),
    ensures
        sum_to(n, f) == sum_to(n, g) + f(j) - g(j),
    decreases n,
{
    if j == n - 1 {
        lemma_sum_ext(n - 1, f, g);
    } else {
        assert(f(n - 1) == g(n - 1));
        lemma_sum_moved(n - 1, f, g, j);
    }
}

/// Bitmaps encode codes: bit `j` of the bitmap of bucket `b` is set exactly
/// when coordinate `j` lies in bucket `b`.
pub proof fn law_bucket_bitmaps(words: Seq<u64>, codes: Seq<u8>, nb: int, dim: int, b: int, j: int)
    requires
        encodes(words, codes, nb, dim),
        0 < dim,
        dim % 64 == 0,
        0 <= b < nb,
        0 <= j < dim,
    ensures
        codes.len() == dim,
        codes[j] < nb,
        words.len() == nb * (dim / 64),
        odd_at(words, b * dim + j) <==> codes[j] == b,
{
    lemma_packed_row(words, dim, nb, b, j);
    assert(row_bit(slot(words, dim, b), j) == (codes[j] == b));
}

/// A table counts coordinates: those that the query marks in bucket `a` and the
/// document has in bucket `b`.
pub proof fn law_table_counts_marks(
    q: Seq<u64>,
    codes: Seq<u8>,
    nb: int,
    table: Seq<u32>,
    a: int,
    b: int,
)
    requires
        codes.len() > 0,
        codes.len() as int % 64 == 0,
        q.len() == nb * (codes.len() as int / 64),
        tabled(q, codes, nb, table),
        0 <= a < nb,
        0 <= b < nb,
    ensures
        table.len() == nb * nb,
        table[a * nb + b] == count_where(
            codes.len() as int,
            |j: int| odd_at(q, a * codes.len() + j) && codes[j] == b,
        ),
        cell(q, codes, a, b) == count_where(
            codes.len() as int,
            |j: int| odd_at(q, a * codes.len() + j) && codes[j] == b,
        ),
{
    let dim = codes.len() as int;
    let p = |j: int| odd_at(q, a * codes.len() + j) && codes[j] == b;
    assert(table[a * nb + b] == cell(q, codes, a, b));
    assert forall|j: int| 0 <= j < dim implies #[trigger] meets(q, codes, a, b)(j) == p(j) by {
        lemma_packed_row(q, dim, nb, a, j);
    }
    lemma_count_ext(dim, meets(q, codes, a, b), p);
}

/// Projected scores are picked from the highest number down.
pub proof fn law_scores_fall_as_numbers(scores: Seq<F32Bits>, i: int, j: int)
    requires
        0 <= i < scores.len(),
        0 <= j < scores.len(),
        scores[i].finite(),
        scores[j].finite(),
    ensures
        falling(scores)(i) < falling(scores)(j) <==> number(scores[i]) > number(scores[j]),
        falling(scores)(i) == falling(scores)(j) <==> number(scores[i]) == number(scores[j]),
{
    law_keys_order_numbers(scores[i], scores[j]);
    law_keys_order_numbers(scores[j], scores[i]);
}

/// The banded weights: the product of the doubled distances from the middle
/// bucket up to `half_width` from the diagonal, symmetric, and zero beyond.
pub proof fn law_banded_weights(nb: int, half_width: int, a: int, b: int)
    ensures
        a - b > half_width || b - a > half_width ==> banded_weight(nb, half_width)(a, b) == 0,
        -half_width <= a - b <= half_width ==> banded_weight(nb, half_width)(a, b) == (2 * a + 1
            - nb) * (2 * b + 1 - nb),
{
}

/// The dimensions that bitmaps, sign bitmaps and multi-bucket bitmaps can have.
pub proof fn law_bitmap_parameters(dim: int, n_top: int, bits: u8)
    ensures
        valid_bitmap(dim, n_top) <==> 64 <= dim <= 65535 && dim % 64 == 0 && 1 <= n_top <= dim - 1,
        valid_multi(dim, bits) <==> 64 <= dim && dim % 64 == 0 && (bits == 1 || bits == 2 || bits
            == 4),
        valid_sign_dim(dim) <==> 64 <= dim <= 16777216 && dim % 64 == 0,
{
}

} // verus!
