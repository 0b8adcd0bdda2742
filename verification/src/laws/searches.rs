//! What a search scores, and the block layout that one of them reads.

use vstd::prelude::*;

use crate::bitmap::{lists_overlapping, overlap_key, query_flags, Bitmap};
use crate::counting::{count_where, lemma_count_ext, lemma_sum_const, lemma_sum_ext, sum_to};
use crate::fastscan::{
    byte_offset, lut_row, lut_scores, lut_sum, lut_term, slot_codes, valid_fastscan_dim,
};
use crate::float_bits::F32Bits;
use crate::laws::ranks::law_rank_product_is_spearman;
use crate::multi_bucket::{projected_by, tabled};
use crate::quant::{
    capability_of, code_product, code_row, code_scored, code_scores, code_term, codes_of,
    corpus_codes, is_code, picked_docs, probed_row, subset_row, RankQuant, RankQuantCapability,
};
use crate::rank::is_rank_row;
use crate::rank_index::{
    centred_product, lemma_centred_product_bounded, symmetric_row, symmetric_scores, valid_rank_dim,
};
use crate::rank_io::blocks_for;
use crate::results::{asymmetric_row, best_of, best_of_subset, prepared, scored, scores_of};
use crate::rows::lemma_whole_rows;
use crate::select::{lemma_same_keys, lists_smallest};
use crate::sign_bitmap::{differing_flags, hamming_key, lists_candidates, sign_flags, SignBitmap};

verus! {

/// `s` is an outcome of the scaling function on Spearman's product of two rank
/// vectors of length `n`.
pub open spec fn spearman_outcome<F: Fn(i64) -> F32Bits>(
    scale: F,
    q: Seq<u16>,
    d: Seq<u16>,
    n: int,
    s: F32Bits,
) -> bool {
    exists|p: i64|
        3 * p == n * (n * n - 1) - 6 * sum_to(n, |j: int| (q[j] - d[j]) * (q[j] - d[j]))
            && #[trigger] scale.ensures((p,), s)
}

/// `s` is an outcome of the scoring function on a prepared query and a
/// document.
pub open spec fn outcome<P, T, S: Fn(&P, &[T]) -> F32Bits>(
    score: S,
    p: P,
    doc: Seq<T>,
    s: F32Bits,
) -> bool {
    exists|d: &[T]| d@ == doc && #[trigger] score.ensures((&p, d), s)
}

/// `s` is an outcome of the scoring function on the centred product of two code
/// vectors over `n` buckets and on the codes themselves.
pub open spec fn code_outcome<S: Fn(i64, &[u8], &[u8]) -> F32Bits>(
    score: S,
    q: Seq<u8>,
    d: Seq<u8>,
    n: int,
    s: F32Bits,
) -> bool {
    exists|p: i64, a: &[u8], b: &[u8]|
        p == sum_to(q.len() as int, |j: int| (2 * q[j] + 1 - n) * (2 * d[j] + 1 - n)) && a@ == q
            && b@ == d && #[trigger] score.ensures((p, a, b), s)
}

/// A symmetric rank search hands the scaling function Spearman's product of
/// the query with each document, and reports the best of what comes back.
pub proof fn law_rank_search<F: Fn(i64) -> F32Bits>(
    scale: F,
    q: Seq<u16>,
    docs: Seq<Seq<u16>>,
    k: int,
    out_scores: Seq<F32Bits>,
    out_indices: Seq<i64>,
) -> (scores: Seq<F32Bits>)
    requires
        symmetric_row(scale, q, docs, k, out_scores, out_indices),
        q.len() <= 65535,
        is_rank_row(q),
        forall|i: int|
            0 <= i < docs.len() ==> is_rank_row(#[trigger] docs[i]) && docs[i].len() == q.len(),
    ensures
        scores.len() == docs.len(),
        best_of(scores, k, out_scores, out_indices),
        forall|i: int|
            0 <= i < docs.len() ==> spearman_outcome(
                scale,
                q,
                docs[i],
                q.len() as int,
                #[trigger] scores[i],
            ),
{
    let scores = choose|scores: Seq<F32Bits>|
        symmetric_scores(scale, q, docs, scores) && #[trigger] best_of(
            scores,
            k,
            out_scores,
            out_indices,
        );
    assert forall|i: int| 0 <= i < docs.len() implies spearman_outcome(
        scale,
        q,
        docs[i],
        q.len() as int,
        #[trigger] scores[i],
    ) by {
        let d = docs[i];
        law_rank_product_is_spearman(q, d);
        lemma_centred_product_bounded(q, d);
        let n = q.len() as int;
        assert(n * (n * n - 1) <= 0x1_0000_0000_0000) by (nonlinear_arith)
            requires
                0 <= n <= 65535,
        ;
        assert(scale.ensures((centred_product(q, d) as i64,), scores[i]));
    }
    scores
}

/// An asymmetric search prepares the query once, scores what it got against
/// every document, and reports the best of what comes back.
pub proof fn law_asymmetric_search<P, T, G: Fn(&[F32Bits]) -> P, S: Fn(&P, &[T]) -> F32Bits>(
    prepare: G,
    score: S,
    query: Seq<F32Bits>,
    docs: Seq<Seq<T>>,
    k: int,
    out_scores: Seq<F32Bits>,
    out_indices: Seq<i64>,
) -> (found: (P, Seq<F32Bits>))
    requires
        asymmetric_row(prepare, score, query, docs, k, out_scores, out_indices),
    ensures
        exists|q: &[F32Bits]| q@ == query && #[trigger] prepare.ensures((q,), found.0),
        found.1.len() == docs.len(),
        forall|i: int|
            0 <= i < docs.len() ==> outcome(score, found.0, docs[i], #[trigger] found.1[i]),
        best_of(found.1, k, out_scores, out_indices),
{
    let (p, scores) = choose|p: P, scores: Seq<F32Bits>|
        prepared(prepare, query, p) && #[trigger] scores_of(score, p, docs, scores)
            && #[trigger] best_of(scores, k, out_scores, out_indices);
    assert forall|i: int| 0 <= i < docs.len() implies outcome(
        score,
        p,
        docs[i],
        #[trigger] scores[i],
    ) by {
        assert(scored(score, p, docs[i], scores[i]));
    }
    (p, scores)
}

/// A search among candidates scores the document of each entry of the list.
pub proof fn law_subset_search<P, G: Fn(&[F32Bits]) -> P, S: Fn(&P, &[u8]) -> F32Bits>(
    prepare: G,
    score: S,
    query: Seq<F32Bits>,
    docs: Seq<Seq<u8>>,
    candidates: Seq<u32>,
    k: int,
    out_scores: Seq<F32Bits>,
    out_ids: Seq<i64>,
) -> (found: (P, Seq<F32Bits>))
    requires
        subset_row(prepare, score, query, docs, candidates, k, out_scores, out_ids),
    ensures
        exists|q: &[F32Bits]| q@ == query && #[trigger] prepare.ensures((q,), found.0),
        found.1.len() == candidates.len(),
        forall|i: int|
            0 <= i < candidates.len() ==> outcome(
                score,
                found.0,
                docs[candidates[i] as int],
                #[trigger] found.1[i],
            ),
        best_of_subset(found.1, candidates, k, out_scores, out_ids),
{
    let picked = picked_docs(docs, candidates);
    let (p, scores) = choose|p: P, scores: Seq<F32Bits>|
        prepared(prepare, query, p) && #[trigger] scores_of(
            score,
            p,
            picked_docs(docs, candidates),
            scores,
        ) && #[trigger] best_of_subset(scores, candidates, k, out_scores, out_ids);
    assert forall|i: int| 0 <= i < candidates.len() implies outcome(
        score,
        p,
        docs[candidates[i] as int],
        #[trigger] scores[i],
    ) by {
        assert(scored(score, p, picked[i], scores[i]));
    }
    (p, scores)
}

/// A two-stage search is a search among the documents whose signs differ from
/// those of the query in the fewest coordinates.
pub proof fn law_two_stage_search<P, G: Fn(&[F32Bits]) -> P, S: Fn(&P, &[u8]) -> F32Bits>(
    prepare: G,
    score: S,
    index: RankQuant,
    sign_probe: SignBitmap,
    query: Seq<F32Bits>,
    m: int,
    k: int,
    out_scores: Seq<F32Bits>,
    out_ids: Seq<i64>,
) -> (candidates: Seq<u32>)
    requires
        probed_row(prepare, score, index, sign_probe, query, m, k, out_scores, out_ids),
    ensures
        lists_smallest(
            index.count(),
            m,
            |i: int|
                count_where(
                    sign_probe.docs()[i].len() as int,
                    |j: int| sign_probe.docs()[i][j] != sign_flags(query)[j],
                ),
            candidates,
        ),
        subset_row(
            prepare,
            score,
            query,
            index.docs(),
            candidates,
            k,
            out_scores,
            out_ids,
        ),
{
    let key = |i: int|
        count_where(
            sign_probe.docs()[i].len() as int,
            |j: int| sign_probe.docs()[i][j] != sign_flags(query)[j],
        );
    let candidates = choose|candidates: Seq<u32>|
        lists_smallest(
            index.count(),
            m,
            hamming_key(sign_probe.docs(), sign_flags(query)),
            candidates,
        ) && #[trigger] subset_row(
            prepare,
            score,
            query,
            index.docs(),
            candidates,
            k,
            out_scores,
            out_ids,
        );
    assert forall|i: int| 0 <= i < index.count() implies #[trigger] hamming_key(
        sign_probe.docs(),
        sign_flags(query),
    )(i) == key(i) by {
        lemma_count_ext(
            sign_probe.docs()[i].len() as int,
            differing_flags(sign_probe.docs()[i], sign_flags(query)),
            |j: int| sign_probe.docs()[i][j] != sign_flags(query)[j],
        );
    }
    lemma_same_keys(
        index.count(),
        m,
        hamming_key(sign_probe.docs(), sign_flags(query)),
        key,
        candidates,
    );
    candidates
}

/// A symmetric search over codes hands the scoring function the sum over the
/// coordinates of the products of doubled distances from the middle bucket,
/// with the codes themselves.
pub proof fn law_code_search<S: Fn(i64, &[u8], &[u8]) -> F32Bits>(
    score: S,
    q: Seq<u8>,
    docs: Seq<Seq<u8>>,
    n: int,
    k: int,
    out_scores: Seq<F32Bits>,
    out_indices: Seq<i64>,
) -> (scores: Seq<F32Bits>)
    requires
        code_row(score, q, docs, n, k, out_scores, out_indices),
        1 <= n <= 256,
        q.len() <= 65535,
        is_code(q, q.len() as int, n),
        forall|i: int| 0 <= i < docs.len() ==> is_code(#[trigger] docs[i], q.len() as int, n),
    ensures
        scores.len() == docs.len(),
        best_of(scores, k, out_scores, out_indices),
        forall|i: int|
            0 <= i < docs.len() ==> code_outcome(score, q, docs[i], n, #[trigger] scores[i]),
{
    let scores = choose|scores: Seq<F32Bits>|
        code_scores(score, q, docs, n, scores) && #[trigger] best_of(
            scores,
            k,
            out_scores,
            out_indices,
        );
    assert forall|i: int| 0 <= i < docs.len() implies code_outcome(
        score,
        q,
        docs[i],
        n,
        #[trigger] scores[i],
    ) by {
        let d = docs[i];
        assert(code_scored(score, q, d, n, scores[i]));
        let (a, b) = choose|a: &[u8], b: &[u8]|
            a@ == q && b@ == d && #[trigger] score.ensures(
                (code_product(q, d, n) as i64, a, b),
                scores[i],
            );
        let f = |j: int| (2 * q[j] + 1 - n) * (2 * d[j] + 1 - n);
        assert forall|j: int| 0 <= j < q.len() implies #[trigger] code_term(q, d, n)(j) == f(j) by {
            let x = 2 * q[j] - (n - 1);
            let y = 2 * d[j] - (n - 1);
            assert(x == 2 * q[j] + 1 - n && y == 2 * d[j] + 1 - n);
        }
        lemma_sum_ext(q.len() as int, code_term(q, d, n), f);
        lemma_code_product_small(q, d, n, q.len() as int);
        assert(score.ensures((code_product(q, d, n) as i64, a, b), scores[i]));
    }
    scores
}

proof fn lemma_code_product_small(q: Seq<u8>, d: Seq<u8>, n: int, m: int)
    requires
        1 <= n <= 256,
        0 <= m <= q.len() <= 65535,
        is_code(q, q.len() as int, n),
        is_code(d, q.len() as int, n),
    ensures
        -(m * 65536) <= sum_to(m, code_term(q, d, n)) <= m * 65536,
    decreases m,
{
    if m > 0 {
        lemma_code_product_small(q, d, n, m - 1);
        let x = 2 * q[m - 1] - (n - 1);
        let y = 2 * d[m - 1] - (n - 1);
        assert(q[m - 1] < n && d[m - 1] < n);
        assert(-65536 <= x * y <= 65536) by (nonlinear_arith)
            requires
                -255 <= x <= 255,
                -255 <= y <= 255,
        ;
    }
}

/// The codes of a corpus are those of its vectors, one after the other.
pub proof fn law_corpus_codes(corpus: Seq<F32Bits>, dim: int, bits: u8, i: int)
    requires
        0 < dim,
        corpus.len() as int % dim == 0,
        0 <= i < corpus.len() as int / dim,
    ensures
        corpus_codes(corpus, dim, bits).len() * dim == corpus.len(),
        corpus_codes(corpus, dim, bits)[i] == codes_of(
            corpus.subrange(i * dim, (i + 1) * dim),
            bits,
        ),
{
    lemma_whole_rows(corpus.len() as int, dim);
    assert((i + 1) * dim == i * dim + dim) by (nonlinear_arith);
}

/// A table search prepares a table from the query, sums for each document the
/// entries that its codes choose, and reports the best of what the scoring
/// function makes of the sums.
pub proof fn law_table_search<
    P,
    G: Fn(&[F32Bits]) -> (Vec<u8>, P),
    S: Fn(&P, u32) -> F32Bits,
>(
    prepare: G,
    score: S,
    query: Seq<F32Bits>,
    docs: Seq<Seq<u8>>,
    k: int,
    out_scores: Seq<F32Bits>,
    out_indices: Seq<i64>,
) -> (found: (Vec<u8>, P, Seq<F32Bits>))
    requires
        lut_row(prepare, score, query, docs, k, out_scores, out_indices),
    ensures
        exists|q: &[F32Bits]| q@ == query && #[trigger] prepare.ensures((q,), (found.0, found.1)),
        found.2.len() == docs.len(),
        forall|i: int|
            0 <= i < docs.len() ==> score.ensures(
                (&found.1, lut_sum(found.0@, docs[i]) as u32),
                #[trigger] found.2[i],
            ),
        best_of(found.2, k, out_scores, out_indices),
{
    let (lut, p, scores) = choose|lut: Vec<u8>, p: P, scores: Seq<F32Bits>|
        prepared(prepare, query, (lut, p)) && #[trigger] lut_scores(score, lut@, p, docs, scores)
            && #[trigger] best_of(scores, k, out_scores, out_indices);
    (lut, p, scores)
}

/// Every pair of coordinates counts once in a table sum: under a table of ones
/// the sum is the number of pairs.
pub proof fn law_table_sum_counts_pairs(lut: Seq<u8>, codes: Seq<u8>, x: u8)
    requires
        codes.len() as int % 2 == 0,
        lut.len() == codes.len() * 8,
        forall|j: int| 0 <= j < codes.len() ==> #[trigger] codes[j] < 4,
        forall|o: int| 0 <= o < lut.len() ==> #[trigger] lut[o] == x,
    ensures
        2 * lut_sum(lut, codes) == codes.len() * x,
{
    let pairs = codes.len() as int / 2;
    let f = lut_term(lut, codes);
    assert forall|p: int| 0 <= p < pairs implies #[trigger] f(p) == x by {
        assert(codes[2 * p] < 4 && codes[2 * p + 1] < 4);
    }
    lemma_sum_const(pairs, x as int, f);
    assert(2 * (pairs * x as int) == codes.len() * x as int) by (nonlinear_arith)
        requires
            codes.len() == 2 * pairs,
    ;
}

/// A table sum follows the entries that the codes choose: changing the entry
/// that they choose at a pair changes the sum by as much, and changing any
/// other entry changes nothing.
pub proof fn law_table_sum_follows_entries(lut: Seq<u8>, codes: Seq<u8>, o: int, x: u8)
    requires
        codes.len() as int % 2 == 0,
        lut.len() == codes.len() * 8,
        forall|j: int| 0 <= j < codes.len() ==> #[trigger] codes[j] < 4,
        0 <= o < lut.len(),
    ensures
        lut_sum(lut.update(o, x), codes) == lut_sum(lut, codes) + if o % 16 == 4 * codes[2 * (o
            / 16)] + codes[2 * (o / 16) + 1] {
            x - lut[o]
        } else {
            0
        },
{
    let pairs = codes.len() as int / 2;
    let p = o / 16;
    let f = lut_term(lut, codes);
    let g = lut_term(lut.update(o, x), codes);
    assert forall|t: int| 0 <= t < pairs && t != p implies #[trigger] g(t) == f(t) by {
        assert(codes[2 * t] < 4 && codes[2 * t + 1] < 4);
    }
    assert(codes[2 * p] < 4 && codes[2 * p + 1] < 4);
    lemma_sum_replaced(pairs, f, g, p);
}

proof fn lemma_sum_replaced(n: int, f: spec_fn(int) -> int, g: spec_fn(int) -> int, j: int)
    requires
        0 <= j < n,
        forall|i: int| 0 <= i < n && i != j ==> #[trigger] g(i) == f(i),
    ensures
        sum_to(n, g) == sum_to(n, f) + g(j) - f(j),
    decreases n,
{
    if j == n - 1 {
        lemma_sum_ext(n - 1, g, f);
    } else {
        assert(g(n - 1) == f(n - 1));
        lemma_sum_replaced(n - 1, f, g, j);
    }
}

/// The block layout: 32 documents to a block, within a block one pair of
/// coordinates after the other, and for each pair one byte per document, which
/// is four times the first code and the second.
pub proof fn law_block_layout(bytes: Seq<u8>, dim: int, i: int, p: int)
    requires
        0 <= i,
        0 <= p < dim / 2,
        dim % 2 == 0,
    ensures
        ({
            let at = ((i / 32) * (dim / 2) + p) * 32 + i % 32;
            let codes = slot_codes(bytes, dim, i);
            &&& codes.len() == dim
            &&& codes[2 * p] < 4
            &&& codes[2 * p + 1] < 4
            &&& 4 * codes[2 * p] + codes[2 * p + 1] == bytes[at] % 16
            &&& byte_offset(i, p, dim) == at
        }),
{
    let b = i / 32;
    let h = dim / 2;
    assert(b * (h * 32) + p * 32 == (b * h + p) * 32) by (nonlinear_arith);
    assert((2 * p) / 2 == p && (2 * p + 1) / 2 == p && (2 * p) % 2 == 0 && (2 * p + 1) % 2 == 1);
}

/// A document takes its slot in the last block or one before it.
pub proof fn law_blocks_hold_documents(n: int)
    ensures
        32 * blocks_for(n) - 32 < n <= 32 * blocks_for(n),
{
}

/// What a projection was applied to: the table of the query and the document.
pub proof fn law_projected_tables<U, F: Fn(&[u32]) -> U>(
    project: F,
    q: Seq<u64>,
    codes: Seq<u8>,
    nb: int,
    x: U,
)
    requires
        projected_by(project, q, codes, nb, x),
    ensures
        exists|t: &[u32]| tabled(q, codes, nb, t@) && #[trigger] project.ensures((t,), x),
{
}

/// The dimensions of rank and block indexes, and when an index of codes can be
/// searched with bucketed queries.
pub proof fn law_index_parameters(dim: int, bits: u8)
    ensures
        valid_rank_dim(dim) <==> 2 <= dim <= 65535,
        valid_fastscan_dim(dim) <==> 4 <= dim <= 65532 && dim % 4 == 0,
        capability_of(dim, bits) == RankQuantCapability::SymmetricAndAsymmetric <==> bits != 8
            || dim % 256 == 0,
{
}

/// The candidates of each query of a batch of sign or bitmap searches are
/// those of the query alone.
pub proof fn law_batched_candidates(
    sign: SignBitmap,
    bitmap: Bitmap,
    queries: Seq<F32Bits>,
    m: int,
    a: Seq<Seq<u32>>,
    b: Seq<Vec<u32>>,
    i: int,
)
    requires
        lists_candidates(sign, queries, m, a),
        lists_overlapping(bitmap, queries, m, b),
        sign.dimension() > 0,
        bitmap.dimension() > 0,
    ensures
        a.len() == queries.len() as int / sign.dimension(),
        b.len() == queries.len() as int / bitmap.dimension(),
        0 <= i < a.len() ==> lists_smallest(
            sign.count(),
            m,
            hamming_key(
                sign.docs(),
                sign_flags(
                    queries.subrange(i * sign.dimension(), i * sign.dimension() + sign.dimension()),
                ),
            ),
            a[i],
        ),
        0 <= i < b.len() ==> lists_smallest(
            bitmap.count(),
            m,
            overlap_key(
                bitmap.docs(),
                query_flags(
                    queries.subrange(
                        i * bitmap.dimension(),
                        i * bitmap.dimension() + bitmap.dimension(),
                    ),
                    bitmap.top(),
                ),
            ),
            b[i]@,
        ),
{
}

} // verus!
