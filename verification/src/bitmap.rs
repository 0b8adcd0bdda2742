//! Top-coordinate bitmap index: one bit per coordinate, set on the `n_top`
//! largest coordinates of a document.
//!
//! A document scores by the number of top coordinates it shares with the query.

use vstd::arithmetic::div_mod::{lemma_fundamental_div_mod, lemma_fundamental_div_mod_converse};
use vstd::prelude::*;
use vstd::slice::slice_subrange;

use crate::bits::{and_popcount, both_set, pack_bits, row_bits, row_flags, row_popcount, words_for};
use crate::codec::{
    decoded, encoded, ints64, lemma_decoded, lemma_encoded, lemma_ints64_injective, lemma_spans,
    push_u64s, read_u64s,
};
use crate::const_weight_bitmap::{both_flags, flag_fn, overlap_of, weight_of};
use crate::counting::{
    at, count_where, first_where, holds_after, is_permutation, lemma_count_all, lemma_count_below,
    lemma_count_bounds, lemma_count_ext, lemma_count_full, lemma_count_none, lemma_count_permuted,
    lemma_count_split, lemma_count_strict_mono, lemma_first_where, lemma_first_where_holds, shifted,
};
use crate::float_bits::{all_finite, count_pattern, lemma_count_pattern_increases, F32Bits};
use crate::format::PersistedFormat;
use crate::format_error::FormatError;
use crate::parallel::par_map_rows;
use crate::quant::codes_of;
use crate::rank::{
    lemma_levels, lemma_rank_transform_is_permutation, levels, rank_ints, rank_of, rank_row,
    ranks_of,
};
use crate::rank_io::{
    checked_payload, file_error, header_bytes, header_of, lemma_accepted_header,
    lemma_header_round_trip, open_file, payload_of, size_error, write_header, Header, MAX_DIM,
    MAX_VECTORS,
};
use crate::results::{best_of, best_row, SearchResults};
use crate::rows::{append_rows, contents, lemma_row_inside, lemma_whole_rows, row, rows_of};
use crate::select::{
    comes_before, earlier, key_at, lemma_earlier_counts_less, lemma_same_keys,
    lemma_smallest_unique, lesser, lists_smallest, smallest_ids,
};
use crate::util::checked_new_count;

verus! {

/// The parameters are ones that a bitmap index can have.
pub open spec fn valid_bitmap(dim: int, n_top: int) -> bool {
    0 < dim <= MAX_DIM && dim % 64 == 0 && 0 < n_top < dim
}

/// The pattern of a document: true on the coordinates with the `n_top` highest
/// ranks.
pub open spec fn top_flags(v: Seq<F32Bits>, n_top: int) -> Seq<bool> {
    Seq::new(v.len(), |j: int| rank_of(v, j) >= v.len() - n_top)
}

/// The coordinates of a query that are taken before `j`: larger values, and
/// among equal values lower coordinates.
pub open spec fn ahead(q: Seq<F32Bits>, j: int) -> spec_fn(int) -> bool {
    |k: int|
        q[k].value_key() > q[j].value_key() || (q[k].value_key() == q[j].value_key() && k < j)
}

/// The pattern of a query: true on its `n_top` largest coordinates.
pub open spec fn query_flags(q: Seq<F32Bits>, n_top: int) -> Seq<bool> {
    Seq::new(q.len(), |j: int| count_where(q.len() as int, ahead(q, j)) < n_top)
}

/// The coordinates of the query that each document misses, as a key that
/// ascends from the best document on.
pub open spec fn overlap_key(docs: Seq<Seq<bool>>, q: Seq<bool>) -> spec_fn(int) -> int {
    |i: int| q.len() - overlap_of(docs[i], q)
}

/// The overlap of each document with the query, as scores.
pub open spec fn overlap_scores(docs: Seq<Seq<bool>>, q: Seq<bool>) -> Seq<F32Bits> {
    Seq::new(
        docs.len(),
        |i: int| (F32Bits { bits: count_pattern(overlap_of(docs[i], q)) as u32 }),
    )
}

/// The documents of a flat buffer of packed rows.
pub open spec fn bitmap_docs(words: Seq<u64>, dim: int, n: int) -> Seq<Seq<bool>> {
    Seq::new(n as nat, |i: int| row_flags(row(words, dim / 64, i), dim))
}

/// Top-coordinate bitmap index.
pub struct Bitmap {
    dim: usize,
    n_top: usize,
    qwords_per_vec: usize,
    n_vectors: usize,
    bitmaps: Vec<u64>,
}

impl Bitmap {
    /// The dimension.
    pub closed spec fn dimension(&self) -> int {
        self.dim as int
    }

    /// The number of set bits of a document.
    pub closed spec fn top(&self) -> int {
        self.n_top as int
    }

    /// The packed rows, one after the other.
    pub closed spec fn words(&self) -> Seq<u64> {
        self.bitmaps@
    }

    /// The number of documents.
    pub closed spec fn count(&self) -> int {
        self.n_vectors as int
    }

    /// The patterns of the documents.
    pub open spec fn docs(&self) -> Seq<Seq<bool>> {
        bitmap_docs(self.words(), self.dimension(), self.count())
    }

    spec fn row_width(&self) -> bool {
        self.qwords_per_vec == self.dim / 64
    }

    /// The parameters are valid, the document count within its cap, the buffer
    /// holds one row per document, and every document has the same weight.
    pub closed spec fn wf(&self) -> bool {
        &&& self.row_width()
        &&& valid_bitmap(self.dimension(), self.top())
        &&& 0 <= self.count() <= MAX_VECTORS
        &&& self.words().len() == self.count() * (self.dimension() / 64)
        &&& forall|i: int|
            0 <= i < self.count() ==> weight_of(#[trigger] self.docs()[i]) == self.top()
    }

    /// What well-formedness gives to other modules.
    pub proof fn lemma_wf(&self)
        requires
            self.wf(),
        ensures
            valid_bitmap(self.dimension(), self.top()),
            0 <= self.count() <= MAX_VECTORS,
            self.words().len() == self.count() * (self.dimension() / 64),
            forall|i: int|
                0 <= i < self.count() ==> weight_of(#[trigger] self.docs()[i]) == self.top(),
    {
    }

    /// An empty index.
    pub fn new(dim: usize, n_top: usize) -> (index: Self)
        requires
            valid_bitmap(dim as int, n_top as int),
        ensures
            index.wf(),
            index.dimension() == dim,
            index.top() == n_top,
            index.count() == 0,
    {
        Bitmap { dim, n_top, qwords_per_vec: dim / 64, n_vectors: 0, bitmaps: Vec::new() }
    }

    /// Add documents: each vector is stored as the pattern of its `n_top`
    /// highest ranks.
    pub fn add(&mut self, vectors: &[F32Bits])
        requires
            old(self).wf(),
            all_finite(vectors@),
            vectors.len() as int % old(self).dimension() == 0,
            old(self).count() + vectors.len() as int / old(self).dimension() <= MAX_VECTORS,
            (old(self).count() + vectors.len() as int / old(self).dimension()) * (
            old(self).dimension() / 64) <= usize::MAX,
        ensures
            final(self).wf(),
            final(self).dimension() == old(self).dimension(),
            final(self).top() == old(self).top(),
            final(self).count() == old(self).count() + vectors.len() as int
                / old(self).dimension(),
            final(self).docs() == old(self).docs() + Seq::new(
                (vectors.len() as int / old(self).dimension()) as nat,
                |i: int| top_flags(row(vectors@, old(self).dimension(), i), old(self).top()),
            ),
    {
        let dim: usize = self.dim;
        let n_top: usize = self.n_top;
        let qpv: usize = self.qwords_per_vec;
        let n: usize = vectors.len() / dim;
        let encode = |v: &[F32Bits]| -> (words: Vec<u64>)
            requires
                v.len() == dim,
            ensures
                words@.len() == words_for(v@.len() as int),
                row_flags(words@, v@.len() as int) == top_flags(v@, n_top as int),
            { top_row(v, n_top) };
        let rows: Vec<Vec<u64>> = par_map_rows(vectors, dim, encode);
        let ghost before = *self;
        proof {
            lemma_whole_rows(vectors@.len() as int, dim as int);
            assert forall|t: int| 0 <= t < n implies (#[trigger] rows@[t])@.len() == qpv
                && row_flags(rows@[t]@, dim as int) == top_flags(
                row(vectors@, dim as int, t),
                n_top as int,
            ) by {
                lemma_row_inside(t, n as int, dim as int);
            }
        }
        append_rows(&mut self.bitmaps, &rows, qpv, Ghost(before.n_vectors as int));
        self.n_vectors = checked_new_count(self.n_vectors, n, self.dim / 64);
        proof {
            let all = rows_of(self.bitmaps@, qpv as int, self.n_vectors as int);
            assert(self.bitmaps@.len() == self.n_vectors * qpv);
            let want = before.docs() + Seq::new(
                n as nat,
                |i: int| top_flags(row(vectors@, before.dimension(), i), before.top()),
            );
            assert forall|i: int| 0 <= i < self.n_vectors implies #[trigger] self.docs()[i]
                == want[i] && weight_of(self.docs()[i]) == n_top by {
                assert(all[i] == row(self.bitmaps@, qpv as int, i));
                if i < before.n_vectors {
                    assert(all[i] == rows_of(
                        before.bitmaps@,
                        qpv as int,
                        before.n_vectors as int,
                    )[i]);
                    assert(weight_of(before.docs()[i]) == n_top);
                } else {
                    let t = i - before.n_vectors;
                    assert(all[i] == contents(rows@)[t]);
                    lemma_row_inside(t, n as int, dim as int);
                    lemma_document_weight(row(vectors@, dim as int, t), n_top as int);
                }
            }
            assert(self.docs() =~= want);
        }
    }

    /// The packed pattern of a query.
    pub fn build_query_bitmap_fp32(&self, q: &[F32Bits]) -> (words: Vec<u64>)
        requires
            self.wf(),
            q.len() == self.dimension(),
            all_finite(q@),
        ensures
            words.len() == self.dimension() / 64,
            row_flags(words@, self.dimension()) == query_flags(q@, self.top()),
    {
        query_row(q, self.n_top)
    }

    /// The overlap of every document with a packed query.
    fn scan(&self, q: &[u64]) -> (counts: Vec<u32>)
        requires
            self.wf(),
            q.len() == self.dimension() / 64,
        ensures
            counts.len() == self.count(),
            forall|i: int|
                0 <= i < counts.len() ==> #[trigger] counts[i] == overlap_of(
                    self.docs()[i],
                    row_flags(q@, self.dimension()),
                ) && counts[i] <= self.dimension(),
    {
        let mut counts: Vec<u32> = Vec::with_capacity(self.n_vectors);
        let mut i: usize = 0;
        while i < self.n_vectors
            invariant
                self.wf(),
                q.len() == self.dimension() / 64,
                i <= self.n_vectors,
                counts.len() == i,
                forall|t: int|
                    0 <= t < i ==> #[trigger] counts[t] == overlap_of(
                        self.docs()[t],
                        row_flags(q@, self.dimension()),
                    ) && counts[t] <= self.dimension(),
            decreases self.n_vectors - i,
        {
            let c: u32 = self.shared_bits(q, i);
            counts.push(c);
            i = i + 1;
        }
        counts
    }

    /// The overlap of document `i` with a packed query.
    fn shared_bits(&self, q: &[u64], i: usize) -> (c: u32)
        requires
            self.wf(),
            q.len() == self.dimension() / 64,
            i < self.count(),
        ensures
            c == overlap_of(self.docs()[i as int], row_flags(q@, self.dimension())),
            c <= self.dimension(),
    {
        let qpv: usize = self.qwords_per_vec;
        proof {
            lemma_row_inside(i as int, self.n_vectors as int, qpv as int);
            assert(self.bitmaps.len() == self.n_vectors * qpv);
        }
        let doc: &[u64] = slice_subrange(self.bitmaps.as_slice(), i * qpv, i * qpv + qpv);
        proof {
            assert(64 * doc.len() == self.dimension());
            lemma_count_bounds(self.dimension(), both_set(doc@, q@));
        }
        let c: u32 = and_popcount(doc, q);
        proof {
            let a = self.docs()[i as int];
            let b = row_flags(q@, self.dimension());
            lemma_count_ext(self.dimension(), both_set(doc@, q@), both_flags(a, b));
        }
        c
    }

    /// The best `k` documents for one query.
    fn query(&self, q: &[F32Bits], k: usize) -> (r: (Vec<F32Bits>, Vec<i64>))
        requires
            self.wf(),
            q.len() == self.dimension(),
        ensures
            r.0@.len() == lesser(k as int, self.count()),
            r.1@.len() == r.0@.len(),
            best_of(
                overlap_scores(self.docs(), query_flags(q@, self.top())),
                k as int,
                r.0@,
                r.1@,
            ),
    {
        let qb: Vec<u64> = query_row(q, self.n_top);
        let counts: Vec<u32> = self.scan(qb.as_slice());
        let ghost want = overlap_scores(self.docs(), query_flags(q@, self.top()));
        let mut scores: Vec<F32Bits> = Vec::with_capacity(counts.len());
        let mut i: usize = 0;
        while i < counts.len()
            invariant
                self.wf(),
                counts.len() == self.count(),
                want == overlap_scores(self.docs(), query_flags(q@, self.top())),
                i <= counts.len(),
                scores@.len() == i,
                forall|t: int|
                    0 <= t < counts.len() ==> #[trigger] counts[t] == overlap_of(
                        self.docs()[t],
                        query_flags(q@, self.top()),
                    ) && counts[t] <= self.dimension(),
                forall|t: int| 0 <= t < i ==> #[trigger] scores@[t] == want[t],
            decreases counts.len() - i,
        {
            scores.push(F32Bits::from_count(counts[i]));
            i = i + 1;
        }
        assert(scores@ =~= want);
        best_row(scores.as_slice(), k)
    }

    /// The best `k` documents per query by shared top coordinates, by
    /// descending overlap and then ascending document id. The scores are the
    /// overlaps.
    pub fn search(&self, queries: &[F32Bits], k: usize) -> (r: SearchResults)
        requires
            self.wf(),
            queries.len() as int % self.dimension() == 0,
            all_finite(queries@),
            (queries.len() as int / self.dimension()) * lesser(k as int, self.count())
                <= usize::MAX,
        ensures
            r.wf(),
            r.nq == queries.len() as int / self.dimension(),
            r.k == lesser(k as int, self.count()),
            forall|qi: int|
                0 <= qi < r.nq ==> best_of(
                    overlap_scores(
                        self.docs(),
                        query_flags(row(queries@, self.dimension(), qi), self.top()),
                    ),
                    k as int,
                    #[trigger] r.score_row(qi),
                    r.index_row(qi),
                ),
    {
        let kept: usize = if k <= self.n_vectors {
            k
        } else {
            self.n_vectors
        };
        let dim: usize = self.dim;
        let one = |q: &[F32Bits]| -> (r: (Vec<F32Bits>, Vec<i64>))
            requires
                q.len() == dim,
            ensures
                r.0@.len() == kept,
                r.1@.len() == kept,
                best_of(
                    overlap_scores(self.docs(), query_flags(q@, self.top())),
                    k as int,
                    r.0@,
                    r.1@,
                ),
            { self.query(q, k) };
        let rows: Vec<(Vec<F32Bits>, Vec<i64>)> = par_map_rows(queries, dim, one);
        let r = SearchResults::from_rows(&rows, kept);
        proof {
            lemma_whole_rows(queries@.len() as int, dim as int);
            assert forall|qi: int| 0 <= qi < r.nq implies best_of(
                overlap_scores(
                    self.docs(),
                    query_flags(row(queries@, self.dimension(), qi), self.top()),
                ),
                k as int,
                #[trigger] r.score_row(qi),
                r.index_row(qi),
            ) by {
                assert(r.score_row(qi) == rows[qi].0@);
                assert(r.index_row(qi) == rows[qi].1@);
            }
        }
        r
    }

    /// The best `m` documents for a query, by descending overlap and then
    /// ascending id.
    pub fn top_m_candidates(&self, q: &[F32Bits], m: usize) -> (ids: Vec<u32>)
        requires
            self.wf(),
            q.len() == self.dimension(),
            all_finite(q@),
        ensures
            lists_smallest(
                self.count(),
                m as int,
                overlap_key(self.docs(), query_flags(q@, self.top())),
                ids@,
            ),
    {
        let qb: Vec<u64> = query_row(q, self.n_top);
        let counts: Vec<u32> = self.scan(qb.as_slice());
        let ids: Vec<u32> = self.best_of_counts(counts.as_slice(), m);
        assert(counted(self.docs(), query_flags(q@, self.top()), counts@));
        ids
    }

    /// The overlaps of every document with every query of a batch, one query
    /// after the other.
    fn scan_batch(&self, queries: &[F32Bits], batch: usize) -> (counts: Vec<u32>)
        requires
            self.wf(),
            queries.len() == batch * self.dimension(),
        ensures
            counts.len() == batch * self.count(),
            forall|b: int, i: int|
                0 <= b < batch && 0 <= i < self.count() ==> #[trigger] row(
                    counts@,
                    self.count(),
                    b,
                )[i] == overlap_of(
                    self.docs()[i],
                    query_flags(row(queries@, self.dimension(), b), self.top()),
                ) && row(counts@, self.count(), b)[i] <= self.dimension(),
    {
        let dim: usize = self.dim;
        let ghost n = self.count();
        let ghost d = dim as int;
        let mut counts: Vec<u32> = Vec::new();
        let mut b: usize = 0;
        assert(0 * n == 0) by (nonlinear_arith);
        while b < batch
            invariant
                self.wf(),
                dim == self.dimension(),
                d == dim,
                n == self.count(),
                queries.len() == batch * d,
                b <= batch,
                counts@.len() == b * n,
                forall|t: int, i: int|
                    0 <= t < b && 0 <= i < n ==> #[trigger] row(counts@, n, t)[i] == overlap_of(
                        self.docs()[i],
                        query_flags(row(queries@, d, t), self.top()),
                    ) && row(counts@, n, t)[i] <= self.dimension(),
            decreases batch - b,
        {
            proof {
                lemma_row_inside(b as int, batch as int, d);
                assert(queries.len() == batch * d);
            }
            let q: &[F32Bits] = slice_subrange(queries, b * dim, b * dim + dim);
            let qb: Vec<u64> = query_row(q, self.n_top);
            let one: Vec<u32> = self.scan(qb.as_slice());
            let ghost before = counts@;
            counts.extend_from_slice(one.as_slice());
            proof {
                assert(counts@ =~= before + one@);
                assert(b * n + n == (b + 1) * n) by (nonlinear_arith);
                assert forall|t: int, i: int| 0 <= t < b + 1 && 0 <= i < n implies #[trigger] row(
                    counts@,
                    n,
                    t,
                )[i] == overlap_of(
                    self.docs()[i],
                    query_flags(row(queries@, d, t), self.top()),
                ) && row(counts@, n, t)[i] <= self.dimension() by {
                    if t < b {
                        lemma_row_inside(t, b as int, n);
                        assert(row(counts@, n, t) =~= row(before, n, t));
                        assert(row(before, n, t)[i] <= self.dimension());
                    } else {
                        assert(row(counts@, n, t) =~= one@);
                        assert(one@[i] <= self.dimension());
                    }
                }
            }
            b = b + 1;
        }
        counts
    }

    /// The best `m` documents of each query of a batch.
    pub fn top_m_candidates_batched(&self, queries: &[F32Bits], m: usize) -> (out: Vec<Vec<u32>>)
        requires
            self.wf(),
            queries.len() as int % self.dimension() == 0,
            all_finite(queries@),
            m > 0 ==> (queries.len() as int / self.dimension()) * self.count() <= usize::MAX,
        ensures
            lists_overlapping(*self, queries@, m as int, out@),
    {
        let dim: usize = self.dim;
        let n: usize = self.n_vectors;
        let batch: usize = queries.len() / dim;
        proof {
            lemma_whole_rows(queries@.len() as int, dim as int);
        }
        if n == 0 || m == 0 {
            let mut out: Vec<Vec<u32>> = Vec::with_capacity(batch);
            let mut b: usize = 0;
            while b < batch
                invariant
                    b <= batch,
                    out.len() == b,
                    forall|t: int| 0 <= t < b ==> (#[trigger] out[t])@.len() == 0,
                decreases batch - b,
            {
                out.push(Vec::new());
                b = b + 1;
            }
            return out;
        }
        let counts: Vec<u32> = self.scan_batch(queries, batch);
        proof {
            lemma_fundamental_div_mod_converse(
                counts@.len() as int,
                n as int,
                batch as int,
                0,
            );
        }
        let select = |c: &[u32]| -> (ids: Vec<u32>)
            requires
                c.len() == n,
            ensures
                selects(self.docs(), self.dimension(), m as int, c@, ids@),
            { self.best_of_counts(c, m) };
        let out: Vec<Vec<u32>> = par_map_rows(counts.as_slice(), n, select);
        proof {
            assert forall|b: int| 0 <= b < out.len() implies lists_smallest(
                self.count(),
                m as int,
                overlap_key(
                    self.docs(),
                    query_flags(row(queries@, self.dimension(), b), self.top()),
                ),
                (#[trigger] out[b])@,
            ) by {
                lemma_row_inside(b, batch as int, n as int);
                lemma_row_inside(b, batch as int, dim as int);
                let q = query_flags(row(queries@, self.dimension(), b), self.top());
                let c = row(counts@, n as int, b);
                assert forall|i: int| 0 <= i < self.docs().len() implies #[trigger] c[i]
                    == overlap_of(self.docs()[i], q) && c[i] <= q.len() by {
                    assert(row(counts@, self.count(), b)[i] <= self.dimension());
                }
                let r: &[u32] = choose|r: &[u32]|
                    r@ == row(counts@, n as int, b) && select.ensures((r,), #[trigger] out[b]);
                assert(select.ensures((r,), out[b]));
                assert(counted(self.docs(), q, r@));
                assert(q.len() == self.dimension());
            }
        }
        out
    }

    /// The best `m` documents by their overlaps with whatever query has them.
    fn best_of_counts(&self, counts: &[u32], m: usize) -> (ids: Vec<u32>)
        requires
            self.wf(),
            counts.len() == self.count(),
        ensures
            selects(self.docs(), self.dimension(), m as int, counts@, ids@),
    {
        let keys: Vec<u32> = missed(counts, self.dim);
        let ids: Vec<u32> = smallest_ids(keys.as_slice(), m);
        proof {
            assert forall|q: Seq<bool>|
                q.len() == self.dimension() && #[trigger] counted(
                    self.docs(),
                    q,
                    counts@,
                ) implies lists_smallest(
                self.count(),
                m as int,
                overlap_key(self.docs(), q),
                ids@,
            ) by {
                lemma_same_keys(
                    self.count(),
                    m as int,
                    key_at(keys@),
                    overlap_key(self.docs(), q),
                    ids@,
                );
            }
        }
        ids
    }

    /// The best `m` documents of each query, scanned in batches of `batch_size`
    /// queries.
    pub fn top_m_candidates_batched_chunked(
        &self,
        queries: &[F32Bits],
        m: usize,
        batch_size: usize,
    ) -> (out: Vec<Vec<u32>>)
        requires
            self.wf(),
            queries.len() as int % self.dimension() == 0,
            all_finite(queries@),
            queries.len() > 0 ==> batch_size > 0,
            m > 0 ==> lesser(batch_size as int, queries.len() as int / self.dimension())
                * self.count() <= usize::MAX,
        ensures
            lists_overlapping(*self, queries@, m as int, out@),
    {
        let dim: usize = self.dim;
        let nq: usize = queries.len() / dim;
        let ghost d = dim as int;
        proof {
            lemma_whole_rows(queries@.len() as int, d);
        }
        let mut out: Vec<Vec<u32>> = Vec::new();
        if nq == 0 {
            return out;
        }
        let mut start: usize = 0;
        while start < nq
            invariant
                self.wf(),
                dim == self.dimension(),
                d == dim,
                queries.len() == nq * d,
                all_finite(queries@),
                batch_size > 0,
                m > 0 ==> lesser(batch_size as int, nq as int) * self.count() <= usize::MAX,
                start <= nq,
                out.len() == start,
                forall|b: int|
                    0 <= b < out.len() ==> lists_smallest(
                        self.count(),
                        m as int,
                        overlap_key(
                            self.docs(),
                            query_flags(row(queries@, d, b), self.top()),
                        ),
                        (#[trigger] out[b])@,
                    ),
            decreases nq - start,
        {
            let rest: usize = nq - start;
            let take: usize = if batch_size <= rest {
                batch_size
            } else {
                rest
            };
            let ghost n = self.count();
            proof {
                assert(0 <= start * d && (start + take) * d <= nq * d && start * d + take * d == (
                start + take) * d) by (nonlinear_arith)
                    requires
                        0 <= start,
                        start + take <= nq,
                        0 <= d,
                ;
                assert(take * n <= lesser(batch_size as int, nq as int) * n) by (nonlinear_arith)
                    requires
                        take <= lesser(batch_size as int, nq as int),
                        0 <= n,
                ;
                lemma_fundamental_div_mod_converse(take * d, d, take as int, 0);
                assert(queries.len() == nq * d);
            }
            let part: &[F32Bits] = slice_subrange(queries, start * dim, start * dim + take * dim);
            let mut found: Vec<Vec<u32>> = self.top_m_candidates_batched(part, m);
            let ghost before = out@;
            let ghost fresh = found@;
            out.append(&mut found);
            proof {
                assert(out@ =~= before + fresh);
                assert forall|b: int| 0 <= b < out.len() implies lists_smallest(
                    self.count(),
                    m as int,
                    overlap_key(self.docs(), query_flags(row(queries@, d, b), self.top())),
                    (#[trigger] out[b])@,
                ) by {
                    if b < start {
                        assert(out@[b] == before[b]);
                    } else {
                        let t = b - start;
                        assert(out@[b] == fresh[t]);
                        assert(start * d + t * d == b * d) by (nonlinear_arith)
                            requires
                                b == start + t,
                        ;
                        lemma_row_inside(t, take as int, d);
                        assert(row(part@, d, t) =~= row(queries@, d, b));
                    }
                }
            }
            start = start + take;
        }
        out
    }

    /// The overlaps of the listed documents with a packed query, in the order
    /// of the list.
    pub fn body_overlap_scores_subset(&self, q_bitmap: &[u64], doc_ids: &[u32], out: &mut [u32])
        requires
            self.wf(),
            q_bitmap.len() == self.dimension() / 64,
            old(out).len() == doc_ids.len(),
            forall|i: int| 0 <= i < doc_ids.len() ==> #[trigger] doc_ids[i] < self.count(),
        ensures
            final(out).len() == doc_ids.len(),
            forall|i: int|
                0 <= i < doc_ids.len() ==> #[trigger] final(out)[i] == overlap_of(
                    self.docs()[doc_ids[i] as int],
                    row_flags(q_bitmap@, self.dimension()),
                ),
    {
        let mut i: usize = 0;
        while i < doc_ids.len()
            invariant
                self.wf(),
                q_bitmap.len() == self.dimension() / 64,
                out.len() == doc_ids.len(),
                i <= doc_ids.len(),
                forall|i: int| 0 <= i < doc_ids.len() ==> #[trigger] doc_ids[i] < self.count(),
                forall|t: int|
                    0 <= t < i ==> #[trigger] out[t] == overlap_of(
                        self.docs()[doc_ids[t] as int],
                        row_flags(q_bitmap@, self.dimension()),
                    ),
            decreases doc_ids.len() - i,
        {
            out[i] = self.shared_bits(q_bitmap, doc_ids[i] as usize);
            i = i + 1;
        }
    }

    /// Number of documents.
    pub fn len(&self) -> (n: usize)
        ensures
            n == self.count(),
    {
        self.n_vectors
    }

    /// Whether there are no documents.
    pub fn is_empty(&self) -> (r: bool)
        ensures
            r == (self.count() == 0),
    {
        self.n_vectors == 0
    }

    /// The dimension.
    pub fn dim(&self) -> (d: usize)
        ensures
            d == self.dimension(),
    {
        self.dim
    }

    /// Set bits per document.
    pub fn n_top(&self) -> (n: usize)
        ensures
            n == self.top(),
    {
        self.n_top
    }

    /// Bytes per document.
    pub fn bytes_per_vec(&self) -> (n: usize)
        requires
            self.wf(),
        ensures
            n == self.dimension() / 8,
    {
        self.qwords_per_vec * 8
    }

    /// Total bytes held by the bitmap buffer.
    pub fn byte_size(&self) -> (n: usize)
        requires
            self.wf(),
            self.count() * (self.dimension() / 8) <= usize::MAX,
        ensures
            n == self.count() * (self.dimension() / 8),
    {
        proof {
            let n = self.n_vectors as int;
            let q = self.qwords_per_vec as int;
            assert(n * q * 8 == n * (q * 8)) by (nonlinear_arith);
            assert(q * 8 == self.dimension() / 8);
        }
        self.bitmaps.len() * 8
    }

    /// The packed rows, one after the other.
    pub fn bitmaps(&self) -> (b: &[u64])
        ensures
            b@ == self.words(),
    {
        self.bitmaps.as_slice()
    }
}

/// `counts` holds the overlap of each document with the query.
pub open spec fn counted(docs: Seq<Seq<bool>>, q: Seq<bool>, counts: Seq<u32>) -> bool {
    forall|i: int|
        0 <= i < docs.len() ==> #[trigger] counts[i] == overlap_of(docs[i], q) && counts[i]
            <= q.len()
}

/// `ids` lists the best `m` documents for any query with these overlaps.
pub open spec fn selects(
    docs: Seq<Seq<bool>>,
    dim: int,
    m: int,
    counts: Seq<u32>,
    ids: Seq<u32>,
) -> bool {
    forall|q: Seq<bool>|
        q.len() == dim && #[trigger] counted(docs, q, counts) ==> lists_smallest(
            docs.len() as int,
            m,
            overlap_key(docs, q),
            ids,
        )
}

/// `dim` less each count, and 0 for a count above `dim`.
fn missed(counts: &[u32], dim: usize) -> (keys: Vec<u32>)
    requires
        dim <= MAX_DIM,
    ensures
        keys.len() == counts.len(),
        forall|i: int|
            0 <= i < keys.len() && counts[i] <= dim ==> #[trigger] keys[i] == dim - counts[i],
{
    let mut keys: Vec<u32> = Vec::with_capacity(counts.len());
    let mut i: usize = 0;
    while i < counts.len()
        invariant
            dim <= MAX_DIM,
            i <= counts.len(),
            keys.len() == i,
            forall|t: int| 0 <= t < i && counts[t] <= dim ==> #[trigger] keys[t] == dim - counts[t],
        decreases counts.len() - i,
    {
        let c: usize = counts[i] as usize;
        keys.push(
            if c <= dim {
                (dim - c) as u32
            } else {
                0
            },
        );
        i = i + 1;
    }
    keys
}

/// A document has exactly `n_top` set bits.
pub proof fn lemma_document_weight(v: Seq<F32Bits>, n_top: int)
    requires
        v.len() <= MAX_DIM,
        0 <= n_top <= v.len(),
    ensures
        weight_of(top_flags(v, n_top)) == n_top,
{
    let n = v.len() as int;
    lemma_rank_transform_is_permutation(v);
    let s = rank_ints(ranks_of(v));
    let high = |r: int| r >= n - n_top;
    lemma_count_split(n - n_top, n_top, high);
    lemma_count_none(n - n_top, high);
    lemma_count_all(n_top, shifted(high, n - n_top));
    lemma_count_permuted(s, high);
    assert forall|j: int| 0 <= j < n implies #[trigger] flag_fn(top_flags(v, n_top))(j)
        == holds_after(high, at(s))(j) by {
        assert(ranks_of(v)[j] == rank_of(v, j));
    }
    lemma_count_ext(n, flag_fn(top_flags(v, n_top)), holds_after(high, at(s)));
}

/// Pack the pattern of a document.
fn top_row(v: &[F32Bits], n_top: usize) -> (words: Vec<u64>)
    requires
        v.len() <= MAX_DIM,
        n_top <= v.len(),
    ensures
        words.len() == words_for(v.len() as int),
        row_flags(words@, v.len() as int) == top_flags(v@, n_top as int),
{
    let ranks: Vec<u16> = rank_row(v);
    let cutoff: usize = v.len() - n_top;
    let mut flags: Vec<bool> = Vec::with_capacity(v.len());
    let mut j: usize = 0;
    while j < v.len()
        invariant
            j <= v.len(),
            cutoff == v.len() - n_top,
            ranks@.len() == v.len(),
            flags.len() == j,
            forall|t: int| 0 <= t < v.len() ==> #[trigger] ranks[t] == rank_of(v@, t),
            forall|t: int| 0 <= t < j ==> #[trigger] flags[t] == (rank_of(v@, t) >= cutoff),
        decreases v.len() - j,
    {
        flags.push(ranks[j] as usize >= cutoff);
        j = j + 1;
    }
    assert(flags@ =~= top_flags(v@, n_top as int));
    pack_bits(flags.as_slice())
}

/// Pack the pattern of a query.
fn query_row(q: &[F32Bits], n_top: usize) -> (words: Vec<u64>)
    requires
        q.len() <= MAX_DIM,
        n_top <= q.len(),
    ensures
        words.len() == words_for(q.len() as int),
        row_flags(words@, q.len() as int) == query_flags(q@, n_top as int),
{
    let n: usize = q.len();
    let mut keys: Vec<u32> = Vec::with_capacity(n);
    let mut j: usize = 0;
    while j < n
        invariant
            j <= n,
            n == q.len(),
            keys.len() == j,
            forall|t: int|
                0 <= t < j ==> #[trigger] keys[t] == 0xFFFF_FFFF - (q[t].value_key()
                    + 0x8000_0000),
        decreases n - j,
    {
        keys.push(u32::MAX - q[j].sort_key());
        j = j + 1;
    }
    let ids: Vec<u32> = smallest_ids(keys.as_slice(), n_top);
    let mut flags: Vec<bool> = vec![false; n];
    let mut r: usize = 0;
    let ghost key = key_at(keys@);
    while r < ids.len()
        invariant
            r <= ids.len(),
            n == q.len(),
            flags.len() == n,
            key == key_at(keys@),
            lists_smallest(n as int, n_top as int, key, ids@),
            forall|t: int| 0 <= t < r ==> flags[(#[trigger] ids[t]) as int],
            forall|j: int|
                0 <= j < n && #[trigger] flags[j] ==> exists|t: int|
                    0 <= t < r && #[trigger] ids[t] == j,
        decreases ids.len() - r,
    {
        let ghost before = flags@;
        assert(0 <= ids[r as int] < n);
        flags[ids[r] as usize] = true;
        proof {
            assert forall|j: int| 0 <= j < n && #[trigger] flags[j] implies exists|t: int|
                0 <= t < r + 1 && #[trigger] ids[t] == j by {
                if j == ids[r as int] {
                    assert(ids[r as int] == j);
                } else {
                    assert(before[j]);
                    let t = choose|t: int| 0 <= t < r && #[trigger] ids[t] == j;
                    assert(ids[t] == j);
                }
            }
        }
        r = r + 1;
    }
    proof {
        let want = query_flags(q@, n_top as int);
        assert forall|j: int| 0 <= j < n implies flags[j] == want[j] by {
            let p = earlier(key, j);
            assert forall|k: int| 0 <= k < n implies #[trigger] p(k) == ahead(q@, j)(k) by {
                assert(keys[k] == 0xFFFF_FFFF - (q[k].value_key() + 0x8000_0000));
                assert(keys[j] == 0xFFFF_FFFF - (q[j].value_key() + 0x8000_0000));
            }
            lemma_count_ext(n as int, p, ahead(q@, j));
            let c = count_where(n as int, p);
            lemma_count_bounds(n as int, p);
            if flags[j] {
                let t = choose|t: int| 0 <= t < ids.len() && #[trigger] ids[t] == j;
                assert(count_where(n as int, earlier(key, ids[t] as int)) == t);
            } else if c < n_top {
                let x = ids[c] as int;
                assert(count_where(n as int, earlier(key, x)) == c);
                assert(flags[x]);
                if comes_before(key, x, j) {
                    lemma_earlier_counts_less(n as int, key, x, j);
                } else {
                    lemma_earlier_counts_less(n as int, key, j, x);
                }
            }
        }
        assert(flags@ =~= want);
    }
    pack_bits(flags.as_slice())
}

/// Document `i` of a packed buffer does not have `n_top` set bits.
pub open spec fn wrong_weight(words: Seq<u64>, dim: int, n_top: int) -> spec_fn(int) -> bool {
    |i: int| weight_of(row_flags(row(words, dim / 64, i), dim)) != n_top
}

/// The first document of a packed buffer with the wrong number of set bits.
pub open spec fn weight_error(words: Seq<u64>, dim: int, n_top: int, n: int) -> Option<
    FormatError,
> {
    let i = first_where(n, wrong_weight(words, dim, n_top));
    if i >= n {
        None
    } else {
        Some(
            FormatError::WrongPopcount {
                row: i as usize,
                popcount: weight_of(row_flags(row(words, dim / 64, i), dim)) as u32,
                n_top: n_top as usize,
            },
        )
    }
}

/// `words` are the words stored in a bitmap file.
pub open spec fn stored_bitmap_words(bytes: Seq<u8>, words: Seq<u64>) -> bool {
    let h = header_of(PersistedFormat::Bitmap, bytes);
    ints64(words) == decoded(
        payload_of(PersistedFormat::Bitmap, bytes),
        8,
        h.n_vectors * (h.dim as int / 64),
    )
}

/// The file of a bitmap index.
pub open spec fn bitmap_file(dim: int, n_top: int, n: int, words: Seq<u64>) -> Seq<u8> {
    header_bytes(PersistedFormat::Bitmap, 0, dim, n_top, n) + encoded(ints64(words), 8)
}

/// Check that every document has `n_top` set bits.
fn check_weights(words: &[u64], dim: usize, n_top: usize, n: usize) -> (r: Result<(), FormatError>)
    requires
        valid_bitmap(dim as int, n_top as int),
        words.len() == n * (dim / 64),
    ensures
        match r {
            Ok(()) => weight_error(words@, dim as int, n_top as int, n as int) is None,
            Err(e) => weight_error(words@, dim as int, n_top as int, n as int) == Some(e),
        },
{
    let q: usize = dim / 64;
    let ghost p = wrong_weight(words@, dim as int, n_top as int);
    let mut i: usize = 0;
    while i < n
        invariant
            valid_bitmap(dim as int, n_top as int),
            q == dim / 64,
            words.len() == n * q,
            p == wrong_weight(words@, dim as int, n_top as int),
            i <= n,
            forall|t: int| 0 <= t < i ==> !(#[trigger] p(t)),
        decreases n - i,
    {
        proof {
            lemma_row_inside(i as int, n as int, q as int);
            assert(words.len() == n * q);
        }
        let doc: &[u64] = slice_subrange(words, i * q, i * q + q);
        proof {
            assert(64 * doc.len() == dim);
            lemma_count_bounds(dim as int, row_bits(doc@));
        }
        let popcount: u32 = row_popcount(doc);
        proof {
            let flags = row_flags(doc@, dim as int);
            lemma_count_ext(dim as int, row_bits(doc@), flag_fn(flags));
            assert(p(i as int) <==> popcount != n_top);
        }
        if popcount as usize != n_top {
            proof {
                lemma_first_where(n as int, p, i as int);
            }
            return Err(FormatError::WrongPopcount { row: i, popcount, n_top });
        }
        i = i + 1;
    }
    proof {
        lemma_first_where(n as int, p, n as int);
    }
    Ok(())
}

impl Bitmap {
    /// The bytes of the index file.
    pub fn write_to(&self) -> (r: Result<Vec<u8>, FormatError>)
        requires
            self.wf(),
        ensures
            match r {
                Ok(bytes) => size_error(
                    PersistedFormat::Bitmap,
                    self.count() * (self.dimension() / 64) * 8,
                ) is None && bytes@ == bitmap_file(
                    self.dimension(),
                    self.top(),
                    self.count(),
                    self.words(),
                ),
                Err(e) => size_error(
                    PersistedFormat::Bitmap,
                    self.count() * (self.dimension() / 64) * 8,
                ) == Some(e),
            },
    {
        match checked_payload(PersistedFormat::Bitmap, 0, self.dim, self.n_vectors) {
            Ok(_) => {},
            Err(e) => {
                return Err(e);
            },
        }
        let mut out: Vec<u8> = write_header(
            PersistedFormat::Bitmap,
            0,
            self.dim,
            self.n_top,
            self.n_vectors,
        );
        push_u64s(&mut out, self.bitmaps.as_slice());
        Ok(out)
    }

    /// Read an index from the bytes of its file.
    pub fn load_from_bytes(bytes: &[u8]) -> (r: Result<Self, FormatError>)
        ensures
            match r {
                Ok(index) => {
                    let h = header_of(PersistedFormat::Bitmap, bytes@);
                    &&& file_error(PersistedFormat::Bitmap, bytes@) is None
                    &&& index.wf()
                    &&& index.dimension() == h.dim
                    &&& index.top() == h.n_top
                    &&& index.count() == h.n_vectors
                    &&& stored_bitmap_words(bytes@, index.words())
                },
                Err(e) => if file_error(PersistedFormat::Bitmap, bytes@) is Some {
                    file_error(PersistedFormat::Bitmap, bytes@) == Some(e)
                } else {
                    let h = header_of(PersistedFormat::Bitmap, bytes@);
                    exists|words: Seq<u64>|
                        #![trigger stored_bitmap_words(bytes@, words)]
                        stored_bitmap_words(bytes@, words) && weight_error(
                            words,
                            h.dim as int,
                            h.n_top as int,
                            h.n_vectors as int,
                        ) == Some(e)
                },
            },
    {
        let h: Header = match open_file(PersistedFormat::Bitmap, bytes) {
            Ok(h) => h,
            Err(e) => {
                return Err(e);
            },
        };
        let q: usize = h.dim / 64;
        proof {
            lemma_accepted_header(PersistedFormat::Bitmap, bytes@);
            assert(h.n_vectors * q <= h.n_vectors * q * 8) by (nonlinear_arith);
        }
        let words: Vec<u64> = read_u64s(bytes, 17, h.n_vectors * q);
        assert(words.len() == ints64(words@).len());
        assert(stored_bitmap_words(bytes@, words@));
        match check_weights(words.as_slice(), h.dim, h.n_top, h.n_vectors) {
            Ok(()) => {},
            Err(e) => {
                return Err(e);
            },
        }
        let index = Bitmap {
            dim: h.dim,
            n_top: h.n_top,
            qwords_per_vec: q,
            n_vectors: h.n_vectors,
            bitmaps: words,
        };
        proof {
            let p = wrong_weight(words@, h.dim as int, h.n_top as int);
            lemma_first_where_holds(h.n_vectors as int, p);
            assert forall|i: int| 0 <= i < index.count() implies weight_of(#[trigger] index.docs()[i])
                == index.top() by {
                assert(!p(i));
            }
        }
        Ok(index)
    }
}

/// What `write_to` writes, `load_from_bytes` reads back: the file is accepted,
/// with the parameters, the document count and the words that were written, and
/// every document has its weight.
pub proof fn lemma_bitmap_write_then_load(index: Bitmap)
    requires
        index.wf(),
        size_error(
            PersistedFormat::Bitmap,
            index.count() * (index.dimension() / 64) * 8,
        ) is None,
    ensures
        ({
            let file = bitmap_file(index.dimension(), index.top(), index.count(), index.words());
            let h = header_of(PersistedFormat::Bitmap, file);
            &&& file_error(PersistedFormat::Bitmap, file) is None
            &&& h.dim == index.dimension()
            &&& h.n_top == index.top()
            &&& h.n_vectors == index.count()
            &&& forall|words: Seq<u64>| #[trigger]
                stored_bitmap_words(file, words) <==> words == index.words()
            &&& weight_error(
                index.words(),
                index.dimension(),
                index.top(),
                index.count(),
            ) is None
        }),
{
    let dim = index.dimension();
    let n = index.count();
    let values = ints64(index.words());
    let file = bitmap_file(dim, index.top(), n, index.words());
    let h = Header {
        bits: 0,
        dim: dim as usize,
        n_top: index.top() as usize,
        n_vectors: n as usize,
    };
    lemma_encoded(values, 8);
    lemma_header_round_trip(PersistedFormat::Bitmap, h, encoded(values, 8));
    lemma_spans();
    lemma_decoded(values, 8);
    assert forall|words: Seq<u64>| #[trigger] stored_bitmap_words(file, words) implies words
        == index.words() by {
        lemma_ints64_injective(words, index.words());
    }
    let p = wrong_weight(index.words(), dim, index.top());
    assert forall|i: int| 0 <= i < n implies !(#[trigger] p(i)) by {
        assert(weight_of(index.docs()[i]) == index.top());
    }
    lemma_first_where(n, p, n);
}

/// A query has exactly `n_top` set bits.
pub proof fn lemma_query_weight(q: Seq<F32Bits>, n_top: int)
    requires
        0 <= n_top <= q.len(),
    ensures
        weight_of(query_flags(q, n_top)) == n_top,
{
    let n = q.len() as int;
    let place = Seq::new(q.len(), |j: int| count_where(n, ahead(q, j)));
    assert forall|j: int| 0 <= j < n implies 0 <= #[trigger] place[j] < n by {
        lemma_count_bounds(n, ahead(q, j));
        if count_where(n, ahead(q, j)) == n {
            lemma_count_full(n, ahead(q, j), j);
        }
    }
    assert forall|j: int, k: int| 0 <= j < k < n implies place[j] != place[k] by {
        if ahead(q, k)(j) {
            lemma_count_strict_mono(n, ahead(q, j), ahead(q, k), j);
        } else {
            lemma_count_strict_mono(n, ahead(q, k), ahead(q, j), k);
        }
    }
    assert(is_permutation(place));
    let low = |r: int| r < n_top;
    lemma_count_below(n, n_top, low);
    lemma_count_permuted(place, low);
    lemma_count_ext(n, flag_fn(query_flags(q, n_top)), holds_after(low, at(place)));
}

/// `lists` holds, for each query of a flat batch, the `m` documents that share
/// the most top coordinates with it, by descending overlap and then id.
pub open spec fn lists_overlapping(
    index: Bitmap,
    queries: Seq<F32Bits>,
    m: int,
    lists: Seq<Vec<u32>>,
) -> bool {
    &&& lists.len() == queries.len() as int / index.dimension()
    &&& forall|b: int|
        0 <= b < lists.len() ==> lists_smallest(
            index.count(),
            m,
            overlap_key(
                index.docs(),
                query_flags(row(queries, index.dimension(), b), index.top()),
            ),
            (#[trigger] lists[b])@,
        )
}

/// However a batch is cut into chunks, the candidates of query `b` are those of
/// a search for that query alone.
pub proof fn lemma_batched_matches_single(
    index: Bitmap,
    queries: Seq<F32Bits>,
    m: int,
    lists: Seq<Vec<u32>>,
    b: int,
    single: Seq<u32>,
)
    requires
        lists_overlapping(index, queries, m, lists),
        0 <= b < lists.len(),
        lists_smallest(
            index.count(),
            m,
            overlap_key(
                index.docs(),
                query_flags(row(queries, index.dimension(), b), index.top()),
            ),
            single,
        ),
    ensures
        lists[b]@ == single,
        single.len() == lesser(m, index.count()),
{
    lemma_smallest_unique(
        index.count(),
        m,
        overlap_key(index.docs(), query_flags(row(queries, index.dimension(), b), index.top())),
        lists[b]@,
        single,
    );
}

/// More shared coordinates give a higher score, and scores are kept as they are.
pub proof fn lemma_overlap_scores_ordered(docs: Seq<Seq<bool>>, q: Seq<bool>, i: int, j: int)
    requires
        q.len() <= MAX_DIM,
        0 <= i < docs.len(),
        0 <= j < docs.len(),
        docs[i].len() == q.len(),
        docs[j].len() == q.len(),
        overlap_of(docs[i], q) < overlap_of(docs[j], q),
    ensures
        overlap_scores(docs, q)[i].total_key() < overlap_scores(docs, q)[j].total_key(),
        overlap_scores(docs, q)[i].plus_zero() == overlap_scores(docs, q)[i],
        overlap_scores(docs, q)[j].plus_zero() == overlap_scores(docs, q)[j],
{
    lemma_count_bounds(q.len() as int, both_flags(docs[i], q));
    lemma_count_bounds(q.len() as int, both_flags(docs[j], q));
    lemma_count_pattern_increases(overlap_of(docs[i], q), overlap_of(docs[j], q));
}

/// With as many set bits as a bucket has coordinates, the pattern of a document
/// is the top bucket of its `bits`-bit code.
pub proof fn lemma_bitmap_is_top_bucket(v: Seq<F32Bits>, bits: u8)
    requires
        0 < v.len() <= MAX_DIM,
        bits <= 8,
        v.len() as int % levels(bits) == 0,
    ensures
        forall|j: int|
            0 <= j < v.len() ==> #[trigger] top_flags(v, v.len() as int / levels(bits))[j] == (
            codes_of(v, bits)[j] == levels(bits) - 1),
{
    let d = v.len() as int;
    lemma_levels(bits);
    let n = levels(bits);
    let w = d / n;
    lemma_fundamental_div_mod(d, n);
    lemma_rank_transform_is_permutation(v);
    assert forall|j: int| 0 <= j < d implies #[trigger] top_flags(v, w)[j] == (codes_of(v, bits)[j]
        == n - 1) by {
        let s = rank_ints(ranks_of(v));
        let r = rank_of(v, j);
        assert(ranks_of(v)[j] == r);
        assert(s[j] == ranks_of(v)[j]);
        assert(0 <= s[j] < d);
        let b = r * n / d;
        lemma_fundamental_div_mod(r * n, d);
        let m = (r * n) % d;
        assert(0 <= b <= n - 1) by (nonlinear_arith)
            requires
                r * n == d * b + m,
                0 <= m < d,
                0 <= r < d,
                n >= 1,
        ;
        assert((b == n - 1) == (r >= d - w)) by (nonlinear_arith)
            requires
                r * n == d * b + m,
                0 <= m < d,
                d == n * w,
                0 <= r < d,
                0 <= b <= n - 1,
                n >= 1,
        ;
        assert(codes_of(v, bits)[j] == b);
    }
}

} // verus!
