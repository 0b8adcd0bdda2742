//! Sign-cosine bitmap index: one bit per coordinate, set where the coordinate
//! is greater than zero.

use vstd::arithmetic::div_mod::lemma_fundamental_div_mod;
use vstd::prelude::*;
use vstd::slice::slice_subrange;

use crate::bits::{differing, pack_bits, row_flags, words_for, xor_popcount};
use crate::codec::{
    decoded, encoded, ints64, lemma_decoded, lemma_encoded, lemma_spans, push_u64s, read_u64s,
};
use crate::counting::{
    count_where, lemma_count_bounds, lemma_count_ext, lemma_count_mono, lemma_count_none,
    lemma_count_single,
};
use crate::error::OrdvecError;
use crate::float_bits::{all_finite, F32Bits};
use crate::format::PersistedFormat;
use crate::format_error::FormatError;
use crate::parallel::par_map_rows;
use crate::rank_io::{
    checked_payload, file_error, header_bytes, header_of, lemma_accepted_header,
    lemma_header_round_trip, open_file, payload_of, size_error, write_header, Header,
    MAX_SIGN_BITMAP_DIM, MAX_VECTORS,
};
use crate::rows::{
    append_rows, contents, lemma_row_inside, lemma_whole_rows, row, rows_of, swap_remove_row,
};
use crate::select::{
    key_at, lemma_same_keys, lemma_smallest_unique, lesser, lists_smallest, smallest_ids,
    SmallestCollector,
};
use crate::text::{decimal, push_decimal, push_text};
use crate::util::checked_new_count;

verus! {

/// The sign pattern of a vector: true where the coordinate is greater than
/// zero.
pub open spec fn sign_flags(v: Seq<F32Bits>) -> Seq<bool> {
    Seq::new(v.len(), |j: int| v[j].positive())
}

/// The positions at which two patterns differ.
pub open spec fn differing_flags(a: Seq<bool>, b: Seq<bool>) -> spec_fn(int) -> bool {
    |j: int| a[j] != b[j]
}

/// The Hamming distance of two patterns.
pub open spec fn hamming(a: Seq<bool>, b: Seq<bool>) -> int {
    count_where(a.len() as int, differing_flags(a, b))
}

/// The Hamming distance of each document from a query pattern.
pub open spec fn hamming_key(docs: Seq<Seq<bool>>, q: Seq<bool>) -> spec_fn(int) -> int {
    |i: int| hamming(docs[i], q)
}

/// Query `i` of a flat batch.
pub open spec fn query_at(queries: Seq<F32Bits>, dim: int, i: int) -> Seq<F32Bits> {
    row(queries, dim, i)
}

/// Candidate sets of a query batch in compressed-sparse-row form: row `i` is
/// `candidates[offsets[i]..offsets[i + 1]]`.
#[derive(Clone, Debug)]
pub struct CandidateBatch {
    /// All rows, one after the other.
    pub candidates: Vec<u32>,
    /// Where each row starts, and where the last one ends.
    pub offsets: Vec<usize>,
}

impl CandidateBatch {
    /// The number of queries.
    pub open spec fn queries(&self) -> int {
        if self.offsets@.len() == 0 {
            0
        } else {
            self.offsets@.len() - 1
        }
    }

    /// The offsets start at zero, never fall, and end at the last candidate.
    pub open spec fn wf(&self) -> bool {
        &&& self.offsets@.len() >= 1
        &&& self.offsets@[0] == 0
        &&& self.offsets@.last() == self.candidates@.len()
        &&& forall|i: int, j: int|
            0 <= i <= j < self.offsets@.len() ==> self.offsets@[i] <= self.offsets@[j]
    }

    /// The candidates of query `i`.
    pub open spec fn row_of(&self, i: int) -> Seq<u32> {
        self.candidates@.subrange(self.offsets@[i] as int, self.offsets@[i + 1] as int)
    }

    /// Number of queries in the batch.
    pub fn query_count(&self) -> (n: usize)
        ensures
            n == self.queries(),
    {
        if self.offsets.len() == 0 {
            0
        } else {
            self.offsets.len() - 1
        }
    }

    /// Candidate row of query `qi`, or `None` when there is no such query.
    pub fn candidates_for_query(&self, qi: usize) -> (r: Option<&[u32]>)
        requires
            qi < self.queries() ==> self.offsets@[qi as int] <= self.offsets@[qi + 1]
                <= self.candidates@.len(),
        ensures
            match r {
                Some(s) => qi < self.queries() && s@ == self.row_of(qi as int),
                None => qi >= self.queries(),
            },
    {
        if qi >= self.query_count() {
            return None;
        }
        let start: usize = self.offsets[qi];
        let end: usize = self.offsets[qi + 1];
        Some(slice_subrange(self.candidates.as_slice(), start, end))
    }

    /// Whether there are no queries; a batch of queries without candidates is
    /// not empty.
    pub fn is_empty(&self) -> (r: bool)
        ensures
            r == (self.queries() == 0),
    {
        self.query_count() == 0
    }

    /// Whether there are no candidates across all queries.
    pub fn has_no_candidates(&self) -> (r: bool)
        ensures
            r == (self.candidates@.len() == 0),
    {
        self.candidates.len() == 0
    }
}

/// Index storing a one-bit sign fingerprint per coordinate of each document.
pub struct SignBitmap {
    dim: usize,
    qwords_per_vec: usize,
    n_vectors: usize,
    bitmaps: Vec<u64>,
}

/// The dimension is one that a sign bitmap can have.
pub open spec fn valid_sign_dim(dim: int) -> bool {
    0 < dim <= MAX_SIGN_BITMAP_DIM && dim % 64 == 0
}

/// The documents of a flat buffer of packed rows.
pub open spec fn packed_docs(words: Seq<u64>, dim: int, n: int) -> Seq<Seq<bool>> {
    Seq::new(n as nat, |i: int| row_flags(row(words, dim / 64, i), dim))
}

impl SignBitmap {
    /// The dimension.
    pub closed spec fn dimension(&self) -> int {
        self.dim as int
    }

    /// The packed rows, one after the other.
    pub closed spec fn words(&self) -> Seq<u64> {
        self.bitmaps@
    }

    /// The number of documents.
    pub closed spec fn count(&self) -> int {
        self.n_vectors as int
    }

    /// The sign patterns of the documents.
    pub open spec fn docs(&self) -> Seq<Seq<bool>> {
        packed_docs(self.words(), self.dimension(), self.count())
    }

    /// The dimension is valid, the document count within its cap, and the
    /// buffer holds one row per document.
    pub closed spec fn wf(&self) -> bool {
        &&& valid_sign_dim(self.dim as int)
        &&& self.qwords_per_vec == self.dim / 64
        &&& self.n_vectors <= MAX_VECTORS
        &&& self.bitmaps@.len() == self.n_vectors * self.qwords_per_vec
    }

    /// What well-formedness gives to other modules.
    pub proof fn lemma_wf(&self)
        requires
            self.wf(),
        ensures
            valid_sign_dim(self.dimension()),
            0 <= self.count() <= MAX_VECTORS,
            self.words().len() == self.count() * (self.dimension() / 64),
    {
    }

    /// Check a dimension.
    pub fn validate_dim(dim: usize) -> (r: Result<(), OrdvecError>)
        ensures
            match r {
                Ok(()) => valid_sign_dim(dim as int),
                Err(e) => if dim == 0 {
                    e.is_parameter("dim"@, "must be > 0"@)
                } else if dim % 64 != 0 {
                    e.is_parameter("dim"@, "must be a multiple of 64"@)
                } else {
                    &&& dim > MAX_SIGN_BITMAP_DIM
                    &&& e.is_parameter(
                        "dim"@,
                        "must be <= MAX_SIGN_BITMAP_DIM (= "@ + decimal(MAX_SIGN_BITMAP_DIM as nat)
                            + ")"@,
                    )
                },
            },
    {
        if dim == 0 {
            return Err(
                OrdvecError::InvalidParameter { name: "dim", message: "must be > 0".to_owned() },
            );
        }
        if dim % 64 != 0 {
            return Err(
                OrdvecError::InvalidParameter {
                    name: "dim",
                    message: "must be a multiple of 64".to_owned(),
                },
            );
        }
        if dim > MAX_SIGN_BITMAP_DIM {
            let mut message: String = "must be <= MAX_SIGN_BITMAP_DIM (= ".to_owned();
            push_decimal(&mut message, MAX_SIGN_BITMAP_DIM as u64);
            push_text(&mut message, ")");
            return Err(OrdvecError::InvalidParameter { name: "dim", message });
        }
        Ok(())
    }

    /// Build an empty index for `dim`-dimensional vectors.
    pub fn new(dim: usize) -> (index: Self)
        requires
            valid_sign_dim(dim as int),
        ensures
            index.wf(),
            index.dimension() == dim,
            index.docs() == Seq::<Seq<bool>>::empty(),
            index.count() == 0,
    {
        let index = SignBitmap {
            dim,
            qwords_per_vec: dim / 64,
            n_vectors: 0,
            bitmaps: Vec::new(),
        };
        assert(index.docs() =~= Seq::<Seq<bool>>::empty());
        index
    }

    /// Add documents: bit `j` of a document is set where its coordinate `j` is
    /// greater than zero; zero counts as negative.
    pub fn add(&mut self, vectors: &[F32Bits])
        requires
            old(self).wf(),
            all_finite(vectors@),
            vectors.len() as int % old(self).dimension() == 0,
            old(self).count() + vectors.len() as int / old(self).dimension() <= MAX_VECTORS,
            (old(self).count() + vectors.len() as int / old(self).dimension()) * (
            old(self).dimension() / 64) <= usize::MAX,
        ensures
            final(self).wf(),
            final(self).dimension() == old(self).dimension(),
            final(self).count() == old(self).count() + vectors.len() as int
                / old(self).dimension(),
            final(self).docs() == old(self).docs() + Seq::new(
                (vectors.len() as int / old(self).dimension()) as nat,
                |i: int| sign_flags(row(vectors@, old(self).dimension(), i)),
            ),
    {
        let dim: usize = self.dim;
        let qpv: usize = self.qwords_per_vec;
        let n: usize = vectors.len() / dim;
        let encode = |v: &[F32Bits]| -> (words: Vec<u64>)
            requires
                v.len() == dim,
            ensures
                words@.len() == words_for(v@.len() as int),
                row_flags(words@, v@.len() as int) == sign_flags(v@),
            {
                sign_row(v)
            };
        let rows: Vec<Vec<u64>> = par_map_rows(vectors, dim, encode);
        let ghost before = *self;
        proof {
            lemma_whole_rows(vectors@.len() as int, dim as int);
            assert forall|t: int| 0 <= t < n implies (#[trigger] rows@[t])@.len() == qpv
                && row_flags(rows@[t]@, dim as int) == sign_flags(row(vectors@, dim as int, t)) by {
                lemma_row_inside(t, n as int, dim as int);
            }
        }
        append_rows(&mut self.bitmaps, &rows, qpv, Ghost(before.n_vectors as int));
        self.n_vectors = checked_new_count(self.n_vectors, n, self.dim / 64);
        proof {
            let all = rows_of(self.bitmaps@, qpv as int, self.n_vectors as int);
            assert(self.bitmaps@.len() == self.n_vectors * qpv);
            let want = before.docs() + Seq::new(
                n as nat,
                |i: int| sign_flags(row(vectors@, before.dimension(), i)),
            );
            assert forall|i: int| 0 <= i < self.n_vectors implies self.docs()[i] == want[i] by {
                assert(all[i] == row(self.bitmaps@, qpv as int, i));
                if i < before.n_vectors {
                    assert(all[i] == rows_of(
                        before.bitmaps@,
                        qpv as int,
                        before.n_vectors as int,
                    )[i]);
                } else {
                    assert(all[i] == contents(rows@)[i - before.n_vectors]);
                }
            }
            assert(self.docs() =~= want);
        }
    }

    /// Build the query-side sign bitmap.
    pub fn build_query_bitmap(&self, q: &[F32Bits]) -> (words: Vec<u64>)
        requires
            self.wf(),
            q.len() == self.dimension(),
            all_finite(q@),
        ensures
            words.len() == self.dimension() / 64,
            row_flags(words@, self.dimension()) == sign_flags(q@),
    {
        sign_row(q)
    }

    /// Document `i` as packed words.
    fn doc(&self, i: usize) -> (words: &[u64])
        requires
            self.wf(),
            i < self.count(),
        ensures
            words.len() == self.dimension() / 64,
            row_flags(words@, self.dimension()) == self.docs()[i as int],
    {
        let q: usize = self.qwords_per_vec;
        proof {
            lemma_row_inside(i as int, self.n_vectors as int, q as int);
            assert(self.bitmaps.len() == self.n_vectors * q);
        }
        slice_subrange(self.bitmaps.as_slice(), i * q, i * q + q)
    }

    /// The Hamming distance of document `i` from a packed query.
    fn distance(&self, i: usize, q: &[u64]) -> (h: u32)
        requires
            self.wf(),
            i < self.count(),
            q.len() == self.dimension() / 64,
        ensures
            h == hamming(self.docs()[i as int], row_flags(q@, self.dimension())),
            h <= self.dimension(),
    {
        let words: &[u64] = self.doc(i);
        proof {
            lemma_count_bounds(64 * words.len(), differing(words@, q@));
        }
        let h: u32 = xor_popcount(words, q);
        proof {
            let d = self.dim as int;
            let a = row_flags(words@, d);
            let b = row_flags(q@, d);
            lemma_count_ext(d, differing(words@, q@), differing_flags(a, b));
        }
        h
    }

    /// The Hamming distance of every document from a packed query.
    fn scan(&self, q: &[u64]) -> (scores: Vec<u32>)
        requires
            self.wf(),
            q.len() == self.dimension() / 64,
        ensures
            scores.len() == self.count(),
            forall|i: int|
                0 <= i < scores.len() ==> #[trigger] scores[i] == hamming(
                    self.docs()[i],
                    row_flags(q@, self.dimension()),
                ),
            forall|i: int| 0 <= i < scores.len() ==> #[trigger] scores[i] <= self.dimension(),
    {
        let mut scores: Vec<u32> = Vec::with_capacity(self.n_vectors);
        let mut i: usize = 0;
        while i < self.n_vectors
            invariant
                self.wf(),
                q.len() == self.dimension() / 64,
                i <= self.n_vectors,
                scores.len() == i,
                forall|t: int|
                    0 <= t < i ==> #[trigger] scores[t] == hamming(
                        self.docs()[t],
                        row_flags(q@, self.dimension()),
                    ),
                forall|t: int| 0 <= t < i ==> #[trigger] scores[t] <= self.dimension(),
            decreases self.n_vectors - i,
        {
            scores.push(self.distance(i, q));
            i = i + 1;
        }
        scores
    }

    /// The best `m` documents for a packed query.
    fn best(&self, q: &[u64], m: usize) -> (ids: Vec<u32>)
        requires
            self.wf(),
            q.len() == self.dimension() / 64,
        ensures
            lists_smallest(
                self.count(),
                m as int,
                hamming_key(self.docs(), row_flags(q@, self.dimension())),
                ids@,
            ),
    {
        let scores: Vec<u32> = self.scan(q);
        let ids: Vec<u32> = smallest_ids(scores.as_slice(), m);
        proof {
            let key = hamming_key(self.docs(), row_flags(q@, self.dimension()));
            lemma_same_keys(self.count(), m as int, key_at(scores@), key, ids@);
        }
        ids
    }

    /// The `m` documents with the lowest Hamming distance from `q`, in
    /// ascending order of `(distance, id)`; all of them when `m` exceeds the
    /// document count.
    pub fn top_m_candidates(&self, q: &[F32Bits], m: usize) -> (ids: Vec<u32>)
        requires
            self.wf(),
            q.len() == self.dimension(),
            all_finite(q@),
        ensures
            lists_smallest(
                self.count(),
                m as int,
                hamming_key(self.docs(), sign_flags(q@)),
                ids@,
            ),
    {
        let qb: Vec<u64> = self.build_query_bitmap(q);
        self.best(qb.as_slice(), m)
    }

    /// The best `m` documents of each query of a batch.
    pub fn top_m_candidates_batched(&self, queries: &[F32Bits], m: usize) -> (out: Vec<Vec<u32>>)
        requires
            self.wf(),
            queries.len() as int % self.dimension() == 0,
            all_finite(queries@),
        ensures
            out.len() == queries.len() as int / self.dimension(),
            forall|i: int|
                0 <= i < out.len() ==> lists_smallest(
                    self.count(),
                    m as int,
                    hamming_key(self.docs(), sign_flags(query_at(queries@, self.dimension(), i))),
                    (#[trigger] out[i])@,
                ),
    {
        let dim: usize = self.dim;
        let select = |q: &[F32Bits]| -> (ids: Vec<u32>)
            requires
                q.len() == dim,
            ensures
                lists_smallest(
                    self.count(),
                    m as int,
                    hamming_key(self.docs(), sign_flags(q@)),
                    ids@,
                ),
            {
                self.best(sign_row(q).as_slice(), m)
            };
        let out: Vec<Vec<u32>> = par_map_rows(queries, dim, select);
        proof {
            let n = queries.len() as int / dim as int;
            lemma_fundamental_div_mod(queries.len() as int, dim as int);
            assert(n * dim == dim * n) by (nonlinear_arith);
            assert forall|i: int| 0 <= i < out.len() implies lists_smallest(
                self.count(),
                m as int,
                hamming_key(self.docs(), sign_flags(query_at(queries@, self.dimension(), i))),
                (#[trigger] out[i])@,
            ) by {
                lemma_row_inside(i, n, dim as int);
            }
        }
        out
    }

    /// Packed rows of a query batch.
    fn pack_queries(&self, queries: &[F32Bits], nq: usize) -> (rows: Vec<Vec<u64>>)
        requires
            self.wf(),
            queries.len() == nq * self.dimension(),
        ensures
            rows.len() == nq,
            forall|i: int|
                0 <= i < nq ==> (#[trigger] rows[i])@.len() == self.dimension() / 64 && row_flags(
                    rows[i]@,
                    self.dimension(),
                ) == sign_flags(query_at(queries@, self.dimension(), i)),
    {
        let dim: usize = self.dim;
        let mut rows: Vec<Vec<u64>> = Vec::with_capacity(nq);
        let mut i: usize = 0;
        while i < nq
            invariant
                self.wf(),
                dim == self.dim,
                queries.len() == nq * dim,
                i <= nq,
                rows.len() == i,
                forall|t: int|
                    0 <= t < i ==> (#[trigger] rows[t])@.len() == dim / 64 && row_flags(
                        rows[t]@,
                        dim as int,
                    ) == sign_flags(query_at(queries@, dim as int, t)),
            decreases nq - i,
        {
            proof {
                lemma_row_inside(i as int, nq as int, dim as int);
            }
            let q: &[F32Bits] = slice_subrange(queries, i * dim, i * dim + dim);
            rows.push(sign_row(q));
            i = i + 1;
        }
        rows
    }

    /// Best `m` documents of each packed query, in one pass over the corpus:
    /// documents are taken block by block, every block is scored against every
    /// query, and one bounded collector per query keeps its best.
    fn stream_rows(&self, rows: &Vec<Vec<u64>>, m: usize) -> (out: Vec<Vec<u32>>)
        requires
            self.wf(),
            forall|i: int|
                0 <= i < rows.len() ==> (#[trigger] rows[i])@.len() == self.dimension() / 64,
        ensures
            out.len() == rows.len(),
            forall|i: int|
                0 <= i < out.len() ==> lists_smallest(
                    self.count(),
                    m as int,
                    hamming_key(self.docs(), row_flags(rows[i]@, self.dimension())),
                    (#[trigger] out[i])@,
                ),
    {
        let nq: usize = rows.len();
        let n: usize = self.n_vectors;
        let bytes: usize = self.qwords_per_vec * 8;
        let fit: usize = BLOCK_BYTES / bytes;
        let block_docs: usize = if fit < MIN_BLOCK_DOCS {
            MIN_BLOCK_DOCS
        } else {
            fit
        };
        let mut collectors: Vec<SmallestCollector> = Vec::with_capacity(nq);
        let mut qi: usize = 0;
        while qi < nq
            invariant
                nq == rows.len(),
                qi <= nq,
                collectors.len() == qi,
                forall|t: int|
                    0 <= t < qi ==> (#[trigger] collectors[t]).bound() == m && collectors[t].holds(
                        self.row_key(rows@, t),
                        0,
                    ),
            decreases nq - qi,
        {
            let ghost key = self.row_key(rows@, qi as int);
            collectors.push(SmallestCollector::new(m, Ghost(key)));
            qi = qi + 1;
        }
        let mut start: usize = 0;
        while start < n
            invariant
                self.wf(),
                n == self.n_vectors,
                nq == rows.len(),
                collectors.len() == nq,
                block_docs > 0,
                start <= n,
                forall|i: int|
                    0 <= i < rows.len() ==> (#[trigger] rows[i])@.len() == self.dimension() / 64,
                forall|t: int|
                    0 <= t < nq ==> (#[trigger] collectors[t]).bound() == m && collectors[t].holds(
                        self.row_key(rows@, t),
                        start as int,
                    ),
            decreases n - start,
        {
            let end: usize = if n - start < block_docs {
                n
            } else {
                start + block_docs
            };
            let mut qi: usize = 0;
            while qi < nq
                invariant
                    self.wf(),
                    n == self.n_vectors,
                    nq == rows.len(),
                    collectors.len() == nq,
                    start <= end <= n,
                    qi <= nq,
                    forall|i: int|
                        0 <= i < rows.len() ==> (#[trigger] rows[i])@.len() == self.dimension()
                            / 64,
                    forall|t: int|
                        0 <= t < nq ==> (#[trigger] collectors[t]).bound() == m
                            && collectors[t].holds(
                            self.row_key(rows@, t),
                            if t < qi {
                                end as int
                            } else {
                                start as int
                            },
                        ),
                decreases nq - qi,
            {
                let ghost key = self.row_key(rows@, qi as int);
                let q: &[u64] = rows[qi].as_slice();
                let mut d: usize = start;
                assert(collectors[qi as int].bound() == m);
                while d < end
                    invariant
                        self.wf(),
                        n == self.n_vectors,
                        nq == rows.len(),
                        collectors.len() == nq,
                        start <= d <= end <= n,
                        qi < nq,
                        q@ == rows[qi as int]@,
                        q.len() == self.dimension() / 64,
                        key == self.row_key(rows@, qi as int),
                        collectors[qi as int].bound() == m,
                        collectors[qi as int].holds(key, d as int),
                        forall|t: int|
                            0 <= t < nq && t != qi ==> (#[trigger] collectors[t]).bound() == m
                                && collectors[t].holds(
                                self.row_key(rows@, t),
                                if t < qi {
                                    end as int
                                } else {
                                    start as int
                                },
                            ),
                    decreases end - d,
                {
                    let h: u32 = self.distance(d, q);
                    let id: u32 = d as u32;
                    collectors[qi].offer(h, id, Ghost(key));
                    d = d + 1;
                }
                qi = qi + 1;
            }
            start = end;
        }
        let mut out: Vec<Vec<u32>> = Vec::with_capacity(nq);
        let ghost all = collectors@;
        while collectors.len() > 0
            invariant
                nq == rows.len(),
                all.len() == nq,
                out.len() + collectors.len() == nq,
                collectors@ == all.subrange(0, collectors@.len() as int),
                forall|t: int|
                    0 <= t < nq ==> (#[trigger] all[t]).bound() == m && all[t].holds(
                        self.row_key(rows@, t),
                        self.count(),
                    ),
                forall|t: int|
                    0 <= t < out.len() ==> (#[trigger] out[t])@ == all[nq - 1 - t].ids(),
            decreases collectors.len(),
        {
            let ghost last = collectors@.len() - 1;
            if let Some(c) = collectors.pop() {
                out.push(c.into_ids());
            }
        }
        let mut lists: Vec<Vec<u32>> = Vec::with_capacity(nq);
        while out.len() > 0
            invariant
                nq == rows.len(),
                all.len() == nq,
                lists.len() + out.len() == nq,
                forall|t: int|
                    0 <= t < nq ==> (#[trigger] all[t]).bound() == m && all[t].holds(
                        self.row_key(rows@, t),
                        self.count(),
                    ),
                forall|t: int|
                    0 <= t < out.len() ==> (#[trigger] out[t])@ == all[nq - 1 - t].ids(),
                forall|t: int| 0 <= t < lists.len() ==> (#[trigger] lists[t])@ == all[t].ids(),
            decreases out.len(),
        {
            if let Some(ids) = out.pop() {
                lists.push(ids);
            }
        }
        proof {
            assert forall|i: int| 0 <= i < lists.len() implies lists_smallest(
                self.count(),
                m as int,
                hamming_key(self.docs(), row_flags(rows[i]@, self.dimension())),
                (#[trigger] lists[i])@,
            ) by {
                all[i].lemma_holds(self.row_key(rows@, i), self.count());
            }
        }
        lists
    }

    /// The distance of each document from packed query `i`.
    spec fn row_key(&self, rows: Seq<Vec<u64>>, i: int) -> spec_fn(int) -> int {
        hamming_key(self.docs(), row_flags(rows[i]@, self.dimension()))
    }

    /// Best `m` documents of each query of a batch, by ascending Hamming distance
    /// and then id, in one pass over the corpus.
    pub fn top_m_candidates_streamed(&self, queries: &[F32Bits], m: usize) -> (out: Vec<Vec<u32>>)
        requires
            self.wf(),
            queries.len() as int % self.dimension() == 0,
        ensures
            lists_candidates(*self, queries@, m as int, contents(out@)),
    {
        let dim: usize = self.dim;
        let nq: usize = queries.len() / dim;
        proof {
            lemma_fundamental_div_mod(queries.len() as int, dim as int);
            assert(nq * dim == dim * nq) by (nonlinear_arith);
        }
        let rows: Vec<Vec<u64>> = self.pack_queries(queries, nq);
        let out: Vec<Vec<u32>> = self.stream_rows(&rows, m);
        proof {
            assert forall|i: int| 0 <= i < nq implies lists_smallest(
                self.count(),
                m as int,
                hamming_key(self.docs(), sign_flags(query_at(queries@, self.dimension(), i))),
                #[trigger] contents(out@)[i],
            ) by {
                assert(contents(out@)[i] == out[i]@);
                assert(rows[i]@.len() == self.dimension() / 64);
            }
        }
        out
    }

    /// Candidate rows of a query batch in compressed-sparse-row form: row `qi`
    /// holds the best `m` documents of query `qi`.
    pub fn top_m_candidates_batched_serial_csr(&self, queries: &[F32Bits], m: usize) -> (b:
        CandidateBatch)
        requires
            self.wf(),
            queries.len() as int % self.dimension() == 0,
            all_finite(queries@),
            (queries.len() as int / self.dimension()) * lesser(m as int, self.count())
                <= usize::MAX,
        ensures
            b.wf(),
            b.queries() == queries.len() as int / self.dimension(),
            forall|i: int|
                0 <= i < b.queries() ==> lists_smallest(
                    self.count(),
                    m as int,
                    hamming_key(self.docs(), sign_flags(query_at(queries@, self.dimension(), i))),
                    #[trigger] b.row_of(i),
                ),
    {
        let dim: usize = self.dim;
        let nq: usize = queries.len() / dim;
        let ghost width = lesser(m as int, self.count());
        proof {
            lemma_fundamental_div_mod(queries.len() as int, dim as int);
            assert(nq * dim == dim * nq) by (nonlinear_arith);
        }
        let lists: Vec<Vec<u32>> = self.top_m_candidates_streamed(queries, m);
        proof {
            assert forall|t: int| 0 <= t < nq implies (#[trigger] lists@[t])@.len() == width by {
                assert(contents(lists@)[t] == lists@[t]@);
            }
        }
        let mut candidates: Vec<u32> = Vec::new();
        let mut offsets: Vec<usize> = Vec::with_capacity(nq);
        offsets.push(0);
        let mut i: usize = 0;
        assert(0 * width == 0);
        while i < nq
            invariant
                self.wf(),
                nq == lists.len(),
                i <= nq,
                0 <= width,
                nq * width <= usize::MAX,
                offsets@.len() == i + 1,
                candidates@.len() == i * width,
                forall|t: int| 0 <= t < nq ==> (#[trigger] lists@[t])@.len() == width,
                forall|t: int| 0 <= t <= i ==> #[trigger] offsets@[t] == t * width,
                forall|t: int|
                    0 <= t < i ==> candidates@.subrange(t * width, t * width + width) == (
                    #[trigger] lists@[t])@,
            decreases nq - i,
        {
            let ghost before = candidates@;
            proof {
                lemma_row_inside(i as int, nq as int, width);
                assert(i * width + width == (i + 1) * width) by (nonlinear_arith);
            }
            let list: &Vec<u32> = &lists[i];
            candidates.extend_from_slice(list.as_slice());
            proof {
                assert(candidates@ =~= before + list@);
                assert forall|t: int| 0 <= t < i + 1 implies candidates@.subrange(
                    t * width,
                    t * width + width,
                ) == (#[trigger] lists@[t])@ by {
                    lemma_row_inside(t, i + 1, width);
                    if t < i {
                        lemma_row_inside(t, i as int, width);
                        assert(candidates@.subrange(t * width, t * width + width)
                            =~= before.subrange(t * width, t * width + width));
                    } else {
                        assert(candidates@.subrange(t * width, t * width + width) =~= list@);
                    }
                }
            }
            offsets.push(candidates.len());
            i = i + 1;
        }
        let b = CandidateBatch { candidates, offsets };
        proof {
            assert forall|x: int, y: int| 0 <= x <= y < b.offsets@.len() implies b.offsets@[x]
                <= b.offsets@[y] by {
                assert(b.offsets@[x] == x * width && b.offsets@[y] == y * width);
                assert(x * width <= y * width) by (nonlinear_arith)
                    requires
                        x <= y,
                        0 <= width,
                ;
            }
            assert forall|t: int| 0 <= t < b.queries() implies lists_smallest(
                self.count(),
                m as int,
                hamming_key(self.docs(), sign_flags(query_at(queries@, self.dimension(), t))),
                #[trigger] b.row_of(t),
            ) by {
                assert(b.offsets@[t] == t * width && b.offsets@[t + 1] == (t + 1) * width);
                assert(t * width + width == (t + 1) * width) by (nonlinear_arith);
                assert(b.row_of(t) == contents(lists@)[t]);
            }
        }
        b
    }

    /// Sign agreement of every document with one query, by document id: the
    /// dimension less the Hamming distance.
    pub fn score_all(&self, q: &[F32Bits]) -> (scores: Vec<u32>)
        requires
            self.wf(),
            q.len() == self.dimension(),
            all_finite(q@),
        ensures
            scores.len() == self.count(),
            forall|i: int|
                0 <= i < scores.len() ==> #[trigger] scores[i] == self.dimension() - hamming(
                    self.docs()[i],
                    sign_flags(q@),
                ),
    {
        let qb: Vec<u64> = self.build_query_bitmap(q);
        self.agreements(qb.as_slice())
    }

    /// Sign agreement of every document with a packed query.
    fn agreements(&self, q: &[u64]) -> (scores: Vec<u32>)
        requires
            self.wf(),
            q.len() == self.dimension() / 64,
        ensures
            scores.len() == self.count(),
            forall|i: int|
                0 <= i < scores.len() ==> #[trigger] scores[i] == self.dimension() - hamming(
                    self.docs()[i],
                    row_flags(q@, self.dimension()),
                ),
    {
        let dim: u32 = self.dim as u32;
        let distances: Vec<u32> = self.scan(q);
        let mut scores: Vec<u32> = Vec::with_capacity(distances.len());
        let mut i: usize = 0;
        while i < distances.len()
            invariant
                dim == self.dimension(),
                i <= distances.len(),
                scores.len() == i,
                forall|t: int| 0 <= t < distances.len() ==> #[trigger] distances[t] <= dim,
                forall|t: int|
                    0 <= t < distances.len() ==> #[trigger] distances[t] == hamming(
                        self.docs()[t],
                        row_flags(q@, self.dimension()),
                    ),
                forall|t: int|
                    0 <= t < i ==> #[trigger] scores[t] == self.dimension() - hamming(
                        self.docs()[t],
                        row_flags(q@, self.dimension()),
                    ),
            decreases distances.len() - i,
        {
            scores.push(dim - distances[i]);
            i = i + 1;
        }
        scores
    }

    /// Sign agreement of every document with each query of a batch, one row
    /// per query.
    pub fn score_all_batched(&self, queries: &[F32Bits]) -> (out: Vec<Vec<u32>>)
        requires
            self.wf(),
            queries.len() as int % self.dimension() == 0,
            all_finite(queries@),
        ensures
            out.len() == queries.len() as int / self.dimension(),
            forall|b: int|
                0 <= b < out.len() ==> (#[trigger] out[b])@.len() == self.count() && forall|i: int|
                    0 <= i < self.count() ==> #[trigger] out[b]@[i] == self.dimension() - hamming(
                        self.docs()[i],
                        sign_flags(query_at(queries@, self.dimension(), b)),
                    ),
    {
        let dim: usize = self.dim;
        let nq: usize = queries.len() / dim;
        proof {
            lemma_fundamental_div_mod(queries.len() as int, dim as int);
            assert(nq * dim == dim * nq) by (nonlinear_arith);
        }
        let rows: Vec<Vec<u64>> = self.pack_queries(queries, nq);
        let mut out: Vec<Vec<u32>> = Vec::with_capacity(nq);
        let mut b: usize = 0;
        while b < nq
            invariant
                self.wf(),
                nq == rows.len(),
                dim == self.dimension(),
                b <= nq,
                out.len() == b,
                forall|i: int|
                    0 <= i < nq ==> (#[trigger] rows[i])@.len() == dim / 64 && row_flags(
                        rows[i]@,
                        dim as int,
                    ) == sign_flags(query_at(queries@, dim as int, i)),
                forall|t: int|
                    0 <= t < b ==> (#[trigger] out[t])@.len() == self.count() && forall|i: int|
                        0 <= i < self.count() ==> #[trigger] out[t]@[i] == self.dimension()
                            - hamming(
                            self.docs()[i],
                            sign_flags(query_at(queries@, self.dimension(), t)),
                        ),
            decreases nq - b,
        {
            assert(rows[b as int]@.len() == dim / 64);
            out.push(self.agreements(rows[b].as_slice()));
            b = b + 1;
        }
        out
    }

    /// Sign agreement of every document with each query of a batch, as one
    /// flat row-major buffer.
    pub fn score_all_batched_flat(&self, queries: &[F32Bits]) -> (out: Vec<u32>)
        requires
            self.wf(),
            queries.len() as int % self.dimension() == 0,
            all_finite(queries@),
            (queries.len() as int / self.dimension()) * self.count() <= usize::MAX,
        ensures
            out.len() == (queries.len() as int / self.dimension()) * self.count(),
            forall|b: int, i: int|
                0 <= b < queries.len() as int / self.dimension() && 0 <= i < self.count()
                    ==> #[trigger] out[b * self.count() + i] == self.dimension() - hamming(
                    self.docs()[i],
                    sign_flags(query_at(queries@, self.dimension(), b)),
                ),
    {
        let rows: Vec<Vec<u32>> = self.score_all_batched(queries);
        let nq: usize = rows.len();
        let ghost n = self.count();
        let mut out: Vec<u32> = Vec::new();
        let mut b: usize = 0;
        assert(0 * n == 0);
        while b < nq
            invariant
                n == self.count(),
                0 <= n,
                nq == rows.len(),
                b <= nq,
                out@.len() == b * n,
                forall|t: int| 0 <= t < nq ==> (#[trigger] rows[t])@.len() == n,
                forall|t: int| 0 <= t < b ==> row(out@, n, t) == (#[trigger] rows[t])@,
            decreases nq - b,
        {
            let ghost before = out@;
            proof {
                assert(b * n + n == (b + 1) * n) by (nonlinear_arith);
            }
            let list: &Vec<u32> = &rows[b];
            out.extend_from_slice(list.as_slice());
            proof {
                assert(out@ =~= before + list@);
                assert forall|t: int| 0 <= t < b + 1 implies row(out@, n, t) == (
                #[trigger] rows[t])@ by {
                    lemma_row_inside(t, b + 1, n);
                    if t < b {
                        lemma_row_inside(t, b as int, n);
                        assert(row(out@, n, t) =~= row(before, n, t));
                    } else {
                        assert(row(out@, n, t) =~= list@);
                    }
                }
            }
            b = b + 1;
        }
        proof {
            assert forall|b: int, i: int|
                0 <= b < queries.len() as int / self.dimension() && 0 <= i < self.count()
                implies #[trigger] out[b * self.count() + i] == self.dimension() - hamming(
                self.docs()[i],
                sign_flags(query_at(queries@, self.dimension(), b)),
            ) by {
                lemma_row_inside(b, nq as int, n);
                assert(row(out@, n, b) == rows[b]@);
                assert(rows[b]@[i] == self.dimension() - hamming(
                    self.docs()[i],
                    sign_flags(query_at(queries@, self.dimension(), b)),
                ));
                assert(out@[b * n + i] == row(out@, n, b)[i]);
            }
        }
        out
    }

    /// Number of documents.
    pub fn len(&self) -> (n: usize)
        ensures
            n == self.count(),
    {
        self.n_vectors
    }

    /// Whether there are no documents.
    pub fn is_empty(&self) -> (r: bool)
        ensures
            r == (self.count() == 0),
    {
        self.n_vectors == 0
    }

    /// The dimension.
    pub fn dim(&self) -> (d: usize)
        ensures
            d == self.dimension(),
    {
        self.dim
    }

    /// Bytes per document.
    pub fn bytes_per_vec(&self) -> (n: usize)
        requires
            self.wf(),
        ensures
            n == self.dimension() / 8,
    {
        self.qwords_per_vec * 8
    }

    /// Total bytes held by the bitmap buffer.
    pub fn byte_size(&self) -> (n: usize)
        requires
            self.wf(),
            self.count() * (self.dimension() / 8) <= usize::MAX,
        ensures
            n == self.count() * (self.dimension() / 8),
    {
        proof {
            let q = self.qwords_per_vec as int;
            let n = self.n_vectors as int;
            assert(n * q * 8 == n * (q * 8)) by (nonlinear_arith);
            assert(self.dim as int / 8 == q * 8);
        }
        self.bitmaps.len() * 8
    }

    /// The packed rows, one after the other.
    pub fn bitmaps(&self) -> (w: &[u64])
        ensures
            w@ == self.words(),
    {
        self.bitmaps.as_slice()
    }

    /// Remove document `idx` by moving the last document into its place;
    /// returns the id that the moved document had.
    pub fn swap_remove(&mut self, idx: usize) -> (last: usize)
        requires
            old(self).wf(),
            idx < old(self).count(),
        ensures
            final(self).wf(),
            final(self).dimension() == old(self).dimension(),
            last == old(self).count() - 1,
            final(self).count() == last,
            final(self).docs() == old(self).docs().update(
                idx as int,
                old(self).docs()[last as int],
            ).drop_last(),
    {
        let last: usize = self.n_vectors - 1;
        let ghost before = *self;
        swap_remove_row(&mut self.bitmaps, self.qwords_per_vec, self.n_vectors, idx);
        self.n_vectors = last;
        proof {
            let q = self.qwords_per_vec as int;
            let all = rows_of(self.bitmaps@, q, last as int);
            let want = before.docs().update(idx as int, before.docs()[last as int]).drop_last();
            assert forall|i: int| 0 <= i < last implies self.docs()[i] == want[i] by {
                assert(all[i] == row(self.bitmaps@, q, i));
            }
            assert(self.docs() =~= want);
        }
        last
    }

    /// Assemble an index from its dimension and packed rows.
    pub(crate) fn from_parts(dim: usize, n_vectors: usize, bitmaps: Vec<u64>) -> (index: Self)
        requires
            valid_sign_dim(dim as int),
            n_vectors <= MAX_VECTORS,
            bitmaps.len() == n_vectors * (dim / 64),
        ensures
            index.wf(),
            index.dimension() == dim,
            index.count() == n_vectors,
            index.words() == bitmaps@,
    {
        SignBitmap { dim, qwords_per_vec: dim / 64, n_vectors, bitmaps }
    }
}

/// `lists` holds, for each query of a flat batch, the `m` documents with the
/// lowest Hamming distance from it, by ascending distance and then id.
pub open spec fn lists_candidates(
    index: SignBitmap,
    queries: Seq<F32Bits>,
    m: int,
    lists: Seq<Seq<u32>>,
) -> bool {
    &&& lists.len() == queries.len() as int / index.dimension()
    &&& forall|i: int|
        0 <= i < lists.len() ==> lists_smallest(
            index.count(),
            m,
            hamming_key(index.docs(), sign_flags(query_at(queries, index.dimension(), i))),
            #[trigger] lists[i],
        )
}

/// However a batch is scanned, streamed or query by query, the candidates of
/// query `qi` are those of a search for that query alone.
pub proof fn lemma_streamed_matches_single(
    index: SignBitmap,
    queries: Seq<F32Bits>,
    m: int,
    streamed: Seq<Seq<u32>>,
    qi: int,
    single: Seq<u32>,
)
    requires
        lists_candidates(index, queries, m, streamed),
        0 <= qi < streamed.len(),
        lists_smallest(
            index.count(),
            m,
            hamming_key(index.docs(), sign_flags(query_at(queries, index.dimension(), qi))),
            single,
        ),
    ensures
        streamed[qi] == single,
        single.len() == lesser(m, index.count()),
{
    lemma_smallest_unique(
        index.count(),
        m,
        hamming_key(index.docs(), sign_flags(query_at(queries, index.dimension(), qi))),
        streamed[qi],
        single,
    );
}

/// The Hamming distance of two patterns lies between zero and their length, is
/// symmetric, and vanishes exactly on equal patterns, which therefore agree in
/// every coordinate.
pub proof fn lemma_hamming_distance(a: Seq<bool>, b: Seq<bool>)
    requires
        a.len() == b.len(),
    ensures
        0 <= hamming(a, b) <= a.len(),
        hamming(a, b) == hamming(b, a),
        hamming(a, b) == 0 <==> a == b,
{
    let n = a.len() as int;
    let p = differing_flags(a, b);
    lemma_count_bounds(n, p);
    lemma_count_ext(n, p, differing_flags(b, a));
    if a == b {
        lemma_count_none(n, p);
    } else {
        let j = choose|j: int| 0 <= j < n && a[j] != b[j];
        assert(exists|j: int| 0 <= j < n && a[j] != b[j]) by {
            if forall|j: int| 0 <= j < n ==> a[j] == b[j] {
                assert(a =~= b);
            }
        }
        let q = |i: int| i == j;
        lemma_count_single(n, q, j);
        assert(p(j));
        lemma_count_mono(n, q, p);
    }
}

/// The words stored in a sign-bitmap file.
pub open spec fn stored_sign_words(bytes: Seq<u8>) -> Seq<int> {
    let h = header_of(PersistedFormat::SignBitmap, bytes);
    decoded(payload_of(PersistedFormat::SignBitmap, bytes), 8, h.n_vectors * (h.dim as int / 64))
}

/// The file of a sign-bitmap index.
pub open spec fn sign_file(dim: int, n: int, words: Seq<u64>) -> Seq<u8> {
    header_bytes(PersistedFormat::SignBitmap, 0, dim, 0, n) + encoded(ints64(words), 8)
}

impl SignBitmap {
    /// The bytes of the index file.
    pub fn write_to(&self) -> (r: Result<Vec<u8>, FormatError>)
        requires
            self.wf(),
        ensures
            match r {
                Ok(bytes) => size_error(
                    PersistedFormat::SignBitmap,
                    self.count() * (self.dimension() / 64) * 8,
                ) is None && bytes@ == sign_file(self.dimension(), self.count(), self.words()),
                Err(e) => size_error(
                    PersistedFormat::SignBitmap,
                    self.count() * (self.dimension() / 64) * 8,
                ) == Some(e),
            },
    {
        match checked_payload(PersistedFormat::SignBitmap, 0, self.dim, self.n_vectors) {
            Ok(_) => {},
            Err(e) => {
                return Err(e);
            },
        }
        let mut out: Vec<u8> = write_header(
            PersistedFormat::SignBitmap,
            0,
            self.dim,
            0,
            self.n_vectors,
        );
        push_u64s(&mut out, self.bitmaps.as_slice());
        Ok(out)
    }

    /// Read an index from the bytes of its file. Any bit pattern is a document.
    pub fn load_from_bytes(bytes: &[u8]) -> (r: Result<Self, FormatError>)
        ensures
            match r {
                Ok(index) => {
                    let h = header_of(PersistedFormat::SignBitmap, bytes@);
                    &&& file_error(PersistedFormat::SignBitmap, bytes@) is None
                    &&& index.wf()
                    &&& index.dimension() == h.dim
                    &&& index.count() == h.n_vectors
                    &&& ints64(index.words()) == stored_sign_words(bytes@)
                },
                Err(e) => file_error(PersistedFormat::SignBitmap, bytes@) == Some(e),
            },
    {
        let h: Header = match open_file(PersistedFormat::SignBitmap, bytes) {
            Ok(h) => h,
            Err(e) => {
                return Err(e);
            },
        };
        let q: usize = h.dim / 64;
        proof {
            lemma_accepted_header(PersistedFormat::SignBitmap, bytes@);
            assert(h.n_vectors * q <= h.n_vectors * q * 8) by (nonlinear_arith);
        }
        let words: Vec<u64> = read_u64s(bytes, 13, h.n_vectors * q);
        assert(words.len() == ints64(words@).len());
        Ok(SignBitmap::from_parts(h.dim, h.n_vectors, words))
    }
}

/// What `write_to` writes, `load_from_bytes` reads back: the file is accepted,
/// with the dimension, the document count and the words that were written.
pub proof fn lemma_sign_write_then_load(index: SignBitmap)
    requires
        index.wf(),
        size_error(
            PersistedFormat::SignBitmap,
            index.count() * (index.dimension() / 64) * 8,
        ) is None,
    ensures
        ({
            let file = sign_file(index.dimension(), index.count(), index.words());
            let h = header_of(PersistedFormat::SignBitmap, file);
            &&& file_error(PersistedFormat::SignBitmap, file) is None
            &&& h.dim == index.dimension()
            &&& h.n_vectors == index.count()
            &&& stored_sign_words(file) == ints64(index.words())
        }),
{
    let dim = index.dimension();
    let n = index.count();
    let values = ints64(index.words());
    let payload = encoded(values, 8);
    let h = Header { bits: 0, dim: dim as usize, n_top: 0, n_vectors: n as usize };
    lemma_encoded(values, 8);
    lemma_header_round_trip(PersistedFormat::SignBitmap, h, payload);
    lemma_spans();
    lemma_decoded(values, 8);
}

/// Bytes of documents scored per block of a streamed scan.
const BLOCK_BYTES: usize = 262144;

/// The least number of documents per block.
const MIN_BLOCK_DOCS: usize = 64;

/// Pack the sign pattern of a vector.
fn sign_row(v: &[F32Bits]) -> (words: Vec<u64>)
    ensures
        words.len() == words_for(v.len() as int),
        row_flags(words@, v.len() as int) == sign_flags(v@),
{
    let mut flags: Vec<bool> = Vec::with_capacity(v.len());
    let mut j: usize = 0;
    while j < v.len()
        invariant
            j <= v.len(),
            flags.len() == j,
            forall|t: int| 0 <= t < j ==> #[trigger] flags[t] == v[t].positive(),
        decreases v.len() - j,
    {
        flags.push(v[j].is_positive());
        j = j + 1;
    }
    assert(flags@ =~= sign_flags(v@));
    pack_bits(flags.as_slice())
}

} // verus!
