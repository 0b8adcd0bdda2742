//! Full-precision rank-cosine index.

use vstd::arithmetic::div_mod::{lemma_fundamental_div_mod, lemma_fundamental_div_mod_converse};
use vstd::prelude::*;
use vstd::slice::slice_subrange;

use crate::codec::{
    decoded, encoded, ints16, lemma_decoded, lemma_encoded, lemma_spans, push_u16s, read_u16s,
};
use crate::counting::{
    at, compose, first_where, lemma_first_where, lemma_first_where_holds, lemma_sum_add,
    lemma_sum_ext, lemma_sum_le, lemma_sum_scale, sum_to,
};
use crate::float_bits::{all_finite, F32Bits};
use crate::format::PersistedFormat;
use crate::format_error::FormatError;
use crate::parallel::par_map_rows;
use crate::rank::{
    centred_square, is_rank_row, lemma_rank_norm_is_analytic, lemma_rank_transform_is_permutation,
    rank_ints, rank_row, ranks_of,
};
use crate::rank_io::{
    checked_payload, file_error, header_bytes, header_of, lemma_accepted_header,
    lemma_header_round_trip, open_file, payload_of, size_error, write_header, Header, MAX_DIM,
    MAX_VECTORS,
};
use crate::results::{asymmetric_row, best_of, best_row, prepared, scored, scores_of, SearchResults};
use crate::rows::{
    append_rows, contents, lemma_row_inside, lemma_whole_rows, row, rows_of, swap_remove_row,
};
use crate::select::lesser;
use crate::util::checked_new_count;

verus! {

/// The dimension is one that a rank index can have.
pub open spec fn valid_rank_dim(dim: int) -> bool {
    2 <= dim <= MAX_DIM
}

/// The products of the doubled centred ranks of two rank vectors.
pub open spec fn centred_term(q: Seq<u16>, d: Seq<u16>) -> spec_fn(int) -> int {
    |j: int| (2 * q[j] - (q.len() - 1)) * (2 * d[j] - (q.len() - 1))
}

/// Four times the inner product of two mean-centred rank vectors.
pub open spec fn centred_product(q: Seq<u16>, d: Seq<u16>) -> int {
    sum_to(q.len() as int, centred_term(q, d))
}

/// `scores` holds what `scale` gave for the centred product of `q` with each
/// document.
pub open spec fn symmetric_scores<F: Fn(i64) -> F32Bits>(
    scale: F,
    q: Seq<u16>,
    docs: Seq<Seq<u16>>,
    scores: Seq<F32Bits>,
) -> bool {
    &&& scores.len() == docs.len()
    &&& forall|i: int|
        0 <= i < docs.len() ==> scale.ensures(
            (centred_product(q, docs[i]) as i64,),
            #[trigger] scores[i],
        )
}

/// The buffers hold the best `k` of some scores that `scale` gave.
pub open spec fn symmetric_row<F: Fn(i64) -> F32Bits>(
    scale: F,
    q: Seq<u16>,
    docs: Seq<Seq<u16>>,
    k: int,
    out_scores: Seq<F32Bits>,
    out_indices: Seq<i64>,
) -> bool {
    exists|scores: Seq<F32Bits>|
        symmetric_scores(scale, q, docs, scores) && #[trigger] best_of(
            scores,
            k,
            out_scores,
            out_indices,
        )
}

/// Full-precision rank-cosine index: each document is its rank vector.
pub struct Rank {
    dim: usize,
    n_vectors: usize,
    ranks: Vec<u16>,
}

impl Rank {
    /// The dimension.
    pub closed spec fn dimension(&self) -> int {
        self.dim as int
    }

    /// The number of documents.
    pub closed spec fn count(&self) -> int {
        self.n_vectors as int
    }

    /// The rank values, one document after the other.
    pub closed spec fn values(&self) -> Seq<u16> {
        self.ranks@
    }

    /// The rank vectors of the documents.
    pub open spec fn docs(&self) -> Seq<Seq<u16>> {
        rows_of(self.values(), self.dimension(), self.count())
    }

    /// The dimension is valid, the document count within its cap, and every
    /// document is a permutation of `0..dim`.
    pub open spec fn wf(&self) -> bool {
        &&& valid_rank_dim(self.dimension())
        &&& 0 <= self.count() <= MAX_VECTORS
        &&& self.values().len() == self.count() * self.dimension()
        &&& forall|i: int| 0 <= i < self.count() ==> is_rank_row(#[trigger] self.docs()[i])
    }

    /// An empty index for `dim`-dimensional vectors.
    pub fn new(dim: usize) -> (index: Self)
        requires
            valid_rank_dim(dim as int),
        ensures
            index.wf(),
            index.dimension() == dim,
            index.count() == 0,
    {
        Rank { dim, n_vectors: 0, ranks: Vec::new() }
    }

    /// Add documents: each vector is stored as its rank transform.
    pub fn add(&mut self, vectors: &[F32Bits])
        requires
            old(self).wf(),
            vectors.len() as int % old(self).dimension() == 0,
            all_finite(vectors@),
            old(self).count() + vectors.len() as int / old(self).dimension() <= MAX_VECTORS,
            (old(self).count() + vectors.len() as int / old(self).dimension())
                * old(self).dimension() <= usize::MAX,
        ensures
            final(self).wf(),
            final(self).dimension() == old(self).dimension(),
            final(self).count() == old(self).count() + vectors.len() as int
                / old(self).dimension(),
            final(self).docs() == old(self).docs() + Seq::new(
                (vectors.len() as int / old(self).dimension()) as nat,
                |i: int| ranks_of(row(vectors@, old(self).dimension(), i)),
            ),
    {
        let dim: usize = self.dim;
        let n: usize = vectors.len() / dim;
        let encode = |v: &[F32Bits]| -> (ranks: Vec<u16>)
            requires
                v.len() == dim,
            ensures
                ranks@ == ranks_of(v@),
            {
                rank_row(v)
            };
        let rows: Vec<Vec<u16>> = par_map_rows(vectors, dim, encode);
        let ghost before = *self;
        proof {
            lemma_whole_rows(vectors@.len() as int, dim as int);
            assert forall|t: int| 0 <= t < n implies (#[trigger] rows@[t])@ == ranks_of(
                row(vectors@, dim as int, t),
            ) by {
                lemma_row_inside(t, n as int, dim as int);
            }
            assert forall|t: int| 0 <= t < rows.len() implies (#[trigger] rows[t])@.len()
                == dim by {
                lemma_row_inside(t, n as int, dim as int);
                assert(rows@[t]@ == ranks_of(row(vectors@, dim as int, t)));
            }
        }
        append_rows(&mut self.ranks, &rows, dim, Ghost(before.n_vectors as int));
        self.n_vectors = checked_new_count(self.n_vectors, n, self.dim);
        proof {
            let want = before.docs() + Seq::new(
                n as nat,
                |i: int| ranks_of(row(vectors@, before.dimension(), i)),
            );
            assert(self.docs() =~= want) by {
                assert forall|i: int| 0 <= i < n implies contents(rows@)[i] == ranks_of(
                    row(vectors@, before.dimension(), i),
                ) by {
                    assert(rows@[i]@ == ranks_of(row(vectors@, dim as int, i)));
                }
                assert(contents(rows@) =~= Seq::new(
                    n as nat,
                    |i: int| ranks_of(row(vectors@, before.dimension(), i)),
                ));
            }
            assert forall|i: int| 0 <= i < self.count() implies is_rank_row(
                #[trigger] self.docs()[i],
            ) by {
                if i < before.n_vectors {
                    assert(self.docs()[i] == before.docs()[i]);
                } else {
                    let t = i - before.n_vectors;
                    lemma_row_inside(t, n as int, dim as int);
                    lemma_rank_transform_is_permutation(row(vectors@, dim as int, t));
                    assert(self.docs()[i] == ranks_of(row(vectors@, dim as int, t)));
                }
            }
        }
    }

    /// Document `i`.
    fn doc(&self, i: usize) -> (d: &[u16])
        requires
            self.wf(),
            i < self.count(),
        ensures
            d@ == self.docs()[i as int],
            d.len() == self.dimension(),
            is_rank_row(d@),
    {
        proof {
            lemma_row_inside(i as int, self.n_vectors as int, self.dim as int);
            assert(self.ranks.len() == self.n_vectors * self.dim);
            assert(is_rank_row(self.docs()[i as int]));
        }
        slice_subrange(self.ranks.as_slice(), i * self.dim, i * self.dim + self.dim)
    }

    /// The best `k` documents for one query by centred rank product.
    fn symmetric_query<F: Fn(i64) -> F32Bits>(&self, q: &[F32Bits], k: usize, scale: &F) -> (r: (
        Vec<F32Bits>,
        Vec<i64>,
    ))
        requires
            self.wf(),
            q.len() == self.dimension(),
            forall|p: i64| #[trigger] scale.requires((p,)),
        ensures
            r.0@.len() == lesser(k as int, self.count()),
            r.1@.len() == r.0@.len(),
            symmetric_row(*scale, ranks_of(q@), self.docs(), k as int, r.0@, r.1@),
    {
        let q_ranks: Vec<u16> = rank_row(q);
        let mut scores: Vec<F32Bits> = Vec::with_capacity(self.n_vectors);
        let mut di: usize = 0;
        while di < self.n_vectors
            invariant
                self.wf(),
                q_ranks@.len() == self.dimension(),
                is_rank_row(q_ranks@),
                di <= self.n_vectors,
                scores@.len() == di,
                forall|p: i64| #[trigger] scale.requires((p,)),
                forall|i: int|
                    0 <= i < di ==> scale.ensures(
                        (centred_product(q_ranks@, self.docs()[i]) as i64,),
                        #[trigger] scores@[i],
                    ),
            decreases self.n_vectors - di,
        {
            let acc: i64 = centred_dot(q_ranks.as_slice(), self.doc(di));
            scores.push(scale(acc));
            di = di + 1;
        }
        assert(symmetric_scores(*scale, ranks_of(q@), self.docs(), scores@));
        best_row(scores.as_slice(), k)
    }

    /// Symmetric rank-cosine search: the centred product of the query ranks
    /// with each document's, scaled to a score by `scale`; the best `k` scores
    /// per query, by descending score and then ascending document id.
    pub fn search<F: Fn(i64) -> F32Bits + Sync + Send>(
        &self,
        queries: &[F32Bits],
        k: usize,
        scale: F,
    ) -> (r: SearchResults)
        requires
            self.wf(),
            queries.len() as int % self.dimension() == 0,
            all_finite(queries@),
            (queries.len() as int / self.dimension()) * lesser(k as int, self.count())
                <= usize::MAX,
            forall|p: i64| #[trigger] scale.requires((p,)),
        ensures
            r.wf(),
            r.nq == queries.len() as int / self.dimension(),
            r.k == lesser(k as int, self.count()),
            forall|qi: int|
                0 <= qi < r.nq ==> symmetric_row(
                    scale,
                    ranks_of(row(queries@, self.dimension(), qi)),
                    self.docs(),
                    k as int,
                    #[trigger] r.score_row(qi),
                    r.index_row(qi),
                ),
    {
        let kept: usize = if k <= self.n_vectors {
            k
        } else {
            self.n_vectors
        };
        let dim: usize = self.dim;
        let by: &F = &scale;
        let one = |q: &[F32Bits]| -> (r: (Vec<F32Bits>, Vec<i64>))
            requires
                q.len() == dim,
            ensures
                r.0@.len() == kept,
                r.1@.len() == kept,
                symmetric_row(*by, ranks_of(q@), self.docs(), k as int, r.0@, r.1@),
            { self.symmetric_query(q, k, by) };
        let rows: Vec<(Vec<F32Bits>, Vec<i64>)> = par_map_rows(queries, dim, one);
        let r = SearchResults::from_rows(&rows, kept);
        proof {
            lemma_whole_rows(queries@.len() as int, dim as int);
            assert forall|qi: int| 0 <= qi < r.nq implies symmetric_row(
                scale,
                ranks_of(row(queries@, self.dimension(), qi)),
                self.docs(),
                k as int,
                #[trigger] r.score_row(qi),
                r.index_row(qi),
            ) by {
                assert(r.score_row(qi) == rows[qi].0@);
                assert(r.index_row(qi) == rows[qi].1@);
            }
        }
        r
    }

    /// The best `k` documents for one query by `score`.
    fn asymmetric_query<P, G: Fn(&[F32Bits]) -> P, S: Fn(&P, &[u16]) -> F32Bits>(
        &self,
        q: &[F32Bits],
        k: usize,
        prepare: &G,
        score: &S,
    ) -> (r: (Vec<F32Bits>, Vec<i64>))
        requires
            self.wf(),
            prepare.requires((q,)),
            forall|p: &P, d: &[u16]|
                d.len() == self.dimension() && is_rank_row(d@)
                    ==> #[trigger] score.requires((p, d)),
        ensures
            r.0@.len() == lesser(k as int, self.count()),
            r.1@.len() == r.0@.len(),
            asymmetric_row(*prepare, *score, q@, self.docs(), k as int, r.0@, r.1@),
    {
        let p: P = prepare(q);
        assert(prepared(*prepare, q@, p));
        let mut scores: Vec<F32Bits> = Vec::with_capacity(self.n_vectors);
        let mut di: usize = 0;
        while di < self.n_vectors
            invariant
                self.wf(),
                di <= self.n_vectors,
                scores@.len() == di,
                forall|p: &P, d: &[u16]|
                    d.len() == self.dimension() && is_rank_row(d@)
                        ==> #[trigger] score.requires((p, d)),
                forall|i: int|
                    0 <= i < di ==> scored(*score, p, self.docs()[i], #[trigger] scores@[i]),
            decreases self.n_vectors - di,
        {
            let d: &[u16] = self.doc(di);
            let s: F32Bits = score(&p, d);
            assert(scored(*score, p, self.docs()[di as int], s));
            scores.push(s);
            di = di + 1;
        }
        assert(scores_of(*score, p, self.docs(), scores@));
        best_row(scores.as_slice(), k)
    }

    /// Asymmetric rank-cosine search: `score` scores what `prepare` made of a
    /// query against the ranks of a document; the best `k` scores per query, by
    /// descending score and then ascending document id.
    pub fn search_asymmetric<
        P,
        G: Fn(&[F32Bits]) -> P + Sync + Send,
        S: Fn(&P, &[u16]) -> F32Bits + Sync + Send,
    >(&self, queries: &[F32Bits], k: usize, prepare: G, score: S) -> (r: SearchResults)
        requires
            self.wf(),
            queries.len() as int % self.dimension() == 0,
            all_finite(queries@),
            (queries.len() as int / self.dimension()) * lesser(k as int, self.count())
                <= usize::MAX,
            forall|q: &[F32Bits]|
                q.len() == self.dimension() ==> #[trigger] prepare.requires((q,)),
            forall|p: &P, d: &[u16]|
                d.len() == self.dimension() && is_rank_row(d@)
                    ==> #[trigger] score.requires((p, d)),
        ensures
            r.wf(),
            r.nq == queries.len() as int / self.dimension(),
            r.k == lesser(k as int, self.count()),
            forall|qi: int|
                0 <= qi < r.nq ==> asymmetric_row(
                    prepare,
                    score,
                    row(queries@, self.dimension(), qi),
                    self.docs(),
                    k as int,
                    #[trigger] r.score_row(qi),
                    r.index_row(qi),
                ),
    {
        let kept: usize = if k <= self.n_vectors {
            k
        } else {
            self.n_vectors
        };
        let dim: usize = self.dim;
        let by: (&G, &S) = (&prepare, &score);
        let one = |q: &[F32Bits]| -> (r: (Vec<F32Bits>, Vec<i64>))
            requires
                q.len() == dim,
            ensures
                r.0@.len() == kept,
                r.1@.len() == kept,
                asymmetric_row(*by.0, *by.1, q@, self.docs(), k as int, r.0@, r.1@),
            { self.asymmetric_query(q, k, by.0, by.1) };
        let rows: Vec<(Vec<F32Bits>, Vec<i64>)> = par_map_rows(queries, dim, one);
        let r = SearchResults::from_rows(&rows, kept);
        proof {
            lemma_whole_rows(queries@.len() as int, dim as int);
            assert forall|qi: int| 0 <= qi < r.nq implies asymmetric_row(
                prepare,
                score,
                row(queries@, self.dimension(), qi),
                self.docs(),
                k as int,
                #[trigger] r.score_row(qi),
                r.index_row(qi),
            ) by {
                assert(r.score_row(qi) == rows[qi].0@);
                assert(r.index_row(qi) == rows[qi].1@);
            }
        }
        r
    }

    /// Number of documents.
    pub fn len(&self) -> (n: usize)
        ensures
            n == self.count(),
    {
        self.n_vectors
    }

    /// Whether there are no documents.
    pub fn is_empty(&self) -> (r: bool)
        ensures
            r == (self.count() == 0),
    {
        self.n_vectors == 0
    }

    /// The dimension.
    pub fn dim(&self) -> (d: usize)
        ensures
            d == self.dimension(),
    {
        self.dim
    }

    /// Bytes per document.
    pub fn bytes_per_vec(&self) -> (n: usize)
        requires
            self.wf(),
        ensures
            n == self.dimension() * 2,
    {
        self.dim * 2
    }

    /// Total bytes held by the rank buffer.
    pub fn byte_size(&self) -> (n: usize)
        requires
            self.wf(),
            self.count() * (self.dimension() * 2) <= usize::MAX,
        ensures
            n == self.count() * (self.dimension() * 2),
    {
        proof {
            let n = self.n_vectors as int;
            let d = self.dim as int;
            assert(n * d * 2 == n * (d * 2)) by (nonlinear_arith);
        }
        self.ranks.len() * 2
    }

    /// The rank values, one document after the other.
    pub fn ranks(&self) -> (v: &[u16])
        ensures
            v@ == self.values(),
    {
        self.ranks.as_slice()
    }

    /// Remove document `idx` by moving the last document into its place;
    /// returns the id that the moved document had.
    pub fn swap_remove(&mut self, idx: usize) -> (last: usize)
        requires
            old(self).wf(),
            idx < old(self).count(),
        ensures
            final(self).wf(),
            final(self).dimension() == old(self).dimension(),
            last == old(self).count() - 1,
            final(self).count() == last,
            final(self).docs() == old(self).docs().update(
                idx as int,
                old(self).docs()[last as int],
            ).drop_last(),
    {
        let last: usize = self.n_vectors - 1;
        let ghost before = *self;
        swap_remove_row(&mut self.ranks, self.dim, self.n_vectors, idx);
        self.n_vectors = last;
        proof {
            assert forall|i: int| 0 <= i < self.count() implies is_rank_row(
                #[trigger] self.docs()[i],
            ) by {
                assert(is_rank_row(before.docs()[i]));
                assert(is_rank_row(before.docs()[last as int]));
            }
        }
        last
    }

    /// Assemble an index from its dimension and rank values.
    pub(crate) fn from_parts(dim: usize, n_vectors: usize, ranks: Vec<u16>) -> (index: Self)
        requires
            valid_rank_dim(dim as int),
            n_vectors <= MAX_VECTORS,
            ranks.len() == n_vectors * dim,
            forall|i: int|
                0 <= i < n_vectors ==> is_rank_row(#[trigger] row(ranks@, dim as int, i)),
        ensures
            index.wf(),
            index.dimension() == dim,
            index.count() == n_vectors,
            index.values() == ranks@,
    {
        let index = Rank { dim, n_vectors, ranks };
        proof {
            assert forall|i: int| 0 <= i < index.count() implies is_rank_row(
                #[trigger] index.docs()[i],
            ) by {
                assert(is_rank_row(row(ranks@, dim as int, i)));
            }
        }
        index
    }
}

/// `values[p]` is no rank, or a rank that its row already holds.
pub open spec fn bad_rank(values: Seq<int>, dim: int) -> spec_fn(int) -> bool {
    |p: int|
        values[p] >= dim || exists|q: int|
            p - p % dim <= q < p && #[trigger] values[q] == values[p]
}

/// The first rank, in storage order, that breaks the permutation of its row.
pub open spec fn permutation_error(values: Seq<int>, dim: int) -> Option<FormatError> {
    let p = first_where(values.len() as int, bad_rank(values, dim));
    if p >= values.len() {
        None
    } else if values[p] >= dim {
        Some(FormatError::RankTooLarge { rank: values[p] as u16, dim: dim as usize })
    } else {
        Some(FormatError::RankRepeats { row: (p / dim) as usize, rank: values[p] as u16 })
    }
}

/// The ranks stored in a file.
pub open spec fn stored_ranks(bytes: Seq<u8>) -> Seq<int> {
    let h = header_of(PersistedFormat::Rank, bytes);
    decoded(payload_of(PersistedFormat::Rank, bytes), 2, h.n_vectors * h.dim)
}

/// What is first found wrong with the bytes of a rank index.
pub open spec fn rank_file_error(bytes: Seq<u8>) -> Option<FormatError> {
    if file_error(PersistedFormat::Rank, bytes) is Some {
        file_error(PersistedFormat::Rank, bytes)
    } else {
        permutation_error(
            stored_ranks(bytes),
            header_of(PersistedFormat::Rank, bytes).dim as int,
        )
    }
}

/// The file of a rank index.
pub open spec fn rank_file(dim: int, n: int, ranks: Seq<u16>) -> Seq<u8> {
    header_bytes(PersistedFormat::Rank, 0, dim, 0, n) + encoded(ints16(ranks), 2)
}

/// Rows without a bad rank are permutations.
proof fn lemma_rows_are_permutations(ranks: Seq<u16>, dim: int, n: int)
    requires
        0 < dim,
        ranks.len() == n * dim,
        permutation_error(ints16(ranks), dim) is None,
    ensures
        forall|i: int| 0 <= i < n ==> is_rank_row(#[trigger] row(ranks, dim, i)),
{
    let values = ints16(ranks);
    let p = bad_rank(values, dim);
    lemma_first_where_holds(values.len() as int, p);
    assert forall|i: int| 0 <= i < n implies is_rank_row(#[trigger] row(ranks, dim, i)) by {
        let r = row(ranks, dim, i);
        lemma_row_inside(i, n, dim);
        assert forall|j: int| 0 <= j < dim implies 0 <= #[trigger] rank_ints(r)[j] < dim by {
            assert(!p(i * dim + j));
        }
        assert forall|a: int, b: int| 0 <= a < b < dim implies rank_ints(r)[a] != rank_ints(
            r,
        )[b] by {
            let at = i * dim + b;
            assert(!p(at));
            lemma_fundamental_div_mod_converse(at, dim, i, b);
            assert(values[i * dim + a] != values[at]);
        }
    }
}

/// Rows that are permutations have no bad rank.
proof fn lemma_permutations_pass(ranks: Seq<u16>, dim: int, n: int)
    requires
        0 < dim,
        ranks.len() == n * dim,
        forall|i: int| 0 <= i < n ==> is_rank_row(#[trigger] row(ranks, dim, i)),
    ensures
        permutation_error(ints16(ranks), dim) is None,
{
    let values = ints16(ranks);
    let bad = bad_rank(values, dim);
    assert forall|p: int| 0 <= p < values.len() implies !(#[trigger] bad(p)) by {
        lemma_fundamental_div_mod(p, dim);
        let i = p / dim;
        let b = p % dim;
        assert(i * dim == dim * i) by (nonlinear_arith);
        assert(0 <= i < n) by (nonlinear_arith)
            requires
                p == dim * i + b,
                0 <= b < dim,
                0 <= p < n * dim,
                0 < dim,
        ;
        lemma_row_inside(i, n, dim);
        let r = row(ranks, dim, i);
        assert(is_rank_row(r));
        assert(rank_ints(r)[b] == values[p]);
        assert forall|q: int| p - b <= q < p implies #[trigger] values[q] != values[p] by {
            let a = q - i * dim;
            assert(rank_ints(r)[a] == values[q]);
        }
    }
    lemma_first_where(values.len() as int, bad, values.len() as int);
}

/// Check that every row of `dim` ranks is a permutation of `0..dim`.
fn check_permutations(ranks: &[u16], dim: usize, n: usize) -> (r: Result<(), FormatError>)
    requires
        0 < dim,
        n <= MAX_VECTORS,
        ranks.len() == n * dim,
    ensures
        match r {
            Ok(()) => permutation_error(ints16(ranks@), dim as int) is None,
            Err(e) => permutation_error(ints16(ranks@), dim as int) == Some(e),
        },
{
    let ghost values = ints16(ranks@);
    let ghost bad = bad_rank(values, dim as int);
    let mut seen: Vec<u32> = vec![0u32; dim];
    let mut i: usize = 0;
    while i < n
        invariant
            0 < dim,
            i <= n <= MAX_VECTORS,
            ranks.len() == n * dim,
            values == ints16(ranks@),
            bad == bad_rank(values, dim as int),
            seen.len() == dim,
            forall|v: int| 0 <= v < dim ==> #[trigger] seen[v] <= i,
            forall|p: int| 0 <= p < i * dim ==> !(#[trigger] bad(p)),
        decreases n - i,
    {
        let stamp: u32 = i as u32 + 1;
        proof {
            lemma_row_inside(i as int, n as int, dim as int);
        }
        let base: usize = i * dim;
        let mut j: usize = 0;
        while j < dim
            invariant
                0 < dim,
                j <= dim,
                i < n <= MAX_VECTORS,
                base == i * dim,
                base + dim <= ranks.len(),
                ranks.len() == n * dim,
                values == ints16(ranks@),
                bad == bad_rank(values, dim as int),
                stamp == i + 1,
                seen.len() == dim,
                forall|v: int| 0 <= v < dim ==> #[trigger] seen[v] <= stamp,
                forall|q: int|
                    base <= q < base + j ==> 0 <= #[trigger] values[q] < dim && seen[values[q]]
                        == stamp,
                forall|v: int|
                    0 <= v < dim && #[trigger] seen[v] == stamp ==> exists|q: int|
                        base <= q < base + j && #[trigger] values[q] == v,
                forall|p: int| 0 <= p < base + j ==> !(#[trigger] bad(p)),
            decreases dim - j,
        {
            let ghost p = base + j;
            let rank: u16 = ranks[base + j];
            proof {
                lemma_fundamental_div_mod_converse(p, dim as int, i as int, j as int);
                assert(values[p] == rank);
            }
            if rank as usize >= dim {
                proof {
                    assert(bad(p));
                    lemma_first_where(values.len() as int, bad, p);
                }
                return Err(FormatError::RankTooLarge { rank, dim });
            }
            if seen[rank as usize] == stamp {
                proof {
                    assert(bad(p));
                    lemma_first_where(values.len() as int, bad, p);
                }
                return Err(FormatError::RankRepeats { row: i, rank });
            }
            let ghost before = seen@;
            seen[rank as usize] = stamp;
            proof {
                assert(!bad(p)) by {
                    assert forall|q: int| p - p % (dim as int) <= q < p implies #[trigger] values[q]
                        != values[p] by {
                        assert(before[values[q]] == stamp);
                    }
                }
                assert forall|v: int| 0 <= v < dim && #[trigger] seen[v] == stamp implies exists|
                    q: int,
                | base <= q < base + j + 1 && #[trigger] values[q] == v by {
                    if v == rank {
                        assert(values[p] == v);
                    } else {
                        assert(before[v] == stamp);
                        let q = choose|q: int| base <= q < base + j && #[trigger] values[q] == v;
                        assert(values[q] == v);
                    }
                }
            }
            j = j + 1;
        }
        proof {
            assert(base + dim == (i + 1) * dim) by (nonlinear_arith)
                requires
                    base == i * dim,
            ;
        }
        i = i + 1;
    }
    proof {
        lemma_first_where(values.len() as int, bad, values.len() as int);
    }
    Ok(())
}

impl Rank {
    /// The bytes of the index file.
    pub fn write_to(&self) -> (r: Result<Vec<u8>, FormatError>)
        requires
            self.wf(),
        ensures
            match r {
                Ok(bytes) => size_error(
                    PersistedFormat::Rank,
                    self.count() * self.dimension() * 2,
                ) is None && bytes@ == rank_file(self.dimension(), self.count(), self.values()),
                Err(e) => size_error(PersistedFormat::Rank, self.count() * self.dimension() * 2)
                    == Some(e),
            },
    {
        match checked_payload(PersistedFormat::Rank, 0, self.dim, self.n_vectors) {
            Ok(_) => {},
            Err(e) => {
                return Err(e);
            },
        }
        let mut out: Vec<u8> = write_header(PersistedFormat::Rank, 0, self.dim, 0, self.n_vectors);
        push_u16s(&mut out, self.ranks.as_slice());
        Ok(out)
    }

    /// Read an index from the bytes of its file.
    pub fn load_from_bytes(bytes: &[u8]) -> (r: Result<Self, FormatError>)
        ensures
            match r {
                Ok(index) => {
                    let h = header_of(PersistedFormat::Rank, bytes@);
                    &&& rank_file_error(bytes@) is None
                    &&& index.wf()
                    &&& index.dimension() == h.dim
                    &&& index.count() == h.n_vectors
                    &&& ints16(index.values()) == stored_ranks(bytes@)
                },
                Err(e) => rank_file_error(bytes@) == Some(e),
            },
    {
        let h: Header = match open_file(PersistedFormat::Rank, bytes) {
            Ok(h) => h,
            Err(e) => {
                return Err(e);
            },
        };
        proof {
            lemma_accepted_header(PersistedFormat::Rank, bytes@);
            assert(h.n_vectors * h.dim <= h.n_vectors * h.dim * 2) by (nonlinear_arith);
        }
        let ranks: Vec<u16> = read_u16s(bytes, 13, h.n_vectors * h.dim);
        assert(ranks.len() == ints16(ranks@).len());
        match check_permutations(ranks.as_slice(), h.dim, h.n_vectors) {
            Ok(()) => {},
            Err(e) => {
                return Err(e);
            },
        }
        proof {
            lemma_rows_are_permutations(ranks@, h.dim as int, h.n_vectors as int);
        }
        Ok(Rank::from_parts(h.dim, h.n_vectors, ranks))
    }
}

/// What `write_to` writes, `load_from_bytes` reads back: the file is accepted,
/// with the dimension, the document count and the ranks that were written.
pub proof fn lemma_rank_write_then_load(index: Rank)
    requires
        index.wf(),
        size_error(PersistedFormat::Rank, index.count() * index.dimension() * 2) is None,
    ensures
        ({
            let file = rank_file(index.dimension(), index.count(), index.values());
            let h = header_of(PersistedFormat::Rank, file);
            &&& rank_file_error(file) is None
            &&& h.dim == index.dimension()
            &&& h.n_vectors == index.count()
            &&& stored_ranks(file) == ints16(index.values())
        }),
{
    let dim = index.dimension();
    let n = index.count();
    let values = index.values();
    let payload = encoded(ints16(values), 2);
    let h = Header { bits: 0, dim: dim as usize, n_top: 0, n_vectors: n as usize };
    lemma_encoded(ints16(values), 2);
    lemma_header_round_trip(PersistedFormat::Rank, h, payload);
    lemma_spans();
    lemma_decoded(ints16(values), 2);
    assert forall|i: int| 0 <= i < n implies is_rank_row(#[trigger] row(values, dim, i)) by {
        assert(is_rank_row(index.docs()[i]));
    }
    lemma_permutations_pass(values, dim, n);
}

/// Four times the inner product of two mean-centred rank vectors.
fn centred_dot(q: &[u16], d: &[u16]) -> (acc: i64)
    requires
        2 <= q.len() <= MAX_DIM,
        q.len() == d.len(),
        is_rank_row(q@),
        is_rank_row(d@),
    ensures
        acc == centred_product(q@, d@),
{
    let dim: usize = q.len();
    let top: i64 = dim as i64 - 1;
    let ghost f = centred_term(q@, d@);
    let mut acc: i64 = 0;
    let mut j: usize = 0;
    while j < dim
        invariant
            2 <= dim <= MAX_DIM,
            dim == q.len(),
            dim == d.len(),
            top == dim - 1,
            is_rank_row(q@),
            is_rank_row(d@),
            f == centred_term(q@, d@),
            j <= dim,
            acc == sum_to(j as int, f),
            -(j * 0x1_0000_0000) <= acc <= j * 0x1_0000_0000,
        decreases dim - j,
    {
        assert(0 <= rank_ints(q@)[j as int] < dim);
        assert(0 <= rank_ints(d@)[j as int] < dim);
        let x: i64 = 2 * (q[j] as i64) - top;
        let y: i64 = 2 * (d[j] as i64) - top;
        assert(-0x1_0000_0000 <= x * y <= 0x1_0000_0000) by (nonlinear_arith)
            requires
                -65536 <= x <= 65536,
                -65536 <= y <= 65536,
        ;
        assert(f(j as int) == x * y);
        acc = acc + x * y;
        j = j + 1;
    }
    acc
}

/// The centred product of two rank vectors is bounded by their common squared
/// norm, which it reaches on a vector with itself: dividing by that norm gives
/// a cosine.
pub proof fn lemma_centred_product_bounded(q: Seq<u16>, d: Seq<u16>)
    requires
        q.len() == d.len(),
        is_rank_row(q),
        is_rank_row(d),
    ensures
        -(q.len() * (q.len() * q.len() - 1)) <= 3 * centred_product(q, d) <= q.len() * (q.len()
            * q.len() - 1),
        q == d ==> 3 * centred_product(q, d) == q.len() * (q.len() * q.len() - 1),
{
    let n = q.len() as int;
    let f = centred_term(q, d);
    let a = compose(centred_square(n - 1), at(rank_ints(q)));
    let b = compose(centred_square(n - 1), at(rank_ints(d)));
    lemma_rank_norm_is_analytic(q);
    lemma_rank_norm_is_analytic(d);
    let twice = |j: int| 2 * f(j);
    let minus = |j: int| -2 * f(j);
    let sum = |j: int| a(j) + b(j);
    lemma_sum_add(n, a, b, sum);
    lemma_sum_scale(n, 2, f, twice);
    lemma_sum_scale(n, -2, f, minus);
    assert forall|j: int| 0 <= j < n implies #[trigger] twice(j) <= sum(j) && minus(j) <= sum(
        j,
    ) by {
        let x = 2 * q[j] - (n - 1);
        let y = 2 * d[j] - (n - 1);
        assert(2 * (x * y) <= x * x + y * y && -2 * (x * y) <= x * x + y * y) by (nonlinear_arith);
    }
    lemma_sum_le(n, twice, sum);
    assert forall|j: int| 0 <= j < n implies #[trigger] minus(j) <= sum(j) by {
        assert(twice(j) <= sum(j));
    }
    lemma_sum_le(n, minus, sum);
    if q == d {
        lemma_sum_ext(n, f, a);
    }
}

} // verus!
