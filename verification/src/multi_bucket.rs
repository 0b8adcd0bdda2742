//! Multi-bucket bitmap index: one bitmap per bucket and document.
//!
//! The bitmaps of a document partition its coordinates by bucket, so the
//! contingency table of a query and a document is a table of bitmap overlaps,
//! and every bilinear bucket-overlap score is a projection of that table.

use vstd::arithmetic::div_mod::lemma_fundamental_div_mod_converse;
use vstd::prelude::*;
use vstd::slice::slice_subrange;

use crate::bits::{and_popcount, both_set, pack_bits, row_bit};
use crate::contingency::{
    centred_weight, coordinate_weight, diagonal_weight, is_table_of,
    lemma_projection_is_coordinate_sum, matrix_of, pair_count, pair_fn, project_table, projected,
    weighted_cells,
};
use crate::counting::{
    count_where, first_where, lemma_count_bounds, lemma_count_ext, lemma_first_where, lemma_sum_ext,
    lemma_sum_scale, lemma_sum_single, lemma_table_ext, row_of, row_sums, sum_to,
};
use crate::float_bits::{all_finite, F32Bits};
use crate::parallel::par_map_rows;
use crate::quant::{
    balanced, code_product, code_term, code_vector, codes_of, is_code, lemma_codes_balanced,
};
use crate::rank::{lemma_levels, levels, n_levels};
use crate::rank_io::{stored_bits, MAX_DIM};
use crate::rows::{append_rows, contents, lemma_row_inside, lemma_whole_rows, row, rows_of};
use crate::select::{earlier, key_at, lesser, lists_smallest, smallest_ids};

verus! {

/// The bitmap of bucket `b`.
pub open spec fn slot(words: Seq<u64>, dim: int, b: int) -> Seq<u64> {
    row(words, dim / 64, b)
}

/// The bitmaps mark exactly the coordinates of each bucket.
pub open spec fn encodes(words: Seq<u64>, codes: Seq<u8>, nb: int, dim: int) -> bool {
    &&& words.len() == nb * (dim / 64)
    &&& is_code(codes, dim, nb)
    &&& forall|b: int, j: int|
        0 <= b < nb && 0 <= j < dim ==> #[trigger] row_bit(slot(words, dim, b), j) == (codes[j]
            == b)
}

/// The buckets whose bitmap marks coordinate `j`.
pub open spec fn marking(words: Seq<u64>, dim: int, j: int) -> spec_fn(int) -> bool {
    |b: int| row_bit(slot(words, dim, b), j)
}

/// The bucket of each coordinate, read from the bitmaps.
pub open spec fn codes_in(words: Seq<u64>, nb: int, dim: int) -> Seq<u8> {
    Seq::new(dim as nat, |j: int| first_where(nb, marking(words, dim, j)) as u8)
}

/// The coordinates that the query marks in bucket `a` and that lie in bucket
/// `b` of the document.
pub open spec fn meets(q: Seq<u64>, codes: Seq<u8>, a: int, b: int) -> spec_fn(int) -> bool {
    |j: int| row_bit(slot(q, codes.len() as int, a), j) && codes[j] == b
}

/// A cell of the table of a query and a document.
pub open spec fn cell(q: Seq<u64>, codes: Seq<u8>, a: int, b: int) -> int {
    count_where(codes.len() as int, meets(q, codes, a, b))
}

/// `table` is the row-major table of a query and a document.
pub open spec fn tabled(q: Seq<u64>, codes: Seq<u8>, nb: int, table: Seq<u32>) -> bool {
    &&& table.len() == nb * nb
    &&& forall|a: int, b: int|
        0 <= a < nb && 0 <= b < nb ==> #[trigger] table[a * nb + b] == cell(q, codes, a, b)
}

/// `x` is what `project` gave for the table of a query and a document.
pub open spec fn projected_by<U, F: Fn(&[u32]) -> U>(
    project: F,
    q: Seq<u64>,
    codes: Seq<u8>,
    nb: int,
    x: U,
) -> bool {
    exists|t: &[u32]| tabled(q, codes, nb, t@) && #[trigger] project.ensures((t,), x)
}

/// Scores as keys that ascend from the highest number on.
pub open spec fn falling(scores: Seq<F32Bits>) -> spec_fn(int) -> int {
    |i: int| -scores[i].value_key()
}

/// The parameters are ones that a multi-bucket index can have.
pub open spec fn valid_multi(dim: int, bits: u8) -> bool {
    stored_bits(bits as int) && 0 < dim && dim % 64 == 0
}

/// Bitmaps that encode a code vector give it back.
pub proof fn lemma_codes_in(words: Seq<u64>, codes: Seq<u8>, nb: int, dim: int)
    requires
        encodes(words, codes, nb, dim),
    ensures
        codes_in(words, nb, dim) == codes,
{
    assert forall|j: int| 0 <= j < dim implies codes_in(words, nb, dim)[j] == codes[j] by {
        let p = marking(words, dim, j);
        assert forall|b: int| 0 <= b < codes[j] implies !(#[trigger] p(b)) by {
            assert(row_bit(slot(words, dim, b), j) == (codes[j] == b));
        }
        assert(row_bit(slot(words, dim, codes[j] as int), j));
        lemma_first_where(nb, p, codes[j] as int);
    }
    assert(codes_in(words, nb, dim) =~= codes);
}

/// Multi-bucket bitmap index.
pub struct MultiBucketBitmap {
    dim: usize,
    bits: u8,
    n_buckets: usize,
    qwords_per_bitmap: usize,
    n_vectors: usize,
    bitmaps: Vec<u64>,
}

impl MultiBucketBitmap {
    /// The dimension.
    pub closed spec fn dimension(&self) -> int {
        self.dim as int
    }

    /// Bits per coordinate.
    pub closed spec fn width(&self) -> u8 {
        self.bits
    }

    /// The number of buckets.
    pub closed spec fn bucket_total(&self) -> int {
        self.n_buckets as int
    }

    /// The number of documents.
    pub closed spec fn count(&self) -> int {
        self.n_vectors as int
    }

    /// The bitmaps, document by document and bucket by bucket.
    pub closed spec fn words(&self) -> Seq<u64> {
        self.bitmaps@
    }

    /// Words per document.
    pub open spec fn doc_words(&self) -> int {
        self.bucket_total() * (self.dimension() / 64)
    }

    /// The codes of the documents.
    pub open spec fn docs(&self) -> Seq<Seq<u8>> {
        Seq::new(
            self.count() as nat,
            |i: int|
                codes_in(
                    row(self.words(), self.doc_words(), i),
                    self.bucket_total(),
                    self.dimension(),
                ),
        )
    }

    spec fn shape(&self) -> bool {
        self.qwords_per_bitmap == self.dim / 64
    }

    /// The parameters are valid, the buffer holds the bitmaps of every
    /// document, and those bitmaps partition its coordinates into equally
    /// occupied buckets.
    pub closed spec fn wf(&self) -> bool {
        &&& self.shape()
        &&& valid_multi(self.dimension(), self.width())
        &&& self.bucket_total() == levels(self.width())
        &&& self.words().len() == self.count() * self.doc_words()
        &&& self.count() > 0 ==> self.dimension() <= MAX_DIM
        &&& forall|i: int|
            0 <= i < self.count() ==> encodes(
                row(self.words(), self.doc_words(), i),
                #[trigger] self.docs()[i],
                self.bucket_total(),
                self.dimension(),
            ) && balanced(self.docs()[i], self.width())
    }

    /// What well-formedness gives to other modules.
    pub proof fn lemma_wf(&self)
        requires
            self.wf(),
        ensures
            valid_multi(self.dimension(), self.width()),
            self.bucket_total() == levels(self.width()),
            self.count() >= 0,
            self.count() > 0 ==> self.dimension() <= MAX_DIM,
            forall|i: int|
                0 <= i < self.count() ==> is_code(
                    #[trigger] self.docs()[i],
                    self.dimension(),
                    self.bucket_total(),
                ) && balanced(self.docs()[i], self.width()) && encodes(
                    row(self.words(), self.doc_words(), i),
                    self.docs()[i],
                    self.bucket_total(),
                    self.dimension(),
                ),
            self.words().len() == self.count() * self.doc_words(),
    {
        assert forall|i: int| 0 <= i < self.count() implies is_code(
            #[trigger] self.docs()[i],
            self.dimension(),
            self.bucket_total(),
        ) by {
            assert(encodes(
                row(self.words(), self.doc_words(), i),
                self.docs()[i],
                self.bucket_total(),
                self.dimension(),
            ));
        }
    }

    /// An empty index.
    pub fn new(dim: usize, bits: u8) -> (index: Self)
        requires
            valid_multi(dim as int, bits),
        ensures
            index.wf(),
            index.dimension() == dim,
            index.width() == bits,
            index.bucket_total() == levels(bits),
            index.count() == 0,
    {
        let n_buckets: usize = n_levels(bits) as usize;
        let index = MultiBucketBitmap {
            dim,
            bits,
            n_buckets,
            qwords_per_bitmap: dim / 64,
            n_vectors: 0,
            bitmaps: Vec::new(),
        };
        proof {
            let w = index.doc_words();
            assert(0 * w == 0) by (nonlinear_arith);
        }
        index
    }

    /// Add documents: each vector is rank-transformed, bucketed, and stored as
    /// one bitmap per bucket.
    pub fn add(&mut self, vectors: &[F32Bits])
        requires
            old(self).wf(),
            vectors.len() as int % old(self).dimension() == 0,
            all_finite(vectors@),
            vectors.len() > 0 ==> old(self).dimension() <= MAX_DIM,
            (old(self).count() + vectors.len() as int / old(self).dimension())
                * old(self).doc_words() <= usize::MAX,
        ensures
            final(self).wf(),
            final(self).dimension() == old(self).dimension(),
            final(self).width() == old(self).width(),
            final(self).count() == old(self).count() + vectors.len() as int
                / old(self).dimension(),
            final(self).docs() == old(self).docs() + Seq::new(
                (vectors.len() as int / old(self).dimension()) as nat,
                |i: int| codes_of(row(vectors@, old(self).dimension(), i), old(self).width()),
            ),
    {
        let dim: usize = self.dim;
        let bits: u8 = self.bits;
        let nb: usize = self.n_buckets;
        let n: usize = vectors.len() / dim;
        let ghost before = *self;
        proof {
            lemma_whole_rows(vectors@.len() as int, dim as int);
        }
        if vectors.len() == 0 {
            assert(self.docs() =~= before.docs() + Seq::new(
                0,
                |i: int| codes_of(row(vectors@, before.dimension(), i), before.width()),
            ));
            return;
        }
        proof {
            lemma_levels(bits);
            lemma_row_inside(0, nb as int, dim as int / 64);
            assert(nb * (dim as int / 64) <= 16 * 1024) by (nonlinear_arith)
                requires
                    0 <= nb <= 16,
                    0 <= dim as int / 64 <= 1024,
            ;
        }
        let per: usize = nb * self.qwords_per_bitmap;
        let encode = |v: &[F32Bits]| -> (words: Vec<u64>)
            requires
                v.len() == dim,
            ensures
                encodes(words@, codes_of(v@, bits), nb as int, dim as int),
            { bucket_words(v, bits, nb) };
        let rows: Vec<Vec<u64>> = par_map_rows(vectors, dim, encode);
        proof {
            assert forall|t: int| 0 <= t < n implies encodes(
                (#[trigger] rows@[t])@,
                codes_of(row(vectors@, dim as int, t), bits),
                nb as int,
                dim as int,
            ) by {
                lemma_row_inside(t, n as int, dim as int);
            }
        }
        append_rows(&mut self.bitmaps, &rows, per, Ghost(before.n_vectors as int));
        proof {
            // Every stored row takes up at least one word.
            let total = before.n_vectors + n;
            assert(per >= 1) by (nonlinear_arith)
                requires
                    per == nb * (dim as int / 64),
                    nb >= 1,
                    dim as int / 64 >= 1,
            ;
            assert(total <= total * per) by (nonlinear_arith)
                requires
                    0 <= total,
                    per >= 1,
            ;
        }
        self.n_vectors = self.n_vectors + n;
        proof {
            let d = dim as int;
            let old_rows = rows_of(before.bitmaps@, per as int, before.count());
            let new_rows = rows_of(self.bitmaps@, per as int, self.count());
            let want = before.docs() + Seq::new(
                n as nat,
                |i: int| codes_of(row(vectors@, before.dimension(), i), before.width()),
            );
            assert forall|i: int| 0 <= i < self.count() implies encodes(
                row(self.words(), self.doc_words(), i),
                #[trigger] self.docs()[i],
                self.bucket_total(),
                self.dimension(),
            ) && balanced(self.docs()[i], self.width()) && self.docs()[i] == want[i] by {
                assert(new_rows[i] == row(self.bitmaps@, per as int, i));
                if i < before.n_vectors {
                    assert(old_rows[i] == row(before.bitmaps@, per as int, i));
                    assert(balanced(before.docs()[i], bits));
                } else {
                    let t = i - before.n_vectors;
                    let v = row(vectors@, d, t);
                    assert(contents(rows@)[t] == rows@[t]@);
                    lemma_row_inside(t, n as int, d);
                    lemma_codes_in(rows@[t]@, codes_of(v, bits), nb as int, d);
                    lemma_codes_balanced(v, bits);
                }
            }
            assert(self.docs() =~= want);
        }
    }

    /// The bitmaps of a query, encoded like a document.
    pub fn query_bitmaps_from_ranks(&self, q: &[F32Bits]) -> (words: Vec<u64>)
        requires
            self.wf(),
            self.dimension() <= MAX_DIM,
            q.len() == self.dimension(),
            all_finite(q@),
        ensures
            encodes(words@, codes_of(q@, self.width()), self.bucket_total(), self.dimension()),
    {
        bucket_words(q, self.bits, self.n_buckets)
    }

    /// The contingency table of a query and one document, row by row.
    pub fn contingency_row(&self, q_bitmaps: &[u64], doc_idx: usize) -> (table: Vec<u32>)
        requires
            self.wf(),
            doc_idx < self.count(),
            q_bitmaps.len() == self.doc_words(),
        ensures
            tabled(q_bitmaps@, self.docs()[doc_idx as int], self.bucket_total(), table@),
    {
        accumulate(
            q_bitmaps,
            self.doc(doc_idx),
            self.n_buckets,
            self.dim,
            Ghost(self.docs()[doc_idx as int]),
        )
    }

    /// The diagonal of the contingency table of a query and one document: per
    /// bucket, the coordinates on which they agree.
    pub fn diagonal_overlap_row(&self, q_bitmaps: &[u64], doc_idx: usize) -> (diagonal: Vec<u32>)
        requires
            self.wf(),
            doc_idx < self.count(),
            q_bitmaps.len() == self.doc_words(),
        ensures
            diagonal.len() == self.bucket_total(),
            forall|a: int|
                0 <= a < diagonal.len() ==> #[trigger] diagonal[a] == cell(
                    q_bitmaps@,
                    self.docs()[doc_idx as int],
                    a,
                    a,
                ),
    {
        let nb: usize = self.n_buckets;
        let doc: &[u64] = self.doc(doc_idx);
        let ghost codes = self.docs()[doc_idx as int];
        let mut diagonal: Vec<u32> = Vec::with_capacity(nb);
        let mut a: usize = 0;
        while a < nb
            invariant
                self.wf(),
                nb == self.bucket_total(),
                self.dimension() <= MAX_DIM,
                encodes(doc@, codes, nb as int, self.dimension()),
                q_bitmaps.len() == self.doc_words(),
                a <= nb,
                diagonal.len() == a,
                forall|t: int|
                    0 <= t < a ==> #[trigger] diagonal[t] == cell(q_bitmaps@, codes, t, t),
            decreases nb - a,
        {
            let c: u32 = overlap_cell(q_bitmaps, doc, nb, self.dim, a, a, Ghost(codes));
            diagonal.push(c);
            a = a + 1;
        }
        diagonal
    }

    /// The bitmaps of document `i`.
    fn doc(&self, i: usize) -> (d: &[u64])
        requires
            self.wf(),
            i < self.count(),
        ensures
            encodes(d@, self.docs()[i as int], self.bucket_total(), self.dimension()),
            self.dimension() <= MAX_DIM,
    {
        proof {
            lemma_levels(self.bits);
            lemma_row_inside(i as int, self.n_vectors as int, self.doc_words());
            assert(self.n_buckets * (self.dim as int / 64) <= 16 * 1024) by (nonlinear_arith)
                requires
                    0 <= self.n_buckets <= 16,
                    0 <= self.dim as int / 64 <= 1024,
            ;
            assert(self.bitmaps.len() == self.n_vectors * self.doc_words());
            assert(encodes(
                row(self.words(), self.doc_words(), i as int),
                self.docs()[i as int],
                self.bucket_total(),
                self.dimension(),
            ));
        }
        let per: usize = self.n_buckets * self.qwords_per_bitmap;
        slice_subrange(self.bitmaps.as_slice(), i * per, i * per + per)
    }

    /// The bilinear bucket-overlap score of a query and one document: its
    /// contingency table projected under a row-major weight matrix.
    pub fn bilinear_score(&self, q_bitmaps: &[u64], w: &[i64], doc_idx: usize) -> (score: i128)
        requires
            self.wf(),
            doc_idx < self.count(),
            q_bitmaps.len() == self.doc_words(),
            w.len() == self.bucket_total() * self.bucket_total(),
        ensures
            exists|table: Seq<u32>|
                tabled(q_bitmaps@, self.docs()[doc_idx as int], self.bucket_total(), table)
                    && score == #[trigger] projected(
                    table,
                    self.bucket_total(),
                    matrix_of(w@, self.bucket_total()),
                ),
    {
        proof {
            lemma_levels(self.bits);
        }
        let table: Vec<u32> = self.contingency_row(q_bitmaps, doc_idx);
        project_table(table.as_slice(), self.n_buckets, w)
    }

    /// Build the contingency table of the query and each document once, and
    /// hand it to `project`.
    pub fn project_all_batched<U: Send, F: Fn(&[u32]) -> U + Sync + Send>(
        &self,
        q_bitmaps: &[u64],
        project: F,
    ) -> (out: Vec<U>)
        requires
            self.wf(),
            q_bitmaps.len() == self.doc_words(),
            forall|t: &[u32]|
                t.len() == self.bucket_total() * self.bucket_total()
                    ==> #[trigger] project.requires((t,)),
        ensures
            out.len() == self.count(),
            forall|i: int|
                0 <= i < out.len() ==> projected_by(
                    project,
                    q_bitmaps@,
                    self.docs()[i],
                    self.bucket_total(),
                    #[trigger] out[i],
                ),
    {
        self.project_rows(q_bitmaps, &project)
    }

    /// What `project` gives for the table of each document.
    fn project_rows<U: Send, F: Fn(&[u32]) -> U + Sync + Send>(
        &self,
        q_bitmaps: &[u64],
        project: &F,
    ) -> (out: Vec<U>)
        requires
            self.wf(),
            q_bitmaps.len() == self.doc_words(),
            forall|t: &[u32]|
                t.len() == self.bucket_total() * self.bucket_total()
                    ==> #[trigger] project.requires((t,)),
        ensures
            out.len() == self.count(),
            forall|i: int|
                0 <= i < out.len() ==> projected_by(
                    *project,
                    q_bitmaps@,
                    self.docs()[i],
                    self.bucket_total(),
                    #[trigger] out[i],
                ),
    {
        if self.n_vectors == 0 {
            return Vec::new();
        }
        let nb: usize = self.n_buckets;
        let dim: usize = self.dim;
        proof {
            lemma_levels(self.bits);
            assert(1 <= nb * (dim as int / 64) <= 16 * 1024) by (nonlinear_arith)
                requires
                    1 <= nb <= 16,
                    1 <= dim as int / 64 <= 1024,
            ;
            lemma_fundamental_div_mod_converse(
                self.bitmaps@.len() as int,
                self.doc_words(),
                self.count(),
                0,
            );
        }
        let per: usize = nb * self.qwords_per_bitmap;
        let one = |d: &[u64]| -> (x: U)
            requires
                d.len() == per,
            ensures
                projects_row(*project, q_bitmaps@, nb as int, dim as int, d@, x),
            {
                let table: Vec<u32> = raw_table(q_bitmaps, d, nb, dim);
                let t: &[u32] = table.as_slice();
                let x: U = project(t);
                assert(raw_tabled(q_bitmaps@, d@, nb as int, dim as int, t@));
                x
            };
        let out: Vec<U> = par_map_rows(self.bitmaps.as_slice(), per, one);
        proof {
            assert forall|i: int| 0 <= i < out.len() implies projected_by(
                *project,
                q_bitmaps@,
                self.docs()[i],
                self.bucket_total(),
                #[trigger] out[i],
            ) by {
                let words = row(self.words(), self.doc_words(), i);
                assert(encodes(words, self.docs()[i], nb as int, dim as int));
                assert(projects_row(*project, q_bitmaps@, nb as int, dim as int, words, out[i]));
                let t: &[u32] = choose|t: &[u32]|
                    raw_tabled(q_bitmaps@, words, nb as int, dim as int, t@)
                        && #[trigger] project.ensures((t,), out[i]);
                lemma_raw_table(q_bitmaps@, words, self.docs()[i], nb as int, dim as int, t@);
            }
        }
        out
    }

    /// The best `m` documents by what `score` makes of their contingency
    /// tables, by descending score and then ascending id.
    pub fn top_m_bilinear<F: Fn(&[u32]) -> F32Bits + Sync + Send>(
        &self,
        q_bitmaps: &[u64],
        m: usize,
        score: F,
    ) -> (ids: Vec<u32>)
        requires
            self.wf(),
            m > 0 ==> self.count() <= u32::MAX,
            m > 0 && self.count() > 0 ==> q_bitmaps.len() == self.doc_words(),
            forall|t: &[u32]|
                t.len() == self.bucket_total() * self.bucket_total()
                    ==> #[trigger] score.requires((t,)),
        ensures
            ids@.len() == lesser(m as int, self.count()),
            m > 0 && self.count() > 0 ==> exists|scores: Seq<F32Bits>|
                {
                    &&& scores.len() == self.count()
                    &&& forall|i: int|
                        0 <= i < scores.len() ==> projected_by(
                            score,
                            q_bitmaps@,
                            self.docs()[i],
                            self.bucket_total(),
                            #[trigger] scores[i],
                        )
                    &&& lists_smallest(self.count(), m as int, #[trigger] falling(scores), ids@)
                },
    {
        if m == 0 || self.n_vectors == 0 {
            return Vec::new();
        }
        let scores: Vec<F32Bits> = self.project_rows(q_bitmaps, &score);
        let mut keys: Vec<u32> = Vec::with_capacity(scores.len());
        let mut i: usize = 0;
        while i < scores.len()
            invariant
                i <= scores.len(),
                keys.len() == i,
                forall|t: int|
                    0 <= t < i ==> #[trigger] keys[t] == 0xFFFF_FFFF - (scores[t].value_key()
                        + 0x8000_0000),
            decreases scores.len() - i,
        {
            keys.push(u32::MAX - scores[i].sort_key());
            i = i + 1;
        }
        let ids: Vec<u32> = smallest_ids(keys.as_slice(), m);
        proof {
            lemma_shifted_keys(
                self.count(),
                m as int,
                key_at(keys@),
                falling(scores@),
                0x7FFF_FFFF,
                ids@,
            );
        }
        ids
    }

    /// The weights `(a - c) * (b - c)` with `c` the middle bucket, in quarters,
    /// row by row: under them the bilinear score is the symmetric score of two
    /// code vectors.
    pub fn outer_product_weights(&self) -> (w: Vec<i64>)
        requires
            self.wf(),
        ensures
            w.len() == self.bucket_total() * self.bucket_total(),
            forall|a: int, b: int|
                0 <= a < self.bucket_total() && 0 <= b < self.bucket_total()
                    ==> #[trigger] w[a * self.bucket_total() + b] == centred_weight(
                    self.bucket_total(),
                )(a, b),
    {
        proof {
            lemma_levels(self.bits);
        }
        weight_matrix(self.n_buckets, self.n_buckets, false)
    }

    /// Weight one on the diagonal, in quarters, row by row.
    pub fn diagonal_weights(&self) -> (w: Vec<i64>)
        requires
            self.wf(),
        ensures
            w.len() == self.bucket_total() * self.bucket_total(),
            forall|a: int, b: int|
                0 <= a < self.bucket_total() && 0 <= b < self.bucket_total()
                    ==> #[trigger] w[a * self.bucket_total() + b] == 4 * diagonal_weight()(a, b),
    {
        proof {
            lemma_levels(self.bits);
        }
        weight_matrix(self.n_buckets, 0, true)
    }

    /// The outer-product weights within `half_width` of the diagonal and zero
    /// elsewhere, in quarters, row by row.
    pub fn banded_weights(&self, half_width: usize) -> (w: Vec<i64>)
        requires
            self.wf(),
        ensures
            w.len() == self.bucket_total() * self.bucket_total(),
            forall|a: int, b: int|
                0 <= a < self.bucket_total() && 0 <= b < self.bucket_total()
                    ==> #[trigger] w[a * self.bucket_total() + b] == banded_weight(
                    self.bucket_total(),
                    half_width as int,
                )(a, b),
    {
        proof {
            lemma_levels(self.bits);
        }
        weight_matrix(self.n_buckets, half_width, false)
    }

    /// Number of documents.
    pub fn len(&self) -> (n: usize)
        ensures
            n == self.count(),
    {
        self.n_vectors
    }

    /// Whether there are no documents.
    pub fn is_empty(&self) -> (r: bool)
        ensures
            r == (self.count() == 0),
    {
        self.n_vectors == 0
    }

    /// The dimension.
    pub fn dim(&self) -> (d: usize)
        ensures
            d == self.dimension(),
    {
        self.dim
    }

    /// Bits per coordinate.
    pub fn bits(&self) -> (b: u8)
        ensures
            b == self.width(),
    {
        self.bits
    }

    /// The number of buckets.
    pub fn n_buckets(&self) -> (n: usize)
        ensures
            n == self.bucket_total(),
    {
        self.n_buckets
    }

    /// Bytes per document.
    pub fn bytes_per_vec(&self) -> (n: usize)
        requires
            self.wf(),
            self.doc_words() * 8 <= usize::MAX,
        ensures
            n == self.doc_words() * 8,
    {
        proof {
            let q = self.qwords_per_bitmap as int;
            let nb = self.n_buckets as int;
            assert(q * nb == nb * q) by (nonlinear_arith);
        }
        self.qwords_per_bitmap * self.n_buckets * 8
    }

    /// Total bytes held by the bitmap buffer.
    pub fn byte_size(&self) -> (n: usize)
        requires
            self.wf(),
            self.count() * self.doc_words() * 8 <= usize::MAX,
        ensures
            n == self.count() * self.doc_words() * 8,
    {
        self.bitmaps.len() * 8
    }

    /// The bitmaps, document by document and bucket by bucket.
    pub fn bitmaps(&self) -> (b: &[u64])
        ensures
            b@ == self.words(),
    {
        self.bitmaps.as_slice()
    }
}

/// The outer-product weights within `half_width` of the diagonal.
pub open spec fn banded_weight(nb: int, half_width: int) -> spec_fn(int, int) -> int {
    |a: int, b: int|
        if a - b <= half_width && b - a <= half_width {
            (2 * a - (nb - 1)) * (2 * b - (nb - 1))
        } else {
            0
        }
}

/// A row-major weight matrix within `half_width` of the diagonal: in quarters,
/// one where `unit` is set and the outer product elsewhere.
fn weight_matrix(nb: usize, half_width: usize, unit: bool) -> (w: Vec<i64>)
    requires
        nb <= 16,
    ensures
        w.len() == nb * nb,
        forall|a: int, b: int|
            0 <= a < nb && 0 <= b < nb ==> #[trigger] w[a * nb + b] == if a - b <= half_width
                && b - a <= half_width {
                if unit {
                    4
                } else {
                    (2 * a - (nb - 1)) * (2 * b - (nb - 1))
                }
            } else {
                0
            },
{
    let ghost n = nb as int;
    let mut w: Vec<i64> = Vec::new();
    let mut a: usize = 0;
    assert(0 * n == 0) by (nonlinear_arith);
    while a < nb
        invariant
            n == nb,
            nb <= 16,
            a <= nb,
            w.len() == a * n,
            forall|s: int, t: int|
                0 <= s < a && 0 <= t < n ==> #[trigger] w[s * n + t] == if s - t <= half_width
                    && t - s <= half_width {
                    if unit {
                        4
                    } else {
                        (2 * s - (n - 1)) * (2 * t - (n - 1))
                    }
                } else {
                    0
                },
        decreases nb - a,
    {
        let ghost before = w@;
        let mut b: usize = 0;
        while b < nb
            invariant
                n == nb,
                nb <= 16,
                a < nb,
                b <= nb,
                before.len() == a * n,
                w.len() == a * n + b,
                forall|i: int| 0 <= i < before.len() ==> #[trigger] w[i] == before[i],
                forall|t: int|
                    0 <= t < b ==> #[trigger] w[a * n + t] == if a - t <= half_width && t - a
                        <= half_width {
                        if unit {
                            4
                        } else {
                            (2 * a - (n - 1)) * (2 * t - (n - 1))
                        }
                    } else {
                        0
                    },
            decreases nb - b,
        {
            let far: bool = if a >= b {
                a - b > half_width
            } else {
                b - a > half_width
            };
            let x: i64 = 2 * (a as i64) - (nb as i64 - 1);
            let y: i64 = 2 * (b as i64) - (nb as i64 - 1);
            assert(-1024 <= x * y <= 1024) by (nonlinear_arith)
                requires
                    -32 <= x <= 32,
                    -32 <= y <= 32,
            ;
            w.push(
                if far {
                    0
                } else if unit {
                    4
                } else {
                    x * y
                },
            );
            b = b + 1;
        }
        proof {
            assert(a * n + n == (a + 1) * n) by (nonlinear_arith);
            assert forall|s: int, t: int| 0 <= s < a + 1 && 0 <= t < n implies #[trigger] w[s * n
                + t] == if s - t <= half_width && t - s <= half_width {
                if unit {
                    4
                } else {
                    (2 * s - (n - 1)) * (2 * t - (n - 1))
                }
            } else {
                0
            } by {
                if s < a {
                    lemma_row_inside(s, a as int, n);
                    assert(w[s * n + t] == before[s * n + t]);
                }
            }
        }
        a = a + 1;
    }
    w
}

/// The overlap of bucket `a` of the query with bucket `b` of raw document
/// bitmaps.
pub open spec fn raw_cell(q: Seq<u64>, d: Seq<u64>, dim: int, a: int, b: int) -> int {
    count_where(dim, both_set(slot(d, dim, b), slot(q, dim, a)))
}

/// `table` holds the bitmap overlaps of a query and raw document bitmaps.
pub open spec fn raw_tabled(q: Seq<u64>, d: Seq<u64>, nb: int, dim: int, table: Seq<u32>) -> bool {
    &&& table.len() == nb * nb
    &&& forall|a: int, b: int|
        0 <= a < nb && 0 <= b < nb ==> #[trigger] table[a * nb + b] == raw_cell(q, d, dim, a, b)
}

/// `x` is what `project` gave for the table of raw document bitmaps.
pub open spec fn projects_row<U, F: Fn(&[u32]) -> U>(
    project: F,
    q: Seq<u64>,
    nb: int,
    dim: int,
    d: Seq<u64>,
    x: U,
) -> bool {
    exists|t: &[u32]| raw_tabled(q, d, nb, dim, t@) && #[trigger] project.ensures((t,), x)
}

/// On bitmaps that encode codes, the raw overlaps are the cells of the table.
proof fn lemma_raw_table(
    q: Seq<u64>,
    d: Seq<u64>,
    codes: Seq<u8>,
    nb: int,
    dim: int,
    table: Seq<u32>,
)
    requires
        encodes(d, codes, nb, dim),
        raw_tabled(q, d, nb, dim, table),
    ensures
        tabled(q, codes, nb, table),
{
    assert forall|a: int, b: int| 0 <= a < nb && 0 <= b < nb implies #[trigger] table[a * nb + b]
        == cell(q, codes, a, b) by {
        assert(table[a * nb + b] == raw_cell(q, d, dim, a, b));
        let p = both_set(slot(d, dim, b), slot(q, dim, a));
        let m = meets(q, codes, a, b);
        assert forall|j: int| 0 <= j < dim implies #[trigger] p(j) == m(j) by {
            assert(row_bit(slot(d, dim, b), j) == (codes[j] == b));
        }
        lemma_count_ext(dim, p, m);
    }
}

/// One bitmap overlap.
fn raw_overlap(q: &[u64], d: &[u64], nb: usize, dim: usize, a: usize, b: usize) -> (c: u32)
    requires
        0 < dim <= MAX_DIM,
        dim % 64 == 0,
        q.len() == nb * (dim as int / 64),
        d.len() == nb * (dim as int / 64),
        a < nb,
        b < nb,
    ensures
        c == raw_cell(q@, d@, dim as int, a as int, b as int),
{
    let qpb: usize = dim / 64;
    proof {
        lemma_row_inside(a as int, nb as int, qpb as int);
        lemma_row_inside(b as int, nb as int, qpb as int);
        assert(q.len() == nb * qpb);
        assert(d.len() == nb * qpb);
    }
    let x: &[u64] = slice_subrange(q, a * qpb, a * qpb + qpb);
    let y: &[u64] = slice_subrange(d, b * qpb, b * qpb + qpb);
    proof {
        assert(64 * y.len() == dim);
        lemma_count_bounds(dim as int, both_set(y@, x@));
    }
    and_popcount(y, x)
}

/// The table of bitmap overlaps.
fn raw_table(q: &[u64], d: &[u64], nb: usize, dim: usize) -> (table: Vec<u32>)
    requires
        0 < dim <= MAX_DIM,
        dim % 64 == 0,
        q.len() == nb * (dim as int / 64),
        d.len() == nb * (dim as int / 64),
    ensures
        raw_tabled(q@, d@, nb as int, dim as int, table@),
{
    let ghost n = nb as int;
    let mut table: Vec<u32> = Vec::new();
    let mut a: usize = 0;
    assert(0 * n == 0) by (nonlinear_arith);
    while a < nb
        invariant
            n == nb,
            0 < dim <= MAX_DIM,
            dim % 64 == 0,
            q.len() == nb * (dim as int / 64),
            d.len() == nb * (dim as int / 64),
            a <= nb,
            table.len() == a * n,
            forall|s: int, t: int|
                0 <= s < a && 0 <= t < n ==> #[trigger] table[s * n + t] == raw_cell(
                    q@,
                    d@,
                    dim as int,
                    s,
                    t,
                ),
        decreases nb - a,
    {
        let ghost before = table@;
        let mut b: usize = 0;
        while b < nb
            invariant
                n == nb,
                0 < dim <= MAX_DIM,
                dim % 64 == 0,
                q.len() == nb * (dim as int / 64),
                d.len() == nb * (dim as int / 64),
                a < nb,
                b <= nb,
                before.len() == a * n,
                table.len() == a * n + b,
                forall|i: int| 0 <= i < before.len() ==> #[trigger] table[i] == before[i],
                forall|t: int|
                    0 <= t < b ==> #[trigger] table[a * n + t] == raw_cell(
                        q@,
                        d@,
                        dim as int,
                        a as int,
                        t,
                    ),
            decreases nb - b,
        {
            let c: u32 = raw_overlap(q, d, nb, dim, a, b);
            table.push(c);
            b = b + 1;
        }
        proof {
            assert(a * n + n == (a + 1) * n) by (nonlinear_arith);
            assert forall|s: int, t: int| 0 <= s < a + 1 && 0 <= t < n implies #[trigger] table[s
                * n + t] == raw_cell(q@, d@, dim as int, s, t) by {
                if s < a {
                    lemma_row_inside(s, a as int, n);
                    assert(table[s * n + t] == before[s * n + t]);
                }
            }
        }
        a = a + 1;
    }
    table
}

/// The contingency table of a query and the bitmaps of a document.
fn accumulate(
    q: &[u64],
    d: &[u64],
    nb: usize,
    dim: usize,
    Ghost(codes): Ghost<Seq<u8>>,
) -> (table: Vec<u32>)
    requires
        0 < dim <= MAX_DIM,
        dim % 64 == 0,
        q.len() == nb * (dim as int / 64),
        encodes(d@, codes, nb as int, dim as int),
    ensures
        tabled(q@, codes, nb as int, table@),
{
    let table: Vec<u32> = raw_table(q, d, nb, dim);
    proof {
        lemma_raw_table(q@, d@, codes, nb as int, dim as int, table@);
    }
    table
}

/// One cell of the contingency table of a query and the bitmaps of a document.
fn overlap_cell(
    q: &[u64],
    d: &[u64],
    nb: usize,
    dim: usize,
    a: usize,
    b: usize,
    Ghost(codes): Ghost<Seq<u8>>,
) -> (c: u32)
    requires
        0 < dim <= MAX_DIM,
        dim % 64 == 0,
        q.len() == nb * (dim as int / 64),
        encodes(d@, codes, nb as int, dim as int),
        a < nb,
        b < nb,
    ensures
        c == cell(q@, codes, a as int, b as int),
{
    let c: u32 = raw_overlap(q, d, nb, dim, a, b);
    proof {
        let p = both_set(slot(d@, dim as int, b as int), slot(q@, dim as int, a as int));
        let m = meets(q@, codes, a as int, b as int);
        assert forall|j: int| 0 <= j < dim implies #[trigger] p(j) == m(j) by {
            assert(row_bit(slot(d@, dim as int, b as int), j) == (codes[j] == b));
        }
        lemma_count_ext(dim as int, p, m);
    }
    c
}

/// Keys that differ by a constant list the same ids.
proof fn lemma_shifted_keys(
    n: int,
    m: int,
    a: spec_fn(int) -> int,
    b: spec_fn(int) -> int,
    c: int,
    ids: Seq<u32>,
)
    requires
        lists_smallest(n, m, a, ids),
        forall|i: int| 0 <= i < n ==> #[trigger] a(i) == b(i) + c,
    ensures
        lists_smallest(n, m, b, ids),
{
    assert forall|r: int| 0 <= r < ids.len() implies count_where(
        n,
        earlier(b, (#[trigger] ids[r]) as int),
    ) == r by {
        let x = ids[r] as int;
        assert(a(x) == b(x) + c);
        assert forall|j: int| 0 <= j < n implies #[trigger] earlier(a, x)(j) == earlier(b, x)(
            j,
        ) by {
            assert(a(j) == b(j) + c);
        }
        lemma_count_ext(n, earlier(a, x), earlier(b, x));
    }
}

/// Whether each code is `b`.
fn bucket_flags(codes: &[u8], b: usize) -> (flags: Vec<bool>)
    ensures
        flags@.len() == codes.len(),
        forall|j: int| 0 <= j < codes.len() ==> #[trigger] flags@[j] == (codes[j] == b),
{
    let mut flags: Vec<bool> = Vec::with_capacity(codes.len());
    let mut j: usize = 0;
    while j < codes.len()
        invariant
            j <= codes.len(),
            flags@.len() == j,
            forall|t: int| 0 <= t < j ==> #[trigger] flags@[t] == (codes[t] == b),
        decreases codes.len() - j,
    {
        flags.push(codes[j] as usize == b);
        j = j + 1;
    }
    flags
}

/// Rank-transform and bucket a vector, and mark each bucket in a bitmap.
fn bucket_words(v: &[F32Bits], bits: u8, nb: usize) -> (words: Vec<u64>)
    requires
        valid_multi(v.len() as int, bits),
        v.len() <= MAX_DIM,
        nb == levels(bits),
    ensures
        encodes(words@, codes_of(v@, bits), nb as int, v.len() as int),
{
    let dim: usize = v.len();
    let codes: Vec<u8> = code_vector(v, bits);
    let ghost q = dim as int / 64;
    let mut words: Vec<u64> = Vec::new();
    let mut b: usize = 0;
    assert(0 * q == 0) by (nonlinear_arith);
    while b < nb
        invariant
            dim == v.len(),
            0 < dim,
            dim % 64 == 0,
            q == dim as int / 64,
            codes@.len() == dim,
            b <= nb,
            words@.len() == b * q,
            forall|t: int, j: int|
                0 <= t < b && 0 <= j < dim ==> #[trigger] row_bit(slot(words@, dim as int, t), j)
                    == (codes[j] == t),
        decreases nb - b,
    {
        let flags: Vec<bool> = bucket_flags(codes.as_slice(), b);
        let one: Vec<u64> = pack_bits(flags.as_slice());
        let ghost before = words@;
        words.extend_from_slice(one.as_slice());
        proof {
            assert(words@ =~= before + one@);
            assert(b * q + q == (b + 1) * q) by (nonlinear_arith);
            assert forall|t: int, j: int| 0 <= t < b + 1 && 0 <= j < dim implies #[trigger] row_bit(
                slot(words@, dim as int, t),
                j,
            ) == (codes[j] == t) by {
                if t < b {
                    lemma_row_inside(t, b as int, q);
                    assert(slot(words@, dim as int, t) =~= slot(before, dim as int, t));
                } else {
                    assert(slot(words@, dim as int, t) =~= one@);
                    assert(row_bit(one@, j) == flags@[j]);
                }
            }
        }
        b = b + 1;
    }
    words
}

/// The table that the bitmaps of two code vectors give is their contingency
/// table.
pub proof fn lemma_bitmap_table_is_contingency(
    q: Seq<u64>,
    query: Seq<u8>,
    doc: Seq<u8>,
    nb: int,
    table: Seq<u32>,
)
    requires
        encodes(q, query, nb, doc.len() as int),
        is_code(doc, doc.len() as int, nb),
        tabled(q, doc, nb, table),
    ensures
        is_table_of(table, query, doc, nb),
{
    let dim = doc.len() as int;
    assert forall|a: int, b: int| 0 <= a < nb && 0 <= b < nb implies #[trigger] table[a * nb + b]
        == pair_count(query, doc, query.len() as int, a, b) by {
        assert(table[a * nb + b] == cell(q, doc, a, b));
        let m = meets(q, doc, a, b);
        let p = pair_fn(query, doc, a, b);
        assert forall|j: int| 0 <= j < dim implies #[trigger] m(j) == p(j) by {
            assert(row_bit(slot(q, dim, a), j) == (query[j] == a));
        }
        lemma_count_ext(dim, m, p);
    }
}

/// Under the outer-product weights the bilinear score of two code vectors is
/// the product of their centred codes, that is their symmetric score.
pub proof fn lemma_outer_product_is_symmetric_score(
    q: Seq<u64>,
    query: Seq<u8>,
    doc: Seq<u8>,
    nb: int,
    table: Seq<u32>,
)
    requires
        encodes(q, query, nb, doc.len() as int),
        is_code(doc, doc.len() as int, nb),
        tabled(q, doc, nb, table),
    ensures
        projected(table, nb, centred_weight(nb)) == code_product(query, doc, nb),
{
    let dim = doc.len() as int;
    lemma_bitmap_table_is_contingency(q, query, doc, nb, table);
    lemma_projection_is_coordinate_sum(table, query, doc, nb, centred_weight(nb));
    lemma_sum_ext(
        dim,
        coordinate_weight(query, doc, centred_weight(nb)),
        code_term(query, doc, nb),
    );
}

/// A band that spans the table recovers the outer-product weights.
pub proof fn lemma_wide_band_is_outer_product(table: Seq<u32>, nb: int, half_width: int)
    requires
        half_width >= nb - 1,
    ensures
        projected(table, nb, banded_weight(nb, half_width)) == projected(
            table,
            nb,
            centred_weight(nb),
        ),
{
    lemma_table_ext(
        nb,
        nb,
        weighted_cells(table, nb, banded_weight(nb, half_width)),
        weighted_cells(table, nb, centred_weight(nb)),
    );
}

/// The diagonal cells of the table of a query and a document.
pub open spec fn diagonal_cells(q: Seq<u64>, codes: Seq<u8>) -> spec_fn(int) -> int {
    |a: int| cell(q, codes, a, a)
}

/// The diagonal of the table sums to the bilinear score under the diagonal
/// weights, which are in quarters.
pub proof fn lemma_diagonal_row_sums(
    q: Seq<u64>,
    codes: Seq<u8>,
    nb: int,
    table: Seq<u32>,
    w: Seq<i64>,
)
    requires
        tabled(q, codes, nb, table),
        forall|a: int, b: int|
            0 <= a < nb && 0 <= b < nb ==> #[trigger] w[a * nb + b] == 4 * diagonal_weight()(a, b),
    ensures
        4 * sum_to(nb, diagonal_cells(q, codes)) == projected(table, nb, matrix_of(w, nb)),
{
    let f = weighted_cells(table, nb, matrix_of(w, nb));
    let d = diagonal_cells(q, codes);
    assert forall|a: int| 0 <= a < nb implies #[trigger] row_sums(nb, f)(a) == 4 * d(a) by {
        let r = row_of(f, a);
        assert forall|b: int| 0 <= b < nb && b != a implies #[trigger] r(b) == 0 by {
            assert(w[a * nb + b] == 0);
            assert(0 * table[a * nb + b] == 0);
        }
        lemma_sum_single(nb, r, a);
        assert(w[a * nb + a] == 4);
        assert(table[a * nb + a] == cell(q, codes, a, a));
    }
    lemma_sum_scale(nb, 4, d, row_sums(nb, f));
}

} // verus!
