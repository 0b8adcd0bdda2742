//! Two-bit bucketed-rank index in a block layout.
//!
//! Documents are grouped in blocks of 32. A block holds, for each pair of
//! coordinates, one byte per document with the two codes of the pair; lanes
//! past the last document are zero. A query is scored by summing, over the
//! pairs, an entry of a small table chosen by the pair's codes.

use vstd::arithmetic::div_mod::lemma_fundamental_div_mod_converse;
use vstd::prelude::*;
use vstd::slice::slice_subrange;

use crate::counting::{count_eq, first_where, lemma_first_where, lemma_first_where_holds, sum_to};
use crate::float_bits::{all_finite, F32Bits};
use crate::format::PersistedFormat;
use crate::format_error::FormatError;
use crate::parallel::par_map_rows;
use crate::quant::{balanced, code_vector, codes_of, is_code, lemma_codes_balanced};
use crate::rank::{bucket_count, code_fn, constant_composition, lemma_levels};
use crate::rank_io::{
    blocks_for, checked_payload, file_error, header_bytes, header_of, lemma_accepted_header,
    lemma_header_round_trip, open_file, payload_of, size_error, write_header, Header, MAX_DIM,
    MAX_VECTORS,
};
use crate::results::{best_of, best_row, prepared, SearchResults};
use crate::rows::{contents, lemma_row_inside, lemma_whole_rows, row};
use crate::select::lesser;

verus! {

/// The dimension is one that the block layout can have.
pub open spec fn valid_fastscan_dim(dim: int) -> bool {
    2 <= dim <= MAX_DIM && dim % 4 == 0
}

/// Where the byte of pair `p` of slot `i` stands.
pub open spec fn byte_offset(i: int, p: int, dim: int) -> int {
    (i / 32) * (dim / 2 * 32) + p * 32 + i % 32
}

/// The slot of the byte at `o`.
pub open spec fn slot_of(o: int, dim: int) -> int {
    (o / (dim / 2 * 32)) * 32 + o % (dim / 2 * 32) % 32
}

/// The pair of the byte at `o`.
pub open spec fn pair_of(o: int, dim: int) -> int {
    o % (dim / 2 * 32) / 32
}

/// The codes in slot `i`.
pub open spec fn slot_codes(bytes: Seq<u8>, dim: int, i: int) -> Seq<u8> {
    Seq::new(
        dim as nat,
        |j: int|
            if j % 2 == 0 {
                bytes[byte_offset(i, j / 2, dim)] / 4 % 4
            } else {
                bytes[byte_offset(i, j / 2, dim)] % 4
            },
    )
}

/// Pair `p` of slot `i` holds what it must not: more than two codes in the
/// slot of a document, or anything but zero past the last document.
pub open spec fn bad_byte(bytes: Seq<u8>, dim: int, n: int, i: int) -> spec_fn(int) -> bool {
    |p: int|
        if i < n {
            bytes[byte_offset(i, p, dim)] >= 16
        } else {
            bytes[byte_offset(i, p, dim)] != 0
        }
}

/// Slot `i` has a bad byte, or holds a document that does not fill its buckets
/// equally.
pub open spec fn bad_slot(bytes: Seq<u8>, dim: int, n: int) -> spec_fn(int) -> bool {
    |i: int|
        first_where(dim / 2, bad_byte(bytes, dim, n, i)) < dim / 2 || (i < n && !balanced(
            slot_codes(bytes, dim, i),
            2,
        ))
}

/// `e` is what is first found wrong in a payload: slot by slot, the first bad
/// byte of a slot before its composition.
pub open spec fn fastscan_fault(bytes: Seq<u8>, dim: int, n: int, e: FormatError) -> bool {
    let i = first_where(blocks_for(n) * 32, bad_slot(bytes, dim, n));
    let p = first_where(dim / 2, bad_byte(bytes, dim, n, i));
    let codes = slot_codes(bytes, dim, i);
    &&& i < blocks_for(n) * 32
    &&& if p < dim / 2 && i < n {
        e == (FormatError::InvalidNibble {
            block: (i / 32) as usize,
            pair: p as usize,
            lane: (i % 32) as usize,
            doc: i as usize,
            byte: bytes[byte_offset(i, p, dim)],
        })
    } else if p < dim / 2 {
        e == (FormatError::PaddingNotZero {
            block: (i / 32) as usize,
            pair: p as usize,
            lane: (i % 32) as usize,
            byte: bytes[byte_offset(i, p, dim)],
        })
    } else {
        e matches FormatError::UnevenDocument { doc, counts, expected } && doc == i && expected
            == dim / 4 && counts[0] == bucket_count(codes, 0) && counts[1] == bucket_count(
            codes,
            1,
        ) && counts[2] == bucket_count(codes, 2) && counts[3] == bucket_count(codes, 3)
    }
}

/// The table entry that the codes of pair `p` choose.
pub open spec fn lut_term(lut: Seq<u8>, codes: Seq<u8>) -> spec_fn(int) -> int {
    |p: int| lut[p * 16 + codes[2 * p] * 4 + codes[2 * p + 1]] as int
}

/// The sum of the table entries that a document chooses.
pub open spec fn lut_sum(lut: Seq<u8>, codes: Seq<u8>) -> int {
    sum_to(codes.len() as int / 2, lut_term(lut, codes))
}

/// `scores` holds what `score` gave for the table sum of each document.
pub open spec fn lut_scores<P, S: Fn(&P, u32) -> F32Bits>(
    score: S,
    lut: Seq<u8>,
    p: P,
    docs: Seq<Seq<u8>>,
    scores: Seq<F32Bits>,
) -> bool {
    &&& scores.len() == docs.len()
    &&& forall|i: int|
        0 <= i < docs.len() ==> score.ensures(
            (&p, lut_sum(lut, docs[i]) as u32),
            #[trigger] scores[i],
        )
}

/// The buffers hold the best `k` of the scores of a query.
pub open spec fn lut_row<P, G: Fn(&[F32Bits]) -> (Vec<u8>, P), S: Fn(&P, u32) -> F32Bits>(
    prepare: G,
    score: S,
    query: Seq<F32Bits>,
    docs: Seq<Seq<u8>>,
    k: int,
    out_scores: Seq<F32Bits>,
    out_indices: Seq<i64>,
) -> bool {
    exists|lut: Vec<u8>, p: P, scores: Seq<F32Bits>|
        prepared(prepare, query, (lut, p)) && #[trigger] lut_scores(score, lut@, p, docs, scores)
            && #[trigger] best_of(scores, k, out_scores, out_indices)
}

/// Slots and pairs number the bytes.
pub proof fn lemma_byte_offset(i: int, p: int, dim: int, blocks: int)
    requires
        2 <= dim,
        dim % 2 == 0,
        0 <= i < blocks * 32,
        0 <= p < dim / 2,
    ensures
        0 <= byte_offset(i, p, dim) < blocks * (dim / 2) * 32,
        slot_of(byte_offset(i, p, dim), dim) == i,
        pair_of(byte_offset(i, p, dim), dim) == p,
{
    let w = dim / 2 * 32;
    let b = i / 32;
    let r = p * 32 + i % 32;
    assert(0 <= b < blocks);
    assert(0 <= r < w);
    lemma_fundamental_div_mod_converse(byte_offset(i, p, dim), w, b, r);
    lemma_row_inside(b, blocks, w);
    assert(blocks * w == blocks * (dim / 2) * 32) by (nonlinear_arith)
        requires
            w == dim / 2 * 32,
    ;
}

/// The byte at `o` belongs to its slot and pair.
pub proof fn lemma_slot_of(o: int, dim: int, blocks: int)
    requires
        2 <= dim,
        dim % 2 == 0,
        0 <= o < blocks * (dim / 2) * 32,
    ensures
        0 <= slot_of(o, dim) < blocks * 32,
        0 <= pair_of(o, dim) < dim / 2,
        byte_offset(slot_of(o, dim), pair_of(o, dim), dim) == o,
{
    let w = dim / 2 * 32;
    vstd::arithmetic::div_mod::lemma_fundamental_div_mod(o, w);
    let b = o / w;
    let r = o % w;
    assert(blocks * w == blocks * (dim / 2) * 32) by (nonlinear_arith)
        requires
            w == dim / 2 * 32,
    ;
    assert(0 <= b < blocks) by (nonlinear_arith)
        requires
            o == w * b + r,
            0 <= r < w,
            0 <= o < blocks * w,
    ;
    assert(w * b == b * w) by (nonlinear_arith);
    let i = b * 32 + r % 32;
    assert(i / 32 == b && i % 32 == r % 32);
}

/// Two-bit bucketed-rank index in the block layout.
pub struct RankQuantFastscan {
    dim: usize,
    n_vectors: usize,
    packed_fs: Vec<u8>,
}

impl RankQuantFastscan {
    /// The dimension.
    pub closed spec fn dimension(&self) -> int {
        self.dim as int
    }

    /// The number of documents.
    pub closed spec fn count(&self) -> int {
        self.n_vectors as int
    }

    /// The blocks, one after the other.
    pub closed spec fn bytes(&self) -> Seq<u8> {
        self.packed_fs@
    }

    /// The codes of the documents.
    pub open spec fn docs(&self) -> Seq<Seq<u8>> {
        Seq::new(
            self.count() as nat,
            |i: int| slot_codes(self.bytes(), self.dimension(), i),
        )
    }

    /// The dimension is valid, the document count within its cap, the buffer
    /// holds whole blocks, and no slot is bad.
    pub open spec fn wf(&self) -> bool {
        &&& valid_fastscan_dim(self.dimension())
        &&& 0 <= self.count() <= MAX_VECTORS
        &&& self.bytes().len() == blocks_for(self.count()) * (self.dimension() / 2) * 32
        &&& forall|i: int|
            0 <= i < blocks_for(self.count()) * 32 ==> !(#[trigger] bad_slot(
                self.bytes(),
                self.dimension(),
                self.count(),
            )(i))
    }

    /// An empty index.
    pub fn new(dim: usize) -> (index: Self)
        requires
            valid_fastscan_dim(dim as int),
        ensures
            index.wf(),
            index.dimension() == dim,
            index.count() == 0,
    {
        let index = RankQuantFastscan { dim, n_vectors: 0, packed_fs: Vec::new() };
        proof {
            let p = dim as int / 2;
            assert(blocks_for(0) == 0);
            assert(0 * p * 32 == 0) by (nonlinear_arith);
        }
        index
    }

    /// Fill an empty index with documents: each vector is rank-transformed and
    /// bucketed. The block layout cannot be extended later.
    pub fn add(&mut self, vectors: &[F32Bits])
        requires
            old(self).wf(),
            vectors.len() as int % old(self).dimension() == 0,
            all_finite(vectors@),
            old(self).count() == 0 || vectors.len() == 0,
            vectors.len() as int / old(self).dimension() <= MAX_VECTORS,
            blocks_for(vectors.len() as int / old(self).dimension()) * (old(self).dimension() / 2)
                * 32 <= usize::MAX,
        ensures
            final(self).wf(),
            final(self).dimension() == old(self).dimension(),
            final(self).count() == old(self).count() + vectors.len() as int
                / old(self).dimension(),
            final(self).docs() == old(self).docs() + Seq::new(
                (vectors.len() as int / old(self).dimension()) as nat,
                |i: int| codes_of(row(vectors@, old(self).dimension(), i), 2),
            ),
    {
        let dim: usize = self.dim;
        let n: usize = vectors.len() / dim;
        let ghost before = *self;
        let ghost fresh = Seq::new(
            n as nat,
            |i: int| codes_of(row(vectors@, before.dimension(), i), 2),
        );
        proof {
            lemma_whole_rows(vectors@.len() as int, dim as int);
            lemma_levels(2);
        }
        if n == 0 {
            assert(self.docs() =~= before.docs() + fresh);
            return;
        }
        let encode = |v: &[F32Bits]| -> (codes: Vec<u8>)
            requires
                v.len() == dim,
            ensures
                codes@ == codes_of(v@, 2),
                is_code(codes@, dim as int, 4),
            { code_vector(v, 2) };
        let docs: Vec<Vec<u8>> = par_map_rows(vectors, dim, encode);
        proof {
            assert forall|i: int| 0 <= i < n implies (#[trigger] docs[i])@ == fresh[i] && is_code(
                docs[i]@,
                dim as int,
                4,
            ) by {
                lemma_row_inside(i, n as int, dim as int);
            }
        }
        self.packed_fs = pack_fastscan_b2(&docs, dim);
        self.n_vectors = n;
        proof {
            let d = dim as int;
            let total = blocks_for(n as int);
            assert forall|i: int| 0 <= i < n implies #[trigger] self.docs()[i] == fresh[i] by {
                assert(docs[i]@ == fresh[i]);
                lemma_slot_codes(self.packed_fs@, contents(docs@), d, i);
            }
            assert(self.docs() =~= before.docs() + fresh);
            assert forall|i: int| 0 <= i < total * 32 implies !(#[trigger] bad_slot(
                self.packed_fs@,
                d,
                n as int,
            )(i)) by {
                let p = bad_byte(self.packed_fs@, d, n as int, i);
                assert forall|t: int| 0 <= t < d / 2 implies !(#[trigger] p(t)) by {
                    lemma_byte_offset(i, t, d, total);
                    if i < n {
                        assert(docs[i]@ == fresh[i]);
                        assert(contents(docs@)[i] == fresh[i]);
                    }
                }
                lemma_first_where(d / 2, p, d / 2);
                if i < n {
                    assert(self.docs()[i] == fresh[i]);
                    lemma_row_inside(i, n as int, d);
                    lemma_codes_balanced(row(vectors@, d, i), 2);
                }
            }
        }
    }

    /// A document slot holds two codes per byte.
    proof fn lemma_document_byte(&self, i: int, p: int)
        requires
            self.wf(),
            0 <= i < self.count(),
            0 <= p < self.dimension() / 2,
        ensures
            0 <= byte_offset(i, p, self.dimension()) < self.bytes().len(),
            self.bytes()[byte_offset(i, p, self.dimension())] < 16,
            self.bytes()[byte_offset(i, p, self.dimension())] == paired(self.docs()[i], p),
    {
        let d = self.dimension();
        let blocks = blocks_for(self.count());
        lemma_byte_offset(i, p, d, blocks);
        assert(!bad_slot(self.bytes(), d, self.count())(i));
        let bad = bad_byte(self.bytes(), d, self.count(), i);
        lemma_first_where_holds(d / 2, bad);
        assert(!bad(p));
        assert((2 * p) / 2 == p && (2 * p + 1) / 2 == p);
        assert((2 * p) % 2 == 0 && (2 * p + 1) % 2 == 1);
    }

    /// The sum of the table entries that document `i` chooses.
    fn table_sum(&self, lut: &[u8], i: usize) -> (acc: u32)
        requires
            self.wf(),
            i < self.count(),
            lut.len() == self.dimension() / 2 * 16,
        ensures
            acc == lut_sum(lut@, self.docs()[i as int]),
    {
        let pairs: usize = self.dim / 2;
        let width: usize = pairs * 32;
        let ghost d = self.dimension();
        let ghost f = lut_term(lut@, self.docs()[i as int]);
        let mut acc: u32 = 0;
        let mut p: usize = 0;
        while p < pairs
            invariant
                self.wf(),
                i < self.count(),
                d == self.dimension(),
                pairs == d / 2,
                width == pairs * 32,
                lut.len() == d / 2 * 16,
                f == lut_term(lut@, self.docs()[i as int]),
                p <= pairs,
                acc == sum_to(p as int, f),
                acc <= p * 255,
            decreases pairs - p,
        {
            proof {
                self.lemma_document_byte(i as int, p as int);
                lemma_row_inside(i as int / 32, blocks_for(self.count()), width as int);
                assert(self.packed_fs.len() == self.bytes().len());
            }
            let byte: u8 = self.packed_fs[i / 32 * width + p * 32 + i % 32];
            assert(f(p as int) == lut[p * 16 + byte]);
            acc = acc + lut[p * 16 + byte as usize] as u32;
            p = p + 1;
        }
        acc
    }

    /// The best `k` documents for one query.
    fn query<P, G: Fn(&[F32Bits]) -> (Vec<u8>, P), S: Fn(&P, u32) -> F32Bits>(
        &self,
        q: &[F32Bits],
        k: usize,
        prepare: &G,
        score: &S,
    ) -> (r: (Vec<F32Bits>, Vec<i64>))
        requires
            self.wf(),
            prepare.requires((q,)),
            forall|out: (Vec<u8>, P)| #[trigger]
                prepare.ensures((q,), out) ==> out.0@.len() == self.dimension() / 2 * 16,
            forall|p: &P, acc: u32| #[trigger] score.requires((p, acc)),
        ensures
            r.0@.len() == lesser(k as int, self.count()),
            r.1@.len() == r.0@.len(),
            lut_row(*prepare, *score, q@, self.docs(), k as int, r.0@, r.1@),
    {
        let (lut, p): (Vec<u8>, P) = prepare(q);
        assert(prepared(*prepare, q@, (lut, p)));
        let mut scores: Vec<F32Bits> = Vec::with_capacity(self.n_vectors);
        let mut i: usize = 0;
        while i < self.n_vectors
            invariant
                self.wf(),
                lut@.len() == self.dimension() / 2 * 16,
                forall|p: &P, acc: u32| #[trigger] score.requires((p, acc)),
                i <= self.n_vectors,
                scores@.len() == i,
                forall|t: int|
                    0 <= t < i ==> score.ensures(
                        (&p, lut_sum(lut@, self.docs()[t]) as u32),
                        #[trigger] scores@[t],
                    ),
            decreases self.n_vectors - i,
        {
            let acc: u32 = self.table_sum(lut.as_slice(), i);
            let s: F32Bits = score(&p, acc);
            scores.push(s);
            i = i + 1;
        }
        assert(lut_scores(*score, lut@, p, self.docs(), scores@));
        best_row(scores.as_slice(), k)
    }

    /// Asymmetric search: `prepare` turns a query into a table of 16 entries
    /// per pair of coordinates, and `score` turns the sum of the entries that
    /// a document chooses into its score. The best `k` scores per query, by
    /// descending score and then ascending document id.
    pub fn search<
        P,
        G: Fn(&[F32Bits]) -> (Vec<u8>, P) + Sync + Send,
        S: Fn(&P, u32) -> F32Bits + Sync + Send,
    >(&self, queries: &[F32Bits], k: usize, prepare: G, score: S) -> (r: SearchResults)
        requires
            self.wf(),
            queries.len() as int % self.dimension() == 0,
            all_finite(queries@),
            (queries.len() as int / self.dimension()) * lesser(k as int, self.count())
                <= usize::MAX,
            forall|q: &[F32Bits]|
                q.len() == self.dimension() ==> #[trigger] prepare.requires((q,)),
            forall|q: &[F32Bits], out: (Vec<u8>, P)| #[trigger]
                prepare.ensures((q,), out) && q.len() == self.dimension() ==> out.0@.len()
                    == self.dimension() / 2 * 16,
            forall|p: &P, acc: u32| #[trigger] score.requires((p, acc)),
        ensures
            r.wf(),
            r.nq == queries.len() as int / self.dimension(),
            r.k == lesser(k as int, self.count()),
            forall|qi: int|
                0 <= qi < r.nq ==> lut_row(
                    prepare,
                    score,
                    row(queries@, self.dimension(), qi),
                    self.docs(),
                    k as int,
                    #[trigger] r.score_row(qi),
                    r.index_row(qi),
                ),
    {
        let kept: usize = if k <= self.n_vectors {
            k
        } else {
            self.n_vectors
        };
        let dim: usize = self.dim;
        let with: (&G, &S) = (&prepare, &score);
        let one = |q: &[F32Bits]| -> (r: (Vec<F32Bits>, Vec<i64>))
            requires
                q.len() == dim,
            ensures
                r.0@.len() == kept,
                r.1@.len() == kept,
                lut_row(*with.0, *with.1, q@, self.docs(), k as int, r.0@, r.1@),
            { self.query(q, k, with.0, with.1) };
        let rows: Vec<(Vec<F32Bits>, Vec<i64>)> = par_map_rows(queries, dim, one);
        let r = SearchResults::from_rows(&rows, kept);
        proof {
            lemma_whole_rows(queries@.len() as int, dim as int);
            assert forall|qi: int| 0 <= qi < r.nq implies lut_row(
                prepare,
                score,
                row(queries@, self.dimension(), qi),
                self.docs(),
                k as int,
                #[trigger] r.score_row(qi),
                r.index_row(qi),
            ) by {
                assert(r.score_row(qi) == rows[qi].0@);
                assert(r.index_row(qi) == rows[qi].1@);
            }
        }
        r
    }

    /// Number of documents.
    pub fn len(&self) -> (n: usize)
        ensures
            n == self.count(),
    {
        self.n_vectors
    }

    /// Whether there are no documents.
    pub fn is_empty(&self) -> (r: bool)
        ensures
            r == (self.count() == 0),
    {
        self.n_vectors == 0
    }

    /// The dimension.
    pub fn dim(&self) -> (d: usize)
        ensures
            d == self.dimension(),
    {
        self.dim
    }

    /// Bytes per document.
    pub fn bytes_per_vec(&self) -> (n: usize)
        ensures
            n == self.dimension() / 2,
    {
        self.dim / 2
    }

    /// Total bytes held by the blocks, padding included.
    pub fn byte_size(&self) -> (n: usize)
        requires
            self.wf(),
        ensures
            n == blocks_for(self.count()) * (self.dimension() / 2) * 32,
    {
        self.packed_fs.len()
    }

    /// The blocks, one after the other.
    pub fn packed(&self) -> (b: &[u8])
        ensures
            b@ == self.bytes(),
    {
        self.packed_fs.as_slice()
    }
}

/// The two codes of pair `p` as one byte.
pub open spec fn paired(codes: Seq<u8>, p: int) -> int {
    codes[2 * p] * 4 + codes[2 * p + 1]
}

/// The bytes lay out the documents in blocks, zero past the last one.
pub open spec fn lays_out(bytes: Seq<u8>, docs: Seq<Seq<u8>>, dim: int) -> bool {
    &&& bytes.len() == blocks_for(docs.len() as int) * (dim / 2) * 32
    &&& forall|o: int|
        0 <= o < bytes.len() ==> #[trigger] bytes[o] == if slot_of(o, dim) < docs.len() {
            paired(docs[slot_of(o, dim)], pair_of(o, dim))
        } else {
            0
        }
}

/// A slot of a layout holds the codes of its document.
proof fn lemma_slot_codes(bytes: Seq<u8>, docs: Seq<Seq<u8>>, dim: int, i: int)
    requires
        valid_fastscan_dim(dim),
        lays_out(bytes, docs, dim),
        0 <= i < docs.len(),
        is_code(docs[i], dim, 4),
    ensures
        slot_codes(bytes, dim, i) == docs[i],
{
    assert forall|j: int| 0 <= j < dim implies slot_codes(bytes, dim, i)[j] == docs[i][j] by {
        let p = j / 2;
        lemma_byte_offset(i, p, dim, blocks_for(docs.len() as int));
        let o = byte_offset(i, p, dim);
        assert(bytes[o] == paired(docs[i], p));
        let x = docs[i][2 * p] as int;
        let y = docs[i][2 * p + 1] as int;
        assert(x < 4 && y < 4);
        assert((x * 4 + y) / 4 == x && (x * 4 + y) % 4 == y);
    }
    assert(slot_codes(bytes, dim, i) =~= docs[i]);
}

/// Lay two-bit codes out in blocks.
fn pack_fastscan_b2(docs: &Vec<Vec<u8>>, dim: usize) -> (out: Vec<u8>)
    requires
        valid_fastscan_dim(dim as int),
        docs.len() <= MAX_VECTORS,
        blocks_for(docs.len() as int) * (dim as int / 2) * 32 <= usize::MAX,
        forall|i: int| 0 <= i < docs.len() ==> is_code((#[trigger] docs[i])@, dim as int, 4),
    ensures
        lays_out(out@, contents(docs@), dim as int),
{
    let n: usize = docs.len();
    let pairs: usize = dim / 2;
    let blocks: usize = (n + 31) / 32;
    let ghost d = dim as int;
    proof {
        let b = blocks as int;
        let p = pairs as int;
        assert(0 <= b * p && b * p <= b * p * 32) by (nonlinear_arith)
            requires
                0 <= b,
                0 <= p,
        ;
    }
    let total: usize = blocks * pairs * 32;
    let width: usize = pairs * 32;
    let mut out: Vec<u8> = Vec::with_capacity(total);
    let mut o: usize = 0;
    while o < total
        invariant
            valid_fastscan_dim(d),
            d == dim,
            n == docs.len(),
            n <= MAX_VECTORS,
            pairs == d / 2,
            width == pairs * 32,
            blocks == blocks_for(n as int),
            total == blocks * (d / 2) * 32,
            forall|i: int| 0 <= i < docs.len() ==> is_code((#[trigger] docs[i])@, d, 4),
            o <= total,
            out.len() == o,
            forall|t: int|
                0 <= t < o ==> #[trigger] out[t] == if slot_of(t, d) < n {
                    paired(contents(docs@)[slot_of(t, d)], pair_of(t, d))
                } else {
                    0
                },
        decreases total - o,
    {
        proof {
            lemma_slot_of(o as int, d, blocks as int);
        }
        let doc: usize = o / width * 32 + o % width % 32;
        let p: usize = o % width / 32;
        if doc < n {
            let codes: &Vec<u8> = &docs[doc];
            assert(is_code(docs[doc as int]@, d, 4));
            assert(contents(docs@)[doc as int] == codes@);
            out.push(codes[2 * p] * 4 + codes[2 * p + 1]);
        } else {
            out.push(0);
        }
        o = o + 1;
    }
    out
}

/// The bucket counts of a two-bit code vector.
fn two_bit_histogram(codes: &[u8]) -> (counts: [usize; 4])
    requires
        is_code(codes@, codes.len() as int, 4),
    ensures
        forall|b: int| 0 <= b < 4 ==> #[trigger] counts[b] == bucket_count(codes@, b),
{
    let mut counts: [usize; 4] = [0, 0, 0, 0];
    let mut j: usize = 0;
    while j < codes.len()
        invariant
            is_code(codes@, codes.len() as int, 4),
            j <= codes.len(),
            forall|b: int|
                0 <= b < 4 ==> #[trigger] counts[b] == count_eq(j as int, code_fn(codes@), b)
                    && counts[b] <= j,
        decreases codes.len() - j,
    {
        let b: usize = codes[j] as usize;
        counts[b] = counts[b] + 1;
        j = j + 1;
    }
    counts
}

/// The byte of pair `p` of slot `i`.
fn slot_byte(bytes: &[u8], dim: usize, i: usize, p: usize, Ghost(blocks): Ghost<int>) -> (byte: u8)
    requires
        valid_fastscan_dim(dim as int),
        i < blocks * 32,
        p < dim / 2,
        bytes.len() == blocks * (dim as int / 2) * 32,
    ensures
        byte == bytes[byte_offset(i as int, p as int, dim as int)],
{
    let width: usize = dim / 2 * 32;
    proof {
        lemma_byte_offset(i as int, p as int, dim as int, blocks);
        lemma_row_inside(i as int / 32, blocks, width as int);
        assert(bytes.len() as int == bytes@.len());
    }
    bytes[i / 32 * width + p * 32 + i % 32]
}

/// The codes of slot `i`.
fn read_slot(bytes: &[u8], dim: usize, i: usize, Ghost(blocks): Ghost<int>) -> (codes: Vec<u8>)
    requires
        valid_fastscan_dim(dim as int),
        i < blocks * 32,
        bytes.len() == blocks * (dim as int / 2) * 32,
    ensures
        codes@ == slot_codes(bytes@, dim as int, i as int),
        is_code(codes@, dim as int, 4),
{
    let mut codes: Vec<u8> = Vec::with_capacity(dim);
    let mut j: usize = 0;
    while j < dim
        invariant
            valid_fastscan_dim(dim as int),
            i < blocks * 32,
            bytes.len() == blocks * (dim as int / 2) * 32,
            j <= dim,
            codes.len() == j,
            forall|t: int|
                0 <= t < j ==> #[trigger] codes[t] == slot_codes(bytes@, dim as int, i as int)[t]
                    && codes[t] < 4,
        decreases dim - j,
    {
        let byte: u8 = slot_byte(bytes, dim, i, j / 2, Ghost(blocks));
        codes.push(
            if j % 2 == 0 {
                byte / 4 % 4
            } else {
                byte % 4
            },
        );
        j = j + 1;
    }
    assert(codes@ =~= slot_codes(bytes@, dim as int, i as int));
    codes
}

/// The first bad byte of slot `i`, by pair.
fn find_bad_byte(bytes: &[u8], dim: usize, n: usize, i: usize, Ghost(blocks): Ghost<int>) -> (p:
    usize)
    requires
        valid_fastscan_dim(dim as int),
        i < blocks * 32,
        bytes.len() == blocks * (dim as int / 2) * 32,
    ensures
        p == first_where(dim as int / 2, bad_byte(bytes@, dim as int, n as int, i as int)),
        p <= dim / 2,
{
    let pairs: usize = dim / 2;
    let ghost bad = bad_byte(bytes@, dim as int, n as int, i as int);
    let mut p: usize = 0;
    while p < pairs
        invariant
            valid_fastscan_dim(dim as int),
            i < blocks * 32,
            bytes.len() == blocks * (dim as int / 2) * 32,
            pairs == dim / 2,
            bad == bad_byte(bytes@, dim as int, n as int, i as int),
            p <= pairs,
            forall|t: int| 0 <= t < p ==> !(#[trigger] bad(t)),
        decreases pairs - p,
    {
        let byte: u8 = slot_byte(bytes, dim, i, p, Ghost(blocks));
        let wrong: bool = if i < n {
            byte >= 16
        } else {
            byte != 0
        };
        assert(wrong == bad(p as int));
        if wrong {
            proof {
                lemma_first_where(pairs as int, bad, p as int);
            }
            return p;
        }
        p = p + 1;
    }
    proof {
        lemma_first_where(pairs as int, bad, pairs as int);
    }
    pairs
}

/// Check that no slot of a payload is bad.
fn validate_fastscan_payload(bytes: &[u8], dim: usize, n: usize) -> (r: Result<(), FormatError>)
    requires
        valid_fastscan_dim(dim as int),
        n <= MAX_VECTORS,
        bytes.len() == blocks_for(n as int) * (dim as int / 2) * 32,
    ensures
        match r {
            Ok(()) => forall|i: int|
                0 <= i < blocks_for(n as int) * 32 ==> !(#[trigger] bad_slot(
                    bytes@,
                    dim as int,
                    n as int,
                )(i)),
            Err(e) => fastscan_fault(bytes@, dim as int, n as int, e),
        },
{
    let slots: usize = (n + 31) / 32 * 32;
    let pairs: usize = dim / 2;
    let per: usize = dim / 4;
    let ghost d = dim as int;
    let ghost blocks = blocks_for(n as int);
    let ghost bad = bad_slot(bytes@, d, n as int);
    let mut i: usize = 0;
    while i < slots
        invariant
            valid_fastscan_dim(d),
            d == dim,
            n <= MAX_VECTORS,
            blocks == blocks_for(n as int),
            slots == blocks * 32,
            bytes.len() == blocks * (d / 2) * 32,
            pairs == d / 2,
            per == d / 4,
            bad == bad_slot(bytes@, d, n as int),
            i <= slots,
            forall|t: int| 0 <= t < i ==> !(#[trigger] bad(t)),
        decreases slots - i,
    {
        let p: usize = find_bad_byte(bytes, dim, n, i, Ghost(blocks));
        if p < pairs {
            proof {
                assert(bad(i as int));
                lemma_first_where(slots as int, bad, i as int);
            }
            let byte: u8 = slot_byte(bytes, dim, i, p, Ghost(blocks));
            if i < n {
                return Err(
                    FormatError::InvalidNibble {
                        block: i / 32,
                        pair: p,
                        lane: i % 32,
                        doc: i,
                        byte,
                    },
                );
            }
            return Err(
                FormatError::PaddingNotZero { block: i / 32, pair: p, lane: i % 32, byte },
            );
        }
        if i < n {
            let codes: Vec<u8> = read_slot(bytes, dim, i, Ghost(blocks));
            let counts: [usize; 4] = two_bit_histogram(codes.as_slice());
            let even: bool = counts[0] == per && counts[1] == per && counts[2] == per && counts[3]
                == per;
            proof {
                lemma_levels(2);
                assert(counts[0] == bucket_count(codes@, 0) && counts[1] == bucket_count(codes@, 1)
                    && counts[2] == bucket_count(codes@, 2) && counts[3] == bucket_count(
                    codes@,
                    3,
                ));
                if even {
                    assert(constant_composition(codes@, 4, d / 4));
                } else if balanced(codes@, 2) {
                    assert(constant_composition(codes@, 4, d / 4));
                }
                assert(even == balanced(codes@, 2));
            }
            if !even {
                proof {
                    assert(bad(i as int));
                    lemma_first_where(slots as int, bad, i as int);
                }
                return Err(FormatError::UnevenDocument { doc: i, counts, expected: per });
            }
        }
        assert(!bad(i as int));
        i = i + 1;
    }
    Ok(())
}

/// The file of a block-layout index.
pub open spec fn fastscan_file(dim: int, n: int, bytes: Seq<u8>) -> Seq<u8> {
    header_bytes(PersistedFormat::RankQuantFastscan, 0, dim, 0, n) + bytes
}

impl RankQuantFastscan {
    /// The bytes of the index file.
    pub fn write_to(&self) -> (r: Result<Vec<u8>, FormatError>)
        requires
            self.wf(),
        ensures
            match r {
                Ok(bytes) => size_error(
                    PersistedFormat::RankQuantFastscan,
                    self.bytes().len() as int,
                ) is None && bytes@ == fastscan_file(self.dimension(), self.count(), self.bytes()),
                Err(e) => size_error(
                    PersistedFormat::RankQuantFastscan,
                    self.bytes().len() as int,
                ) == Some(e),
            },
    {
        match checked_payload(PersistedFormat::RankQuantFastscan, 0, self.dim, self.n_vectors) {
            Ok(_) => {},
            Err(e) => {
                return Err(e);
            },
        }
        let mut out: Vec<u8> = write_header(
            PersistedFormat::RankQuantFastscan,
            0,
            self.dim,
            0,
            self.n_vectors,
        );
        out.extend_from_slice(self.packed_fs.as_slice());
        assert(out@ =~= fastscan_file(self.dimension(), self.count(), self.bytes()));
        Ok(out)
    }

    /// Read an index from the bytes of its file.
    pub fn load_from_bytes(bytes: &[u8]) -> (r: Result<Self, FormatError>)
        ensures
            match r {
                Ok(index) => {
                    let h = header_of(PersistedFormat::RankQuantFastscan, bytes@);
                    &&& file_error(PersistedFormat::RankQuantFastscan, bytes@) is None
                    &&& index.wf()
                    &&& index.dimension() == h.dim
                    &&& index.count() == h.n_vectors
                    &&& index.bytes() == payload_of(PersistedFormat::RankQuantFastscan, bytes@)
                },
                Err(e) => if file_error(PersistedFormat::RankQuantFastscan, bytes@) is Some {
                    file_error(PersistedFormat::RankQuantFastscan, bytes@) == Some(e)
                } else {
                    let h = header_of(PersistedFormat::RankQuantFastscan, bytes@);
                    fastscan_fault(
                        payload_of(PersistedFormat::RankQuantFastscan, bytes@),
                        h.dim as int,
                        h.n_vectors as int,
                        e,
                    )
                },
            },
    {
        let h: Header = match open_file(PersistedFormat::RankQuantFastscan, bytes) {
            Ok(h) => h,
            Err(e) => {
                return Err(e);
            },
        };
        proof {
            lemma_accepted_header(PersistedFormat::RankQuantFastscan, bytes@);
        }
        let payload: &[u8] = slice_subrange(bytes, 13, bytes.len());
        assert(payload@ =~= payload_of(PersistedFormat::RankQuantFastscan, bytes@));
        match validate_fastscan_payload(payload, h.dim, h.n_vectors) {
            Ok(()) => {},
            Err(e) => {
                return Err(e);
            },
        }
        let mut packed_fs: Vec<u8> = Vec::with_capacity(payload.len());
        packed_fs.extend_from_slice(payload);
        assert(packed_fs@ =~= payload@);
        Ok(RankQuantFastscan { dim: h.dim, n_vectors: h.n_vectors, packed_fs })
    }
}

/// What `write_to` writes, `load_from_bytes` reads back: the file is accepted,
/// with the dimension, the document count and the blocks that were written, and
/// nothing is found wrong in its payload.
pub proof fn lemma_fastscan_write_then_load(index: RankQuantFastscan)
    requires
        index.wf(),
        size_error(PersistedFormat::RankQuantFastscan, index.bytes().len() as int) is None,
    ensures
        ({
            let file = fastscan_file(index.dimension(), index.count(), index.bytes());
            let h = header_of(PersistedFormat::RankQuantFastscan, file);
            &&& file_error(PersistedFormat::RankQuantFastscan, file) is None
            &&& h.dim == index.dimension()
            &&& h.n_vectors == index.count()
            &&& payload_of(PersistedFormat::RankQuantFastscan, file) == index.bytes()
            &&& forall|e: FormatError|
                !(#[trigger] fastscan_fault(
                    payload_of(PersistedFormat::RankQuantFastscan, file),
                    h.dim as int,
                    h.n_vectors as int,
                    e,
                ))
        }),
{
    let dim = index.dimension();
    let n = index.count();
    let h = Header { bits: 0, dim: dim as usize, n_top: 0, n_vectors: n as usize };
    lemma_header_round_trip(PersistedFormat::RankQuantFastscan, h, index.bytes());
    let bad = bad_slot(index.bytes(), dim, n);
    lemma_first_where(blocks_for(n) * 32, bad, blocks_for(n) * 32);
}

/// Every document of an index fills its buckets equally.
pub proof fn lemma_fastscan_documents_balanced(index: RankQuantFastscan, i: int)
    requires
        index.wf(),
        0 <= i < index.count(),
    ensures
        is_code(index.docs()[i], index.dimension(), 4),
        balanced(index.docs()[i], 2),
{
    assert(i < blocks_for(index.count()) * 32);
    assert(!bad_slot(index.bytes(), index.dimension(), index.count())(i));
}

} // verus!
