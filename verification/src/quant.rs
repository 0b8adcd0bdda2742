//! `b`-bit bucketed-rank index.
//!
//! A document is its rank vector, each rank bucketed into one of `2^bits`
//! equal-width bins and the codes packed into bytes. Scores are numbers of the
//! caller's: a search hands the codes to a scoring function and ranks what it
//! gives back.

use vstd::arithmetic::div_mod::lemma_fundamental_div_mod_converse;
use vstd::prelude::*;
use vstd::slice::slice_subrange;

use crate::bucket_code::bucket_off_balance;
use crate::counting::{
    compose, count_eq, first_where, is_permutation, lemma_first_where, lemma_first_where_holds,
    lemma_sum_add, lemma_sum_ext, lemma_sum_le, lemma_sum_scale, sum_to,
};
use crate::error::OrdvecError;
use crate::float_bits::{all_finite, F32Bits, INFINITY_MAGNITUDE};
use crate::format::PersistedFormat;
use crate::format_error::FormatError;
use crate::parallel::{par_find_first, par_map_rows};
use crate::rank::{
    bucket_codes, bucket_count, bucket_ranks, centred_square, code_fn, codes_per_byte,
    constant_composition, lemma_bucket_norm_is_analytic, lemma_buckets_constant_composition,
    lemma_levels, lemma_rank_transform_is_permutation, levels, n_levels, pack_buckets, packable,
    rank_ints, rank_row, rankquant_bytes_per_vec, ranks_of, unpack_buckets, unpacked,
};
use crate::rank_io::{
    checked_payload, file_error, header_bytes, header_of, lemma_accepted_header,
    lemma_header_round_trip, open_file, payload_of, size_error, write_header, Header, MAX_DIM,
    MAX_VECTORS,
};
use crate::results::{
    asymmetric_row, best_of, best_of_subset, best_row, best_subset, id_ints,
    lemma_full_subset_matches_scan, lemma_uncut_candidates_permute, orderly, prepared, scored,
    scores_of, SearchResults,
};
use crate::rows::{
    append_rows, contents, lemma_row_inside, lemma_whole_rows, row, rows_of, swap_remove_row,
};
use crate::select::{lesser, lists_smallest};
use crate::sign_bitmap::{hamming_key, sign_flags, SignBitmap};
use crate::text::{decimal, push_decimal, push_text};
use crate::util::{checked_new_count, values_finite};

verus! {

/// Which scoring modes an index supports.
#[derive(Clone, Copy, Debug, PartialEq, Eq, Structural)]
pub enum RankQuantCapability {
    /// Scoring against float queries only: the documents of an eight-bit index
    /// do not share a norm unless the dimension is a multiple of 256.
    AsymmetricOnly,
    /// Scoring against bucketed and against float queries.
    SymmetricAndAsymmetric,
}

/// Codes of `bits` bits can be made of `dim`-dimensional vectors and packed.
/// Widths below eight need equally occupied buckets besides.
pub open spec fn valid_codes(dim: int, bits: u8) -> bool {
    &&& packable(bits)
    &&& 2 <= dim <= MAX_DIM
    &&& dim % codes_per_byte(bits) == 0
    &&& bits != 8 ==> dim % levels(bits) == 0
}

/// What an index of these parameters supports.
pub open spec fn capability_of(dim: int, bits: u8) -> RankQuantCapability {
    if bits == 8 && dim % 256 != 0 {
        RankQuantCapability::AsymmetricOnly
    } else {
        RankQuantCapability::SymmetricAndAsymmetric
    }
}

/// Bytes of a packed document.
pub open spec fn packed_len(dim: int, bits: u8) -> int {
    dim * bits / 8
}

/// The codes of the documents of a packed buffer.
pub open spec fn packed_codes(bytes: Seq<u8>, dim: int, bits: u8, n: int) -> Seq<Seq<u8>> {
    Seq::new(n as nat, |i: int| unpacked(row(bytes, packed_len(dim, bits), i), dim, bits))
}

/// The codes of a vector.
pub open spec fn codes_of(v: Seq<F32Bits>, bits: u8) -> Seq<u8> {
    bucket_codes(ranks_of(v), bits)
}

/// Every bucket of a document is equally occupied, where the dimension allows
/// it.
pub open spec fn balanced(codes: Seq<u8>, bits: u8) -> bool {
    codes.len() as int % levels(bits) == 0 ==> constant_composition(
        codes,
        levels(bits),
        codes.len() as int / levels(bits),
    )
}

/// The products of the doubled centred codes of two code vectors over `n`
/// buckets.
pub open spec fn code_term(q: Seq<u8>, d: Seq<u8>, n: int) -> spec_fn(int) -> int {
    |j: int| (2 * q[j] - (n - 1)) * (2 * d[j] - (n - 1))
}

/// Four times the inner product of two mean-centred code vectors over `n`
/// buckets.
pub open spec fn code_product(q: Seq<u8>, d: Seq<u8>, n: int) -> int {
    sum_to(q.len() as int, code_term(q, d, n))
}

/// `s` is what `score` gave for the codes of a query and of a document.
pub open spec fn code_scored<S: Fn(i64, &[u8], &[u8]) -> F32Bits>(
    score: S,
    q: Seq<u8>,
    d: Seq<u8>,
    n: int,
    s: F32Bits,
) -> bool {
    exists|a: &[u8], b: &[u8]|
        a@ == q && b@ == d && #[trigger] score.ensures((code_product(q, d, n) as i64, a, b), s)
}

/// `scores` holds what `score` gave for the codes of a query and of each
/// document.
pub open spec fn code_scores<S: Fn(i64, &[u8], &[u8]) -> F32Bits>(
    score: S,
    q: Seq<u8>,
    docs: Seq<Seq<u8>>,
    n: int,
    scores: Seq<F32Bits>,
) -> bool {
    &&& scores.len() == docs.len()
    &&& forall|i: int|
        0 <= i < docs.len() ==> code_scored(score, q, docs[i], n, #[trigger] scores[i])
}

/// The buffers hold the best `k` of the scores of a bucketed query against
/// every document.
pub open spec fn code_row<S: Fn(i64, &[u8], &[u8]) -> F32Bits>(
    score: S,
    q: Seq<u8>,
    docs: Seq<Seq<u8>>,
    n: int,
    k: int,
    out_scores: Seq<F32Bits>,
    out_indices: Seq<i64>,
) -> bool {
    exists|scores: Seq<F32Bits>|
        code_scores(score, q, docs, n, scores) && #[trigger] best_of(
            scores,
            k,
            out_scores,
            out_indices,
        )
}

/// `d` is a code vector of `len` coordinates over `n` buckets.
pub open spec fn is_code(d: Seq<u8>, len: int, n: int) -> bool {
    d.len() == len && forall|j: int| 0 <= j < len ==> #[trigger] d[j] < n
}

/// `b`-bit index of packed rank buckets.
pub struct RankQuant {
    dim: usize,
    bits: u8,
    n_vectors: usize,
    capability: RankQuantCapability,
    packed: Vec<u8>,
}

impl RankQuant {
    /// The dimension.
    pub closed spec fn dimension(&self) -> int {
        self.dim as int
    }

    /// Bits per coordinate.
    pub closed spec fn width(&self) -> u8 {
        self.bits
    }

    /// The number of documents.
    pub closed spec fn count(&self) -> int {
        self.n_vectors as int
    }

    /// The packed documents, one after the other.
    pub closed spec fn bytes(&self) -> Seq<u8> {
        self.packed@
    }

    /// The stored capability.
    pub closed spec fn supports(&self) -> RankQuantCapability {
        self.capability
    }

    /// The codes of the documents.
    pub open spec fn docs(&self) -> Seq<Seq<u8>> {
        packed_codes(self.bytes(), self.dimension(), self.width(), self.count())
    }

    /// The bytes of the documents.
    pub open spec fn packed_docs(&self) -> Seq<Seq<u8>> {
        rows_of(self.bytes(), packed_len(self.dimension(), self.width()), self.count())
    }

    /// The parameters are valid, the document count within its cap, the buffer
    /// holds one row per document, and the documents are balanced.
    pub open spec fn wf(&self) -> bool {
        &&& valid_codes(self.dimension(), self.width())
        &&& 0 <= self.count() <= MAX_VECTORS
        &&& self.supports() == capability_of(self.dimension(), self.width())
        &&& self.bytes().len() == self.count() * packed_len(self.dimension(), self.width())
        &&& forall|i: int|
            0 <= i < self.count() ==> balanced(#[trigger] self.docs()[i], self.width())
    }

    /// Check the parameters of an index.
    pub fn validate_params(dim: usize, bits: u8) -> (r: Result<(), OrdvecError>)
        ensures
            match r {
                Ok(()) => valid_codes(dim as int, bits),
                Err(e) => if !packable(bits) {
                    e.is_parameter("bits"@, "must be 1, 2, 4, or 8"@)
                } else if dim < 2 {
                    e.is_parameter("dim"@, "must be >= 2"@)
                } else if dim > MAX_DIM {
                    e.is_parameter("dim"@, "must fit in u16"@)
                } else if dim as int % codes_per_byte(bits) != 0 {
                    e.is_parameter(
                        "dim"@,
                        "must be a multiple of "@ + decimal(codes_per_byte(bits) as nat)
                            + " for bits = "@ + decimal(bits as nat),
                    )
                } else {
                    &&& bits != 8
                    &&& dim as int % levels(bits) != 0
                    &&& e.is_parameter(
                        "dim"@,
                        "must be divisible by 2^bits = "@ + decimal(levels(bits) as nat)
                            + " so every bucket receives exactly dim / 2^bits rank entries"@,
                    )
                },
            },
    {
        if !(bits == 1 || bits == 2 || bits == 4 || bits == 8) {
            return Err(
                OrdvecError::InvalidParameter {
                    name: "bits",
                    message: "must be 1, 2, 4, or 8".to_owned(),
                },
            );
        }
        if dim < 2 {
            return Err(
                OrdvecError::InvalidParameter { name: "dim", message: "must be >= 2".to_owned() },
            );
        }
        if dim > MAX_DIM {
            return Err(
                OrdvecError::InvalidParameter { name: "dim", message: "must fit in u16".to_owned() },
            );
        }
        let per: usize = (8 / bits) as usize;
        if dim % per != 0 {
            let mut message: String = "must be a multiple of ".to_owned();
            push_decimal(&mut message, per as u64);
            push_text(&mut message, " for bits = ");
            push_decimal(&mut message, bits as u64);
            return Err(OrdvecError::InvalidParameter { name: "dim", message });
        }
        if bits != 8 {
            let n_buckets: usize = n_levels(bits) as usize;
            if dim % n_buckets != 0 {
                let mut message: String = "must be divisible by 2^bits = ".to_owned();
                push_decimal(&mut message, n_buckets as u64);
                push_text(
                    &mut message,
                    " so every bucket receives exactly dim / 2^bits rank entries",
                );
                return Err(OrdvecError::InvalidParameter { name: "dim", message });
            }
        }
        Ok(())
    }

    fn capability_for(dim: usize, bits: u8) -> (c: RankQuantCapability)
        ensures
            c == capability_of(dim as int, bits),
    {
        if bits == 8 && dim % 256 != 0 {
            RankQuantCapability::AsymmetricOnly
        } else {
            RankQuantCapability::SymmetricAndAsymmetric
        }
    }

    /// An empty index that supports both scoring modes.
    pub fn new(dim: usize, bits: u8) -> (index: Self)
        requires
            valid_codes(dim as int, bits),
            bits == 8 ==> dim % 256 == 0,
        ensures
            index.wf(),
            index.dimension() == dim,
            index.width() == bits,
            index.count() == 0,
            index.supports() == RankQuantCapability::SymmetricAndAsymmetric,
    {
        Self::new_asymmetric(dim, bits)
    }

    /// An empty index of any valid parameters; an eight-bit index supports
    /// symmetric scoring only where the dimension is a multiple of 256.
    pub fn new_asymmetric(dim: usize, bits: u8) -> (index: Self)
        requires
            valid_codes(dim as int, bits),
        ensures
            index.wf(),
            index.dimension() == dim,
            index.width() == bits,
            index.count() == 0,
            index.supports() == capability_of(dim as int, bits),
    {
        let capability: RankQuantCapability = Self::capability_for(dim, bits);
        RankQuant { dim, bits, n_vectors: 0, capability, packed: Vec::new() }
    }

    /// The scoring modes of the index.
    pub fn capability(&self) -> (c: RankQuantCapability)
        ensures
            c == self.supports(),
    {
        self.capability
    }

    /// Whether the index supports symmetric scoring.
    pub fn symmetric_supported(&self) -> (r: bool)
        ensures
            r == (self.supports() == RankQuantCapability::SymmetricAndAsymmetric),
    {
        match self.capability {
            RankQuantCapability::SymmetricAndAsymmetric => true,
            RankQuantCapability::AsymmetricOnly => false,
        }
    }

    /// Add documents: each vector is rank-transformed, bucketed and packed.
    pub fn add(&mut self, vectors: &[F32Bits])
        requires
            old(self).wf(),
            vectors.len() as int % old(self).dimension() == 0,
            all_finite(vectors@),
            old(self).count() + vectors.len() as int / old(self).dimension() <= MAX_VECTORS,
            (old(self).count() + vectors.len() as int / old(self).dimension()) * packed_len(
                old(self).dimension(),
                old(self).width(),
            ) <= usize::MAX,
        ensures
            final(self).wf(),
            final(self).dimension() == old(self).dimension(),
            final(self).width() == old(self).width(),
            final(self).count() == old(self).count() + vectors.len() as int
                / old(self).dimension(),
            final(self).docs() == old(self).docs() + Seq::new(
                (vectors.len() as int / old(self).dimension()) as nat,
                |i: int| codes_of(row(vectors@, old(self).dimension(), i), old(self).width()),
            ),
    {
        let dim: usize = self.dim;
        let bits: u8 = self.bits;
        let n: usize = vectors.len() / dim;
        let bpv: usize = rankquant_bytes_per_vec(dim, bits);
        let encode = |v: &[F32Bits]| -> (packed: Vec<u8>)
            requires
                v.len() == dim,
            ensures
                packed@.len() == bpv,
                unpacked(packed@, dim as int, bits) == codes_of(v@, bits),
            { packed_row(v, bits) };
        let rows: Vec<Vec<u8>> = par_map_rows(vectors, dim, encode);
        let ghost before = *self;
        proof {
            lemma_whole_rows(vectors@.len() as int, dim as int);
        }
        append_rows(&mut self.packed, &rows, bpv, Ghost(before.n_vectors as int));
        self.n_vectors = checked_new_count(self.n_vectors, n, bpv);
        proof {
            let d = dim as int;
            let old_rows = rows_of(before.packed@, bpv as int, before.count());
            let new_rows = rows_of(self.packed@, bpv as int, self.count());
            let fresh = Seq::new(
                n as nat,
                |i: int| codes_of(row(vectors@, before.dimension(), i), before.width()),
            );
            let want = before.docs() + fresh;
            assert forall|i: int| 0 <= i < self.count() implies #[trigger] self.docs()[i]
                == want[i] && balanced(self.docs()[i], bits) by {
                assert(new_rows[i] == row(self.packed@, bpv as int, i));
                if i < before.n_vectors {
                    assert(old_rows[i] == row(before.packed@, bpv as int, i));
                    assert(balanced(before.docs()[i], bits));
                } else {
                    let t = i - before.n_vectors;
                    assert(contents(rows@)[t] == rows@[t]@);
                    lemma_row_inside(t, n as int, d);
                    let v = row(vectors@, d, t);
                    assert(unpacked(rows@[t]@, d, bits) == codes_of(v, bits));
                    lemma_codes_balanced(v, bits);
                }
            }
            assert(self.docs() =~= want);
        }
    }

    /// The codes of document `i`.
    fn doc(&self, i: usize) -> (d: Vec<u8>)
        requires
            self.wf(),
            i < self.count(),
        ensures
            d@ == self.docs()[i as int],
            is_code(d@, self.dimension(), levels(self.width())),
    {
        let bpv: usize = rankquant_bytes_per_vec(self.dim, self.bits);
        proof {
            lemma_row_inside(i as int, self.n_vectors as int, bpv as int);
            assert(self.packed.len() == self.n_vectors * bpv);
        }
        let bytes: &[u8] = slice_subrange(self.packed.as_slice(), i * bpv, i * bpv + bpv);
        unpack_buckets(bytes, self.dim, self.bits)
    }

    /// The best `k` documents for one bucketed query.
    fn symmetric_query<S: Fn(i64, &[u8], &[u8]) -> F32Bits>(
        &self,
        q: &[F32Bits],
        k: usize,
        score: &S,
    ) -> (r: (Vec<F32Bits>, Vec<i64>))
        requires
            self.wf(),
            q.len() == self.dimension(),
            forall|p: i64, a: &[u8], b: &[u8]|
                is_code(a@, self.dimension(), levels(self.width())) && is_code(
                    b@,
                    self.dimension(),
                    levels(self.width()),
                ) ==> #[trigger] score.requires((p, a, b)),
        ensures
            r.0@.len() == lesser(k as int, self.count()),
            r.1@.len() == r.0@.len(),
            code_row(
                *score,
                codes_of(q@, self.width()),
                self.docs(),
                levels(self.width()),
                k as int,
                r.0@,
                r.1@,
            ),
    {
        let n_buckets: u32 = n_levels(self.bits);
        let codes: Vec<u8> = code_vector(q, self.bits);
        let mut scores: Vec<F32Bits> = Vec::with_capacity(self.n_vectors);
        let mut di: usize = 0;
        while di < self.n_vectors
            invariant
                self.wf(),
                n_buckets == levels(self.width()),
                1 <= n_buckets <= 256,
                is_code(codes@, self.dimension(), levels(self.width())),
                di <= self.n_vectors,
                scores@.len() == di,
                forall|p: i64, a: &[u8], b: &[u8]|
                    is_code(a@, self.dimension(), levels(self.width())) && is_code(
                        b@,
                        self.dimension(),
                        levels(self.width()),
                    ) ==> #[trigger] score.requires((p, a, b)),
                forall|i: int|
                    0 <= i < di ==> code_scored(
                        *score,
                        codes@,
                        self.docs()[i],
                        n_buckets as int,
                        #[trigger] scores@[i],
                    ),
            decreases self.n_vectors - di,
        {
            let d: Vec<u8> = self.doc(di);
            let product: i64 = code_dot(codes.as_slice(), d.as_slice(), n_buckets);
            let a: &[u8] = codes.as_slice();
            let b: &[u8] = d.as_slice();
            let s: F32Bits = score(product, a, b);
            assert(a@ == codes@ && b@ == self.docs()[di as int]);
            assert(code_product(codes@, b@, n_buckets as int) as i64 == product);
            assert(code_scored(*score, codes@, self.docs()[di as int], n_buckets as int, s));
            scores.push(s);
            di = di + 1;
        }
        assert(code_scores(*score, codes@, self.docs(), n_buckets as int, scores@));
        best_row(scores.as_slice(), k)
    }

    /// Symmetric search: the query is bucketed like the documents, and `score`
    /// turns the centred product of the two code vectors, handed over with the
    /// codes themselves, into a score. The best `k` scores per query, by
    /// descending score and then ascending document id.
    pub fn search<S: Fn(i64, &[u8], &[u8]) -> F32Bits + Sync + Send>(
        &self,
        queries: &[F32Bits],
        k: usize,
        score: S,
    ) -> (r: SearchResults)
        requires
            self.wf(),
            self.supports() == RankQuantCapability::SymmetricAndAsymmetric,
            queries.len() as int % self.dimension() == 0,
            all_finite(queries@),
            (queries.len() as int / self.dimension()) * lesser(k as int, self.count())
                <= usize::MAX,
            forall|p: i64, a: &[u8], b: &[u8]|
                is_code(a@, self.dimension(), levels(self.width())) && is_code(
                    b@,
                    self.dimension(),
                    levels(self.width()),
                ) ==> #[trigger] score.requires((p, a, b)),
        ensures
            r.wf(),
            r.nq == queries.len() as int / self.dimension(),
            r.k == lesser(k as int, self.count()),
            forall|qi: int|
                0 <= qi < r.nq ==> code_row(
                    score,
                    codes_of(row(queries@, self.dimension(), qi), self.width()),
                    self.docs(),
                    levels(self.width()),
                    k as int,
                    #[trigger] r.score_row(qi),
                    r.index_row(qi),
                ),
    {
        let kept: usize = if k <= self.n_vectors {
            k
        } else {
            self.n_vectors
        };
        let dim: usize = self.dim;
        let by: &S = &score;
        let one = |q: &[F32Bits]| -> (r: (Vec<F32Bits>, Vec<i64>))
            requires
                q.len() == dim,
            ensures
                r.0@.len() == kept,
                r.1@.len() == kept,
                code_row(
                    *by,
                    codes_of(q@, self.width()),
                    self.docs(),
                    levels(self.width()),
                    k as int,
                    r.0@,
                    r.1@,
                ),
            { self.symmetric_query(q, k, by) };
        let rows: Vec<(Vec<F32Bits>, Vec<i64>)> = par_map_rows(queries, dim, one);
        let r = SearchResults::from_rows(&rows, kept);
        proof {
            lemma_whole_rows(queries@.len() as int, dim as int);
            assert forall|qi: int| 0 <= qi < r.nq implies code_row(
                score,
                codes_of(row(queries@, self.dimension(), qi), self.width()),
                self.docs(),
                levels(self.width()),
                k as int,
                #[trigger] r.score_row(qi),
                r.index_row(qi),
            ) by {
                assert(r.score_row(qi) == rows[qi].0@);
                assert(r.index_row(qi) == rows[qi].1@);
            }
        }
        r
    }

    /// The best `k` documents for one query by `score`.
    fn asymmetric_query<P, G: Fn(&[F32Bits]) -> P, S: Fn(&P, &[u8]) -> F32Bits>(
        &self,
        q: &[F32Bits],
        k: usize,
        prepare: &G,
        score: &S,
    ) -> (r: (Vec<F32Bits>, Vec<i64>))
        requires
            self.wf(),
            prepare.requires((q,)),
            forall|p: &P, d: &[u8]|
                is_code(d@, self.dimension(), levels(self.width()))
                    ==> #[trigger] score.requires((p, d)),
        ensures
            r.0@.len() == lesser(k as int, self.count()),
            r.1@.len() == r.0@.len(),
            asymmetric_row(*prepare, *score, q@, self.docs(), k as int, r.0@, r.1@),
    {
        let p: P = prepare(q);
        assert(prepared(*prepare, q@, p));
        let mut scores: Vec<F32Bits> = Vec::with_capacity(self.n_vectors);
        let mut di: usize = 0;
        while di < self.n_vectors
            invariant
                self.wf(),
                di <= self.n_vectors,
                scores@.len() == di,
                forall|p: &P, d: &[u8]|
                    is_code(d@, self.dimension(), levels(self.width()))
                        ==> #[trigger] score.requires((p, d)),
                forall|i: int|
                    0 <= i < di ==> scored(*score, p, self.docs()[i], #[trigger] scores@[i]),
            decreases self.n_vectors - di,
        {
            let codes: Vec<u8> = self.doc(di);
            let d: &[u8] = codes.as_slice();
            let s: F32Bits = score(&p, d);
            assert(d@ == self.docs()[di as int]);
            assert(scored(*score, p, self.docs()[di as int], s));
            scores.push(s);
            di = di + 1;
        }
        assert(scores_of(*score, p, self.docs(), scores@));
        best_row(scores.as_slice(), k)
    }

    /// Asymmetric search: `score` scores what `prepare` made of a query against
    /// the codes of a document; the best `k` scores per query, by descending
    /// score and then ascending document id.
    pub fn search_asymmetric<
        P,
        G: Fn(&[F32Bits]) -> P + Sync + Send,
        S: Fn(&P, &[u8]) -> F32Bits + Sync + Send,
    >(&self, queries: &[F32Bits], k: usize, prepare: G, score: S) -> (r: SearchResults)
        requires
            self.wf(),
            queries.len() as int % self.dimension() == 0,
            all_finite(queries@),
            (queries.len() as int / self.dimension()) * lesser(k as int, self.count())
                <= usize::MAX,
            forall|q: &[F32Bits]|
                q.len() == self.dimension() ==> #[trigger] prepare.requires((q,)),
            forall|p: &P, d: &[u8]|
                is_code(d@, self.dimension(), levels(self.width()))
                    ==> #[trigger] score.requires((p, d)),
        ensures
            r.wf(),
            r.nq == queries.len() as int / self.dimension(),
            r.k == lesser(k as int, self.count()),
            forall|qi: int|
                0 <= qi < r.nq ==> asymmetric_row(
                    prepare,
                    score,
                    row(queries@, self.dimension(), qi),
                    self.docs(),
                    k as int,
                    #[trigger] r.score_row(qi),
                    r.index_row(qi),
                ),
    {
        let kept: usize = if k <= self.n_vectors {
            k
        } else {
            self.n_vectors
        };
        let dim: usize = self.dim;
        let by: (&G, &S) = (&prepare, &score);
        let one = |q: &[F32Bits]| -> (r: (Vec<F32Bits>, Vec<i64>))
            requires
                q.len() == dim,
            ensures
                r.0@.len() == kept,
                r.1@.len() == kept,
                asymmetric_row(*by.0, *by.1, q@, self.docs(), k as int, r.0@, r.1@),
            { self.asymmetric_query(q, k, by.0, by.1) };
        let rows: Vec<(Vec<F32Bits>, Vec<i64>)> = par_map_rows(queries, dim, one);
        let r = SearchResults::from_rows(&rows, kept);
        proof {
            lemma_whole_rows(queries@.len() as int, dim as int);
            assert forall|qi: int| 0 <= qi < r.nq implies asymmetric_row(
                prepare,
                score,
                row(queries@, self.dimension(), qi),
                self.docs(),
                k as int,
                #[trigger] r.score_row(qi),
                r.index_row(qi),
            ) by {
                assert(r.score_row(qi) == rows[qi].0@);
                assert(r.index_row(qi) == rows[qi].1@);
            }
        }
        r
    }

    /// Asymmetric scoring of one query against a list of candidates. Each entry
    /// of the list is scored, repeated ids included; the best `k` are reported
    /// under their document ids, by descending score, then ascending id.
    pub fn search_asymmetric_subset<
        P,
        G: Fn(&[F32Bits]) -> P,
        S: Fn(&P, &[u8]) -> F32Bits,
    >(&self, query: &[F32Bits], candidates: &[u32], k: usize, prepare: G, score: S) -> (r: (
        Vec<F32Bits>,
        Vec<i64>,
    ))
        requires
            self.wf(),
            query.len() == self.dimension(),
            all_finite(query@),
            candidates.len() <= self.count(),
            forall|i: int| 0 <= i < candidates.len() ==> #[trigger] candidates[i] < self.count(),
            prepare.requires((query,)),
            forall|p: &P, d: &[u8]|
                is_code(d@, self.dimension(), levels(self.width()))
                    ==> #[trigger] score.requires((p, d)),
        ensures
            subset_row(prepare, score, query@, self.docs(), candidates@, k as int, r.0@, r.1@),
    {
        let m: usize = candidates.len();
        let ghost picked = picked_docs(self.docs(), candidates@);
        let p: P = prepare(query);
        assert(prepared(prepare, query@, p));
        let mut scores: Vec<F32Bits> = Vec::with_capacity(m);
        let mut i: usize = 0;
        while i < m
            invariant
                self.wf(),
                m == candidates.len(),
                i <= m,
                scores@.len() == i,
                picked == picked_docs(self.docs(), candidates@),
                forall|i: int|
                    0 <= i < candidates.len() ==> #[trigger] candidates[i] < self.count(),
                forall|p: &P, d: &[u8]|
                    is_code(d@, self.dimension(), levels(self.width()))
                        ==> #[trigger] score.requires((p, d)),
                forall|t: int| 0 <= t < i ==> scored(score, p, picked[t], #[trigger] scores@[t]),
            decreases m - i,
        {
            let codes: Vec<u8> = self.doc(candidates[i] as usize);
            let d: &[u8] = codes.as_slice();
            let s: F32Bits = score(&p, d);
            assert(d@ == picked[i as int]);
            assert(scored(score, p, picked[i as int], s));
            scores.push(s);
            i = i + 1;
        }
        assert(scores_of(score, p, picked, scores@));
        best_subset(scores.as_slice(), candidates, k)
    }

    /// Number of documents.
    pub fn len(&self) -> (n: usize)
        ensures
            n == self.count(),
    {
        self.n_vectors
    }

    /// Whether there are no documents.
    pub fn is_empty(&self) -> (r: bool)
        ensures
            r == (self.count() == 0),
    {
        self.n_vectors == 0
    }

    /// The dimension.
    pub fn dim(&self) -> (d: usize)
        ensures
            d == self.dimension(),
    {
        self.dim
    }

    /// Bits per coordinate.
    pub fn bits(&self) -> (b: u8)
        ensures
            b == self.width(),
    {
        self.bits
    }

    /// Bytes per document.
    pub fn bytes_per_vec(&self) -> (n: usize)
        requires
            self.wf(),
        ensures
            n == packed_len(self.dimension(), self.width()),
    {
        rankquant_bytes_per_vec(self.dim, self.bits)
    }

    /// Total bytes held by the packed buffer.
    pub fn byte_size(&self) -> (n: usize)
        requires
            self.wf(),
        ensures
            n == self.count() * packed_len(self.dimension(), self.width()),
    {
        self.packed.len()
    }

    /// The packed documents, one after the other.
    pub fn packed(&self) -> (b: &[u8])
        ensures
            b@ == self.bytes(),
    {
        self.packed.as_slice()
    }

    /// Remove document `idx` by moving the last document into its place;
    /// returns the id that the moved document had.
    pub fn swap_remove(&mut self, idx: usize) -> (last: usize)
        requires
            old(self).wf(),
            idx < old(self).count(),
        ensures
            final(self).wf(),
            final(self).dimension() == old(self).dimension(),
            final(self).width() == old(self).width(),
            last == old(self).count() - 1,
            final(self).count() == last,
            final(self).docs() == old(self).docs().update(
                idx as int,
                old(self).docs()[last as int],
            ).drop_last(),
    {
        let last: usize = self.n_vectors - 1;
        let ghost before = *self;
        let bpv: usize = rankquant_bytes_per_vec(self.dim, self.bits);
        swap_remove_row(&mut self.packed, bpv, self.n_vectors, idx);
        self.n_vectors = last;
        proof {
            let all = rows_of(self.packed@, bpv as int, last as int);
            let was = rows_of(before.packed@, bpv as int, last + 1);
            let want = before.docs().update(idx as int, before.docs()[last as int]).drop_last();
            assert forall|i: int| 0 <= i < last implies #[trigger] self.docs()[i] == want[i]
                && balanced(self.docs()[i], self.width()) by {
                assert(all[i] == row(self.packed@, bpv as int, i));
                assert(was[i] == row(before.packed@, bpv as int, i));
                assert(balanced(before.docs()[i], self.width()));
                assert(balanced(before.docs()[last as int], self.width()));
            }
            assert(self.docs() =~= want);
        }
        last
    }
}

/// The documents of a candidate list.
pub open spec fn picked_docs(docs: Seq<Seq<u8>>, candidates: Seq<u32>) -> Seq<Seq<u8>> {
    Seq::new(candidates.len(), |i: int| docs[candidates[i] as int])
}

/// The buffers hold the best `k` of the scores of a query against a candidate
/// list.
pub open spec fn subset_row<P, G: Fn(&[F32Bits]) -> P, S: Fn(&P, &[u8]) -> F32Bits>(
    prepare: G,
    score: S,
    query: Seq<F32Bits>,
    docs: Seq<Seq<u8>>,
    candidates: Seq<u32>,
    k: int,
    out_scores: Seq<F32Bits>,
    out_ids: Seq<i64>,
) -> bool {
    exists|p: P, scores: Seq<F32Bits>|
        prepared(prepare, query, p) && #[trigger] scores_of(
            score,
            p,
            picked_docs(docs, candidates),
            scores,
        ) && #[trigger] best_of_subset(scores, candidates, k, out_scores, out_ids)
}

/// Four times the inner product of two mean-centred code vectors.
pub fn code_dot(q: &[u8], d: &[u8], n_buckets: u32) -> (acc: i64)
    requires
        q.len() <= MAX_DIM,
        1 <= n_buckets <= 256,
        is_code(q@, q.len() as int, n_buckets as int),
        is_code(d@, q.len() as int, n_buckets as int),
    ensures
        acc == code_product(q@, d@, n_buckets as int),
{
    let dim: usize = q.len();
    let top: i64 = n_buckets as i64 - 1;
    let ghost f = code_term(q@, d@, n_buckets as int);
    let mut acc: i64 = 0;
    let mut j: usize = 0;
    while j < dim
        invariant
            dim == q.len(),
            dim <= MAX_DIM,
            1 <= n_buckets <= 256,
            top == n_buckets - 1,
            is_code(q@, q.len() as int, n_buckets as int),
            is_code(d@, q.len() as int, n_buckets as int),
            f == code_term(q@, d@, n_buckets as int),
            j <= dim,
            acc == sum_to(j as int, f),
            -(j * 65536) <= acc <= j * 65536,
        decreases dim - j,
    {
        let x: i64 = 2 * (q[j] as i64) - top;
        let y: i64 = 2 * (d[j] as i64) - top;
        assert(-65536 <= x * y <= 65536) by (nonlinear_arith)
            requires
                -256 <= x <= 256,
                -256 <= y <= 256,
        ;
        assert(f(j as int) == x * y);
        acc = acc + x * y;
        j = j + 1;
    }
    acc
}

/// Rank-transform and bucket a vector.
pub(crate) fn code_vector(v: &[F32Bits], bits: u8) -> (codes: Vec<u8>)
    requires
        bits <= 8,
        v.len() <= MAX_DIM,
    ensures
        codes@ == codes_of(v@, bits),
        is_code(codes@, v.len() as int, levels(bits)),
{
    let ranks: Vec<u16> = rank_row(v);
    assert forall|i: int| 0 <= i < ranks.len() implies #[trigger] ranks[i] < ranks.len() by {
        assert(rank_ints(ranks@)[i] < ranks.len());
    }
    bucket_ranks(ranks.as_slice(), bits)
}

/// The codes of a vector are balanced.
pub proof fn lemma_codes_balanced(v: Seq<F32Bits>, bits: u8)
    requires
        packable(bits),
        0 < v.len() <= MAX_DIM,
    ensures
        balanced(codes_of(v, bits), bits),
{
    lemma_rank_transform_is_permutation(v);
    if v.len() as int % levels(bits) == 0 {
        lemma_buckets_constant_composition(ranks_of(v), bits);
    }
}

/// Rank-transform, bucket and pack a vector.
fn packed_row(v: &[F32Bits], bits: u8) -> (packed: Vec<u8>)
    requires
        valid_codes(v.len() as int, bits),
    ensures
        packed@.len() == packed_len(v.len() as int, bits),
        unpacked(packed@, v.len() as int, bits) == codes_of(v@, bits),
{
    let codes: Vec<u8> = code_vector(v, bits);
    let packed: Vec<u8> = pack_buckets(codes.as_slice(), bits);
    let bpv: usize = rankquant_bytes_per_vec(v.len(), bits);
    proof {
        let per = codes_per_byte(bits);
        assert(packed.len() == bpv) by (nonlinear_arith)
            requires
                packed.len() * per == bpv * per,
                per > 0,
        ;
    }
    packed
}

/// How many candidates the first stage of a two-stage search hands on.
#[derive(Clone, Copy, Debug, PartialEq, Eq, Structural)]
pub struct TwoStageCandidatePolicy {
    /// At least this many.
    pub min_candidates: usize,
    /// At least this many times `k`.
    pub k_multiplier: usize,
    /// At most this many, if given.
    pub max_candidates: Option<usize>,
}

/// The larger of two numbers.
pub open spec fn larger(a: int, b: int) -> int {
    if a < b {
        b
    } else {
        a
    }
}

impl TwoStageCandidatePolicy {
    /// The number of candidates for the best `k` of `search_space` documents:
    /// the larger of the minimum and the multiple of `k`, cut to the maximum
    /// and to the search space.
    pub open spec fn candidates(&self, k: int, search_space: int) -> int {
        let wanted = larger(
            self.min_candidates as int,
            lesser(k * self.k_multiplier, usize::MAX as int),
        );
        let capped = match self.max_candidates {
            Some(m) => lesser(wanted, m as int),
            None => wanted,
        };
        if k == 0 || search_space == 0 {
            0
        } else {
            lesser(capped, search_space)
        }
    }

    /// The number of candidates to hand on.
    pub fn candidate_count(&self, k: usize, search_space: usize) -> (n: usize)
        ensures
            n == self.candidates(k as int, search_space as int),
    {
        if k == 0 || search_space == 0 {
            return 0;
        }
        let multiple: usize = match k.checked_mul(self.k_multiplier) {
            Some(m) => m,
            None => usize::MAX,
        };
        let mut count: usize = if self.min_candidates < multiple {
            multiple
        } else {
            self.min_candidates
        };
        if let Some(most) = self.max_candidates {
            if most < count {
                count = most;
            }
        }
        if search_space < count {
            count = search_space;
        }
        count
    }
}

impl Default for TwoStageCandidatePolicy {
    /// At least 256 candidates and 32 per result, without a maximum.
    fn default() -> (p: Self)
        ensures
            p.min_candidates == 256,
            p.k_multiplier == 32,
            p.max_candidates is None,
    {
        TwoStageCandidatePolicy { min_candidates: 256, k_multiplier: 32, max_candidates: None }
    }
}

/// What is wrong with the arguments of a probed search, in the order of the
/// checks.
pub open spec fn probe_error(
    index: RankQuant,
    sign_probe: SignBitmap,
    query: Seq<F32Bits>,
    e: OrdvecError,
) -> bool {
    if sign_probe.dimension() != index.dimension() {
        e.is_parameter(
            "sign_probe.dim"@,
            "must match RankQuant dim "@ + decimal(index.dimension() as nat),
        )
    } else if sign_probe.count() != index.count() {
        e.is_parameter(
            "sign_probe.len"@,
            "must match RankQuant len "@ + decimal(index.count() as nat),
        )
    } else if query.len() != index.dimension() {
        e.is_vector_length("query"@, query.len() as int, index.dimension())
    } else {
        !all_finite(query) && e.is_parameter("query"@, "must contain only finite values"@)
    }
}

/// The arguments of a probed search fit together.
pub open spec fn probe_fits(index: RankQuant, sign_probe: SignBitmap, query: Seq<F32Bits>) -> bool {
    &&& sign_probe.dimension() == index.dimension()
    &&& sign_probe.count() == index.count()
    &&& query.len() == index.dimension()
    &&& all_finite(query)
}

/// The buffers hold the best `k` of the scores of a query against the `m`
/// documents whose signs agree best with it.
pub open spec fn probed_row<P, G: Fn(&[F32Bits]) -> P, S: Fn(&P, &[u8]) -> F32Bits>(
    prepare: G,
    score: S,
    index: RankQuant,
    sign_probe: SignBitmap,
    query: Seq<F32Bits>,
    m: int,
    k: int,
    out_scores: Seq<F32Bits>,
    out_ids: Seq<i64>,
) -> bool {
    exists|candidates: Seq<u32>|
        lists_smallest(
            index.count(),
            m,
            hamming_key(sign_probe.docs(), sign_flags(query)),
            candidates,
        ) && #[trigger] subset_row(
            prepare,
            score,
            query,
            index.docs(),
            candidates,
            k,
            out_scores,
            out_ids,
        )
}

/// Check that every value is finite.
fn validate_finite(values: &[F32Bits], name: &'static str) -> (r: Result<(), OrdvecError>)
    ensures
        match r {
            Ok(()) => all_finite(values@),
            Err(e) => !all_finite(values@) && e.is_parameter(
                name@,
                "must contain only finite values"@,
            ),
        },
{
    if !values_finite(values) {
        return Err(
            OrdvecError::InvalidParameter {
                name,
                message: "must contain only finite values".to_owned(),
            },
        );
    }
    Ok(())
}

impl RankQuant {
    /// Two-stage search: the sign bitmaps pick candidates, as many as the
    /// policy says, and the codes score them.
    pub fn try_search_with_sign_probe_with_policy<
        P,
        G: Fn(&[F32Bits]) -> P,
        S: Fn(&P, &[u8]) -> F32Bits,
    >(
        &self,
        sign_probe: &SignBitmap,
        query: &[F32Bits],
        k: usize,
        policy: TwoStageCandidatePolicy,
        prepare: G,
        score: S,
    ) -> (r: Result<(Vec<F32Bits>, Vec<i64>), OrdvecError>)
        requires
            self.wf(),
            sign_probe.wf(),
            query.len() == self.dimension() ==> prepare.requires((query,)),
            forall|p: &P, d: &[u8]|
                is_code(d@, self.dimension(), levels(self.width()))
                    ==> #[trigger] score.requires((p, d)),
        ensures
            match r {
                Ok(found) => probe_fits(*self, *sign_probe, query@) && probed_row(
                    prepare,
                    score,
                    *self,
                    *sign_probe,
                    query@,
                    policy.candidates(k as int, self.count()),
                    k as int,
                    found.0@,
                    found.1@,
                ),
                Err(e) => !probe_fits(*self, *sign_probe, query@) && probe_error(
                    *self,
                    *sign_probe,
                    query@,
                    e,
                ),
            },
    {
        if sign_probe.dim() != self.dim {
            let mut message: String = "must match RankQuant dim ".to_owned();
            push_decimal(&mut message, self.dim as u64);
            return Err(OrdvecError::InvalidParameter { name: "sign_probe.dim", message });
        }
        if sign_probe.len() != self.n_vectors {
            let mut message: String = "must match RankQuant len ".to_owned();
            push_decimal(&mut message, self.n_vectors as u64);
            return Err(OrdvecError::InvalidParameter { name: "sign_probe.len", message });
        }
        if query.len() != self.dim {
            return Err(
                OrdvecError::InvalidVectorLength {
                    name: "query",
                    len: query.len(),
                    expected: self.dim,
                },
            );
        }
        match validate_finite(query, "query") {
            Ok(()) => {},
            Err(e) => {
                return Err(e);
            },
        }
        let m: usize = policy.candidate_count(k, self.n_vectors);
        let candidates: Vec<u32> = sign_probe.top_m_candidates(query, m);
        Ok(self.search_asymmetric_subset(query, candidates.as_slice(), k, prepare, score))
    }

    /// Two-stage search with the default candidate policy.
    pub fn try_search_with_sign_probe<
        P,
        G: Fn(&[F32Bits]) -> P,
        S: Fn(&P, &[u8]) -> F32Bits,
    >(&self, sign_probe: &SignBitmap, query: &[F32Bits], k: usize, prepare: G, score: S) -> (r:
        Result<(Vec<F32Bits>, Vec<i64>), OrdvecError>)
        requires
            self.wf(),
            sign_probe.wf(),
            query.len() == self.dimension() ==> prepare.requires((query,)),
            forall|p: &P, d: &[u8]|
                is_code(d@, self.dimension(), levels(self.width()))
                    ==> #[trigger] score.requires((p, d)),
        ensures
            match r {
                Ok(found) => probe_fits(*self, *sign_probe, query@) && probed_row(
                    prepare,
                    score,
                    *self,
                    *sign_probe,
                    query@,
                    default_candidates(k as int, self.count()),
                    k as int,
                    found.0@,
                    found.1@,
                ),
                Err(e) => !probe_fits(*self, *sign_probe, query@) && probe_error(
                    *self,
                    *sign_probe,
                    query@,
                    e,
                ),
            },
    {
        let policy = TwoStageCandidatePolicy::default();
        self.try_search_with_sign_probe_with_policy(sign_probe, query, k, policy, prepare, score)
    }

    /// Two-stage search of arguments that fit together.
    pub fn search_with_sign_probe<
        P,
        G: Fn(&[F32Bits]) -> P,
        S: Fn(&P, &[u8]) -> F32Bits,
    >(&self, sign_probe: &SignBitmap, query: &[F32Bits], k: usize, prepare: G, score: S) -> (r: (
        Vec<F32Bits>,
        Vec<i64>,
    ))
        requires
            self.wf(),
            sign_probe.wf(),
            probe_fits(*self, *sign_probe, query@),
            prepare.requires((query,)),
            forall|p: &P, d: &[u8]|
                is_code(d@, self.dimension(), levels(self.width()))
                    ==> #[trigger] score.requires((p, d)),
        ensures
            probed_row(
                prepare,
                score,
                *self,
                *sign_probe,
                query@,
                default_candidates(k as int, self.count()),
                k as int,
                r.0@,
                r.1@,
            ),
    {
        let m: usize = TwoStageCandidatePolicy::default().candidate_count(k, self.n_vectors);
        let candidates: Vec<u32> = sign_probe.top_m_candidates(query, m);
        self.search_asymmetric_subset(query, candidates.as_slice(), k, prepare, score)
    }
}

/// The number of candidates under the default policy.
pub open spec fn default_candidates(k: int, search_space: int) -> int {
    if k == 0 || search_space == 0 {
        0
    } else {
        lesser(larger(256, lesser(k * 32, usize::MAX as int)), search_space)
    }
}

/// The best `k` documents for one query by `score` on packed documents.
fn byte_query<P, G: Fn(&[F32Bits]) -> P, S: Fn(&P, &[u8]) -> F32Bits>(
    index: &RankQuant,
    q: &[F32Bits],
    k: usize,
    prepare: &G,
    score: &S,
) -> (r: (Vec<F32Bits>, Vec<i64>))
    requires
        index.wf(),
        prepare.requires((q,)),
        forall|p: &P, d: &[u8]|
            d.len() == packed_len(index.dimension(), index.width()) ==> #[trigger] score.requires(
                (p, d),
            ),
    ensures
        r.0@.len() == lesser(k as int, index.count()),
        r.1@.len() == r.0@.len(),
        asymmetric_row(*prepare, *score, q@, index.packed_docs(), k as int, r.0@, r.1@),
{
    let p: P = prepare(q);
    assert(prepared(*prepare, q@, p));
    let n: usize = index.n_vectors;
    let bpv: usize = rankquant_bytes_per_vec(index.dim, index.bits);
    let mut scores: Vec<F32Bits> = Vec::with_capacity(n);
    let mut di: usize = 0;
    while di < n
        invariant
            index.wf(),
            n == index.n_vectors,
            bpv == packed_len(index.dimension(), index.width()),
            di <= n,
            scores@.len() == di,
            forall|p: &P, d: &[u8]|
                d.len() == packed_len(index.dimension(), index.width())
                    ==> #[trigger] score.requires((p, d)),
            forall|i: int|
                0 <= i < di ==> scored(*score, p, index.packed_docs()[i], #[trigger] scores@[i]),
        decreases n - di,
    {
        proof {
            lemma_row_inside(di as int, n as int, bpv as int);
            assert(index.packed.len() == n * bpv);
        }
        let d: &[u8] = slice_subrange(index.packed.as_slice(), di * bpv, di * bpv + bpv);
        let s: F32Bits = score(&p, d);
        assert(d@ == index.packed_docs()[di as int]);
        assert(scored(*score, p, index.packed_docs()[di as int], s));
        scores.push(s);
        di = di + 1;
    }
    assert(scores_of(*score, p, index.packed_docs(), scores@));
    best_row(scores.as_slice(), k)
}

/// Asymmetric search byte by byte: `score` scores what `prepare` made of a query
/// against the packed bytes of a document, which hold four codes each at two
/// bits and two codes each at four bits.
pub fn search_asymmetric_byte_lut<
    P,
    G: Fn(&[F32Bits]) -> P + Sync + Send,
    S: Fn(&P, &[u8]) -> F32Bits + Sync + Send,
>(index: &RankQuant, queries: &[F32Bits], k: usize, prepare: G, score: S) -> (r: SearchResults)
    requires
        index.wf(),
        index.width() == 2 || index.width() == 4,
        queries.len() as int % index.dimension() == 0,
        all_finite(queries@),
        (queries.len() as int / index.dimension()) * lesser(k as int, index.count()) <= usize::MAX,
        forall|q: &[F32Bits]| q.len() == index.dimension() ==> #[trigger] prepare.requires((q,)),
        forall|p: &P, d: &[u8]|
            d.len() == packed_len(index.dimension(), index.width()) ==> #[trigger] score.requires(
                (p, d),
            ),
    ensures
        r.wf(),
        r.nq == queries.len() as int / index.dimension(),
        r.k == lesser(k as int, index.count()),
        forall|qi: int|
            0 <= qi < r.nq ==> asymmetric_row(
                prepare,
                score,
                row(queries@, index.dimension(), qi),
                index.packed_docs(),
                k as int,
                #[trigger] r.score_row(qi),
                r.index_row(qi),
            ),
{
    let kept: usize = if k <= index.n_vectors {
        k
    } else {
        index.n_vectors
    };
    let dim: usize = index.dim;
    let with: (&G, &S) = (&prepare, &score);
    let one = |q: &[F32Bits]| -> (r: (Vec<F32Bits>, Vec<i64>))
        requires
            q.len() == dim,
        ensures
            r.0@.len() == kept,
            r.1@.len() == kept,
            asymmetric_row(*with.0, *with.1, q@, index.packed_docs(), k as int, r.0@, r.1@),
        { byte_query(index, q, k, with.0, with.1) };
    let rows: Vec<(Vec<F32Bits>, Vec<i64>)> = par_map_rows(queries, dim, one);
    let r = SearchResults::from_rows(&rows, kept);
    proof {
        lemma_whole_rows(queries@.len() as int, dim as int);
        assert forall|qi: int| 0 <= qi < r.nq implies asymmetric_row(
            prepare,
            score,
            row(queries@, index.dimension(), qi),
            index.packed_docs(),
            k as int,
            #[trigger] r.score_row(qi),
            r.index_row(qi),
        ) by {
            assert(r.score_row(qi) == rows[qi].0@);
            assert(r.index_row(qi) == rows[qi].1@);
        }
    }
    r
}

/// Symmetric search over a corpus that is bucketed on the fly, at any width up
/// to eight bits, without building an index.
pub fn rankquant_eval_search<S: Fn(i64, &[u8], &[u8]) -> F32Bits + Sync + Send>(
    corpus: &[F32Bits],
    queries: &[F32Bits],
    dim: usize,
    bits: u8,
    k: usize,
    score: S,
) -> (r: SearchResults)
    requires
        1 <= bits <= 8,
        2 <= dim <= MAX_DIM,
        corpus.len() as int % dim as int == 0,
        queries.len() as int % dim as int == 0,
        all_finite(corpus@),
        all_finite(queries@),
        corpus.len() as int / dim as int <= i64::MAX,
        (queries.len() as int / dim as int) * lesser(
            k as int,
            corpus.len() as int / dim as int,
        ) <= usize::MAX,
        forall|p: i64, a: &[u8], b: &[u8]|
            is_code(a@, dim as int, levels(bits)) && is_code(b@, dim as int, levels(bits))
                ==> #[trigger] score.requires((p, a, b)),
    ensures
        r.wf(),
        r.nq == queries.len() as int / dim as int,
        r.k == lesser(k as int, corpus.len() as int / dim as int),
        forall|qi: int|
            0 <= qi < r.nq ==> code_row(
                score,
                codes_of(row(queries@, dim as int, qi), bits),
                corpus_codes(corpus@, dim as int, bits),
                levels(bits),
                k as int,
                #[trigger] r.score_row(qi),
                r.index_row(qi),
            ),
{
    let n: usize = corpus.len() / dim;
    let kept: usize = if k <= n {
        k
    } else {
        n
    };
    let bucket = |v: &[F32Bits]| -> (codes: Vec<u8>)
        requires
            v.len() == dim,
        ensures
            codes@ == codes_of(v@, bits),
            is_code(codes@, dim as int, levels(bits)),
        { code_vector(v, bits) };
    let docs: Vec<Vec<u8>> = par_map_rows(corpus, dim, bucket);
    let ghost all = corpus_codes(corpus@, dim as int, bits);
    proof {
        lemma_whole_rows(corpus@.len() as int, dim as int);
        assert forall|i: int| 0 <= i < docs.len() implies (#[trigger] docs[i])@ == all[i]
            && is_code(docs[i]@, dim as int, levels(bits)) by {
            lemma_row_inside(i, n as int, dim as int);
        }
        assert(contents(docs@) =~= all);
    }
    let by: &S = &score;
    let docs_ref: &Vec<Vec<u8>> = &docs;
    let one = |q: &[F32Bits]| -> (r: (Vec<F32Bits>, Vec<i64>))
        requires
            q.len() == dim,
        ensures
            r.0@.len() == kept,
            r.1@.len() == kept,
            code_row(
                *by,
                codes_of(q@, bits),
                contents(docs_ref@),
                levels(bits),
                k as int,
                r.0@,
                r.1@,
            ),
        { eval_query(docs_ref, q, bits, k, by) };
    let rows: Vec<(Vec<F32Bits>, Vec<i64>)> = par_map_rows(queries, dim, one);
    let r = SearchResults::from_rows(&rows, kept);
    proof {
        lemma_whole_rows(queries@.len() as int, dim as int);
        assert forall|qi: int| 0 <= qi < r.nq implies code_row(
            score,
            codes_of(row(queries@, dim as int, qi), bits),
            all,
            levels(bits),
            k as int,
            #[trigger] r.score_row(qi),
            r.index_row(qi),
        ) by {
            assert(r.score_row(qi) == rows[qi].0@);
            assert(r.index_row(qi) == rows[qi].1@);
        }
    }
    r
}

/// The codes of the vectors of a corpus.
pub open spec fn corpus_codes(corpus: Seq<F32Bits>, dim: int, bits: u8) -> Seq<Seq<u8>> {
    Seq::new((corpus.len() as int / dim) as nat, |i: int| codes_of(row(corpus, dim, i), bits))
}

/// The best `k` bucketed documents for one query.
fn eval_query<S: Fn(i64, &[u8], &[u8]) -> F32Bits>(
    docs: &Vec<Vec<u8>>,
    q: &[F32Bits],
    bits: u8,
    k: usize,
    score: &S,
) -> (r: (Vec<F32Bits>, Vec<i64>))
    requires
        1 <= bits <= 8,
        q.len() <= MAX_DIM,
        docs.len() <= i64::MAX,
        forall|i: int|
            0 <= i < docs.len() ==> is_code(
                (#[trigger] docs[i])@,
                q.len() as int,
                levels(bits),
            ),
        forall|p: i64, a: &[u8], b: &[u8]|
            is_code(a@, q.len() as int, levels(bits)) && is_code(b@, q.len() as int, levels(bits))
                ==> #[trigger] score.requires((p, a, b)),
    ensures
        r.0@.len() == lesser(k as int, docs.len() as int),
        r.1@.len() == r.0@.len(),
        code_row(
            *score,
            codes_of(q@, bits),
            contents(docs@),
            levels(bits),
            k as int,
            r.0@,
            r.1@,
        ),
{
    let ghost all = contents(docs@);
    let n_buckets: u32 = n_levels(bits);
    let codes: Vec<u8> = code_vector(q, bits);
    let mut scores: Vec<F32Bits> = Vec::with_capacity(docs.len());
    let mut di: usize = 0;
    while di < docs.len()
        invariant
            1 <= n_buckets <= 256,
            n_buckets == levels(bits),
            q.len() <= MAX_DIM,
            is_code(codes@, q.len() as int, levels(bits)),
            all == contents(docs@),
            di <= docs.len(),
            scores@.len() == di,
            forall|i: int|
                0 <= i < docs.len() ==> is_code(
                    (#[trigger] docs[i])@,
                    q.len() as int,
                    levels(bits),
                ),
            forall|p: i64, a: &[u8], b: &[u8]|
                is_code(a@, q.len() as int, levels(bits)) && is_code(
                    b@,
                    q.len() as int,
                    levels(bits),
                ) ==> #[trigger] score.requires((p, a, b)),
            forall|i: int|
                0 <= i < di ==> code_scored(
                    *score,
                    codes@,
                    all[i],
                    n_buckets as int,
                    #[trigger] scores@[i],
                ),
        decreases docs.len() - di,
    {
        let a: &[u8] = codes.as_slice();
        let b: &[u8] = docs[di].as_slice();
        let product: i64 = code_dot(a, b, n_buckets);
        let s: F32Bits = score(product, a, b);
        assert(a@ == codes@ && b@ == all[di as int]);
        assert(code_product(codes@, b@, n_buckets as int) as i64 == product);
        assert(code_scored(*score, codes@, all[di as int], n_buckets as int, s));
        scores.push(s);
        di = di + 1;
    }
    assert(code_scores(*score, codes@, all, n_buckets as int, scores@));
    best_row(scores.as_slice(), k)
}

/// The first bucket of a document that is not equally occupied.
pub open spec fn off_bucket(codes: Seq<u8>, bits: u8) -> int {
    first_where(
        levels(bits),
        bucket_off_balance(codes, codes.len() as int / levels(bits)),
    )
}

/// Document `i` of a packed buffer has a bucket that is not equally occupied.
pub open spec fn uneven(bytes: Seq<u8>, dim: int, bits: u8) -> spec_fn(int) -> bool {
    |i: int|
        off_bucket(unpacked(row(bytes, packed_len(dim, bits), i), dim, bits), bits) < levels(bits)
}

/// The first fault in the composition of the documents of a packed buffer.
pub open spec fn composition_error(bytes: Seq<u8>, dim: int, bits: u8, n: int) -> Option<
    FormatError,
> {
    let i = first_where(n, uneven(bytes, dim, bits));
    let codes = unpacked(row(bytes, packed_len(dim, bits), i), dim, bits);
    let b = off_bucket(codes, bits);
    if i >= n {
        None
    } else {
        Some(
            FormatError::UnevenRow {
                row: i as usize,
                bucket: b as usize,
                count: bucket_count(codes, b) as usize,
                expected: (dim / levels(bits)) as usize,
            },
        )
    }
}

/// What is first found wrong with the bytes of a bucketed-rank index.
pub open spec fn rankquant_file_error(bytes: Seq<u8>) -> Option<FormatError> {
    let h = header_of(PersistedFormat::RankQuant, bytes);
    if file_error(PersistedFormat::RankQuant, bytes) is Some {
        file_error(PersistedFormat::RankQuant, bytes)
    } else {
        composition_error(
            payload_of(PersistedFormat::RankQuant, bytes),
            h.dim as int,
            h.bits,
            h.n_vectors as int,
        )
    }
}

/// The file of a bucketed-rank index.
pub open spec fn rankquant_file(bits: u8, dim: int, n: int, bytes: Seq<u8>) -> Seq<u8> {
    header_bytes(PersistedFormat::RankQuant, bits, dim, 0, n) + bytes
}

/// A document without an unequal bucket is balanced, and the other way round.
proof fn lemma_off_bucket(codes: Seq<u8>, bits: u8)
    requires
        1 <= bits <= 8,
        codes.len() as int % levels(bits) == 0,
    ensures
        off_bucket(codes, bits) >= levels(bits) <==> balanced(codes, bits),
{
    lemma_levels(bits);
    let n = levels(bits);
    let p = bucket_off_balance(codes, codes.len() as int / n);
    lemma_first_where_holds(n, p);
    if balanced(codes, bits) {
        assert forall|b: int| 0 <= b < n implies !(#[trigger] p(b)) by {
            assert(bucket_count(codes, b) == codes.len() as int / n);
        }
        lemma_first_where(n, p, n);
    } else if off_bucket(codes, bits) >= n {
        assert forall|b: int| 0 <= b < n implies #[trigger] bucket_count(codes, b)
            == codes.len() as int / n by {
            assert(!p(b));
        }
    }
}

/// The first bucket that is not equally occupied, and its occupancy.
fn find_off_bucket(codes: &[u8], bits: u8) -> (r: (usize, usize))
    requires
        1 <= bits <= 8,
        is_code(codes@, codes.len() as int, levels(bits)),
    ensures
        r.0 == off_bucket(codes@, bits),
        r.0 < levels(bits) ==> r.1 == bucket_count(codes@, r.0 as int),
{
    let n: usize = n_levels(bits) as usize;
    let per: usize = codes.len() / n;
    let mut hist: Vec<usize> = vec![0usize; n];
    let mut i: usize = 0;
    while i < codes.len()
        invariant
            n == levels(bits),
            is_code(codes@, codes.len() as int, levels(bits)),
            i <= codes.len(),
            hist.len() == n,
            forall|b: int|
                0 <= b < n ==> #[trigger] hist[b] == count_eq(i as int, code_fn(codes@), b),
            forall|b: int| 0 <= b < n ==> #[trigger] hist[b] <= i,
        decreases codes.len() - i,
    {
        let b: usize = codes[i] as usize;
        hist[b] = hist[b] + 1;
        i = i + 1;
    }
    let ghost p = bucket_off_balance(codes@, per as int);
    let mut b: usize = 0;
    while b < n
        invariant
            b <= n,
            n == levels(bits),
            per == codes.len() as int / levels(bits),
            hist.len() == n,
            p == bucket_off_balance(codes@, per as int),
            forall|t: int| 0 <= t < n ==> #[trigger] hist[t] == bucket_count(codes@, t),
            forall|t: int| 0 <= t < b ==> !(#[trigger] p(t)),
        decreases n - b,
    {
        assert(p(b as int) <==> hist[b as int] != per);
        if hist[b] != per {
            proof {
                lemma_first_where(n as int, p, b as int);
            }
            return (b, hist[b]);
        }
        b = b + 1;
    }
    proof {
        lemma_first_where(n as int, p, n as int);
    }
    (n, 0)
}

/// The codes of document `i` of a packed buffer.
fn unpack_row(packed: &[u8], dim: usize, bits: u8, n: usize, i: usize) -> (codes: Vec<u8>)
    requires
        valid_codes(dim as int, bits),
        packed.len() == n * packed_len(dim as int, bits),
        i < n,
    ensures
        codes@ == unpacked(row(packed@, packed_len(dim as int, bits), i as int), dim as int, bits),
        is_code(codes@, dim as int, levels(bits)),
{
    let bpv: usize = rankquant_bytes_per_vec(dim, bits);
    proof {
        lemma_row_inside(i as int, n as int, bpv as int);
        assert(packed.len() == n * bpv);
    }
    unpack_buckets(slice_subrange(packed, i * bpv, i * bpv + bpv), dim, bits)
}

/// Check that every document of a packed buffer is balanced; the rows are
/// checked on the thread pool and the lowest bad one is reported.
fn check_composition(packed: &[u8], dim: usize, bits: u8, n: usize) -> (r: Result<(), FormatError>)
    requires
        valid_codes(dim as int, bits),
        packed.len() == n * packed_len(dim as int, bits),
    ensures
        match r {
            Ok(()) => composition_error(packed@, dim as int, bits, n as int) is None,
            Err(e) => composition_error(packed@, dim as int, bits, n as int) == Some(e),
        },
{
    let n_buckets: usize = n_levels(bits) as usize;
    let is_bad = |i: &usize| -> (bad: bool)
        requires
            *i < n,
        ensures
            bad == uneven(packed@, dim as int, bits)(*i as int),
        {
            let codes: Vec<u8> = unpack_row(packed, dim, bits, n, *i);
            let (bucket, _count): (usize, usize) = find_off_bucket(codes.as_slice(), bits);
            bucket < n_buckets
        };
    let found: Option<usize> = par_find_first(n, is_bad);
    let ghost p = uneven(packed@, dim as int, bits);
    match found {
        Some(i) => {
            let codes: Vec<u8> = unpack_row(packed, dim, bits, n, i);
            let (bucket, count): (usize, usize) = find_off_bucket(codes.as_slice(), bits);
            proof {
                assert forall|j: int| 0 <= j < i implies !(#[trigger] p(j)) by {
                    assert(is_bad.ensures((&(j as usize),), false));
                }
                lemma_first_where(n as int, p, i as int);
            }
            Err(FormatError::UnevenRow { row: i, bucket, count, expected: dim / n_buckets })
        },
        None => {
            proof {
                assert forall|j: int| 0 <= j < n implies !(#[trigger] p(j)) by {
                    assert(is_bad.ensures((&(j as usize),), false));
                }
                lemma_first_where(n as int, p, n as int);
            }
            Ok(())
        },
    }
}

impl RankQuant {
    /// The bytes of the index file. Eight-bit codes are not stored.
    pub fn write_to(&self) -> (r: Result<Vec<u8>, FormatError>)
        requires
            self.wf(),
        ensures
            match r {
                Ok(bytes) => self.width() != 8 && size_error(
                    PersistedFormat::RankQuant,
                    self.bytes().len() as int,
                ) is None && bytes@ == rankquant_file(
                    self.width(),
                    self.dimension(),
                    self.count(),
                    self.bytes(),
                ),
                Err(e) => if self.width() == 8 {
                    e == FormatError::WidthNotPersisted
                } else {
                    size_error(PersistedFormat::RankQuant, self.bytes().len() as int) == Some(e)
                },
            },
    {
        if self.bits == 8 {
            return Err(FormatError::WidthNotPersisted);
        }
        assert(self.dim * self.bits <= 65535 * 4) by (nonlinear_arith)
            requires
                self.dim <= 65535,
                self.bits <= 4,
        ;
        match checked_payload(PersistedFormat::RankQuant, self.bits, self.dim, self.n_vectors) {
            Ok(_) => {},
            Err(e) => {
                return Err(e);
            },
        }
        let mut out: Vec<u8> = write_header(
            PersistedFormat::RankQuant,
            self.bits,
            self.dim,
            0,
            self.n_vectors,
        );
        out.extend_from_slice(self.packed.as_slice());
        assert(out@ =~= rankquant_file(self.bits, self.dim as int, self.count(), self.bytes()));
        Ok(out)
    }

    /// Read an index from the bytes of its file.
    pub fn load_from_bytes(bytes: &[u8]) -> (r: Result<Self, FormatError>)
        ensures
            match r {
                Ok(index) => {
                    let h = header_of(PersistedFormat::RankQuant, bytes@);
                    &&& rankquant_file_error(bytes@) is None
                    &&& index.wf()
                    &&& index.dimension() == h.dim
                    &&& index.width() == h.bits
                    &&& index.count() == h.n_vectors
                    &&& index.bytes() == payload_of(PersistedFormat::RankQuant, bytes@)
                },
                Err(e) => rankquant_file_error(bytes@) == Some(e),
            },
    {
        let h: Header = match open_file(PersistedFormat::RankQuant, bytes) {
            Ok(h) => h,
            Err(e) => {
                return Err(e);
            },
        };
        proof {
            lemma_accepted_header(PersistedFormat::RankQuant, bytes@);
            lemma_levels(h.bits);
        }
        let payload: &[u8] = slice_subrange(bytes, 14, bytes.len());
        assert(payload@ =~= payload_of(PersistedFormat::RankQuant, bytes@));
        match check_composition(payload, h.dim, h.bits, h.n_vectors) {
            Ok(()) => {},
            Err(e) => {
                return Err(e);
            },
        }
        let mut packed: Vec<u8> = Vec::with_capacity(payload.len());
        packed.extend_from_slice(payload);
        assert(packed@ =~= payload@);
        let capability: RankQuantCapability = Self::capability_for(h.dim, h.bits);
        let index = RankQuant {
            dim: h.dim,
            bits: h.bits,
            n_vectors: h.n_vectors,
            capability,
            packed,
        };
        proof {
            let p = uneven(payload@, h.dim as int, h.bits);
            lemma_first_where_holds(h.n_vectors as int, p);
            assert forall|i: int| 0 <= i < index.count() implies balanced(
                #[trigger] index.docs()[i],
                h.bits,
            ) by {
                assert(!p(i));
                lemma_off_bucket(index.docs()[i], h.bits);
            }
        }
        Ok(index)
    }
}

/// What `write_to` writes, `load_from_bytes` reads back: the file is accepted,
/// with the parameters, the document count and the packed codes that were
/// written.
pub proof fn lemma_rankquant_write_then_load(index: RankQuant)
    requires
        index.wf(),
        index.width() != 8,
        size_error(PersistedFormat::RankQuant, index.bytes().len() as int) is None,
    ensures
        ({
            let file = rankquant_file(
                index.width(),
                index.dimension(),
                index.count(),
                index.bytes(),
            );
            let h = header_of(PersistedFormat::RankQuant, file);
            &&& rankquant_file_error(file) is None
            &&& h.dim == index.dimension()
            &&& h.bits == index.width()
            &&& h.n_vectors == index.count()
            &&& payload_of(PersistedFormat::RankQuant, file) == index.bytes()
        }),
{
    let dim = index.dimension();
    let bits = index.width();
    let n = index.count();
    let h = Header { bits, dim: dim as usize, n_top: 0, n_vectors: n as usize };
    lemma_levels(bits);
    lemma_header_round_trip(PersistedFormat::RankQuant, h, index.bytes());
    let p = uneven(index.bytes(), dim, bits);
    assert forall|i: int| 0 <= i < n implies !(#[trigger] p(i)) by {
        assert(balanced(index.docs()[i], bits));
        lemma_off_bucket(index.docs()[i], bits);
    }
    lemma_first_where(n, p, n);
}

/// The centred product of two balanced code vectors is bounded by their common
/// squared norm, which it reaches on a vector with itself: dividing by that
/// norm gives a cosine.
pub proof fn lemma_code_product_bounded(q: Seq<u8>, d: Seq<u8>, bits: u8)
    requires
        1 <= bits <= 8,
        q.len() == d.len(),
        q.len() as int % levels(bits) == 0,
        is_code(q, q.len() as int, levels(bits)),
        is_code(d, q.len() as int, levels(bits)),
        balanced(q, bits),
        balanced(d, bits),
    ensures
        -(q.len() * (levels(bits) * levels(bits) - 1)) <= 3 * code_product(q, d, levels(bits))
            <= q.len() * (levels(bits) * levels(bits) - 1),
        q == d ==> 3 * code_product(q, d, levels(bits)) == q.len() * (levels(bits) * levels(bits)
            - 1),
{
    let m = q.len() as int;
    let n = levels(bits);
    lemma_levels(bits);
    lemma_whole_rows(m, n);
    let f = code_term(q, d, n);
    let a = compose(centred_square(n - 1), code_fn(q));
    let b = compose(centred_square(n - 1), code_fn(d));
    assert(m == n * (m / n)) by (nonlinear_arith)
        requires
            (m / n) * n == m,
    ;
    lemma_bucket_norm_is_analytic(q, n, m / n);
    lemma_bucket_norm_is_analytic(d, n, m / n);
    let twice = |j: int| 2 * f(j);
    let minus = |j: int| -2 * f(j);
    let sum = |j: int| a(j) + b(j);
    lemma_sum_add(m, a, b, sum);
    lemma_sum_scale(m, 2, f, twice);
    lemma_sum_scale(m, -2, f, minus);
    assert forall|j: int| 0 <= j < m implies #[trigger] twice(j) <= sum(j) && minus(j) <= sum(
        j,
    ) by {
        let x = 2 * q[j] - (n - 1);
        let y = 2 * d[j] - (n - 1);
        assert(2 * (x * y) <= x * x + y * y && -2 * (x * y) <= x * x + y * y) by (nonlinear_arith);
    }
    lemma_sum_le(m, twice, sum);
    assert forall|j: int| 0 <= j < m implies #[trigger] minus(j) <= sum(j) by {
        assert(twice(j) <= sum(j));
    }
    lemma_sum_le(m, minus, sum);
    if q == d {
        lemma_sum_ext(m, f, a);
    }
}

/// Vectors are encoded one by one: adding two batches one after the other
/// stores the codes that adding them together stores.
pub proof fn lemma_batches_encode_alike(
    a: Seq<F32Bits>,
    b: Seq<F32Bits>,
    dim: int,
    bits: u8,
)
    requires
        0 < dim,
        a.len() as int % dim == 0,
        b.len() as int % dim == 0,
    ensures
        corpus_codes(a + b, dim, bits) == corpus_codes(a, dim, bits) + corpus_codes(b, dim, bits),
{
    let m = a.len() as int / dim;
    let n = b.len() as int / dim;
    lemma_whole_rows(a.len() as int, dim);
    lemma_whole_rows(b.len() as int, dim);
    assert((m + n) * dim == m * dim + n * dim) by (nonlinear_arith);
    lemma_fundamental_div_mod_converse((a + b).len() as int, dim, m + n, 0);
    let all = corpus_codes(a + b, dim, bits);
    let want = corpus_codes(a, dim, bits) + corpus_codes(b, dim, bits);
    assert forall|i: int| 0 <= i < m + n implies all[i] == want[i] by {
        if i < m {
            lemma_row_inside(i, m, dim);
            assert(row(a + b, dim, i) =~= row(a, dim, i));
        } else {
            let t = i - m;
            lemma_row_inside(t, n, dim);
            assert(i * dim == m * dim + t * dim) by (nonlinear_arith)
                requires
                    i == m + t,
            ;
            assert(row(a + b, dim, i) =~= row(b, dim, t));
        }
    }
    assert(all =~= want);
}

/// On this query and these documents the two functions give the same result
/// whenever they are asked.
pub open spec fn repeatable<P, G: Fn(&[F32Bits]) -> P, S: Fn(&P, &[u8]) -> F32Bits>(
    prepare: G,
    score: S,
    query: Seq<F32Bits>,
    docs: Seq<Seq<u8>>,
) -> bool {
    &&& forall|p: P, r: P| #[trigger]
        prepared(prepare, query, p) && #[trigger] prepared(prepare, query, r) ==> p == r
    &&& forall|p: P, i: int, s: F32Bits, t: F32Bits|
        #![trigger scored(score, p, docs[i], s), scored(score, p, docs[i], t)]
        prepared(prepare, query, p) && 0 <= i < docs.len() && scored(score, p, docs[i], s)
            && scored(score, p, docs[i], t) ==> s == t
}

/// No score of this query against these documents is a positive NaN.
pub open spec fn scores_orderly<P, G: Fn(&[F32Bits]) -> P, S: Fn(&P, &[u8]) -> F32Bits>(
    prepare: G,
    score: S,
    query: Seq<F32Bits>,
    docs: Seq<Seq<u8>>,
) -> bool {
    forall|p: P, i: int, s: F32Bits|
        prepared(prepare, query, p) && 0 <= i < docs.len() && #[trigger] scored(
            score,
            p,
            docs[i],
            s,
        ) ==> s.total_key() <= INFINITY_MAGNITUDE
}

/// A subset search over all documents, listed in any order and each once,
/// reports entry for entry what the full search reports.
pub proof fn lemma_full_subset_is_full_search<
    P,
    G: Fn(&[F32Bits]) -> P,
    S: Fn(&P, &[u8]) -> F32Bits,
>(
    prepare: G,
    score: S,
    query: Seq<F32Bits>,
    docs: Seq<Seq<u8>>,
    candidates: Seq<u32>,
    k: int,
    full: (Seq<F32Bits>, Seq<i64>),
    sub: (Seq<F32Bits>, Seq<i64>),
)
    requires
        docs.len() <= MAX_VECTORS,
        repeatable(prepare, score, query, docs),
        scores_orderly(prepare, score, query, docs),
        candidates.len() == docs.len(),
        is_permutation(id_ints(candidates)),
        asymmetric_row(prepare, score, query, docs, k, full.0, full.1),
        full.1.len() == full.0.len(),
        subset_row(prepare, score, query, docs, candidates, k, sub.0, sub.1),
    ensures
        sub == full,
{
    let (p, scores) = choose|p: P, scores: Seq<F32Bits>|
        prepared(prepare, query, p) && #[trigger] scores_of(score, p, docs, scores)
            && #[trigger] best_of(scores, k, full.0, full.1);
    let (r, sub_scores) = choose|r: P, sub_scores: Seq<F32Bits>|
        prepared(prepare, query, r) && #[trigger] scores_of(
            score,
            r,
            picked_docs(docs, candidates),
            sub_scores,
        ) && #[trigger] best_of_subset(sub_scores, candidates, k, sub.0, sub.1);
    assert(p == r);
    assert forall|i: int| 0 <= i < candidates.len() implies #[trigger] sub_scores[i]
        == scores[candidates[i] as int] by {
        let c = id_ints(candidates)[i];
        assert(0 <= c < docs.len());
        assert(scored(score, p, picked_docs(docs, candidates)[i], sub_scores[i]));
        assert(scored(score, p, docs[c], sub_scores[i]));
        assert(scored(score, p, docs[c], scores[c]));
    }
    assert(orderly(scores)) by {
        assert forall|i: int| 0 <= i < scores.len() implies (#[trigger] scores[i]).total_key()
            <= INFINITY_MAGNITUDE by {
            assert(scored(score, p, docs[i], scores[i]));
        }
    }
    lemma_full_subset_matches_scan(scores, candidates, sub_scores, k, full, sub);
}

/// A two-stage search whose first stage proposes every document reports entry
/// for entry what the full search reports.
pub proof fn lemma_uncut_probe_is_full_search<
    P,
    G: Fn(&[F32Bits]) -> P,
    S: Fn(&P, &[u8]) -> F32Bits,
>(
    prepare: G,
    score: S,
    index: RankQuant,
    sign_probe: SignBitmap,
    query: Seq<F32Bits>,
    m: int,
    k: int,
    full: (Seq<F32Bits>, Seq<i64>),
    found: (Seq<F32Bits>, Seq<i64>),
)
    requires
        index.wf(),
        index.count() <= m,
        repeatable(prepare, score, query, index.docs()),
        scores_orderly(prepare, score, query, index.docs()),
        asymmetric_row(prepare, score, query, index.docs(), k, full.0, full.1),
        full.1.len() == full.0.len(),
        probed_row(prepare, score, index, sign_probe, query, m, k, found.0, found.1),
    ensures
        found == full,
{
    let key = hamming_key(sign_probe.docs(), sign_flags(query));
    let candidates = choose|candidates: Seq<u32>|
        lists_smallest(index.count(), m, key, candidates) && #[trigger] subset_row(
            prepare,
            score,
            query,
            index.docs(),
            candidates,
            k,
            found.0,
            found.1,
        );
    lemma_uncut_candidates_permute(index.count(), m, key, candidates);
    lemma_full_subset_is_full_search(
        prepare,
        score,
        query,
        index.docs(),
        candidates,
        k,
        full,
        found,
    );
}

} // verus!
