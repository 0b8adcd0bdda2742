//! Constant-weight bitmap overlap and its finite uniform null.

use vstd::prelude::*;
use vstd::set_lib::{lemma_map_size, lemma_set_disjoint_lens};

use crate::binomial::{
    binom, binomial, lemma_binom_absorb, lemma_binom_bounds, lemma_vandermonde, vandermonde_term,
};
use crate::bits::{
    both_set, count_both, lemma_row_determined, pack_bits, row_bit, row_flags, words_for,
};
use crate::bucket_code::BucketCode;
use crate::counting::{
    count_where, lemma_count_all, lemma_count_bounds, lemma_count_disjoint, lemma_count_eq_where,
    lemma_count_ext, lemma_count_mono, lemma_count_none, lemma_count_split, lemma_sum_ext,
    lemma_sum_le, lemma_sum_prefix, lemma_sum_scale, lemma_sum_split, lemma_sum_zero, shifted,
    shifted_term, sum_to,
};
use crate::rank::{bucket_count, code_fn};

verus! {

/// A row of flags as a function of the position.
pub open spec fn flag_fn(flags: Seq<bool>) -> spec_fn(int) -> bool {
    |i: int| flags[i]
}

/// The positions set in both rows of flags.
pub open spec fn both_flags(a: Seq<bool>, b: Seq<bool>) -> spec_fn(int) -> bool {
    |i: int| a[i] && b[i]
}

/// The number of set flags.
pub open spec fn weight_of(flags: Seq<bool>) -> int {
    count_where(flags.len() as int, flag_fn(flags))
}

/// The number of positions set in both rows.
pub open spec fn overlap_of(a: Seq<bool>, b: Seq<bool>) -> int {
    count_where(a.len() as int, both_flags(a, b))
}

/// Membership of the inclusive bucket range `start..=end`, coordinate by
/// coordinate.
pub open spec fn range_flags(codes: Seq<u8>, start: int, end: int) -> Seq<bool> {
    Seq::new(codes.len(), |i: int| start <= codes[i] <= end)
}

/// A balanced code puts `per` coordinates in each bucket of a range.
proof fn lemma_range_weight(codes: Seq<u8>, start: int, end: int, n: int, per: int)
    requires
        0 <= start,
        start <= end + 1,
        end < n,
        crate::rank::constant_composition(codes, n, per),
    ensures
        weight_of(range_flags(codes, start, end)) == (end - start + 1) * per,
    decreases end - start + 1,
{
    let d = codes.len() as int;
    let r = flag_fn(range_flags(codes, start, end));
    if end < start {
        lemma_count_none(d, r);
        assert((end - start + 1) * per == 0) by (nonlinear_arith)
            requires
                end - start + 1 == 0,
        ;
    } else {
        lemma_range_weight(codes, start, end - 1, n, per);
        let p = flag_fn(range_flags(codes, start, end - 1));
        let q = |i: int| codes[i] == end;
        lemma_count_disjoint(d, p, q, r);
        lemma_count_eq_where(d, code_fn(codes), end, q);
        assert(bucket_count(codes, end) == per);
        assert((end - start + 1) * per == (end - 1 - start + 1) * per + per) by (nonlinear_arith);
    }
}

/// Count the set flags.
fn count_set(flags: &[bool]) -> (n: usize)
    ensures
        n == weight_of(flags@),
        n <= flags.len(),
{
    let mut n: usize = 0;
    let mut i: usize = 0;
    while i < flags.len()
        invariant
            i <= flags.len(),
            n <= i,
            n == count_where(i as int, flag_fn(flags@)),
        decreases flags.len() - i,
    {
        if flags[i] {
            n = n + 1;
        }
        i = i + 1;
    }
    n
}

/// Constant-weight top-bucket bitmap of a bucket code: bit `j` is set exactly
/// when coordinate `j` lies in the top bucket.
#[derive(Clone, Debug, PartialEq, Eq)]
pub struct ConstantWeightBitmap {
    dim: usize,
    weight: usize,
    bits: Vec<bool>,
}

impl ConstantWeightBitmap {
    /// The membership flags.
    pub closed spec fn flags(&self) -> Seq<bool> {
        self.bits@
    }

    /// The stored dimension and weight are those of the flags.
    pub closed spec fn wf(&self) -> bool {
        &&& self.dim == self.bits.len()
        &&& self.weight == weight_of(self.bits@)
    }

    /// Build the top-bucket membership bitmap of `code`.
    pub fn from_top_bucket(code: &BucketCode) -> (b: Self)
        requires
            code.wf(),
        ensures
            b.wf(),
            b.flags() == range_flags(
                code.ids(),
                code.comp().bucket_total() - 1,
                code.comp().bucket_total() - 1,
            ),
            weight_of(b.flags()) == code.comp().occupancy(),
    {
        let bits: Vec<bool> = code.top_bitmap();
        let weight: usize = count_set(bits.as_slice());
        proof {
            let top = code.comp().bucket_total() - 1;
            assert(bits@ =~= range_flags(code.ids(), top, top));
            lemma_range_weight(
                code.ids(),
                top,
                top,
                code.comp().bucket_total() as int,
                code.comp().occupancy() as int,
            );
            assert((top - top + 1) * code.comp().occupancy() == code.comp().occupancy());
        }
        ConstantWeightBitmap { dim: bits.len(), weight, bits }
    }

    /// The number of positions.
    pub fn dim(&self) -> (d: usize)
        requires
            self.wf(),
        ensures
            d == self.flags().len(),
    {
        self.dim
    }

    /// The number of set bits.
    pub fn weight(&self) -> (w: usize)
        requires
            self.wf(),
        ensures
            w == weight_of(self.flags()),
    {
        self.weight
    }

    /// The membership flags.
    pub fn bits(&self) -> (b: &[bool])
        ensures
            b@ == self.flags(),
    {
        self.bits.as_slice()
    }

    /// Count of positions set in both bitmaps.
    pub fn overlap(&self, other: &Self) -> (n: usize)
        requires
            self.wf(),
            other.wf(),
            self.flags().len() == other.flags().len(),
        ensures
            n == overlap_of(self.flags(), other.flags()),
    {
        let mut n: usize = 0;
        let mut i: usize = 0;
        while i < self.bits.len()
            invariant
                i <= self.bits.len(),
                self.bits.len() == other.bits.len(),
                n <= i,
                n == count_where(i as int, both_flags(self.bits@, other.bits@)),
            decreases self.bits.len() - i,
        {
            if self.bits[i] && other.bits[i] {
                n = n + 1;
            }
            i = i + 1;
        }
        n
    }
}

/// Constant-weight bitmap packed into 64-bit words.
#[derive(Clone, Debug, PartialEq, Eq)]
pub struct PackedConstantWeightBitmap {
    dim: usize,
    weight: usize,
    words: Vec<u64>,
}

impl PackedConstantWeightBitmap {
    /// The number of positions.
    pub closed spec fn dimension(&self) -> usize {
        self.dim
    }

    /// The packed words.
    pub closed spec fn row(&self) -> Seq<u64> {
        self.words@
    }

    /// The membership flags.
    pub open spec fn flags(&self) -> Seq<bool> {
        row_flags(self.row(), self.dimension() as int)
    }

    /// The words hold exactly the positions, and the stored weight is theirs.
    pub closed spec fn wf(&self) -> bool {
        &&& self.words.len() == words_for(self.dim as int)
        &&& forall|j: int|
            self.dim <= j < 64 * self.words.len() ==> !(#[trigger] row_bit(self.words@, j))
        &&& self.weight == weight_of(row_flags(self.words@, self.dim as int))
    }

    /// What well-formedness gives to other modules: the words are as many as
    /// the positions need, and the bits past the last position are clear.
    pub proof fn lemma_wf(&self)
        requires
            self.wf(),
        ensures
            self.row().len() == words_for(self.dimension() as int),
            forall|j: int|
                self.dimension() <= j < 64 * self.row().len() ==> !(#[trigger] row_bit(
                    self.row(),
                    j,
                )),
    {
    }

    /// Pack the membership of the inclusive bucket range
    /// `start_bucket..=end_bucket`.
    pub fn from_bucket_range(code: &BucketCode, start_bucket: usize, end_bucket: usize) -> (b: Self)
        requires
            code.wf(),
            start_bucket <= end_bucket,
            end_bucket < code.comp().bucket_total(),
        ensures
            b.wf(),
            b.dimension() == code.comp().dimension(),
            b.flags() == range_flags(code.ids(), start_bucket as int, end_bucket as int),
            weight_of(b.flags()) == (end_bucket - start_bucket + 1) * code.comp().occupancy(),
    {
        let codes: &[u8] = code.codes();
        let dim: usize = codes.len();
        let mut flags: Vec<bool> = Vec::with_capacity(dim);
        let mut i: usize = 0;
        while i < dim
            invariant
                dim == codes.len(),
                i <= dim,
                flags.len() == i,
                forall|j: int|
                    0 <= j < i ==> #[trigger] flags[j] == (start_bucket <= codes[j] <= end_bucket),
            decreases dim - i,
        {
            let bucket: usize = codes[i] as usize;
            flags.push(start_bucket <= bucket && bucket <= end_bucket);
            i = i + 1;
        }
        let words: Vec<u64> = pack_bits(flags.as_slice());
        let weight: usize = count_set(flags.as_slice());
        proof {
            assert(flags@ =~= range_flags(code.ids(), start_bucket as int, end_bucket as int));
            lemma_range_weight(
                code.ids(),
                start_bucket as int,
                end_bucket as int,
                code.comp().bucket_total() as int,
                code.comp().occupancy() as int,
            );
        }
        PackedConstantWeightBitmap { dim, weight, words }
    }

    /// Pack the membership of the top `width` buckets.
    pub fn from_top_group(code: &BucketCode, width: usize) -> (b: Self)
        requires
            code.wf(),
            0 < width <= code.comp().bucket_total(),
        ensures
            b.wf(),
            b.dimension() == code.comp().dimension(),
            b.flags() == range_flags(
                code.ids(),
                code.comp().bucket_total() - width,
                code.comp().bucket_total() - 1,
            ),
            weight_of(b.flags()) == width * code.comp().occupancy(),
    {
        let buckets: usize = code.spec().buckets();
        PackedConstantWeightBitmap::from_bucket_range(code, buckets - width, buckets - 1)
    }

    /// The number of positions.
    pub fn dim(&self) -> (d: usize)
        ensures
            d == self.dimension(),
    {
        self.dim
    }

    /// The number of set bits.
    pub fn weight(&self) -> (w: usize)
        requires
            self.wf(),
        ensures
            w == weight_of(self.flags()),
    {
        self.weight
    }

    /// The packed words.
    pub fn words(&self) -> (w: &[u64])
        ensures
            w@ == self.row(),
    {
        self.words.as_slice()
    }

    /// Count of positions set in both bitmaps, by word-level popcount.
    pub fn overlap(&self, other: &Self) -> (n: usize)
        requires
            self.wf(),
            other.wf(),
            self.dimension() == other.dimension(),
        ensures
            n == overlap_of(self.flags(), other.flags()),
    {
        proof {
            let d = self.dim as int;
            let m = 64 * self.words.len();
            let p = both_set(self.words@, other.words@);
            lemma_count_split(d, m - d, p);
            assert forall|t: int| 0 <= t < m - d implies !(#[trigger] shifted(p, d)(t)) by {
                assert(!row_bit(self.words@, d + t));
            }
            lemma_count_none(m - d, shifted(p, d));
            lemma_count_ext(d, p, both_flags(self.flags(), other.flags()));
            lemma_count_bounds(d, p);
        }
        count_both(self.words.as_slice(), other.words.as_slice())
    }
}

/// Overlap profile across top-group widths: for each width, how many
/// coordinates lie among the top `width` buckets of both codes.
pub fn top_group_overlap_vector(lhs: &BucketCode, rhs: &BucketCode, widths: &[usize]) -> (out: Vec<
    usize,
>)
    requires
        lhs.wf(),
        rhs.wf(),
        widths.len() > 0 ==> lhs.comp().dimension() == rhs.comp().dimension(),
        forall|i: int|
            0 <= i < widths.len() ==> 0 < #[trigger] widths[i] <= lhs.comp().bucket_total()
                && widths[i] <= rhs.comp().bucket_total(),
    ensures
        out.len() == widths.len(),
        forall|i: int|
            0 <= i < out.len() ==> #[trigger] out[i] == overlap_of(
                range_flags(
                    lhs.ids(),
                    lhs.comp().bucket_total() - widths[i],
                    lhs.comp().bucket_total() - 1,
                ),
                range_flags(
                    rhs.ids(),
                    rhs.comp().bucket_total() - widths[i],
                    rhs.comp().bucket_total() - 1,
                ),
            ),
{
    let mut out: Vec<usize> = Vec::with_capacity(widths.len());
    let mut i: usize = 0;
    while i < widths.len()
        invariant
            lhs.wf(),
            rhs.wf(),
            widths.len() > 0 ==> lhs.comp().dimension() == rhs.comp().dimension(),
            forall|j: int|
                0 <= j < widths.len() ==> 0 < #[trigger] widths[j] <= lhs.comp().bucket_total()
                    && widths[j] <= rhs.comp().bucket_total(),
            i <= widths.len(),
            out.len() == i,
            forall|j: int|
                0 <= j < i ==> #[trigger] out[j] == overlap_of(
                    range_flags(
                        lhs.ids(),
                        lhs.comp().bucket_total() - widths[j],
                        lhs.comp().bucket_total() - 1,
                    ),
                    range_flags(
                        rhs.ids(),
                        rhs.comp().bucket_total() - widths[j],
                        rhs.comp().bucket_total() - 1,
                    ),
                ),
        decreases widths.len() - i,
    {
        let a: PackedConstantWeightBitmap = PackedConstantWeightBitmap::from_top_group(
            lhs,
            widths[i],
        );
        let b: PackedConstantWeightBitmap = PackedConstantWeightBitmap::from_top_group(
            rhs,
            widths[i],
        );
        out.push(a.overlap(&b));
        i = i + 1;
    }
    out
}

/// Packed bitmaps with the same positions set have the same words.
pub proof fn lemma_packed_words_determined(
    a: PackedConstantWeightBitmap,
    b: PackedConstantWeightBitmap,
)
    requires
        a.wf(),
        b.wf(),
        a.dimension() == b.dimension(),
        a.flags() == b.flags(),
    ensures
        a.row() == b.row(),
{
    a.lemma_wf();
    b.lemma_wf();
    let d = a.dimension() as int;
    assert forall|j: int| 0 <= j < 64 * a.row().len() implies #[trigger] row_bit(a.row(), j)
        == row_bit(b.row(), j) by {
        if j < d {
            assert(a.flags()[j] == row_bit(a.row(), j));
            assert(b.flags()[j] == row_bit(b.row(), j));
        } else {
            assert(!row_bit(a.row(), j));
            assert(!row_bit(b.row(), j));
        }
    }
    lemma_row_determined(a.row(), b.row());
}

/// The top group of `width` buckets is the range of those buckets: the two
/// constructors give the same bitmap, word for word. A group of one bucket marks
/// the top bucket, and the group of all buckets marks every coordinate.
pub proof fn lemma_top_group_is_bucket_range(
    code: BucketCode,
    width: int,
    group: PackedConstantWeightBitmap,
    range: PackedConstantWeightBitmap,
)
    requires
        code.wf(),
        0 < width <= code.comp().bucket_total(),
        group.wf(),
        group.dimension() == code.comp().dimension(),
        group.flags() == range_flags(
            code.ids(),
            code.comp().bucket_total() - width,
            code.comp().bucket_total() - 1,
        ),
        range.wf(),
        range.dimension() == code.comp().dimension(),
        range.flags() == range_flags(
            code.ids(),
            code.comp().bucket_total() - width,
            code.comp().bucket_total() - 1,
        ),
    ensures
        group.dimension() == range.dimension(),
        group.row() == range.row(),
        weight_of(group.flags()) == weight_of(range.flags()),
        width == 1 ==> forall|j: int|
            0 <= j < group.dimension() ==> #[trigger] row_bit(group.row(), j) == (code.ids()[j]
                == code.comp().bucket_total() - 1),
        width == code.comp().bucket_total() ==> weight_of(group.flags()) == group.dimension(),
{
    lemma_packed_words_determined(group, range);
    let d = group.dimension() as int;
    let n = code.comp().bucket_total() as int;
    if width == 1 {
        assert forall|j: int| 0 <= j < d implies #[trigger] row_bit(group.row(), j) == (
        code.ids()[j] == n - 1) by {
            assert(group.flags()[j] == range_flags(code.ids(), n - 1, n - 1)[j]);
            assert(code.ids()[j] < n);
        }
    }
    if width == n {
        assert forall|j: int| 0 <= j < d implies #[trigger] flag_fn(group.flags())(j) by {
            assert(group.flags()[j] == range_flags(code.ids(), 0, n - 1)[j]);
            assert(code.ids()[j] < n);
        }
        lemma_count_all(d, flag_fn(group.flags()));
    }
}

/// The overlap of two patterns lies between zero and the weight of either, and
/// a pattern overlaps itself in its weight.
pub proof fn lemma_overlap_bounded(a: Seq<bool>, b: Seq<bool>)
    requires
        a.len() == b.len(),
    ensures
        0 <= overlap_of(a, b) <= weight_of(a),
        overlap_of(a, b) <= weight_of(b),
        overlap_of(a, a) == weight_of(a),
        overlap_of(a, b) == overlap_of(b, a),
{
    let n = a.len() as int;
    lemma_count_bounds(n, both_flags(a, b));
    lemma_count_mono(n, both_flags(a, b), flag_fn(a));
    lemma_count_mono(n, both_flags(a, b), flag_fn(b));
    lemma_count_ext(n, both_flags(a, a), flag_fn(a));
    lemma_count_ext(n, both_flags(a, b), both_flags(b, a));
}

/// The top groups of width one overlap, packed, in as many positions as the
/// plain top-bucket bitmaps of the same codes.
pub proof fn lemma_packed_overlap_is_plain(
    q: BucketCode,
    d: BucketCode,
    packed: (PackedConstantWeightBitmap, PackedConstantWeightBitmap),
    plain: (ConstantWeightBitmap, ConstantWeightBitmap),
)
    requires
        packed.0.flags() == range_flags(
            q.ids(),
            q.comp().bucket_total() - 1,
            q.comp().bucket_total() - 1,
        ),
        packed.1.flags() == range_flags(
            d.ids(),
            d.comp().bucket_total() - 1,
            d.comp().bucket_total() - 1,
        ),
        plain.0.flags() == range_flags(
            q.ids(),
            q.comp().bucket_total() - 1,
            q.comp().bucket_total() - 1,
        ),
        plain.1.flags() == range_flags(
            d.ids(),
            d.comp().bucket_total() - 1,
            d.comp().bucket_total() - 1,
        ),
    ensures
        overlap_of(packed.0.flags(), packed.1.flags()) == overlap_of(
            plain.0.flags(),
            plain.1.flags(),
        ),
{
}

/// The overlap of the top groups of `width` buckets of two codes over `n`
/// buckets.
pub open spec fn group_overlap(lhs: Seq<u8>, rhs: Seq<u8>, n: int, width: int) -> int {
    overlap_of(range_flags(lhs, n - width, n - 1), range_flags(rhs, n - width, n - 1))
}

/// Wider top groups overlap in no fewer coordinates, and the groups of all
/// buckets in every coordinate.
pub proof fn lemma_group_overlap_grows(lhs: BucketCode, rhs: BucketCode, v: int, w: int)
    requires
        lhs.wf(),
        rhs.wf(),
        lhs.comp() == rhs.comp(),
        0 < v <= w <= lhs.comp().bucket_total(),
    ensures
        group_overlap(lhs.ids(), rhs.ids(), lhs.comp().bucket_total() as int, v) <= group_overlap(
            lhs.ids(),
            rhs.ids(),
            lhs.comp().bucket_total() as int,
            w,
        ),
        w == lhs.comp().bucket_total() ==> group_overlap(lhs.ids(), rhs.ids(), w, w)
            == lhs.comp().dimension(),
{
    let n = lhs.comp().bucket_total() as int;
    let d = lhs.comp().dimension() as int;
    let wide = both_flags(
        range_flags(lhs.ids(), n - w, n - 1),
        range_flags(rhs.ids(), n - w, n - 1),
    );
    lemma_count_mono(
        d,
        both_flags(range_flags(lhs.ids(), n - v, n - 1), range_flags(rhs.ids(), n - v, n - 1)),
        wide,
    );
    if w == n {
        assert forall|j: int| 0 <= j < d implies #[trigger] wide(j) by {
            assert(lhs.ids()[j] < n);
            assert(rhs.ids()[j] < n);
        }
        lemma_count_all(d, wide);
    }
}

/// The number of weight-`weight` bitmaps that share exactly `overlap`
/// positions with a fixed one: choose which set positions coincide, then place
/// the rest among the clear ones.
pub open spec fn fiber(dim: int, weight: int, overlap: int) -> int {
    if overlap > weight {
        0
    } else {
        binom(weight, overlap) * binom(dim - weight, weight - overlap)
    }
}

/// The fibers at or above a threshold, zero below it.
pub open spec fn tail_term(dim: int, weight: int, threshold: int) -> spec_fn(int) -> int {
    |o: int|
        if o >= threshold {
            fiber(dim, weight, o)
        } else {
            0
        }
}

/// The number of weight-`weight` bitmaps that share at least `threshold`
/// positions with a fixed one.
pub open spec fn tail(dim: int, weight: int, threshold: int) -> int {
    sum_to(weight + 1, tail_term(dim, weight, threshold))
}

/// The uniform distribution over all weight-`weight` bitmaps in `dim`
/// positions.
#[derive(Clone, Debug, PartialEq, Eq)]
pub struct BitmapNull {
    dim: usize,
    weight: usize,
}

impl BitmapNull {
    /// The number of positions.
    pub closed spec fn positions(&self) -> int {
        self.dim as int
    }

    /// The weight of every bitmap.
    pub closed spec fn ones(&self) -> int {
        self.weight as int
    }

    /// The weight fits the positions.
    pub open spec fn wf(&self) -> bool {
        0 <= self.ones() <= self.positions() && 0 < self.positions()
    }

    /// Build the null over weight-`weight` bitmaps in `dim` positions.
    pub fn new(dim: usize, weight: usize) -> (n: Self)
        requires
            dim > 0,
            weight <= dim,
        ensures
            n.wf(),
            n.positions() == dim,
            n.ones() == weight,
    {
        BitmapNull { dim, weight }
    }

    /// The number of positions.
    pub fn dim(&self) -> (d: usize)
        ensures
            d == self.positions(),
    {
        self.dim
    }

    /// The constant bitmap weight.
    pub fn weight(&self) -> (w: usize)
        ensures
            w == self.ones(),
    {
        self.weight
    }

    /// Total number of weight-`weight` bitmaps.
    pub fn space_size(&self) -> (n: u128)
        requires
            self.wf(),
            binom(self.positions(), self.ones()) <= u128::MAX,
        ensures
            n == binom(self.positions(), self.ones()),
    {
        binomial(self.dim, self.weight)
    }

    /// Number of weight-`weight` bitmaps overlapping a fixed one in exactly
    /// `overlap` positions.
    pub fn fiber_count(&self, overlap: usize) -> (n: u128)
        requires
            self.wf(),
            fiber(self.positions(), self.ones(), overlap as int) <= u128::MAX,
        ensures
            n == fiber(self.positions(), self.ones(), overlap as int),
    {
        if overlap > self.weight {
            return 0;
        }
        let outside: usize = self.weight - overlap;
        let clear: usize = self.dim - self.weight;
        let ghost a = binom(self.weight as int, overlap as int);
        let ghost b = binom(clear as int, outside as int);
        proof {
            lemma_binom_bounds(self.weight as int, overlap as int);
            lemma_binom_bounds(clear as int, outside as int);
        }
        if outside > clear {
            assert(a * b == 0) by (nonlinear_arith)
                requires
                    b == 0,
            ;
            return 0;
        }
        assert(a <= a * b && b <= a * b) by (nonlinear_arith)
            requires
                a >= 1,
                b >= 1,
        ;
        binomial(self.weight, overlap) * binomial(clear, outside)
    }

    /// Number of weight-`weight` bitmaps overlapping a fixed one in at least
    /// `threshold` positions.
    pub fn tail_count(&self, threshold: usize) -> (n: u128)
        requires
            self.wf(),
            tail(self.positions(), self.ones(), threshold as int) <= u128::MAX,
        ensures
            n == tail(self.positions(), self.ones(), threshold as int),
    {
        proof {
            lemma_fibers_partition_space(self.dim as int, self.weight as int);
        }
        if threshold == 0 {
            return self.space_size();
        }
        if threshold > self.weight {
            proof {
                lemma_tail_beyond_weight(self.dim as int, self.weight as int, threshold as int);
            }
            return 0;
        }
        let ghost f = tail_term(self.dim as int, self.weight as int, threshold as int);
        let mut acc: u128 = 0;
        let mut o: usize = threshold;
        proof {
            lemma_sum_zero(threshold as int, f);
        }
        while o <= self.weight
            invariant
                self.wf(),
                threshold <= o <= self.weight + 1,
                f == tail_term(self.dim as int, self.weight as int, threshold as int),
                acc == sum_to(o as int, f),
                sum_to(self.weight + 1, f) <= u128::MAX,
            decreases self.weight + 1 - o,
        {
            proof {
                assert forall|t: int| 0 <= t implies #[trigger] f(t) >= 0 by {
                    lemma_fiber_nonnegative(self.dim as int, self.weight as int, t);
                }
                lemma_sum_prefix(o + 1, self.weight + 1, f);
                lemma_sum_prefix(0, o as int, f);
                assert(f(o as int) == fiber(self.dim as int, self.weight as int, o as int));
            }
            acc = acc + self.fiber_count(o);
            if o == self.weight {
                assert(acc == sum_to(self.weight + 1, f));
                return acc;
            }
            o = o + 1;
        }
        acc
    }
}

proof fn lemma_fiber_nonnegative(dim: int, weight: int, o: int)
    ensures
        fiber(dim, weight, o) >= 0,
{
    lemma_binom_bounds(weight, o);
    lemma_binom_bounds(dim - weight, weight - o);
    let a = binom(weight, o);
    let b = binom(dim - weight, weight - o);
    assert(a * b >= 0) by (nonlinear_arith)
        requires
            a >= 0,
            b >= 0,
    ;
}

/// The fibers of the overlap partition the space: the tail from zero on is the
/// whole of it.
pub proof fn lemma_fibers_partition_space(dim: int, weight: int)
    requires
        0 <= weight <= dim,
    ensures
        tail(dim, weight, 0) == binom(dim, weight),
{
    lemma_vandermonde(weight, dim - weight, weight);
    lemma_sum_ext(
        weight + 1,
        tail_term(dim, weight, 0),
        vandermonde_term(weight, dim - weight, weight),
    );
}

/// No two weight-`weight` bitmaps share more than `weight` positions.
pub proof fn lemma_tail_beyond_weight(dim: int, weight: int, threshold: int)
    requires
        0 <= weight < threshold,
    ensures
        tail(dim, weight, threshold) == 0,
{
    lemma_sum_zero(weight + 1, tail_term(dim, weight, threshold));
}

/// Raising the threshold never enlarges the tail.
pub proof fn lemma_tail_monotone(dim: int, weight: int, low: int, high: int)
    requires
        low <= high,
    ensures
        0 <= tail(dim, weight, high) <= tail(dim, weight, low),
{
    let f = tail_term(dim, weight, high);
    let g = tail_term(dim, weight, low);
    assert forall|o: int| 0 <= o < weight + 1 implies #[trigger] f(o) <= g(o) by {
        lemma_fiber_nonnegative(dim, weight, o);
    }
    lemma_sum_le(weight + 1, f, g);
    let zero = |o: int| 0int;
    assert forall|o: int| 0 <= o < weight + 1 implies #[trigger] zero(o) <= f(o) by {
        lemma_fiber_nonnegative(dim, weight, o);
    }
    lemma_sum_le(weight + 1, zero, f);
    lemma_sum_zero(weight + 1, zero);
}

/// The positions that `s` sets outside `f`.
pub open spec fn outside_flags(s: Seq<bool>, f: Seq<bool>) -> spec_fn(int) -> bool {
    |i: int| s[i] && !f[i]
}

/// The positions that `f` leaves clear.
pub open spec fn clear_fn(f: Seq<bool>) -> spec_fn(int) -> bool {
    |i: int| !f[i]
}

/// The bitmaps that set `o` of the positions of `f` and `r` others.
pub open spec fn bitmaps_with(f: Seq<bool>, o: int, r: int) -> Set<Seq<bool>> {
    Set::new(
        |s: Seq<bool>|
            s.len() == f.len() && overlap_of(s, f) == o && count_where(
                s.len() as int,
                outside_flags(s, f),
            ) == r,
    )
}

/// The weight-`weight` bitmaps that share exactly `overlap` positions with `f`.
pub open spec fn overlapping_bitmaps(f: Seq<bool>, weight: int, overlap: int) -> Set<Seq<bool>> {
    Set::new(
        |s: Seq<bool>|
            s.len() == f.len() && weight_of(s) == weight && overlap_of(s, f) == overlap,
    )
}

/// The weight-`weight` bitmaps in `dim` positions.
pub open spec fn bitmaps_of_weight(dim: int, weight: int) -> Set<Seq<bool>> {
    Set::new(|s: Seq<bool>| s.len() == dim && weight_of(s) == weight)
}

/// Appending a position to a bitmap and to `f` moves the two counts by what
/// the new position contributes.
proof fn lemma_push_counts(t: Seq<bool>, f: Seq<bool>, x: bool)
    requires
        f.len() > 0,
        t.len() == f.len() - 1,
    ensures
        overlap_of(t.push(x), f) == overlap_of(t, f.drop_last()) + if x && f.last() {
            1int
        } else {
            0int
        },
        count_where(f.len() as int, outside_flags(t.push(x), f)) == count_where(
            t.len() as int,
            outside_flags(t, f.drop_last()),
        ) + if x && !f.last() {
            1int
        } else {
            0int
        },
{
    let n = t.len() as int;
    let s = t.push(x);
    let g = f.drop_last();
    lemma_count_ext(n, both_flags(s, f), both_flags(t, g));
    lemma_count_ext(n, outside_flags(s, f), outside_flags(t, g));
}

/// Bitmaps of length `f.len()` are those of length `f.len() - 1` with a clear
/// or a set position appended.
proof fn lemma_bitmaps_split(
    f: Seq<bool>,
    o: int,
    r: int,
    low: Set<Seq<bool>>,
    high: Set<Seq<bool>>,
)
    requires
        f.len() > 0,
        low.finite(),
        high.finite(),
        low == bitmaps_with(f.drop_last(), o, r),
        high == bitmaps_with(
            f.drop_last(),
            if f.last() {
                o - 1
            } else {
                o
            },
            if f.last() {
                r
            } else {
                r - 1
            },
        ),
    ensures
        bitmaps_with(f, o, r).finite(),
        bitmaps_with(f, o, r).len() == low.len() + high.len(),
{
    let clear = |t: Seq<bool>| t.push(false);
    let set = |t: Seq<bool>| t.push(true);
    let a = low.map(clear);
    let b = high.map(set);
    let all = bitmaps_with(f, o, r);
    low.lemma_map_finite(clear);
    high.lemma_map_finite(set);
    assert forall|x: Seq<bool>, y: Seq<bool>|
        low.contains(x) && low.contains(y) && #[trigger] clear(x) == #[trigger] clear(
            y,
        ) implies x == y by {
        assert(x =~= clear(x).drop_last());
        assert(y =~= clear(y).drop_last());
    }
    assert forall|x: Seq<bool>, y: Seq<bool>|
        high.contains(x) && high.contains(y) && #[trigger] set(x) == #[trigger] set(
            y,
        ) implies x == y by {
        assert(x =~= set(x).drop_last());
        assert(y =~= set(y).drop_last());
    }
    lemma_map_size(low, a, clear);
    lemma_map_size(high, b, set);
    assert(a.disjoint(b)) by {
        assert forall|s: Seq<bool>| a.contains(s) implies !b.contains(s) by {
            let t = choose|t: Seq<bool>| low.contains(t) && s == clear(t);
            assert(!s.last());
            if b.contains(s) {
                let u = choose|u: Seq<bool>| high.contains(u) && s == set(u);
                assert(s.last());
            }
        }
    }
    assert(all =~= a.union(b)) by {
        assert forall|s: Seq<bool>| all.contains(s) implies a.union(b).contains(s) by {
            let t = s.drop_last();
            assert(s =~= t.push(s.last()));
            lemma_push_counts(t, f, s.last());
            if s.last() {
                assert(high.contains(t));
                assert(s == set(t));
            } else {
                assert(low.contains(t));
                assert(s == clear(t));
            }
        }
        assert forall|s: Seq<bool>| a.union(b).contains(s) implies all.contains(s) by {
            if a.contains(s) {
                let t = choose|t: Seq<bool>| low.contains(t) && s == clear(t);
                lemma_push_counts(t, f, false);
            } else {
                let t = choose|t: Seq<bool>| high.contains(t) && s == set(t);
                lemma_push_counts(t, f, true);
            }
        }
    }
    lemma_set_disjoint_lens(a, b);
}

/// The bitmaps that set `o` of the `w` positions of `f` and `r` of the other
/// `z` number `C(w, o) * C(z, r)`.
pub proof fn lemma_bitmaps_with_count(f: Seq<bool>, o: int, r: int)
    ensures
        bitmaps_with(f, o, r).finite(),
        bitmaps_with(f, o, r).len() == binom(weight_of(f), o) * binom(
            count_where(f.len() as int, clear_fn(f)),
            r,
        ),
    decreases f.len(),
{
    let w = weight_of(f);
    let z = count_where(f.len() as int, clear_fn(f));
    lemma_count_bounds(f.len() as int, flag_fn(f));
    lemma_count_bounds(f.len() as int, clear_fn(f));
    if f.len() == 0 {
        let all = bitmaps_with(f, o, r);
        let e = Seq::<bool>::empty();
        assert(binom(0, o) == if o == 0 { 1int } else { 0int });
        assert(binom(0, r) == if r == 0 { 1int } else { 0int });
        let a = binom(0, o);
        let b = binom(0, r);
        if o == 0 && r == 0 {
            assert(all =~= Set::empty().insert(e)) by {
                assert forall|s: Seq<bool>| all.contains(s) implies s == e by {
                    assert(s =~= e);
                }
            }
            assert(a * b == 1) by (nonlinear_arith)
                requires
                    a == 1,
                    b == 1,
            ;
        } else {
            assert(all =~= Set::empty());
            assert(a * b == 0) by (nonlinear_arith)
                requires
                    a == 0 || b == 0,
            ;
        }
    } else {
        let g = f.drop_last();
        let n = g.len() as int;
        lemma_count_ext(n, flag_fn(f), flag_fn(g));
        lemma_count_ext(n, clear_fn(f), clear_fn(g));
        lemma_bitmaps_with_count(g, o, r);
        let wg = weight_of(g);
        let zg = count_where(n, clear_fn(g));
        lemma_count_bounds(n, flag_fn(g));
        lemma_count_bounds(n, clear_fn(g));
        if f.last() {
            lemma_bitmaps_with_count(g, o - 1, r);
            lemma_bitmaps_split(f, o, r, bitmaps_with(g, o, r), bitmaps_with(g, o - 1, r));
            lemma_pascal(wg, o);
            let (x, y, k) = (binom(wg, o), binom(wg, o - 1), binom(zg, r));
            assert((y + x) * k == x * k + y * k) by (nonlinear_arith);
        } else {
            lemma_bitmaps_with_count(g, o, r - 1);
            lemma_bitmaps_split(f, o, r, bitmaps_with(g, o, r), bitmaps_with(g, o, r - 1));
            lemma_pascal(zg, r);
            let (x, y, k) = (binom(zg, r), binom(zg, r - 1), binom(wg, o));
            assert(k * (y + x) == k * x + k * y) by (nonlinear_arith);
        }
    }
}

/// Pascal's rule, also where both sides vanish.
proof fn lemma_pascal(n: int, k: int)
    requires
        0 <= n,
    ensures
        binom(n + 1, k) == binom(n, k - 1) + binom(n, k),
{
}

/// The bitmaps of weight `w` that share exactly `overlap` positions with a
/// fixed bitmap of weight `w` number `fiber(dim, w, overlap)`: the fiber count
/// is what it claims to count.
pub proof fn lemma_fiber_counts_bitmaps(f: Seq<bool>, overlap: int)
    ensures
        overlapping_bitmaps(f, weight_of(f), overlap).finite(),
        overlap >= 0 ==> overlapping_bitmaps(f, weight_of(f), overlap).len() == fiber(
            f.len() as int,
            weight_of(f),
            overlap,
        ),
{
    let w = weight_of(f);
    let n = f.len() as int;
    lemma_count_disjoint(n, flag_fn(f), clear_fn(f), |i: int| true);
    lemma_count_all(n, |i: int| true);
    let all = overlapping_bitmaps(f, w, overlap);
    let with = bitmaps_with(f, overlap, w - overlap);
    assert(all =~= with) by {
        assert forall|s: Seq<bool>| s.len() == n implies all.contains(s) == with.contains(s) by {
            lemma_count_disjoint(n, both_flags(s, f), outside_flags(s, f), flag_fn(s));
        }
    }
    lemma_bitmaps_with_count(f, overlap, w - overlap);
    if overlap > w {
        let a = binom(w, overlap);
        let b = binom(n - w, w - overlap);
        assert(a * b == 0) by (nonlinear_arith)
            requires
                b == 0,
        ;
    }
}

/// The bitmaps of weight `weight` in `dim` positions number `C(dim, weight)`.
pub proof fn lemma_space_counts_bitmaps(dim: int, weight: int)
    requires
        0 <= dim,
    ensures
        bitmaps_of_weight(dim, weight).finite(),
        bitmaps_of_weight(dim, weight).len() == binom(dim, weight),
{
    let f = Seq::new(dim as nat, |i: int| true);
    let all = bitmaps_of_weight(dim, weight);
    let with = bitmaps_with(f, weight, 0);
    lemma_count_all(dim, flag_fn(f));
    lemma_count_none(dim, clear_fn(f));
    assert(all =~= with) by {
        assert forall|s: Seq<bool>| s.len() == dim implies all.contains(s) == with.contains(s) by {
            lemma_count_ext(dim, both_flags(s, f), flag_fn(s));
            lemma_count_none(dim, outside_flags(s, f));
        }
    }
    lemma_bitmaps_with_count(f, weight, 0);
    let a = binom(dim, weight);
    let b = binom(0, 0);
    assert(a * b == a) by (nonlinear_arith)
        requires
            b == 1,
    ;
}

/// The overlaps of the null space, each as often as it occurs.
pub open spec fn overlap_term(dim: int, weight: int) -> spec_fn(int) -> int {
    |o: int| o * fiber(dim, weight, o)
}

/// Over all bitmaps of the null space the overlap with a fixed one averages
/// `weight^2 / dim`: the mean of the hypergeometric distribution.
pub proof fn lemma_expected_overlap(dim: int, weight: int)
    requires
        0 <= weight <= dim,
    ensures
        dim * sum_to(weight + 1, overlap_term(dim, weight)) == weight * weight * binom(dim, weight),
{
    let g = overlap_term(dim, weight);
    if weight == 0 {
        assert(g(0) == 0) by (nonlinear_arith)
            requires
                g(0) == 0 * fiber(dim, 0, 0),
        ;
        assert(sum_to(0, g) == 0);
        assert(sum_to(1, g) == 0);
        assert(dim * 0 == 0 * 0 * binom(dim, 0)) by (nonlinear_arith);
    } else {
        let w = weight;
        let h = shifted_term(g, 1);
        let f = vandermonde_term(w - 1, dim - w, w - 1);
        lemma_sum_split(1, w, g);
        assert(g(0) == 0) by (nonlinear_arith)
            requires
                g(0) == 0 * fiber(dim, w, 0),
        ;
        assert(sum_to(0, g) == 0);
        assert(sum_to(1, g) == 0);
        assert forall|t: int| 0 <= t < w implies #[trigger] h(t) == w * f(t) by {
            let o = t + 1;
            lemma_binom_absorb(w, o);
            let x = binom(w, o);
            let y = binom(dim - w, w - o);
            let z = binom(w - 1, o - 1);
            assert(o * (x * y) == w * (z * y)) by (nonlinear_arith)
                requires
                    o * x == w * z,
            ;
        }
        lemma_sum_scale(w, w, f, h);
        lemma_vandermonde(w - 1, dim - w, w - 1);
        lemma_binom_absorb(dim, w);
        let c = binom(dim - 1, w - 1);
        let s = binom(dim, w);
        assert(dim * (w * c) == w * w * s) by (nonlinear_arith)
            requires
                w * s == dim * c,
        ;
    }
}

} // verus!
