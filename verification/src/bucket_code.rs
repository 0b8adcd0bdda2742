//! Fixed-composition ordinal bucket codes, without an index around them.

use vstd::prelude::*;

use crate::counting::{
    count_eq, first_where, is_permutation, lemma_first_where, lemma_first_where_holds,
};
use crate::float_bits::F32Bits;
use crate::rank::{
    bucket_codes, bucket_count, bucket_ranks, code_fn, constant_composition,
    lemma_buckets_constant_composition, lemma_equal_width_bins, lemma_levels, levels, n_levels,
    rank_ints, rank_transform, ranks_of,
};
use crate::text::{decimal, push_decimal, push_text};

verus! {

/// A violation of the fixed-composition bucket-code contract.
#[derive(Clone, Debug, PartialEq, Eq, Hash)]
pub enum CompositionViolation {
    /// A structural parameter is invalid.
    InvalidSpec(&'static str),
    /// `bits` is outside the supported set `{1, 2, 4}`.
    InvalidBits {
        /// The rejected bit width.
        bits: u8,
    },
    /// `dim` exceeds the `u16` rank domain.
    DimTooLarge {
        /// The rejected dimension.
        dim: usize,
        /// The maximum supported dimension.
        max: usize,
    },
    /// `dim` is not divisible by `buckets`.
    NonUniformSpec {
        /// The dimension.
        dim: usize,
        /// The bucket count.
        buckets: usize,
    },
    /// A code or rank slice has the wrong length.
    WrongLength {
        /// The expected length.
        expected: usize,
        /// The actual length.
        actual: usize,
    },
    /// A code is `>= buckets`.
    BucketOutOfRange {
        /// The offending coordinate.
        coordinate: usize,
        /// The out-of-range bucket id.
        bucket: usize,
        /// The bucket count.
        buckets: usize,
    },
    /// A bucket's occupancy is not the expected one.
    WrongBucketCount {
        /// The bucket whose occupancy is wrong.
        bucket: usize,
        /// The required occupancy.
        expected: usize,
        /// The observed occupancy.
        actual: usize,
    },
    /// A rank is `>= dim`.
    RankOutOfRange {
        /// The offending coordinate.
        coordinate: usize,
        /// The out-of-range rank.
        rank: usize,
        /// The dimension.
        dim: usize,
    },
    /// A rank appears more than once.
    DuplicateRank {
        /// The repeated rank.
        rank: usize,
    },
    /// A vector coordinate is not finite.
    NonFiniteValue {
        /// The offending coordinate.
        coordinate: usize,
    },
}

impl CompositionViolation {
    /// The text of the violation.
    pub open spec fn text(self) -> Seq<char> {
        match self {
            CompositionViolation::InvalidSpec(message) => message@,
            CompositionViolation::InvalidBits { bits } => "bits "@ + decimal(bits as nat)
                + " is invalid; expected one of 1, 2, 4"@,
            CompositionViolation::DimTooLarge { dim, max } => "dim "@ + decimal(dim as nat)
                + " exceeds maximum "@ + decimal(max as nat),
            CompositionViolation::NonUniformSpec { dim, buckets } => "dim "@ + decimal(dim as nat)
                + " is not divisible by buckets "@ + decimal(buckets as nat),
            CompositionViolation::WrongLength { expected, actual } => "code length "@ + decimal(
                actual as nat,
            ) + " does not match dim "@ + decimal(expected as nat),
            CompositionViolation::BucketOutOfRange { coordinate, bucket, buckets } =>
                "coordinate "@ + decimal(coordinate as nat) + " has bucket "@ + decimal(
                    bucket as nat,
                ) + ", expected < "@ + decimal(buckets as nat),
            CompositionViolation::WrongBucketCount { bucket, expected, actual } => "bucket "@
                + decimal(bucket as nat) + " has "@ + decimal(actual as nat)
                + " coordinates, expected "@ + decimal(expected as nat),
            CompositionViolation::RankOutOfRange { coordinate, rank, dim } => "coordinate "@
                + decimal(coordinate as nat) + " has rank "@ + decimal(rank as nat)
                + ", expected < "@ + decimal(dim as nat),
            CompositionViolation::DuplicateRank { rank } => "rank "@ + decimal(rank as nat)
                + " appears more than once"@,
            CompositionViolation::NonFiniteValue { coordinate } => "coordinate "@ + decimal(
                coordinate as nat,
            ) + " is non-finite (NaN or \u{b1}Inf)"@,
        }
    }

    /// The violation as text.
    pub fn message(&self) -> (s: String)
        ensures
            s@ == self.text(),
    {
        match self {
            CompositionViolation::InvalidSpec(message) => (*message).to_owned(),
            CompositionViolation::InvalidBits { bits } => {
                let mut s: String = "bits ".to_owned();
                push_decimal(&mut s, *bits as u64);
                push_text(&mut s, " is invalid; expected one of 1, 2, 4");
                s
            },
            CompositionViolation::DimTooLarge { dim, max } => {
                let mut s: String = "dim ".to_owned();
                push_decimal(&mut s, *dim as u64);
                push_text(&mut s, " exceeds maximum ");
                push_decimal(&mut s, *max as u64);
                s
            },
            CompositionViolation::NonUniformSpec { dim, buckets } => {
                let mut s: String = "dim ".to_owned();
                push_decimal(&mut s, *dim as u64);
                push_text(&mut s, " is not divisible by buckets ");
                push_decimal(&mut s, *buckets as u64);
                s
            },
            CompositionViolation::WrongLength { expected, actual } => {
                let mut s: String = "code length ".to_owned();
                push_decimal(&mut s, *actual as u64);
                push_text(&mut s, " does not match dim ");
                push_decimal(&mut s, *expected as u64);
                s
            },
            CompositionViolation::BucketOutOfRange { coordinate, bucket, buckets } => {
                let mut s: String = "coordinate ".to_owned();
                push_decimal(&mut s, *coordinate as u64);
                push_text(&mut s, " has bucket ");
                push_decimal(&mut s, *bucket as u64);
                push_text(&mut s, ", expected < ");
                push_decimal(&mut s, *buckets as u64);
                s
            },
            CompositionViolation::WrongBucketCount { bucket, expected, actual } => {
                let mut s: String = "bucket ".to_owned();
                push_decimal(&mut s, *bucket as u64);
                push_text(&mut s, " has ");
                push_decimal(&mut s, *actual as u64);
                push_text(&mut s, " coordinates, expected ");
                push_decimal(&mut s, *expected as u64);
                s
            },
            CompositionViolation::RankOutOfRange { coordinate, rank, dim } => {
                let mut s: String = "coordinate ".to_owned();
                push_decimal(&mut s, *coordinate as u64);
                push_text(&mut s, " has rank ");
                push_decimal(&mut s, *rank as u64);
                push_text(&mut s, ", expected < ");
                push_decimal(&mut s, *dim as u64);
                s
            },
            CompositionViolation::DuplicateRank { rank } => {
                let mut s: String = "rank ".to_owned();
                push_decimal(&mut s, *rank as u64);
                push_text(&mut s, " appears more than once");
                s
            },
            CompositionViolation::NonFiniteValue { coordinate } => {
                let mut s: String = "coordinate ".to_owned();
                push_decimal(&mut s, *coordinate as u64);
                push_text(&mut s, " is non-finite (NaN or \u{b1}Inf)");
                s
            },
        }
    }
}

/// The violation, if any, of a composition with these parameters.
pub open spec fn composition_error(dim: usize, buckets: usize) -> Option<CompositionViolation> {
    if dim == 0 {
        Some(CompositionViolation::InvalidSpec("dim must be > 0"))
    } else if buckets < 2 {
        Some(CompositionViolation::InvalidSpec("buckets must be >= 2"))
    } else if buckets > 256 {
        Some(CompositionViolation::InvalidSpec("buckets must be <= 256 (codes are stored as u8)"))
    } else if dim % buckets != 0 {
        Some(CompositionViolation::NonUniformSpec { dim, buckets })
    } else {
        None
    }
}

/// The violation, if any, of a RankQuant composition with these parameters.
pub open spec fn rank_quant_error(dim: usize, bits: u8) -> Option<CompositionViolation> {
    if bits != 1 && bits != 2 && bits != 4 {
        Some(CompositionViolation::InvalidBits { bits })
    } else if dim > u16::MAX {
        Some(CompositionViolation::DimTooLarge { dim, max: u16::MAX as usize })
    } else {
        composition_error(dim, levels(bits) as usize)
    }
}

/// The coordinates whose code is not a bucket.
pub open spec fn code_out_of_range(codes: Seq<u8>, buckets: int) -> spec_fn(int) -> bool {
    |i: int| codes[i] >= buckets
}

/// The buckets whose occupancy is not `per`.
pub open spec fn bucket_off_balance(codes: Seq<u8>, per: int) -> spec_fn(int) -> bool {
    |b: int| bucket_count(codes, b) != per
}

/// The coordinates at which a scan of `ranks` meets a value that is no rank or
/// was seen before.
pub open spec fn rank_rejected(ranks: Seq<usize>, dim: int) -> spec_fn(int) -> bool {
    |i: int| ranks[i] >= dim || exists|j: int| 0 <= j < i && #[trigger] ranks[j] == ranks[i]
}

/// The coordinates whose value is not finite.
pub open spec fn not_finite(v: Seq<F32Bits>) -> spec_fn(int) -> bool {
    |i: int| !v[i].finite()
}

/// Fixed-composition bucket-code parameters: `dim` coordinates over `buckets`
/// buckets, each holding exactly `dim / buckets` of them.
#[derive(Clone, Debug, PartialEq, Eq, Hash)]
pub struct CompositionSpec {
    dim: usize,
    buckets: usize,
    expected_per_bucket: usize,
}

impl CompositionSpec {
    /// The code length.
    pub closed spec fn dimension(&self) -> usize {
        self.dim
    }

    /// The number of buckets.
    pub closed spec fn bucket_total(&self) -> usize {
        self.buckets
    }

    /// The occupancy of every bucket.
    pub closed spec fn occupancy(&self) -> usize {
        self.expected_per_bucket
    }

    /// The parameters admit a constant composition.
    pub open spec fn wf(&self) -> bool {
        &&& composition_error(self.dimension(), self.bucket_total()) is None
        &&& self.occupancy() == self.dimension() / self.bucket_total()
    }

    /// The violation a histogram of `codes` reports.
    pub open spec fn histogram_error(&self, codes: Seq<u8>) -> Option<CompositionViolation> {
        let bad = first_where(
            codes.len() as int,
            code_out_of_range(codes, self.bucket_total() as int),
        );
        if codes.len() != self.dimension() {
            Some(
                CompositionViolation::WrongLength {
                    expected: self.dimension(),
                    actual: codes.len() as usize,
                },
            )
        } else if bad < codes.len() {
            Some(
                CompositionViolation::BucketOutOfRange {
                    coordinate: bad as usize,
                    bucket: codes[bad] as usize,
                    buckets: self.bucket_total(),
                },
            )
        } else {
            None
        }
    }

    /// The violation a full validation of `codes` reports.
    pub open spec fn code_error(&self, codes: Seq<u8>) -> Option<CompositionViolation> {
        let off = first_where(
            self.bucket_total() as int,
            bucket_off_balance(codes, self.occupancy() as int),
        );
        if self.histogram_error(codes) is Some {
            self.histogram_error(codes)
        } else if off < self.bucket_total() {
            Some(
                CompositionViolation::WrongBucketCount {
                    bucket: off as usize,
                    expected: self.occupancy(),
                    actual: bucket_count(codes, off) as usize,
                },
            )
        } else {
            None
        }
    }

    /// `codes` is a code of this composition.
    pub open spec fn admits(&self, codes: Seq<u8>) -> bool {
        &&& codes.len() == self.dimension()
        &&& forall|i: int| 0 <= i < codes.len() ==> #[trigger] codes[i] < self.bucket_total()
        &&& constant_composition(codes, self.bucket_total() as int, self.occupancy() as int)
    }

    /// Validation reports nothing exactly on the codes of the composition.
    pub proof fn lemma_code_error_admits(&self, codes: Seq<u8>)
        ensures
            self.code_error(codes) is None <==> self.admits(codes),
    {
        let n = codes.len() as int;
        let m = self.bucket_total() as int;
        let p = code_out_of_range(codes, m);
        let q = bucket_off_balance(codes, self.occupancy() as int);
        lemma_first_where_holds(n, p);
        lemma_first_where_holds(m, q);
        if self.code_error(codes) is None {
            assert forall|i: int| 0 <= i < n implies #[trigger] codes[i] < m by {
                assert(!p(i));
            }
            assert forall|b: int| 0 <= b < m implies #[trigger] bucket_count(codes, b)
                == self.occupancy() by {
                assert(!q(b));
            }
        }
    }

    /// Build a fixed-composition spec for `dim` coordinates over `buckets`
    /// buckets.
    pub fn new(dim: usize, buckets: usize) -> (r: Result<Self, CompositionViolation>)
        ensures
            match r {
                Ok(spec) => {
                    &&& composition_error(dim, buckets) is None
                    &&& spec.wf()
                    &&& spec.dimension() == dim
                    &&& spec.bucket_total() == buckets
                },
                Err(e) => composition_error(dim, buckets) == Some(e),
            },
    {
        if dim == 0 {
            return Err(CompositionViolation::InvalidSpec("dim must be > 0"));
        }
        if buckets < 2 {
            return Err(CompositionViolation::InvalidSpec("buckets must be >= 2"));
        }
        if buckets > 256 {
            return Err(
                CompositionViolation::InvalidSpec("buckets must be <= 256 (codes are stored as u8)"),
            );
        }
        if dim % buckets != 0 {
            return Err(CompositionViolation::NonUniformSpec { dim, buckets });
        }
        Ok(CompositionSpec { dim, buckets, expected_per_bucket: dim / buckets })
    }

    /// Build the spec implied by a RankQuant `(dim, bits)` pairing, with
    /// `2^bits` buckets.
    pub fn rank_quant(dim: usize, bits: u8) -> (r: Result<Self, CompositionViolation>)
        ensures
            match r {
                Ok(spec) => {
                    &&& rank_quant_error(dim, bits) is None
                    &&& spec.wf()
                    &&& spec.dimension() == dim
                    &&& spec.bucket_total() == levels(bits)
                },
                Err(e) => rank_quant_error(dim, bits) == Some(e),
            },
    {
        match RankQuantSpec::new(dim, bits) {
            Ok(spec) => Ok(spec.into_composition()),
            Err(e) => Err(e),
        }
    }

    /// Code length the spec validates against.
    pub fn dim(&self) -> (d: usize)
        ensures
            d == self.dimension(),
    {
        self.dim
    }

    /// Number of buckets.
    pub fn buckets(&self) -> (n: usize)
        ensures
            n == self.bucket_total(),
    {
        self.buckets
    }

    /// Coordinates a well-formed code places in each bucket.
    pub fn expected_per_bucket(&self) -> (n: usize)
        ensures
            n == self.occupancy(),
    {
        self.expected_per_bucket
    }

    /// Per-bucket occupancy histogram of `codes`.
    pub fn histogram(&self, codes: &[u8]) -> (r: Result<Vec<usize>, CompositionViolation>)
        requires
            self.wf(),
        ensures
            match r {
                Ok(hist) => {
                    &&& self.histogram_error(codes@) is None
                    &&& hist.len() == self.bucket_total()
                    &&& forall|b: int|
                        0 <= b < hist.len() ==> #[trigger] hist[b] == bucket_count(codes@, b)
                },
                Err(e) => self.histogram_error(codes@) == Some(e),
            },
    {
        if codes.len() != self.dim {
            return Err(
                CompositionViolation::WrongLength { expected: self.dim, actual: codes.len() },
            );
        }
        let ghost bad = code_out_of_range(codes@, self.buckets as int);
        let mut hist: Vec<usize> = vec![0usize; self.buckets];
        let mut i: usize = 0;
        while i < codes.len()
            invariant
                self.wf(),
                i <= codes.len(),
                codes.len() == self.dim,
                bad == code_out_of_range(codes@, self.buckets as int),
                hist.len() == self.buckets,
                forall|j: int| 0 <= j < i ==> !(#[trigger] bad(j)),
                forall|b: int|
                    0 <= b < hist.len() ==> #[trigger] hist[b] == count_eq(
                        i as int,
                        code_fn(codes@),
                        b,
                    ),
                forall|b: int| 0 <= b < hist.len() ==> #[trigger] hist[b] <= i,
            decreases codes.len() - i,
        {
            let bucket: usize = codes[i] as usize;
            if bucket >= self.buckets {
                proof {
                    lemma_first_where(codes.len() as int, bad, i as int);
                }
                return Err(
                    CompositionViolation::BucketOutOfRange {
                        coordinate: i,
                        bucket,
                        buckets: self.buckets,
                    },
                );
            }
            hist[bucket] = hist[bucket] + 1;
            i = i + 1;
        }
        proof {
            lemma_first_where(codes.len() as int, bad, i as int);
        }
        Ok(hist)
    }

    /// Check that `codes` is a code of this composition: the right length,
    /// every code in range, every bucket evenly occupied.
    pub fn validate_codes(&self, codes: &[u8]) -> (r: Result<(), CompositionViolation>)
        requires
            self.wf(),
        ensures
            match r {
                Ok(()) => self.code_error(codes@) is None && self.admits(codes@),
                Err(e) => self.code_error(codes@) == Some(e) && !self.admits(codes@),
            },
    {
        proof {
            self.lemma_code_error_admits(codes@);
        }
        let hist: Vec<usize> = match self.histogram(codes) {
            Ok(hist) => hist,
            Err(e) => {
                return Err(e);
            },
        };
        let ghost off = bucket_off_balance(codes@, self.expected_per_bucket as int);
        let mut b: usize = 0;
        while b < hist.len()
            invariant
                b <= hist.len(),
                hist.len() == self.buckets,
                self.histogram_error(codes@) is None,
                self.code_error(codes@) is None <==> self.admits(codes@),
                off == bucket_off_balance(codes@, self.expected_per_bucket as int),
                forall|c: int|
                    0 <= c < hist.len() ==> #[trigger] hist[c] == bucket_count(codes@, c),
                forall|c: int| 0 <= c < b ==> !(#[trigger] off(c)),
            decreases hist.len() - b,
        {
            if hist[b] != self.expected_per_bucket {
                proof {
                    lemma_first_where(self.buckets as int, off, b as int);
                }
                return Err(
                    CompositionViolation::WrongBucketCount {
                        bucket: b,
                        expected: self.expected_per_bucket,
                        actual: hist[b],
                    },
                );
            }
            b = b + 1;
        }
        proof {
            lemma_first_where(self.buckets as int, off, b as int);
        }
        Ok(())
    }
}

/// RankQuant-shaped parameters: `2^bits` buckets for `bits` in `{1, 2, 4}`,
/// and a dimension in the `u16` rank domain.
#[derive(Clone, Debug, PartialEq, Eq, Hash)]
pub struct RankQuantSpec {
    bits: u8,
    composition: CompositionSpec,
}

impl RankQuantSpec {
    /// The bit width.
    pub closed spec fn width(&self) -> u8 {
        self.bits
    }

    /// The composition.
    pub closed spec fn comp(&self) -> CompositionSpec {
        self.composition
    }

    /// The parameters are a RankQuant composition.
    pub open spec fn wf(&self) -> bool {
        &&& rank_quant_error(self.comp().dimension(), self.width()) is None
        &&& self.comp().wf()
        &&& self.comp().bucket_total() == levels(self.width())
    }

    /// Build a RankQuant spec for `dim` coordinates at `bits` bits each.
    pub fn new(dim: usize, bits: u8) -> (r: Result<Self, CompositionViolation>)
        ensures
            match r {
                Ok(spec) => {
                    &&& rank_quant_error(dim, bits) is None
                    &&& spec.wf()
                    &&& spec.width() == bits
                    &&& spec.comp().dimension() == dim
                },
                Err(e) => rank_quant_error(dim, bits) == Some(e),
            },
    {
        if bits != 1 && bits != 2 && bits != 4 {
            return Err(CompositionViolation::InvalidBits { bits });
        }
        if dim > u16::MAX as usize {
            return Err(CompositionViolation::DimTooLarge { dim, max: u16::MAX as usize });
        }
        let buckets: usize = n_levels(bits) as usize;
        match CompositionSpec::new(dim, buckets) {
            Ok(composition) => Ok(RankQuantSpec { bits, composition }),
            Err(e) => Err(e),
        }
    }

    /// Bits per coordinate.
    pub fn bits(&self) -> (b: u8)
        ensures
            b == self.width(),
    {
        self.bits
    }

    /// The underlying composition.
    pub fn composition(&self) -> (c: &CompositionSpec)
        ensures
            *c == self.comp(),
    {
        &self.composition
    }

    /// Consume the spec, yielding the composition.
    pub fn into_composition(self) -> (c: CompositionSpec)
        ensures
            c == self.comp(),
    {
        self.composition
    }
}

/// A bucket code together with the composition it satisfies.
#[derive(Clone, Debug, PartialEq, Eq, Hash)]
pub struct BucketCode {
    spec: CompositionSpec,
    codes: Vec<u8>,
}

impl BucketCode {
    /// The bucket ids.
    pub closed spec fn ids(&self) -> Seq<u8> {
        self.codes@
    }

    /// The composition.
    pub closed spec fn comp(&self) -> CompositionSpec {
        self.spec
    }

    /// The ids are a code of the composition.
    pub open spec fn wf(&self) -> bool {
        &&& self.comp().wf()
        &&& self.comp().admits(self.ids())
    }

    /// Wrap codes against a composition, validating them.
    pub fn new(spec: CompositionSpec, codes: Vec<u8>) -> (r: Result<Self, CompositionViolation>)
        requires
            spec.wf(),
        ensures
            match r {
                Ok(c) => {
                    &&& spec.code_error(codes@) is None
                    &&& c.wf()
                    &&& c.comp() == spec
                    &&& c.ids() == codes@
                },
                Err(e) => spec.code_error(codes@) == Some(e),
            },
    {
        match spec.validate_codes(codes.as_slice()) {
            Ok(()) => Ok(BucketCode { spec, codes }),
            Err(e) => Err(e),
        }
    }

    /// Derive a bucket code from an explicit rank permutation: `rank` goes to
    /// bucket `rank * buckets / dim`.
    pub fn from_ranks(dim: usize, buckets: usize, ranks: &[usize]) -> (r: Result<
        Self,
        CompositionViolation,
    >)
        ensures
            match r {
                Ok(c) => {
                    &&& ranks_error(dim, buckets, ranks@) is None
                    &&& c.wf()
                    &&& c.comp().dimension() == dim
                    &&& c.comp().bucket_total() == buckets
                    &&& c.ids().len() == dim
                    &&& forall|i: int|
                        0 <= i < dim ==> #[trigger] c.ids()[i] == ranks[i] * buckets / (dim as int)
                },
                Err(e) => ranks_error(dim, buckets, ranks@) == Some(e),
            },
    {
        let spec: CompositionSpec = match CompositionSpec::new(dim, buckets) {
            Ok(spec) => spec,
            Err(e) => {
                return Err(e);
            },
        };
        if ranks.len() != dim {
            return Err(CompositionViolation::WrongLength { expected: dim, actual: ranks.len() });
        }
        let ghost bad = rank_rejected(ranks@, dim as int);
        let mut seen: Vec<bool> = vec![false; dim];
        let mut codes: Vec<u8> = Vec::with_capacity(dim);
        let mut i: usize = 0;
        while i < dim
            invariant
                dim > 0,
                2 <= buckets <= 256,
                composition_error(dim, buckets) is None,
                ranks.len() == dim,
                bad == rank_rejected(ranks@, dim as int),
                seen.len() == dim,
                codes.len() == i,
                i <= dim,
                forall|j: int| 0 <= j < i ==> !(#[trigger] bad(j)),
                forall|j: int| 0 <= j < i ==> #[trigger] ranks[j] < dim,
                forall|j: int, l: int| 0 <= j < l < i ==> ranks[j] != ranks[l],
                forall|v: int|
                    0 <= v < dim ==> (#[trigger] seen[v] <==> exists|j: int|
                        0 <= j < i && #[trigger] ranks[j] == v),
                forall|j: int|
                    0 <= j < i ==> #[trigger] codes[j] == ranks[j] * buckets / (dim as int),
            decreases dim - i,
        {
            let rank: usize = ranks[i];
            if rank >= dim {
                proof {
                    lemma_first_where(dim as int, bad, i as int);
                }
                return Err(CompositionViolation::RankOutOfRange { coordinate: i, rank, dim });
            }
            if seen[rank] {
                proof {
                    assert(exists|j: int| 0 <= j < i && #[trigger] ranks[j] == rank);
                    lemma_first_where(dim as int, bad, i as int);
                }
                return Err(CompositionViolation::DuplicateRank { rank });
            }
            proof {
                let d = dim as int;
                let n = buckets as int;
                let k = rank as int;
                assert(0 <= k * n && k * n <= u64::MAX * 256 && 0 <= k * n / d && k * n / d < n)
                    by (nonlinear_arith)
                    requires
                        0 <= k < d,
                        d <= u64::MAX,
                        2 <= n <= 256,
                ;
                assert(!bad(i as int));
            }
            let ghost before = seen@;
            seen[rank] = true;
            codes.push(((rank as u128 * buckets as u128) / dim as u128) as u8);
            i = i + 1;
            proof {
                assert forall|v: int| 0 <= v < dim implies (#[trigger] seen[v] <==> exists|j: int|
                    0 <= j < i && #[trigger] ranks[j] == v) by {
                    if v == rank {
                        assert(ranks[i - 1] == v);
                    } else {
                        assert(seen[v] == before[v]);
                        if before[v] {
                            let j = choose|j: int| 0 <= j < i - 1 && #[trigger] ranks[j] == v;
                            assert(ranks[j] == v);
                        }
                    }
                }
            }
        }
        proof {
            lemma_first_where(dim as int, bad, dim as int);
            let s = Seq::new(dim as nat, |j: int| ranks[j] as int);
            assert(is_permutation(s)) by {
                assert forall|a: int, b: int| 0 <= a < b < s.len() implies s[a] != s[b] by {
                    assert(ranks[a] != ranks[b]);
                }
            }
            assert forall|j: int| 0 <= j < dim implies #[trigger] codes[j] == s[j] * buckets / (
            s.len() as int) by {
                assert(codes[j] == ranks[j] * buckets / (dim as int));
            }
            lemma_equal_width_bins(s, buckets as int, codes@);
            spec.lemma_code_error_admits(codes@);
        }
        BucketCode::new(spec, codes)
    }

    /// Derive a bucket code from a vector: rank its coordinates and bucket the
    /// ranks.
    pub fn from_vector(dim: usize, bits: u8, vector: &[F32Bits]) -> (r: Result<
        Self,
        CompositionViolation,
    >)
        ensures
            match r {
                Ok(c) => {
                    &&& vector_error(dim, bits, vector@) is None
                    &&& c.wf()
                    &&& c.comp().dimension() == dim
                    &&& c.comp().bucket_total() == levels(bits)
                    &&& c.ids() == bucket_codes(ranks_of(vector@), bits)
                },
                Err(e) => vector_error(dim, bits, vector@) == Some(e),
            },
    {
        let spec: RankQuantSpec = match RankQuantSpec::new(dim, bits) {
            Ok(spec) => spec,
            Err(e) => {
                return Err(e);
            },
        };
        if vector.len() != dim {
            return Err(CompositionViolation::WrongLength { expected: dim, actual: vector.len() });
        }
        let ghost bad = not_finite(vector@);
        let mut i: usize = 0;
        while i < dim
            invariant
                vector.len() == dim,
                i <= dim,
                bad == not_finite(vector@),
                rank_quant_error(dim, bits) is None,
                forall|j: int| 0 <= j < i ==> !(#[trigger] bad(j)),
            decreases dim - i,
        {
            if !vector[i].is_finite() {
                proof {
                    lemma_first_where(dim as int, bad, i as int);
                }
                return Err(CompositionViolation::NonFiniteValue { coordinate: i });
            }
            i = i + 1;
        }
        proof {
            lemma_first_where(dim as int, bad, dim as int);
            assert forall|j: int| 0 <= j < dim implies (#[trigger] vector[j]).finite() by {
                assert(!bad(j));
            }
            lemma_levels(bits);
        }
        let ranks: Vec<u16> = rank_transform(vector);
        proof {
            assert forall|j: int| 0 <= j < ranks.len() implies #[trigger] ranks[j] < ranks.len() by {
                assert(0 <= rank_ints(ranks@)[j] < ranks.len());
            }
        }
        let codes: Vec<u8> = bucket_ranks(ranks.as_slice(), bits);
        proof {
            lemma_buckets_constant_composition(ranks@, bits);
            spec.comp().lemma_code_error_admits(codes@);
        }
        BucketCode::new(spec.into_composition(), codes)
    }

    /// The composition these codes satisfy.
    pub fn spec(&self) -> (s: &CompositionSpec)
        ensures
            *s == self.comp(),
    {
        &self.spec
    }

    /// The validated bucket ids.
    pub fn codes(&self) -> (c: &[u8])
        ensures
            c@ == self.ids(),
    {
        self.codes.as_slice()
    }

    /// Top-bucket membership: true where the code is the highest bucket.
    pub fn top_bitmap(&self) -> (flags: Vec<bool>)
        requires
            self.wf(),
        ensures
            flags.len() == self.ids().len(),
            forall|i: int|
                0 <= i < flags.len() ==> #[trigger] flags[i] == (self.ids()[i]
                    == self.comp().bucket_total() - 1),
    {
        let top: usize = self.spec.buckets - 1;
        let mut flags: Vec<bool> = Vec::with_capacity(self.codes.len());
        let mut i: usize = 0;
        while i < self.codes.len()
            invariant
                i <= self.codes.len(),
                flags.len() == i,
                top == self.spec.buckets - 1,
                forall|j: int| 0 <= j < i ==> #[trigger] flags[j] == (self.codes[j] == top),
            decreases self.codes.len() - i,
        {
            flags.push(self.codes[i] as usize == top);
            i = i + 1;
        }
        flags
    }
}

/// The violation, if any, that a scan of `ranks` reports.
pub open spec fn ranks_error(dim: usize, buckets: usize, ranks: Seq<usize>) -> Option<
    CompositionViolation,
> {
    let bad = first_where(dim as int, rank_rejected(ranks, dim as int));
    if composition_error(dim, buckets) is Some {
        composition_error(dim, buckets)
    } else if ranks.len() != dim {
        Some(CompositionViolation::WrongLength { expected: dim, actual: ranks.len() as usize })
    } else if bad < dim {
        if ranks[bad] >= dim {
            Some(
                CompositionViolation::RankOutOfRange {
                    coordinate: bad as usize,
                    rank: ranks[bad],
                    dim,
                },
            )
        } else {
            Some(CompositionViolation::DuplicateRank { rank: ranks[bad] })
        }
    } else {
        None
    }
}

/// The violation, if any, that quantising `vector` reports.
pub open spec fn vector_error(dim: usize, bits: u8, vector: Seq<F32Bits>) -> Option<
    CompositionViolation,
> {
    let bad = first_where(dim as int, not_finite(vector));
    if rank_quant_error(dim, bits) is Some {
        rank_quant_error(dim, bits)
    } else if vector.len() != dim {
        Some(CompositionViolation::WrongLength { expected: dim, actual: vector.len() as usize })
    } else if bad < dim {
        Some(CompositionViolation::NonFiniteValue { coordinate: bad as usize })
    } else {
        None
    }
}

} // verus!
