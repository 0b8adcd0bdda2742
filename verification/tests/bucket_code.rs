//! Bucket codes and their composition.

use ordvec::bucket_code::{BucketCode, CompositionSpec, CompositionViolation, RankQuantSpec};
use ordvec::float_bits::F32Bits;

fn bits(values: &[f32]) -> Vec<F32Bits> {
    values.iter().map(|v| F32Bits::from_bits(v.to_bits())).collect()
}

#[test]
fn from_ranks_builds_uniform_bucket_code() {
    let code = BucketCode::from_ranks(8, 4, &[0, 1, 2, 3, 4, 5, 6, 7]).unwrap();

    assert_eq!(code.spec().expected_per_bucket(), 2);
    assert_eq!(code.codes(), &[0, 0, 1, 1, 2, 2, 3, 3]);
}

#[test]
fn rejects_non_uniform_bucket_counts() {
    let spec = CompositionSpec::new(8, 4).unwrap();
    let err = BucketCode::new(spec, vec![0, 0, 0, 1, 2, 2, 3, 3]).unwrap_err();

    assert_eq!(
        err,
        CompositionViolation::WrongBucketCount {
            bucket: 0,
            expected: 2,
            actual: 3,
        }
    );
}

#[test]
fn rejects_duplicate_ranks() {
    let err = BucketCode::from_ranks(4, 2, &[0, 1, 1, 3]).unwrap_err();

    assert_eq!(err, CompositionViolation::DuplicateRank { rank: 1 });
}

#[test]
fn rankquant_spec_rejects_unsupported_bits_and_large_dims() {
    assert_eq!(
        RankQuantSpec::new(8, 3).unwrap_err(),
        CompositionViolation::InvalidBits { bits: 3 }
    );
    // `from_vector` surfaces the same unsupported-bits rejection.
    assert_eq!(
        BucketCode::from_vector(8, 3, &bits(&[0.0f32; 8])).unwrap_err(),
        CompositionViolation::InvalidBits { bits: 3 }
    );
    assert_eq!(
        RankQuantSpec::new(u16::MAX as usize + 1, 2).unwrap_err(),
        CompositionViolation::DimTooLarge {
            dim: u16::MAX as usize + 1,
            max: u16::MAX as usize,
        }
    );
}

#[test]
fn composition_spec_rejects_more_than_256_buckets() {
    // Codes are u8: a bucket id must fit 0..=255.
    assert_eq!(
        CompositionSpec::new(512, 257).unwrap_err(),
        CompositionViolation::InvalidSpec("buckets must be <= 256 (codes are stored as u8)")
    );
    // 256 is the boundary and is accepted (dim a multiple of it).
    assert!(CompositionSpec::new(512, 256).is_ok());
}

#[test]
fn rankquant_spec_rejects_non_divisible_dims() {
    assert_eq!(
        RankQuantSpec::new(10, 2).unwrap_err(),
        CompositionViolation::NonUniformSpec {
            dim: 10,
            buckets: 4,
        }
    );
}

#[test]
fn validate_codes_rejects_wrong_length() {
    let spec = CompositionSpec::new(8, 4).unwrap();
    assert_eq!(
        spec.validate_codes(&[0, 0, 1, 1, 2, 2, 3]).unwrap_err(),
        CompositionViolation::WrongLength {
            expected: 8,
            actual: 7,
        }
    );
}

#[test]
fn validate_codes_rejects_out_of_range_code() {
    let spec = CompositionSpec::new(8, 4).unwrap();
    // coordinate 7 holds bucket 4, which is >= buckets (4).
    assert_eq!(
        spec.validate_codes(&[0, 0, 1, 1, 2, 2, 3, 4]).unwrap_err(),
        CompositionViolation::BucketOutOfRange {
            coordinate: 7,
            bucket: 4,
            buckets: 4,
        }
    );
}

#[test]
fn composition_spec_rejects_zero_dim_and_small_buckets() {
    assert_eq!(
        CompositionSpec::new(0, 4).unwrap_err(),
        CompositionViolation::InvalidSpec("dim must be > 0")
    );
    assert_eq!(
        CompositionSpec::new(8, 1).unwrap_err(),
        CompositionViolation::InvalidSpec("buckets must be >= 2")
    );
}

#[test]
fn rank_quant_helper_matches_rankquant_spec_composition() {
    let from_helper = CompositionSpec::rank_quant(16, 2).unwrap();
    let from_spec = RankQuantSpec::new(16, 2).unwrap().into_composition();
    assert_eq!(from_helper, from_spec);
    assert_eq!(from_helper.buckets(), 4);
    assert_eq!(from_helper.expected_per_bucket(), 4);
}

#[test]
fn from_ranks_rejects_rank_out_of_range() {
    // rank 4 at coordinate 0 is >= dim (4).
    assert_eq!(
        BucketCode::from_ranks(4, 2, &[4, 1, 2, 3]).unwrap_err(),
        CompositionViolation::RankOutOfRange {
            coordinate: 0,
            rank: 4,
            dim: 4,
        }
    );
}

#[test]
fn histogram_counts_each_bucket() {
    let spec = CompositionSpec::new(8, 4).unwrap();
    assert_eq!(
        spec.histogram(&[0, 0, 1, 1, 2, 2, 3, 3]).unwrap(),
        vec![2, 2, 2, 2]
    );
}

#[test]
fn top_bitmap_marks_only_the_top_bucket() {
    let code = BucketCode::from_ranks(8, 4, &[0, 1, 2, 3, 4, 5, 6, 7]).unwrap();
    assert_eq!(
        code.top_bitmap(),
        vec![false, false, false, false, false, false, true, true]
    );
}

#[test]
fn from_vector_matches_from_ranks_for_sorted_input() {
    // A strictly increasing vector has ranks [0, 1, ..., dim-1], so the
    // codes must match the from_ranks path on that identity permutation.
    let v: Vec<f32> = (0..8).map(|i| i as f32).collect();
    let code = BucketCode::from_vector(8, 2, &bits(&v)).unwrap();
    assert_eq!(code.codes(), &[0, 0, 1, 1, 2, 2, 3, 3]);

    let via_ranks = BucketCode::from_ranks(8, 4, &[0, 1, 2, 3, 4, 5, 6, 7]).unwrap();
    assert_eq!(code.codes(), via_ranks.codes());
}

#[test]
fn from_vector_buckets_are_balanced() {
    // Arbitrary finite vector: the codes must still satisfy the
    // constant-composition invariant (dim / buckets per bucket).
    let v = [3.0f32, 1.0, 4.0, 1.5, 5.0, 9.0, 2.0, 6.0];
    let code = BucketCode::from_vector(8, 2, &bits(&v)).unwrap();
    assert_eq!(code.spec().validate_codes(code.codes()), Ok(()));
    assert_eq!(
        code.spec().histogram(code.codes()).unwrap(),
        vec![2, 2, 2, 2]
    );
}

#[test]
fn from_vector_rejects_wrong_length() {
    assert_eq!(
        BucketCode::from_vector(8, 2, &bits(&[0.0, 1.0, 2.0])).unwrap_err(),
        CompositionViolation::WrongLength {
            expected: 8,
            actual: 3,
        }
    );
}

#[test]
fn from_vector_rejects_non_finite() {
    let v = [0.0f32, 1.0, f32::NAN, 3.0, 4.0, 5.0, 6.0, 7.0];
    assert_eq!(
        BucketCode::from_vector(8, 2, &bits(&v)).unwrap_err(),
        CompositionViolation::NonFiniteValue { coordinate: 2 }
    );
}

#[test]
fn from_vector_rejects_invalid_bits() {
    let v: Vec<f32> = (0..8).map(|i| i as f32).collect();
    assert_eq!(
        BucketCode::from_vector(8, 3, &bits(&v)).unwrap_err(),
        CompositionViolation::InvalidBits { bits: 3 }
    );
}

#[test]
fn display_is_stable_for_each_variant() {
    // The error type is part of the public surface; spot-check the
    // human-readable rendering does not panic and carries the detail.
    let cases = [
        CompositionViolation::InvalidSpec("dim must be > 0"),
        CompositionViolation::InvalidBits { bits: 3 },
        CompositionViolation::DimTooLarge {
            dim: 70000,
            max: 65535,
        },
        CompositionViolation::NonUniformSpec {
            dim: 10,
            buckets: 4,
        },
        CompositionViolation::WrongLength {
            expected: 8,
            actual: 7,
        },
        CompositionViolation::BucketOutOfRange {
            coordinate: 7,
            bucket: 4,
            buckets: 4,
        },
        CompositionViolation::WrongBucketCount {
            bucket: 0,
            expected: 2,
            actual: 3,
        },
        CompositionViolation::RankOutOfRange {
            coordinate: 0,
            rank: 4,
            dim: 4,
        },
        CompositionViolation::DuplicateRank { rank: 1 },
        CompositionViolation::NonFiniteValue { coordinate: 2 },
    ];
    for case in cases {
        assert!(!case.message().is_empty());
    }
}
