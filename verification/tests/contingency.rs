//! Contingency tables and their projections.

use ordvec::contingency::{Contingency, Projection};
use ordvec::error::OrdvecError;

/// A score in quarters as a number.
fn units(quarters: i64) -> f32 {
    quarters as f32 / 4.0
}

/// query = [0,0,1,1,2,2,3,3], doc = [3,3,2,2,1,1,0,0] (reverse), nb = 4.
#[test]
fn parity_counts_bucket_intersections() {
    let query = [0u8, 0, 1, 1, 2, 2, 3, 3];
    let doc = [3u8, 3, 2, 2, 1, 1, 0, 0];
    let c = Contingency::new(&query, &doc, 4).unwrap();

    assert_eq!(c.count(0, 3), 2);
    assert_eq!(c.count(3, 0), 2);
    assert_eq!(c.top_overlap(), 0);
    assert_eq!(c.diagonal_agreement(), 0);
}

/// query = [0,0,1,1,2,2,3,3], doc = [0,1,1,2,2,3,3,0], nb = 4.
#[test]
fn parity_projections() {
    let query = [0u8, 0, 1, 1, 2, 2, 3, 3];
    let doc = [0u8, 1, 1, 2, 2, 3, 3, 0];
    let c = Contingency::new(&query, &doc, 4).unwrap();

    assert_eq!(units(Projection::TopOverlap.score(&c)), 1.0);
    assert_eq!(units(Projection::DiagonalAgreement.score(&c)), 4.0);
    assert_eq!(units(Projection::BandAgreement { radius: 1 }.score(&c)), 7.0);
    assert_eq!(units(Projection::TopGroupOverlap { width: 2 }.score(&c)), 3.0);
    assert_eq!(units(Projection::BucketL1Distance.score(&c)), 6.0);
    assert_eq!(units(Projection::RankQuantSymmetric.score(&c)), 4.0);

    // Direct-accessor parity (same values, non-enum surface).
    assert_eq!(c.top_overlap(), 1);
    assert_eq!(c.diagonal_agreement(), 4);
    assert_eq!(c.band_agreement(1), 7);
    assert_eq!(c.top_group_overlap(2), 3);
    assert_eq!(c.bucket_l1_distance(), 6);
    assert_eq!(units(c.rankquant_symmetric_score()), 4.0);
}

#[test]
fn band_agreement_saturates_on_huge_radius() {
    // `radius` is uncapped public input; a near-`usize::MAX` value must not
    // overflow `qb + radius`. It should clamp to the whole table.
    let query = [0u8, 0, 1, 1, 2, 2, 3, 3];
    let doc = [0u8, 1, 1, 2, 2, 3, 3, 0];
    let c = Contingency::new(&query, &doc, 4).unwrap();
    assert_eq!(c.band_agreement(usize::MAX), c.total_count());
}

/// `bucket_l1_distance` must not overflow for constructor-accepted inputs.
/// All mass in the maximum-distance cell at `dim = u32::MAX` (the largest
/// accepted `dim`) gives `(nb-1)·dim`, which exceeds `u32::MAX`. Built
/// directly because a `u32::MAX`-length input slice is impractical to
/// allocate — this is exactly the table such an input would produce.
#[test]
fn bucket_l1_distance_does_not_overflow_u32() {
    let nb = 16usize;
    let mut counts = vec![0u32; nb * nb];
    counts[nb - 1] = u32::MAX; // C[0][nb-1]: query bucket 0, doc bucket nb-1
    let c = Contingency::from_counts(nb, counts).unwrap();
    let expected = (nb as u64 - 1) * u64::from(u32::MAX); // 15 · 4_294_967_295
    assert!(
        expected > u64::from(u32::MAX),
        "fixture must exceed u32 to be a real regression"
    );
    assert_eq!(c.bucket_l1_distance(), expected);
}

/// Every row and column margin is the bucket occupancy.
#[test]
fn parity_fixed_margins() {
    let query = [0u8, 0, 1, 1, 2, 2, 3, 3];
    let doc = [0u8, 1, 1, 2, 2, 3, 3, 0];
    let c = Contingency::new(&query, &doc, 4).unwrap();

    assert_eq!(c.total_count(), 8);
    for bucket in 0..4 {
        assert_eq!(c.row_sum(bucket), 2);
        assert_eq!(c.column_sum(bucket), 2);
    }
}

/// The table-projected score equals the per-coordinate centred sum.
#[test]
fn parity_rankquant_matches_direct_centered_sum() {
    let query = [0u8, 0, 1, 1, 2, 2, 3, 3];
    let doc = [0u8, 1, 1, 2, 2, 3, 3, 0];
    let c = Contingency::new(&query, &doc, 4).unwrap();

    let centre = 1.5f32;
    let direct: f32 = query
        .iter()
        .zip(doc.iter())
        .map(|(&q, &d)| (f32::from(q) - centre) * (f32::from(d) - centre))
        .sum();

    assert_eq!(units(c.rankquant_symmetric_score()), direct);
}

/// coarsened_counts(2) = [3, 1, 1, 3], total = 8.
#[test]
fn parity_coarsened_counts() {
    let query = [0u8, 0, 1, 1, 2, 2, 3, 3];
    let doc = [0u8, 1, 1, 2, 2, 3, 3, 0];
    let c = Contingency::new(&query, &doc, 4).unwrap();

    assert_eq!(c.coarsened_counts(2), vec![3, 1, 1, 3]);
    assert_eq!(c.coarsened_counts(2).iter().sum::<u32>(), 8);
}

/// Constructor input validation.
#[test]
fn rejects_mismatched_lengths() {
    let err = Contingency::new(&[0u8, 1], &[0u8, 1, 2], 4).unwrap_err();
    assert!(matches!(err, OrdvecError::InvalidVectorLength { .. }));
}

#[test]
fn rejects_zero_buckets() {
    let err = Contingency::new(&[0u8], &[0u8], 0).unwrap_err();
    assert!(matches!(
        err,
        OrdvecError::InvalidParameter { name: "nb", .. }
    ));
}

#[test]
fn rejects_more_than_256_buckets() {
    // `nb` is a caller-supplied usize; codes are u8, so nb > 256 is rejected
    // before the nb*nb allocation (a large nb would otherwise abort the host).
    let err = Contingency::new(&[0u8], &[0u8], 300).unwrap_err();
    assert!(matches!(
        err,
        OrdvecError::InvalidParameter { name: "nb", .. }
    ));
    // 256 is the boundary and is accepted.
    assert!(Contingency::new(&[0u8], &[0u8], 256).is_ok());
}

#[test]
fn rejects_out_of_range_code() {
    // doc has a code (4) >= nb (4).
    let err = Contingency::new(&[0u8, 1, 2, 3], &[0u8, 1, 2, 4], 4).unwrap_err();
    assert!(matches!(
        err,
        OrdvecError::InvalidParameter { name: "code", .. }
    ));
}

/// A long, randomised case against an independent histogram.
#[test]
fn simd_path_matches_scalar_reference() {
    for &len in &[64usize, 200, 256, 1000] {
        for nb in [2usize, 4, 8, 16] {
            let mut seed = 0x9E3779B9u32 ^ (len as u32).wrapping_mul(2654435761);
            let mut next = || {
                // xorshift32, deterministic, no rng dependency.
                seed ^= seed << 13;
                seed ^= seed >> 17;
                seed ^= seed << 5;
                seed
            };
            let query: Vec<u8> = (0..len).map(|_| (next() as usize % nb) as u8).collect();
            let doc: Vec<u8> = (0..len).map(|_| (next() as usize % nb) as u8).collect();

            let got = Contingency::new(&query, &doc, nb).unwrap();

            // Independent scalar reference.
            let mut want = vec![0u32; nb * nb];
            for (&q, &d) in query.iter().zip(doc.iter()) {
                want[q as usize * nb + d as usize] += 1;
            }
            assert_eq!(
                got.counts(),
                want.as_slice(),
                "contingency table mismatch at len={len}, nb={nb}",
            );
            assert_eq!(got.total_count(), len as u32);
        }
    }
}

/// 256 buckets: every u8 code is in range.
#[test]
fn large_nb_uses_scalar_and_skips_range_scan() {
    let query = [0u8, 5, 200, 255];
    let doc = [255u8, 200, 5, 0];
    let c = Contingency::new(&query, &doc, 256).unwrap();
    assert_eq!(c.buckets(), 256);
    assert_eq!(c.count(0, 255), 1);
    assert_eq!(c.count(255, 0), 1);
    assert_eq!(c.count(200, 5), 1);
    assert_eq!(c.count(5, 200), 1);
    assert_eq!(c.total_count(), 4);
}

/// `project` with a hand-built weight matrix recovers the named projections it
/// generalises. Weights and scores are in quarters.
#[test]
fn project_generalises_named_projections() {
    let query = [0u8, 0, 1, 1, 2, 2, 3, 3];
    let doc = [0u8, 1, 1, 2, 2, 3, 3, 0];
    let c = Contingency::new(&query, &doc, 4).unwrap();
    let nb = 4;

    // Unit-diagonal weights ⇒ diagonal_agreement.
    let mut diag = vec![0i64; nb * nb];
    for a in 0..nb {
        diag[a * nb + a] = 4;
    }
    assert_eq!(units(c.project(&diag) as i64), c.diagonal_agreement() as f32);

    // Centred outer-product weights ⇒ rankquant_symmetric_score.
    let centre = (nb as f32 - 1.0) / 2.0;
    let mut outer = vec![0i64; nb * nb];
    for a in 0..nb {
        for b in 0..nb {
            outer[a * nb + b] = ((a as f32 - centre) * (b as f32 - centre) * 4.0) as i64;
        }
    }
    assert_eq!(c.project(&outer), i128::from(c.rankquant_symmetric_score()));

    // A fully custom learned matrix: weighted dot product over cells.
    let learned: Vec<f32> = (0..(nb * nb)).map(|i| i as f32 * 0.5).collect();
    let quarters: Vec<i64> = learned.iter().map(|w| (w * 4.0) as i64).collect();
    let expected: f32 = (0..(nb * nb))
        .map(|i| learned[i] * c.counts()[i] as f32)
        .sum();
    assert_eq!(units(c.project(&quarters) as i64), expected);
}

#[test]
fn top_cell_is_the_overlap_of_the_top_bitmaps() {
    let query = [0u8, 0, 1, 1, 2, 2, 3, 3];
    let doc = [0u8, 1, 1, 2, 2, 3, 3, 0];
    let c = Contingency::new(&query, &doc, 4).unwrap();
    let shared = query
        .iter()
        .zip(doc.iter())
        .filter(|(&q, &d)| q == 3 && d == 3)
        .count();
    assert_eq!(c.top_overlap() as usize, shared);
    assert_eq!(c.band_agreement(0), c.diagonal_agreement());
}
