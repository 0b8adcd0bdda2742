//! The rank transform, its buckets and their packing.

use ordvec::float_bits::F32Bits;
use ordvec::rank::{
    bucket_centre, bucket_ranks, n_levels, pack_buckets, rank_norm, rank_to_bucket, rank_transform,
    rank_transform_into, rankquant_bytes_per_vec, rankquant_norm, unpack_buckets,
};

fn bits(values: &[f32]) -> Vec<F32Bits> {
    values.iter().map(|v| F32Bits::from_bits(v.to_bits())).collect()
}

/// The centre of a bucket, which the library gives doubled.
fn centre(bucket: u8, width: u8) -> f32 {
    bucket_centre(bucket, width) as f32 / 2.0
}

/// A norm, whose square the library gives twelvefold.
fn norm(twelve_squares: u128) -> f32 {
    (twelve_squares as f64 / 12.0).sqrt() as f32
}

#[test]
fn rank_transform_matches_numpy_argsort_argsort() {
    // argsort = [1, 3, 6, 0, 2, 4, 7, 5]
    // argsort(argsort) = [3, 0, 4, 1, 5, 7, 2, 6]
    let v = [3.0, 1.0, 4.0, 1.5, 5.0, 9.0, 2.0, 6.0];
    let r = rank_transform(&bits(&v));
    assert_eq!(r, vec![3, 0, 4, 1, 5, 7, 2, 6]);
}

#[test]
fn rank_transform_is_permutation() {
    let v: Vec<f32> = (0..256).map(|i| (i as f32 * 7.0).sin()).collect();
    let r = rank_transform(&bits(&v));
    let mut sorted = r.clone();
    sorted.sort();
    let expected: Vec<u16> = (0..256u16).collect();
    assert_eq!(sorted, expected);
}

#[test]
fn ties_broken_by_index() {
    let v = [1.0_f32, 1.0, 1.0, 1.0];
    let r = rank_transform(&bits(&v));
    assert_eq!(r, vec![0, 1, 2, 3]);
}

#[test]
fn duplicate_values_tie_by_original_index() {
    let v = [3.0_f32, 1.0, 3.0, 2.0, 1.0];
    let r = rank_transform(&bits(&v));
    assert_eq!(r, vec![3, 0, 4, 2, 1]);
}

#[test]
fn signed_zeroes_tie_by_original_index() {
    let v = [0.0_f32, -0.0, 1.0, -0.0, 0.0];
    let r = rank_transform(&bits(&v));
    assert_eq!(r, vec![0, 1, 4, 2, 3]);
}

#[test]
fn rank_to_bucket_partitions_uniformly() {
    let d = 1024;
    let bits = 2u8;
    let mut counts = [0usize; 4];
    for rank in 0..d as u16 {
        let b = rank_to_bucket(rank, d, bits);
        counts[b as usize] += 1;
    }
    for c in counts {
        assert_eq!(c, d / 4);
    }
}

#[test]
fn rank_to_bucket_large_d_does_not_divide_by_zero() {
    if usize::BITS == 64 {
        // A `d` above `u32::MAX` must not be cut down to 32 bits.
        let huge_d = 1usize << 40;
        assert_eq!(rank_to_bucket(0, huge_d, 2), 0);
        assert!(rank_to_bucket(u16::MAX, huge_d, 2) < 4);
    }
}

#[test]
fn bucket_ranks_accepts_bits_8() {
    // b=8 is a supported width: a 4-element rank vector buckets without
    // panicking and yields codes in [0, 256).
    let codes = bucket_ranks(&[0, 1, 2, 3], 8);
    assert_eq!(codes.len(), 4);
}

#[test]
fn pack_unpack_round_trip_bits2() {
    let buckets: Vec<u8> = (0..16).map(|i| (i % 4) as u8).collect();
    let packed = pack_buckets(&buckets, 2);
    assert_eq!(packed.len(), 4);
    let unpacked = unpack_buckets(&packed, 16, 2);
    assert_eq!(unpacked, buckets);
}

#[test]
fn pack_unpack_round_trip_bits1() {
    let buckets: Vec<u8> = (0..16).map(|i| (i % 2) as u8).collect();
    let packed = pack_buckets(&buckets, 1);
    assert_eq!(packed.len(), 2);
    let unpacked = unpack_buckets(&packed, 16, 1);
    assert_eq!(unpacked, buckets);
}

#[test]
fn pack_unpack_round_trip_bits4() {
    let buckets: Vec<u8> = (0..16).map(|i| (i % 16) as u8).collect();
    let packed = pack_buckets(&buckets, 4);
    assert_eq!(packed.len(), 8);
    let unpacked = unpack_buckets(&packed, 16, 4);
    assert_eq!(unpacked, buckets);
}

#[test]
fn pack_unpack_round_trip_bits8() {
    // b=8 packs one code per byte: the bytes are the codes verbatim, over the
    // full code range.
    let buckets: Vec<u8> = (0..256).map(|i| i as u8).collect();
    let packed = pack_buckets(&buckets, 8);
    assert_eq!(packed.len(), 256, "b=8 stores one byte per code");
    assert_eq!(packed, buckets, "b=8 packing is the identity byte stream");
    let unpacked = unpack_buckets(&packed, 256, 8);
    assert_eq!(unpacked, buckets);
}

#[test]
fn pack_unpack_round_trip_bits8_arbitrary_len() {
    // Any `d` is a valid b=8 length; 384 is not a multiple of 256 yet still
    // round-trips.
    let buckets: Vec<u8> = (0..384u16).map(|i| (i % 256) as u8).collect();
    let packed = pack_buckets(&buckets, 8);
    assert_eq!(packed.len(), 384);
    let unpacked = unpack_buckets(&packed, 384, 8);
    assert_eq!(unpacked, buckets);
}

#[test]
fn rank_to_bucket_b8_spans_full_byte_range() {
    // rank in [0, d) with bits=8 must land in [0, 256). Check the extremes
    // and that the top rank maps to the top bucket for d == 256.
    let d = 256usize;
    assert_eq!(rank_to_bucket(0, d, 8), 0);
    assert_eq!(rank_to_bucket(255, d, 8), 255);
    // A coarser d still keeps the quotient in range.
    assert!(rank_to_bucket(383, 384, 8) < 255 || rank_to_bucket(383, 384, 8) == 255);
    for rank in 0..d as u16 {
        let _ = rank_to_bucket(rank, d, 8); // never panics, always < 256
    }
}

#[test]
fn bucket_centre_b8_is_symmetric_around_zero() {
    // For b=8 the 256 centres span -127.5 ..= +127.5 and sum to 0.
    assert_eq!(centre(0, 8), -127.5);
    assert_eq!(centre(255, 8), 127.5);
    let sum: f32 = (0..256u16).map(|b| centre(b as u8, 8)).sum();
    assert!(sum.abs() < 1e-3, "b=8 centres should sum to ~0, got {sum}");
}

#[test]
fn rankquant_norm_b8_matches_direct_computation() {
    // d % 256 == 0 so every bucket gets exactly d/256 entries and the
    // analytical norm is exact.
    let d = 512usize;
    let bits = 8u8;
    let analytical = norm(rankquant_norm(d, bits));
    let ranks: Vec<u16> = (0..d as u16).collect();
    let buckets = bucket_ranks(&ranks, bits);
    let centred: Vec<f32> = buckets.iter().map(|&b| centre(b, bits)).collect();
    let direct: f32 = centred.iter().map(|x| x * x).sum::<f32>().sqrt();
    assert!(
        (analytical - direct).abs() / direct < 1e-5,
        "analytical {analytical}, direct {direct}"
    );
}

#[test]
fn bucket_centres_are_symmetric_around_zero() {
    // For B = 2: bucket values are {-1.5, -0.5, +0.5, +1.5}.
    let centres: Vec<f32> = (0..4u8).map(|b| centre(b, 2)).collect();
    assert_eq!(centres, vec![-1.5, -0.5, 0.5, 1.5]);
    let sum: f32 = centres.iter().sum();
    assert!(sum.abs() < 1e-6);
}

#[test]
fn rank_norm_matches_direct_computation() {
    let d = 1024usize;
    let analytical = norm(rank_norm(d));
    let direct: f32 = {
        let mean = (d as f32 - 1.0) / 2.0;
        let ss: f32 = (0..d)
            .map(|i| {
                let c = i as f32 - mean;
                c * c
            })
            .sum();
        ss.sqrt()
    };
    assert!(
        (analytical - direct).abs() / direct < 1e-5,
        "analytical {analytical}, direct {direct}"
    );
}

#[test]
fn rankquant_norm_matches_direct_computation() {
    let d = 1024usize;
    let bits = 2u8;
    let analytical = norm(rankquant_norm(d, bits));
    // Build the bucketed vector of an ideal permutation and measure
    // its mean-centred L2 norm directly.
    let ranks: Vec<u16> = (0..d as u16).collect();
    let buckets = bucket_ranks(&ranks, bits);
    let centred: Vec<f32> = buckets.iter().map(|&b| centre(b, bits)).collect();
    let direct: f32 = centred.iter().map(|x| x * x).sum::<f32>().sqrt();
    assert!(
        (analytical - direct).abs() / direct < 1e-5,
        "analytical {analytical}, direct {direct}"
    );
}

#[test]
fn bucket_centre_accepts_bits_8() {
    // b=8 centres are valid: code 0 → -127.5, code 255 → +127.5.
    assert_eq!(centre(0, 8), -127.5);
    assert_eq!(centre(255, 8), 127.5);
}

#[test]
fn norms_are_exact_integers() {
    // Four ranks centre to ±1.5 and ±0.5, whose squares sum to 5.
    assert_eq!(rank_norm(4), 12 * 5);
    // Eight coordinates in four buckets of two: twice the sum above.
    assert_eq!(rankquant_norm(8, 2), 12 * 10);
}

#[test]
fn ranks_depend_on_the_order_of_the_values_only() {
    // A strictly increasing map of the coordinates leaves the ranks alone.
    let v: Vec<f32> = (0..64).map(|i| ((i * 29 % 64) as f32 - 30.0) * 0.25).collect();
    let w: Vec<f32> = v.iter().map(|x| x * x * x + 2.0 * x).collect();
    assert_eq!(rank_transform(&bits(&v)), rank_transform(&bits(&w)));
}

#[test]
fn rank_transform_into_fills_the_given_slice() {
    let v = [0.5f32, -2.0, 7.0];
    let mut out = [9u16; 3];
    rank_transform_into(&bits(&v), &mut out);
    assert_eq!(out, [1, 0, 2]);
}

#[test]
fn levels_and_document_sizes() {
    assert_eq!(n_levels(1), 2);
    assert_eq!(n_levels(8), 256);
    assert_eq!(rankquant_bytes_per_vec(1024, 2), 256);
    assert_eq!(rankquant_bytes_per_vec(1024, 1), 128);
    assert_eq!(rankquant_bytes_per_vec(1024, 4), 512);
}

#[test]
fn codes_of_a_byte_are_packed_from_the_high_end() {
    assert_eq!(pack_buckets(&[1, 2, 3, 0], 2), vec![0b01_10_11_00]);
    assert_eq!(pack_buckets(&[5, 12], 4), vec![0x5C]);
}
