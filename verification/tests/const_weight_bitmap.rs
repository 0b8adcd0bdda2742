//! Constant-weight bitmaps and their null space.

use ordvec::binomial::{binomial, checked_binomial};
use ordvec::bucket_code::{BucketCode, CompositionSpec};
use ordvec::const_weight_bitmap::{
    top_group_overlap_vector, BitmapNull, ConstantWeightBitmap, PackedConstantWeightBitmap,
};
use ordvec::contingency::Contingency;

/// Build a `dim`-length, 4-bucket code from raw bucket ids.
fn code(values: &[u8]) -> BucketCode {
    BucketCode::new(
        CompositionSpec::new(values.len(), 4).unwrap(),
        values.to_vec(),
    )
    .unwrap()
}

/// Shared set bits of two packed bitmaps, counted word by word.
fn naive_packed_overlap(
    a: &PackedConstantWeightBitmap,
    b: &PackedConstantWeightBitmap,
) -> usize {
    a.words()
        .iter()
        .zip(b.words())
        .map(|(x, y)| (x & y).count_ones() as usize)
        .sum()
}

#[test]
fn top_bitmap_has_expected_constant_weight() {
    let code = code(&[0, 0, 1, 1, 2, 2, 3, 3]);
    let bitmap = ConstantWeightBitmap::from_top_bucket(&code);

    assert_eq!(bitmap.dim(), 8);
    assert_eq!(bitmap.weight(), 2);
}

#[test]
fn top_overlap_matches_naive_top_top_count() {
    let query = code(&[0, 0, 1, 1, 2, 2, 3, 3]);
    let doc = code(&[0, 1, 1, 2, 2, 3, 3, 0]);
    let query_bitmap = ConstantWeightBitmap::from_top_bucket(&query);
    let doc_bitmap = ConstantWeightBitmap::from_top_bucket(&doc);

    // The top-top overlap is 1.
    assert_eq!(query_bitmap.overlap(&doc_bitmap), 1);
}

#[test]
fn packed_top_overlap_matches_naive_top_top_count() {
    let query = code(&[0, 0, 1, 1, 2, 2, 3, 3]);
    let doc = code(&[0, 1, 1, 2, 2, 3, 3, 0]);
    let query_bitmap = PackedConstantWeightBitmap::from_top_group(&query, 1);
    let doc_bitmap = PackedConstantWeightBitmap::from_top_group(&doc, 1);

    assert_eq!(query_bitmap.dim(), 8);
    assert_eq!(query_bitmap.weight(), 2);
    // The top-top overlap is 1.
    assert_eq!(query_bitmap.overlap(&doc_bitmap), 1);
    assert_eq!(
        query_bitmap.overlap(&doc_bitmap),
        naive_packed_overlap(&query_bitmap, &doc_bitmap)
    );
}

#[test]
fn top_group_overlap_vector_uses_popcount_backed_bitmaps() {
    let query = code(&[0, 0, 1, 1, 2, 2, 3, 3]);
    let doc = code(&[0, 1, 1, 2, 2, 3, 3, 0]);

    assert_eq!(
        top_group_overlap_vector(&query, &doc, &[1, 2, 4]),
        [1, 3, 8]
    );
}

#[test]
fn bitmap_null_fibers_sum_to_space_size() {
    let null = BitmapNull::new(10, 3);
    let fiber_sum: u128 = (0..=3).map(|overlap| null.fiber_count(overlap)).sum();

    assert_eq!(fiber_sum, binomial(10, 3));
    assert_eq!(null.space_size(), binomial(10, 3));
}

#[test]
fn bitmap_tail_counts_have_boundary_values_and_are_monotone() {
    let null = BitmapNull::new(10, 3);

    assert_eq!(null.tail_count(0), binomial(10, 3));
    assert_eq!(null.tail_count(4), 0);
    assert!(null.tail_count(2) <= null.tail_count(1));
    assert!(null.tail_count(3) <= null.tail_count(2));
}

#[test]
fn null_fibers_partition_space_for_several_params() {
    // The fibers of the overlap statistic partition the whole space, so
    // their counts must sum to C(dim, weight) for every (dim, weight).
    for (dim, weight) in [(8, 2), (10, 3), (16, 4), (20, 5), (32, 8), (5, 0), (5, 5)] {
        let null = BitmapNull::new(dim, weight);
        let fiber_sum: u128 = (0..=weight).map(|o| null.fiber_count(o)).sum();
        assert_eq!(
            fiber_sum,
            null.space_size(),
            "fibers must partition the space for (dim={dim}, weight={weight})"
        );
    }
}

#[test]
fn overlap_parity_const_vs_packed_vs_naive() {
    // The three overlap definitions — bool-bitmap shared-set-bit count,
    // packed AND-popcount (via util::and_popcount), and the standalone
    // naive packed reference — must all agree for the same codes, across
    // every top-group width.
    let query = code(&[0, 0, 1, 1, 2, 2, 3, 3]);
    let doc = code(&[3, 2, 1, 0, 0, 1, 2, 3]);

    for width in 1..=4 {
        let packed_q = PackedConstantWeightBitmap::from_top_group(&query, width);
        let packed_d = PackedConstantWeightBitmap::from_top_group(&doc, width);
        let packed_overlap = packed_q.overlap(&packed_d);
        let naive = naive_packed_overlap(&packed_q, &packed_d);
        assert_eq!(packed_overlap, naive, "packed vs naive at width {width}");

        if width == 1 {
            // Width 1 is exactly the top bucket — the bool bitmap path.
            let const_q = ConstantWeightBitmap::from_top_bucket(&query);
            let const_d = ConstantWeightBitmap::from_top_bucket(&doc);
            assert_eq!(
                const_q.overlap(&const_d),
                packed_overlap,
                "bool vs packed at the top bucket"
            );
        }
    }
}

#[test]
fn packed_overlap_handles_multi_word_dim() {
    // dim = 128 spans two u64 words, exercising the shared and_popcount
    // reduction across word boundaries. A 4-bucket code over 128 coords
    // puts 32 coordinates in the top bucket; overlapping a code with
    // itself yields exactly its weight.
    let values: Vec<u8> = (0..128).map(|i| (i % 4) as u8).collect();
    let code = BucketCode::new(CompositionSpec::new(128, 4).unwrap(), values).unwrap();
    let bitmap = PackedConstantWeightBitmap::from_top_group(&code, 1);
    assert_eq!(bitmap.dim(), 128);
    assert_eq!(bitmap.words().len(), 2);
    assert_eq!(bitmap.weight(), 32);
    assert_eq!(bitmap.overlap(&bitmap), 32);
}

#[test]
fn choose_matches_known_small_binomials() {
    assert_eq!(binomial(0, 0), 1);
    assert_eq!(binomial(5, 0), 1);
    assert_eq!(binomial(5, 5), 1);
    assert_eq!(binomial(5, 2), 10);
    assert_eq!(binomial(10, 3), 120);
    assert_eq!(binomial(6, 3), 20);
    assert_eq!(binomial(52, 5), 2_598_960);
    // k > n is empty.
    assert_eq!(binomial(3, 4), 0);
}

#[test]
fn choose_is_symmetric() {
    for n in 0..=30usize {
        for k in 0..=n {
            assert_eq!(
                binomial(n, k),
                binomial(n, n - k),
                "C({n},{k}) == C({n},{})",
                n - k
            );
        }
    }
}

#[test]
fn choose_extends_range_via_gcd_cancellation() {
    // C(128, 64) fits u128 but the naive multiply-then-divide recurrence
    // overflows the intermediate product; gcd-cancellation computes it.
    // Validate via Pascal's identity (no huge literal): C(n,k)=C(n-1,k-1)+C(n-1,k).
    assert_eq!(binomial(128, 64), binomial(127, 63) + binomial(127, 64));
    assert!(binomial(128, 64) > 0);
}

#[test]
fn binomial_overflow_is_reported() {
    // C(300, 150) is far beyond u128::MAX.
    assert_eq!(checked_binomial(300, 150), None);
    assert_eq!(checked_binomial(128, 64), Some(binomial(128, 64)));
}

#[test]
fn fiber_count_zero_outside_feasible_overlap() {
    let null = BitmapNull::new(10, 3);
    // An overlap larger than the weight is impossible.
    assert_eq!(null.fiber_count(4), 0);
    // Exactly the weight: all set bits coincide — there is exactly one such
    // bitmap (the fixed one itself).
    assert_eq!(null.fiber_count(3), 1);
}

#[test]
fn tail_probability_is_well_formed() {
    // tail_count(0) / space_size == 1; the tail at every threshold is a
    // valid fraction of the space.
    let null = BitmapNull::new(16, 4);
    let space = null.space_size();
    assert_eq!(null.tail_count(0), space);
    for threshold in 0..=5 {
        assert!(null.tail_count(threshold) <= space);
    }
}

#[test]
fn top_groups_are_bucket_ranges() {
    let values: Vec<u8> = (0..136).map(|j| ((j * 37 + 11) % 136 / 34) as u8).collect();
    let code = code(&values);
    for width in 1..=4usize {
        let group = PackedConstantWeightBitmap::from_top_group(&code, width);
        let range = PackedConstantWeightBitmap::from_bucket_range(&code, 4 - width, 3);
        assert_eq!(group.dim(), range.dim());
        assert_eq!(group.words(), range.words());
        assert_eq!(group.weight(), 34 * width);
    }
    let top = ConstantWeightBitmap::from_top_bucket(&code);
    let packed = PackedConstantWeightBitmap::from_top_group(&code, 1);
    for (j, &set) in top.bits().iter().enumerate() {
        assert_eq!((packed.words()[j / 64] >> (j % 64)) & 1 == 1, set);
    }
}

#[test]
fn overlap_is_symmetric_and_full_on_itself() {
    let query = code(&[0, 0, 1, 1, 2, 2, 3, 3]);
    let doc = code(&[3, 2, 1, 0, 0, 1, 2, 3]);
    for width in 1..=4 {
        let a = PackedConstantWeightBitmap::from_top_group(&query, width);
        let b = PackedConstantWeightBitmap::from_top_group(&doc, width);
        assert_eq!(a.overlap(&b), b.overlap(&a));
        assert_eq!(a.overlap(&a), a.weight());
        assert!(a.overlap(&b) <= a.weight());
    }
    let a = ConstantWeightBitmap::from_top_bucket(&query);
    let b = ConstantWeightBitmap::from_top_bucket(&doc);
    assert_eq!(a.overlap(&b), b.overlap(&a));
    assert_eq!(a.overlap(&a), 2);
}

#[test]
fn overlap_vector_is_the_contingency_top_blocks() {
    let query = [0u8, 0, 1, 1, 2, 2, 3, 3];
    let doc = [0u8, 1, 1, 2, 2, 3, 3, 0];
    let table = Contingency::new(&query, &doc, 4).unwrap();
    let overlaps = top_group_overlap_vector(&code(&query), &code(&doc), &[1, 2, 3, 4]);
    for (i, &n) in overlaps.iter().enumerate() {
        assert_eq!(table.top_group_overlap(i + 1) as usize, n);
        assert!(i == 0 || overlaps[i - 1] <= n);
    }
    assert_eq!(overlaps[3], 8);
}

#[test]
fn no_widths_give_no_overlaps() {
    let four = code(&[0, 1, 2, 3]);
    let eight = code(&[0, 0, 1, 1, 2, 2, 3, 3]);
    assert!(top_group_overlap_vector(&four, &eight, &[]).is_empty());
}
