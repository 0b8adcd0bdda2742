//! Multi-bucket bitmaps and their bilinear projections.

use ordvec::contingency::Contingency;
use ordvec::float_bits::F32Bits;
use ordvec::multi_bucket::MultiBucketBitmap;
use rand::{RngExt, SeedableRng};
use rand_chacha::ChaCha8Rng;

fn bits(values: &[f32]) -> Vec<F32Bits> {
    values.iter().map(|v| F32Bits::from_bits(v.to_bits())).collect()
}

fn doc_codes(idx: &MultiBucketBitmap, doc_idx: usize) -> Vec<u8> {
    let nb = idx.n_buckets();
    let qpb = idx.dim() / 64;
    let dim = idx.dim();
    query_codes(&idx.bitmaps()[doc_idx * nb * qpb..(doc_idx + 1) * nb * qpb], nb, qpb, dim)
}

/// The bucket codes that bitmaps hold.
fn query_codes(q_bitmaps: &[u64], nb: usize, qpb: usize, dim: usize) -> Vec<u8> {
    let mut codes = vec![0u8; dim];
    for b in 0..nb {
        let off = b * qpb;
        for j in 0..dim {
            if (q_bitmaps[off + j / 64] >> (j % 64)) & 1 == 1 {
                codes[j] = b as u8;
            }
        }
    }
    codes
}

/// The full table, cell by cell and word by word.
fn reference_table(q_bitmaps: &[u64], doc: &[u64], nb: usize, qpb: usize) -> Vec<u32> {
    let mut table = vec![0u32; nb * nb];
    for a in 0..nb {
        for b in 0..nb {
            let mut overlap = 0u32;
            for w in 0..qpb {
                overlap += (q_bitmaps[a * qpb + w] & doc[b * qpb + w]).count_ones();
            }
            table[a * nb + b] = overlap;
        }
    }
    table
}

fn make_corpus(seed: u64, n: usize, dim: usize) -> Vec<F32Bits> {
    let mut rng = ChaCha8Rng::seed_from_u64(seed);
    let values: Vec<f32> = (0..n * dim).map(|_| rng.random_range(-1.0..1.0)).collect();
    bits(&values)
}

/// A table under a weight matrix.
fn project(table: &[u32], nb: usize, w: &[i64]) -> i128 {
    Contingency::from_counts(nb, table.to_vec()).unwrap().project(w)
}

#[test]
fn parity_scalar_simd_diagonal_dense() {
    for &dim in &[384usize, 768, 1024] {
        for bits in [2u8, 4u8] {
            let nb = 1usize << bits;
            let qpb = dim / 64;
            let n = 24;
            let corpus = make_corpus(0xC0FFEE ^ dim as u64 ^ (bits as u64) << 32, n, dim);
            let mut idx = MultiBucketBitmap::new(dim, bits);
            idx.add(&corpus);

            let query = make_corpus(0x5EED ^ dim as u64, 1, dim);
            let q_bitmaps = idx.query_bitmaps_from_ranks(&query);
            let q_codes = query_codes(&q_bitmaps, nb, qpb, dim);

            for di in 0..n {
                let doc_base = di * nb * qpb;
                let doc = &idx.bitmaps()[doc_base..doc_base + nb * qpb];
                let want = reference_table(&q_bitmaps, doc, nb, qpb);

                let table = idx.contingency_row(&q_bitmaps, di);
                assert_eq!(
                    table, want,
                    "table != reference (dim={dim}, bits={bits}, doc={di})",
                );

                // diagonal fast path == diagonal of the full table.
                let diag = idx.diagonal_overlap_row(&q_bitmaps, di);
                let want_diag: Vec<u32> = (0..nb).map(|a| want[a * nb + a]).collect();
                assert_eq!(
                    diag, want_diag,
                    "diagonal fast path != table diagonal (dim={dim}, bits={bits}, doc={di})",
                );

                // dense `Contingency` over the same codes.
                let d_codes = doc_codes(&idx, di);
                let dense = Contingency::new(&q_codes, &d_codes, nb).unwrap();
                assert_eq!(
                    table,
                    dense.counts(),
                    "table != dense Contingency (dim={dim}, bits={bits}, doc={di})",
                );
                assert_eq!(
                    diag.iter().sum::<u32>(),
                    dense.diagonal_agreement(),
                    "diagonal sum != dense diagonal_agreement (dim={dim}, bits={bits}, doc={di})",
                );
            }
        }
    }
}

#[test]
fn project_all_batched_matches_bilinear_score() {
    let dim = 768;
    let bits = 4u8;
    let n = 40;
    let corpus = make_corpus(0xBA7C4, n, dim);
    let mut idx = MultiBucketBitmap::new(dim, bits);
    idx.add(&corpus);

    let query = make_corpus(0xD0C5, 1, dim);
    let q_bitmaps = idx.query_bitmaps_from_ranks(&query);

    let outer = idx.outer_product_weights();
    let diagonal = idx.diagonal_weights();
    let banded = idx.banded_weights(1);
    let weights: Vec<&[i64]> = vec![&outer, &diagonal, &banded];
    let nb = idx.n_buckets();

    let batched = idx.project_all_batched(&q_bitmaps, |table: &[u32]| -> Vec<i128> {
        weights.iter().map(|w| project(table, nb, w)).collect()
    });
    assert_eq!(batched.len(), n);
    for (di, row) in batched.iter().enumerate() {
        assert_eq!(row.len(), 3);
        for (p, w) in weights.iter().enumerate() {
            let want = idx.bilinear_score(&q_bitmaps, w, di);
            assert_eq!(
                row[p], want,
                "project_all_batched[{di}][{p}] != bilinear_score",
            );
        }
    }
}

/// Diagonal fast path sums to the `diagonal_weights` bilinear score, which is
/// in quarters.
#[test]
fn diagonal_row_sums_to_diagonal_bilinear_score() {
    let dim = 384;
    let bits = 2u8;
    let n = 16;
    let corpus = make_corpus(0xD1A6, n, dim);
    let mut idx = MultiBucketBitmap::new(dim, bits);
    idx.add(&corpus);
    let query = make_corpus(0xF00D, 1, dim);
    let q_bitmaps = idx.query_bitmaps_from_ranks(&query);
    let w = idx.diagonal_weights();
    for di in 0..n {
        let diag_sum: u32 = idx.diagonal_overlap_row(&q_bitmaps, di).iter().sum();
        assert_eq!(
            diag_sum as f32,
            idx.bilinear_score(&q_bitmaps, &w, di) as f32 / 4.0
        );
    }
}

#[test]
fn empty_index_project_all_batched_is_empty() {
    let idx = MultiBucketBitmap::new(256, 2);
    let q_bitmaps = idx.query_bitmaps_from_ranks(&bits(&vec![0.0f32; 256]));
    let diag = idx.diagonal_weights();
    let weights: Vec<&[i64]> = vec![&diag];
    assert!(idx
        .project_all_batched(&q_bitmaps, |table: &[u32]| -> Vec<i128> {
            weights.iter().map(|w| project(table, 4, w)).collect()
        })
        .is_empty());
}

#[test]
fn project_all_batched_no_weights_yields_empty_rows() {
    let dim = 256;
    let mut idx = MultiBucketBitmap::new(dim, 2);
    idx.add(&make_corpus(1, 5, dim));
    let q_bitmaps = idx.query_bitmaps_from_ranks(&bits(&vec![0.5f32; dim]));
    let weights: Vec<&[i64]> = Vec::new();
    let out = idx.project_all_batched(&q_bitmaps, |table: &[u32]| -> Vec<i128> {
        weights.iter().map(|w| project(table, 4, w)).collect()
    });
    assert_eq!(out.len(), 5);
    assert!(out.iter().all(|row| row.is_empty()));
}

#[test]
fn outer_product_score_is_the_product_of_the_centred_codes() {
    let dim = 128;
    let mut idx = MultiBucketBitmap::new(dim, 2);
    idx.add(&make_corpus(5, 6, dim));
    let query = make_corpus(6, 1, dim);
    let q_bitmaps = idx.query_bitmaps_from_ranks(&query);
    let q_codes = query_codes(&q_bitmaps, 4, 2, dim);
    let w = idx.outer_product_weights();
    assert_eq!(w[0], 9);
    assert_eq!(w[1], 3);
    assert_eq!(w[3], -9);
    for di in 0..6 {
        let d_codes = doc_codes(&idx, di);
        let direct: i128 = (0..dim)
            .map(|j| (2 * q_codes[j] as i128 - 3) * (2 * d_codes[j] as i128 - 3))
            .sum();
        assert_eq!(idx.bilinear_score(&q_bitmaps, &w, di), direct);
        // A band that spans the table changes nothing.
        assert_eq!(idx.bilinear_score(&q_bitmaps, &idx.banded_weights(3), di), direct);
    }
}

#[test]
fn top_m_bilinear_lists_the_best_scores_first() {
    let dim = 128;
    let mut idx = MultiBucketBitmap::new(dim, 2);
    idx.add(&make_corpus(15, 20, dim));
    let query = make_corpus(16, 1, dim);
    let q_bitmaps = idx.query_bitmaps_from_ranks(&query);
    let w = idx.outer_product_weights();
    let top = idx.top_m_bilinear(&q_bitmaps, 8, |table: &[u32]| {
        F32Bits::from_bits((project(table, 4, &w) as f32).to_bits())
    });
    let mut want: Vec<(i128, u32)> = (0..20u32)
        .map(|di| (-idx.bilinear_score(&q_bitmaps, &w, di as usize), di))
        .collect();
    want.sort();
    let want: Vec<u32> = want.iter().take(8).map(|&(_, d)| d).collect();
    assert_eq!(top, want);
}

#[test]
fn multi_bucket_sizes() {
    let mut idx = MultiBucketBitmap::new(128, 2);
    assert!(idx.is_empty());
    idx.add(&make_corpus(25, 3, 128));
    assert_eq!(idx.len(), 3);
    assert_eq!(idx.bits(), 2);
    assert_eq!(idx.bytes_per_vec(), 4 * 128 / 8);
    assert_eq!(idx.byte_size(), 3 * 4 * 128 / 8);
}

#[test]
fn top_m_bilinear_of_nothing_is_empty() {
    let flat = |_table: &[u32]| F32Bits::from_bits(0);
    let mut idx = MultiBucketBitmap::new(128, 2);
    assert!(idx.top_m_bilinear(&[], 5, flat).is_empty());
    idx.add(&make_corpus(17, 3, 128));
    assert!(idx.top_m_bilinear(&[], 0, flat).is_empty());
}
