//! Sign bitmaps and the candidates they propose.

use ordvec::float_bits::F32Bits;
use ordvec::format_error::FormatErrorKind;
use ordvec::sign_bitmap::{CandidateBatch, SignBitmap};
use rand::{RngExt, SeedableRng};
use rand_chacha::ChaCha8Rng;

const D: usize = 256;

fn bits(values: &[f32]) -> Vec<F32Bits> {
    values.iter().map(|v| F32Bits::from_bits(v.to_bits())).collect()
}

fn uniform(rng: &mut ChaCha8Rng, n: usize) -> Vec<F32Bits> {
    let values: Vec<f32> = (0..n).map(|_| rng.random_range(-1.0..1.0)).collect();
    bits(&values)
}

fn make_corpus(seed: u64, n: usize) -> Vec<F32Bits> {
    let mut rng = ChaCha8Rng::seed_from_u64(seed);
    uniform(&mut rng, n * D)
}

fn scalar_hamming(q: &[u64], d: &[u64]) -> u32 {
    q.iter()
        .zip(d.iter())
        .map(|(a, b)| (a ^ b).count_ones())
        .sum()
}

/// The stored words of document `di`.
fn words(idx: &SignBitmap, di: usize) -> &[u64] {
    let qpv = idx.dim() / 64;
    &idx.bitmaps()[di * qpv..(di + 1) * qpv]
}

#[test]
fn candidate_batch_helpers() {
    let cb = CandidateBatch {
        candidates: vec![5, 6, 7, 2],
        offsets: vec![0, 2, 2, 4], // q0=[5,6], q1=[], q2=[7,2]
    };
    assert_eq!(cb.query_count(), 3);
    assert!(!cb.is_empty());
    assert!(!cb.has_no_candidates());
    assert_eq!(cb.candidates_for_query(0), Some(&[5u32, 6][..]));
    assert_eq!(cb.candidates_for_query(1), Some(&[][..]));
    assert_eq!(cb.candidates_for_query(2), Some(&[7u32, 2][..]));
    assert_eq!(cb.candidates_for_query(3), None);

    let empty = CandidateBatch {
        candidates: vec![],
        offsets: vec![0],
    };
    assert_eq!(empty.query_count(), 0);
    assert!(empty.is_empty());
    assert!(empty.has_no_candidates());

    // 2 queries, zero candidates each → NOT empty, but has_no_candidates.
    let no_cands = CandidateBatch {
        candidates: vec![],
        offsets: vec![0, 0, 0],
    };
    assert_eq!(no_cands.query_count(), 2);
    assert!(!no_cands.is_empty());
    assert!(no_cands.has_no_candidates());
}

#[test]
fn sign_encoding_threshold_at_zero() {
    let mut idx = SignBitmap::new(D);
    // Alternating signs (j even → positive, j odd → negative).
    let mut v: Vec<f32> = (0..D)
        .map(|j| if j % 2 == 0 { 1.0 } else { -1.0 })
        .collect();
    // Force one zero: it counts as negative (bit unset).
    v[0] = 0.0;
    idx.add(&bits(&v));
    let bm = idx.build_query_bitmap(&bits(&v));
    assert_eq!(bm[0] & 1, 0, "zero must be encoded as bit-unset");
    assert_eq!((bm[0] >> 2) & 1, 1, "positive must be encoded as bit-set");
    assert_eq!((bm[0] >> 1) & 1, 0, "negative must be encoded as bit-unset");
}

#[test]
fn top_m_returns_ascending_hamming() {
    let n = 100;
    let corpus = make_corpus(7, n);
    let mut idx = SignBitmap::new(D);
    idx.add(&corpus);
    let mut rng = ChaCha8Rng::seed_from_u64(11);
    let query = uniform(&mut rng, D);
    let candidates = idx.top_m_candidates(&query, 10);
    assert_eq!(candidates.len(), 10);
    let qbm = idx.build_query_bitmap(&query);
    let mut last_h: u32 = 0;
    for &di in &candidates {
        let h = scalar_hamming(&qbm, words(&idx, di as usize));
        assert!(
            h >= last_h,
            "top_m_candidates must be sorted ascending by Hamming",
        );
        last_h = h;
    }
}

#[test]
fn batched_matches_single_query() {
    let n = 200;
    let corpus = make_corpus(13, n);
    let mut idx = SignBitmap::new(D);
    idx.add(&corpus);
    let mut rng = ChaCha8Rng::seed_from_u64(99);
    let batch: usize = 5;
    let queries = uniform(&mut rng, batch * D);
    for m in [10usize, 30, 100] {
        let single: Vec<Vec<u32>> = (0..batch)
            .map(|bi| idx.top_m_candidates(&queries[bi * D..(bi + 1) * D], m))
            .collect();
        let batched = idx.top_m_candidates_batched(&queries, m);
        assert_eq!(single.len(), batched.len());
        for bi in 0..batch {
            assert_eq!(
                single[bi], batched[bi],
                "batched diverged from single-query at batch idx {bi}, M={m}",
            );
        }
    }
}

#[test]
fn score_all_returns_sign_agreement_by_doc_id() {
    let n = 37;
    let corpus = make_corpus(27, n);
    let mut idx = SignBitmap::new(D);
    idx.add(&corpus);
    let mut rng = ChaCha8Rng::seed_from_u64(28);
    let query = uniform(&mut rng, D);

    let scores = idx.score_all(&query);
    assert_eq!(scores.len(), n);
    let qbm = idx.build_query_bitmap(&query);
    for (di, &score) in scores.iter().enumerate() {
        assert_eq!(
            score,
            D as u32 - scalar_hamming(&qbm, words(&idx, di)),
            "score_all must return sign agreement for doc {di}",
        );
    }
}

#[test]
fn score_all_batched_matches_single_query() {
    let n = 75;
    let corpus = make_corpus(29, n);
    let mut idx = SignBitmap::new(D);
    idx.add(&corpus);
    let mut rng = ChaCha8Rng::seed_from_u64(30);
    let batch = 6;
    let queries = uniform(&mut rng, batch * D);

    let batched = idx.score_all_batched(&queries);
    assert_eq!(batched.len(), batch);
    for bi in 0..batch {
        assert_eq!(
            batched[bi],
            idx.score_all(&queries[bi * D..(bi + 1) * D]),
            "batched dense scoring diverged at batch idx {bi}",
        );
    }
}

#[test]
fn score_all_batched_flat_matches_single_query() {
    let n = 75;
    let corpus = make_corpus(31, n);
    let mut idx = SignBitmap::new(D);
    idx.add(&corpus);
    let mut rng = ChaCha8Rng::seed_from_u64(32);
    let batch = 6;
    let queries = uniform(&mut rng, batch * D);

    let batched = idx.score_all_batched_flat(&queries);
    assert_eq!(batched.len(), batch * n);
    for bi in 0..batch {
        assert_eq!(
            &batched[bi * n..(bi + 1) * n],
            idx.score_all(&queries[bi * D..(bi + 1) * D]),
            "flat batched dense scoring diverged at batch idx {bi}",
        );
    }
}

#[test]
fn score_all_empty_shapes() {
    let idx = SignBitmap::new(D);
    let query = bits(&[1.0f32; D]);
    assert!(idx.score_all(&query).is_empty());

    let queries = bits(&[1.0f32; 2 * D]);
    assert!(idx.score_all_batched_flat(&queries).is_empty());
    assert_eq!(idx.score_all_batched(&queries), vec![Vec::<u32>::new(); 2]);

    let empty_queries: Vec<F32Bits> = Vec::new();
    assert!(idx.score_all_batched_flat(&empty_queries).is_empty());
    assert!(idx.score_all_batched(&empty_queries).is_empty());

    let mut idx = SignBitmap::new(D);
    idx.add(&make_corpus(33, 5));
    assert!(idx.score_all_batched_flat(&empty_queries).is_empty());
    assert!(idx.score_all_batched(&empty_queries).is_empty());
}

#[test]
fn large_dim_above_u16_max_roundtrips() {
    const BIG_D: usize = 65_536;
    let n = 4;
    let mut rng = ChaCha8Rng::seed_from_u64(41);
    let corpus = uniform(&mut rng, n * BIG_D);
    let mut original = SignBitmap::new(BIG_D);
    original.add(&corpus);

    let file = original
        .write_to()
        .expect("write must accept dim > u16::MAX");
    let loaded = SignBitmap::load_from_bytes(&file).expect("load must accept dim > u16::MAX");

    assert_eq!(loaded.dim(), BIG_D);
    assert_eq!(loaded.len(), n);
    assert_eq!(loaded.bitmaps(), original.bitmaps());
}

#[test]
fn write_then_load_roundtrips() {
    let n = 64;
    let corpus = make_corpus(17, n);
    let mut original = SignBitmap::new(D);
    original.add(&corpus);

    let file = original.write_to().expect("write should succeed");
    let loaded = SignBitmap::load_from_bytes(&file).expect("load should succeed");

    assert_eq!(loaded.dim(), original.dim());
    assert_eq!(loaded.len(), original.len());
    assert_eq!(loaded.bitmaps(), original.bitmaps());

    // Sanity: same query produces same top-M.
    let mut rng = ChaCha8Rng::seed_from_u64(23);
    let query = uniform(&mut rng, D);
    let orig_top = original.top_m_candidates(&query, 10);
    let loaded_top = loaded.top_m_candidates(&query, 10);
    assert_eq!(orig_top, loaded_top);
}

#[test]
fn load_rejects_bad_magic() {
    match SignBitmap::load_from_bytes(b"BAD!\x01\x00\x00\x01\x00\x00\x00\x00\x00") {
        Ok(_) => panic!("load must reject a file with the wrong magic"),
        Err(e) => assert_eq!(e.kind(), FormatErrorKind::InvalidData),
    }
}

#[test]
fn avx512_path_matches_scalar_at_production_dim() {
    const PROD_D: usize = 1024;
    let n = 256;
    let mut rng = ChaCha8Rng::seed_from_u64(31);
    let corpus = uniform(&mut rng, n * PROD_D);
    let mut idx = SignBitmap::new(PROD_D);
    idx.add(&corpus);
    let queries = uniform(&mut rng, 3 * PROD_D);
    let batched = idx.top_m_candidates_batched(&queries, 32);
    for bi in 0..3 {
        let qbm = idx.build_query_bitmap(&queries[bi * PROD_D..(bi + 1) * PROD_D]);
        let mut all: Vec<(u32, u32)> = (0..n as u32)
            .map(|di| (scalar_hamming(&qbm, words(&idx, di as usize)), di))
            .collect();
        all.sort_by_key(|&(h, did)| (h, did));
        let reference: Vec<u32> = all.iter().take(32).map(|&(_, did)| did).collect();
        assert_eq!(
            batched[bi], reference,
            "batched diverged from scalar at batch idx {bi}",
        );
    }
}

#[test]
fn avx512_path_matches_scalar_across_residues_and_common_dims() {
    for &dim in &[
        64usize, 384, 448, 512, 576, 640, 704, 768, 832, 896, 960, 1024, 1536,
    ] {
        let n = 200usize;
        let m = 32usize;
        let nq = 5usize;
        let mut rng = ChaCha8Rng::seed_from_u64(7000 + dim as u64);
        let corpus = uniform(&mut rng, n * dim);
        let mut idx = SignBitmap::new(dim);
        idx.add(&corpus);
        let queries = uniform(&mut rng, nq * dim);

        let dimu = dim as u32;
        let batched = idx.top_m_candidates_batched(&queries, m);
        let scores_flat = idx.score_all_batched_flat(&queries);
        for qi in 0..nq {
            let q = &queries[qi * dim..(qi + 1) * dim];
            let qbm = idx.build_query_bitmap(q);
            let single_scores = idx.score_all(q);
            let mut ref_pairs: Vec<(u32, u32)> = Vec::with_capacity(n);
            for di in 0..n {
                let ham = scalar_hamming(&qbm, words(&idx, di));
                let agree = dimu - ham;
                assert_eq!(
                    single_scores[di], agree,
                    "score_all dim={dim} qi={qi} di={di}"
                );
                assert_eq!(
                    scores_flat[qi * n + di],
                    agree,
                    "score_all_batched_flat dim={dim} qi={qi} di={di}"
                );
                ref_pairs.push((ham, di as u32));
            }
            ref_pairs.sort_by_key(|&(h, did)| (h, did));
            let reference: Vec<u32> = ref_pairs.iter().take(m).map(|&(_, did)| did).collect();
            assert_eq!(
                idx.top_m_candidates(q, m),
                reference,
                "single dim={dim} qi={qi}"
            );
            assert_eq!(batched[qi], reference, "batched dim={dim} qi={qi}");
        }
    }
}

#[test]
fn serial_csr_rows_are_the_batched_rows() {
    let mut idx = SignBitmap::new(D);
    idx.add(&make_corpus(51, 40));
    let mut rng = ChaCha8Rng::seed_from_u64(52);
    let queries = uniform(&mut rng, 4 * D);
    let rows = idx.top_m_candidates_batched(&queries, 7);
    let csr = idx.top_m_candidates_batched_serial_csr(&queries, 7);
    assert_eq!(csr.query_count(), 4);
    for (qi, row) in rows.iter().enumerate() {
        assert_eq!(csr.candidates_for_query(qi), Some(row.as_slice()));
    }
}

#[test]
fn more_candidates_than_documents_lists_all_of_them() {
    let mut idx = SignBitmap::new(D);
    idx.add(&make_corpus(61, 9));
    let mut rng = ChaCha8Rng::seed_from_u64(62);
    let mut all = idx.top_m_candidates(&uniform(&mut rng, D), 100);
    all.sort();
    assert_eq!(all, (0..9).collect::<Vec<u32>>());
}

#[test]
fn a_document_is_at_distance_zero_from_itself() {
    let corpus = make_corpus(71, 6);
    let mut idx = SignBitmap::new(D);
    idx.add(&corpus);
    for di in 0..6 {
        let v = &corpus[di * D..(di + 1) * D];
        assert_eq!(idx.score_all(v)[di], D as u32);
        assert_eq!(idx.top_m_candidates(v, 1), vec![di as u32]);
        // A positive factor keeps the signs.
        let scaled: Vec<f32> = v
            .iter()
            .map(|b| f32::from_bits(b.to_bits()) * 3.5)
            .collect();
        assert_eq!(idx.score_all(&bits(&scaled))[di], D as u32);
    }
}

#[test]
fn swap_remove_moves_the_last_document() {
    let mut idx = SignBitmap::new(D);
    idx.add(&make_corpus(81, 5));
    let last: Vec<u64> = words(&idx, 4).to_vec();
    let kept: Vec<u64> = words(&idx, 0).to_vec();
    assert_eq!(idx.swap_remove(1), 4);
    assert_eq!(idx.len(), 4);
    assert_eq!(words(&idx, 1), &last[..]);
    assert_eq!(words(&idx, 0), &kept[..]);
    assert_eq!(idx.byte_size(), 4 * D / 8);
    assert_eq!(idx.bytes_per_vec(), D / 8);
    assert!(!idx.is_empty());
}

#[test]
fn validate_dim_reports_each_fault() {
    assert!(SignBitmap::validate_dim(64).is_ok());
    assert!(SignBitmap::validate_dim(0).is_err());
    assert!(SignBitmap::validate_dim(63).is_err());
    assert!(SignBitmap::validate_dim((1 << 24) + 64).is_err());
}

#[test]
fn serial_csr_rows_are_single_query_candidates() {
    let mut idx = SignBitmap::new(D);
    idx.add(&make_corpus(53, 40));
    let mut rng = ChaCha8Rng::seed_from_u64(54);
    let queries = uniform(&mut rng, 5 * D);
    for m in [1usize, 7, 40, 90] {
        let csr = idx.top_m_candidates_batched_serial_csr(&queries, m);
        let streamed = idx.top_m_candidates_streamed(&queries, m);
        assert_eq!(streamed.len(), 5);
        for qi in 0..5 {
            let single = idx.top_m_candidates(&queries[qi * D..(qi + 1) * D], m);
            assert_eq!(streamed[qi], single);
            assert_eq!(csr.candidates_for_query(qi), Some(single.as_slice()));
        }
    }
}
