//! Searching packed bucket codes, in one stage and in two.

use ordvec::error::OrdvecError;
use ordvec::float_bits::F32Bits;
use ordvec::quant::{
    code_dot, rankquant_eval_search, search_asymmetric_byte_lut, RankQuant, RankQuantCapability,
    TwoStageCandidatePolicy,
};
use ordvec::rank::{bucket_ranks, rank_transform, unpack_buckets};
use ordvec::sign_bitmap::SignBitmap;
use rand::{RngExt, SeedableRng};
use rand_chacha::ChaCha8Rng;

fn bits(values: &[f32]) -> Vec<F32Bits> {
    values.iter().map(|v| F32Bits::from_bits(v.to_bits())).collect()
}

fn float(v: F32Bits) -> f32 {
    f32::from_bits(v.to_bits())
}

fn pattern(v: f32) -> F32Bits {
    F32Bits::from_bits(v.to_bits())
}

fn make(seed: u64, n: usize) -> Vec<F32Bits> {
    let mut rng = ChaCha8Rng::seed_from_u64(seed);
    let values: Vec<f32> = (0..n).map(|_| rng.random_range(-1.0..1.0)).collect();
    bits(&values)
}

const D: usize = 64;

/// The codes of a vector.
fn codes(v: &[F32Bits], width: u8) -> Vec<u8> {
    bucket_ranks(&rank_transform(v), width)
}

/// A query as floats.
fn unpack(q: &[F32Bits]) -> Vec<f32> {
    q.iter().map(|v| float(*v)).collect()
}

/// A float query against the codes of a document, in sixteenths so that every
/// sum is exact.
fn dot(q: &Vec<f32>, d: &[u8]) -> F32Bits {
    let s: f32 = q
        .iter()
        .zip(d)
        .map(|(a, b)| (a * 16.0).round() * (2.0 * *b as f32 - 3.0))
        .sum();
    pattern(s)
}

/// Documents by descending score, then ascending id.
fn ranked(scores: Vec<(f32, i64)>, k: usize) -> Vec<(f32, i64)> {
    let mut scores = scores;
    scores.sort_by(|a, b| b.0.total_cmp(&a.0).then(a.1.cmp(&b.1)));
    scores.truncate(k);
    scores
}

#[test]
fn stored_codes_are_the_buckets_of_the_ranks() {
    for width in [1u8, 2, 4] {
        let docs = make(1, 5 * D);
        let mut index = RankQuant::new(D, width);
        index.add(&docs);
        let bpv = index.bytes_per_vec();
        assert_eq!(bpv, D * width as usize / 8);
        assert_eq!(index.byte_size(), 5 * bpv);
        for di in 0..5 {
            let got = unpack_buckets(&index.packed()[di * bpv..(di + 1) * bpv], D, width);
            let want = codes(&docs[di * D..(di + 1) * D], width);
            assert_eq!(got, want);
            // Every bucket is filled equally.
            for b in 0..1usize << width {
                let count = got.iter().filter(|&&c| c as usize == b).count();
                assert_eq!(count, D >> width);
            }
        }
    }
}

#[test]
fn adding_in_batches_stores_the_same_codes() {
    let docs = make(2, 6 * D);
    let mut whole = RankQuant::new(D, 2);
    whole.add(&docs);
    let mut parts = RankQuant::new(D, 2);
    parts.add(&docs[..2 * D]);
    parts.add(&[]);
    parts.add(&docs[2 * D..]);
    assert_eq!(whole.packed(), parts.packed());
    assert_eq!(whole.len(), parts.len());
}

#[test]
fn symmetric_search_scores_the_centred_product() {
    let n = 40;
    let docs = make(3, n * D);
    let queries = make(4, 3 * D);
    let mut index = RankQuant::new(D, 2);
    index.add(&docs);
    assert!(index.symmetric_supported());
    let r = index.search(&queries, 6, |p: i64, _q: &[u8], _d: &[u8]| pattern(p as f32 / 4.0));
    assert_eq!((r.nq, r.k), (3, 6));
    for qi in 0..3 {
        let q = codes(&queries[qi * D..(qi + 1) * D], 2);
        let scores = (0..n)
            .map(|di| {
                let d = codes(&docs[di * D..(di + 1) * D], 2);
                let p: i64 = (0..D)
                    .map(|j| (2 * q[j] as i64 - 3) * (2 * d[j] as i64 - 3))
                    .sum();
                assert_eq!(code_dot(&q, &d, 4), p);
                (p as f32 / 4.0, di as i64)
            })
            .collect();
        let want = ranked(scores, 6);
        let got: Vec<(f32, i64)> = r
            .scores_for_query(qi)
            .iter()
            .zip(r.indices_for_query(qi))
            .map(|(s, i)| (float(*s), *i))
            .collect();
        assert_eq!(got, want);
    }
}

#[test]
fn the_product_of_codes_is_bounded_by_their_norm() {
    // Two-bit codes of 64 coordinates: 16 each of ±1.5 and ±0.5, that is
    // 16 * (9 + 1 + 1 + 9) quarters.
    let docs = make(5, 2 * D);
    let a = codes(&docs[..D], 2);
    let b = codes(&docs[D..], 2);
    assert_eq!(code_dot(&a, &a, 4), 320);
    assert!(code_dot(&a, &b, 4).abs() <= 320);
}

#[test]
fn asymmetric_search_hands_codes_to_the_scorer() {
    let n = 30;
    let docs = make(6, n * D);
    let queries = make(7, 2 * D);
    let mut index = RankQuant::new(D, 2);
    index.add(&docs);
    let r = index.search_asymmetric(&queries, 8, |q: &[F32Bits]| unpack(q), dot);
    for qi in 0..2 {
        let q = unpack(&queries[qi * D..(qi + 1) * D]);
        let scores = (0..n)
            .map(|di| (float(dot(&q, &codes(&docs[di * D..(di + 1) * D], 2))), di as i64))
            .collect();
        let want = ranked(scores, 8);
        let ids: Vec<i64> = want.iter().map(|w| w.1).collect();
        let values: Vec<f32> = want.iter().map(|w| w.0).collect();
        assert_eq!(r.indices_for_query(qi), &ids[..]);
        assert_eq!(unpack(r.scores_for_query(qi)), values);
    }
}

#[test]
fn a_full_subset_is_a_full_search() {
    let n = 25;
    let mut index = RankQuant::new(D, 2);
    index.add(&make(8, n * D));
    let query = make(9, D);
    let full = index.search_asymmetric(&query, 10, |q: &[F32Bits]| unpack(q), dot);
    let all: Vec<u32> = (0..n as u32).rev().collect();
    let (scores, ids) =
        index.search_asymmetric_subset(&query, &all, 10, |q: &[F32Bits]| unpack(q), dot);
    assert_eq!(full.indices, ids);
    assert_eq!(full.scores, scores);
}

#[test]
fn subsets_report_global_ids_and_may_repeat_them() {
    let n = 10;
    let mut index = RankQuant::new(D, 2);
    index.add(&make(10, n * D));
    let query = make(11, D);
    let subset = [7u32, 3, 7, 1];
    let (scores, ids) =
        index.search_asymmetric_subset(&query, &subset, 9, |q: &[F32Bits]| unpack(q), dot);
    assert_eq!(ids.len(), 4);
    let mut sorted = ids.clone();
    sorted.sort();
    assert_eq!(sorted, vec![1, 3, 7, 7]);
    for i in 1..4 {
        let (a, b) = (float(scores[i - 1]), float(scores[i]));
        assert!(a > b || (a == b && ids[i - 1] <= ids[i]));
    }
    let (scores, ids) =
        index.search_asymmetric_subset(&query, &[], 9, |q: &[F32Bits]| unpack(q), dot);
    assert!(scores.is_empty() && ids.is_empty());
}

#[test]
fn equal_scores_are_reported_by_id() {
    let mut index = RankQuant::new(D, 2);
    index.add(&make(12, 5 * D));
    let query = make(13, D);
    let flat = |_q: &Vec<f32>, _d: &[u8]| pattern(0.5);
    let r = index.search_asymmetric(&query, 3, |q: &[F32Bits]| unpack(q), flat);
    assert_eq!(r.indices, vec![0, 1, 2]);
    let (_, ids) =
        index.search_asymmetric_subset(&query, &[4, 2, 3], 2, |q: &[F32Bits]| unpack(q), flat);
    assert_eq!(ids, vec![2, 3]);
}

#[test]
fn an_uncut_first_stage_loses_nothing() {
    let n = 30;
    let docs = make(14, n * D);
    let mut index = RankQuant::new(D, 2);
    index.add(&docs);
    let mut probe = SignBitmap::new(D);
    probe.add(&docs);
    let query = make(15, D);
    let full = index.search_asymmetric(&query, 5, |q: &[F32Bits]| unpack(q), dot);
    // 256 candidates at least: all of them.
    let (scores, ids) =
        index.search_with_sign_probe(&probe, &query, 5, |q: &[F32Bits]| unpack(q), dot);
    assert_eq!(ids, full.indices);
    assert_eq!(scores, full.scores);
    assert_eq!(
        index.try_search_with_sign_probe(&probe, &query, 5, |q: &[F32Bits]| unpack(q), dot),
        Ok((scores, ids))
    );
}

#[test]
fn a_cut_first_stage_reranks_its_candidates() {
    let n = 40;
    let docs = make(16, n * D);
    let mut index = RankQuant::new(D, 2);
    index.add(&docs);
    let mut probe = SignBitmap::new(D);
    probe.add(&docs);
    let query = make(17, D);
    let policy = TwoStageCandidatePolicy {
        min_candidates: 4,
        k_multiplier: 2,
        max_candidates: Some(9),
    };
    let found = index
        .try_search_with_sign_probe_with_policy(
            &probe,
            &query,
            5,
            policy,
            |q: &[F32Bits]| unpack(q),
            dot,
        )
        .unwrap();
    let candidates = probe.top_m_candidates(&query, 9);
    let want =
        index.search_asymmetric_subset(&query, &candidates, 5, |q: &[F32Bits]| unpack(q), dot);
    assert_eq!(found, want);
}

#[test]
fn candidate_counts_follow_the_policy() {
    let default = TwoStageCandidatePolicy::default();
    assert_eq!(default.candidate_count(10, 100_000), 320);
    assert_eq!(default.candidate_count(1, 100_000), 256);
    assert_eq!(default.candidate_count(10, 50), 50);
    assert_eq!(default.candidate_count(0, 50), 0);
    assert_eq!(default.candidate_count(10, 0), 0);
    assert_eq!(default.candidate_count(usize::MAX, 50), 50);
    let capped = TwoStageCandidatePolicy {
        min_candidates: 256,
        k_multiplier: 32,
        max_candidates: Some(20),
    };
    assert_eq!(capped.candidate_count(10, 100_000), 20);
}

#[test]
fn a_probe_that_does_not_fit_is_refused() {
    let docs = make(18, 3 * D);
    let mut index = RankQuant::new(D, 2);
    index.add(&docs);
    let query = make(19, D);
    let run = |probe: &SignBitmap, query: &[F32Bits]| {
        index
            .try_search_with_sign_probe(probe, query, 2, |q: &[F32Bits]| unpack(q), dot)
            .err()
    };
    let other_dim = SignBitmap::new(2 * D);
    assert_eq!(
        run(&other_dim, &query),
        Some(OrdvecError::InvalidParameter {
            name: "sign_probe.dim",
            message: "must match RankQuant dim 64".to_string()
        })
    );
    let empty = SignBitmap::new(D);
    assert_eq!(
        run(&empty, &query),
        Some(OrdvecError::InvalidParameter {
            name: "sign_probe.len",
            message: "must match RankQuant len 3".to_string()
        })
    );
    let mut probe = SignBitmap::new(D);
    probe.add(&docs);
    assert_eq!(
        run(&probe, &query[..D - 1]),
        Some(OrdvecError::InvalidVectorLength {
            name: "query",
            len: D - 1,
            expected: D
        })
    );
    let mut bad = query.clone();
    bad[3] = pattern(f32::NAN);
    assert!(matches!(
        run(&probe, &bad),
        Some(OrdvecError::InvalidParameter { name: "query", .. })
    ));
    assert_eq!(run(&probe, &query), None);
}

#[test]
fn parameters_are_validated() {
    let message = |dim: usize, width: u8| match RankQuant::validate_params(dim, width) {
        Err(OrdvecError::InvalidParameter { name, message }) => (name, message),
        other => panic!("{other:?}"),
    };
    assert_eq!(message(64, 3), ("bits", "must be 1, 2, 4, or 8".to_string()));
    assert_eq!(message(1, 2), ("dim", "must be >= 2".to_string()));
    assert_eq!(message(65536, 2), ("dim", "must fit in u16".to_string()));
    assert_eq!(
        message(6, 2),
        ("dim", "must be a multiple of 4 for bits = 2".to_string())
    );
    assert_eq!(
        message(8, 4),
        (
            "dim",
            "must be divisible by 2^bits = 16 so every bucket receives exactly dim / 2^bits rank entries"
                .to_string()
        )
    );
    assert!(RankQuant::validate_params(64, 2).is_ok());
    assert!(RankQuant::validate_params(384, 8).is_ok());
}

#[test]
fn eight_bit_codes_score_symmetrically_only_in_whole_buckets() {
    let narrow = RankQuant::new_asymmetric(384, 8);
    assert_eq!(narrow.capability(), RankQuantCapability::AsymmetricOnly);
    assert!(!narrow.symmetric_supported());
    let wide = RankQuant::new_asymmetric(512, 8);
    assert_eq!(wide.capability(), RankQuantCapability::SymmetricAndAsymmetric);
    assert_eq!(wide.bytes_per_vec(), 512);
    assert_eq!((wide.dim(), wide.bits()), (512, 8));
}

#[test]
fn eval_search_agrees_with_the_index() {
    let docs = make(20, 20 * D);
    let queries = make(21, 2 * D);
    let mut index = RankQuant::new(D, 4);
    index.add(&docs);
    let score = |p: i64, _q: &[u8], _d: &[u8]| pattern(p as f32 / 4.0);
    let a = index.search(&queries, 5, score);
    let b = rankquant_eval_search(&docs, &queries, D, 4, 5, score);
    assert_eq!(a.indices, b.indices);
    assert_eq!(a.scores, b.scores);
}

#[test]
fn eval_search_takes_any_width() {
    let docs = make(22, 6 * D);
    for width in 1..=8u8 {
        let r = rankquant_eval_search(&docs, &docs, D, width, 1, |p: i64, q: &[u8], d: &[u8]| {
            assert!(q.iter().chain(d).all(|&c| (c as usize) < 1usize << width));
            pattern(p as f32)
        });
        assert_eq!((r.nq, r.k), (6, 1));
    }
}

#[test]
fn quantised_files_round_trip() {
    for width in [1u8, 2, 4] {
        let mut index = RankQuant::new(D, width);
        index.add(&make(23, 4 * D));
        let file = index.write_to().unwrap();
        let loaded = match RankQuant::load_from_bytes(&file) {
            Ok(loaded) => loaded,
            Err(e) => panic!("{e:?}"),
        };
        assert_eq!((loaded.dim(), loaded.bits(), loaded.len()), (D, width, 4));
        assert_eq!(loaded.packed(), index.packed());
    }
}

#[test]
fn swap_remove_moves_the_last_codes() {
    let docs = make(24, 4 * D);
    let mut index = RankQuant::new(D, 2);
    index.add(&docs);
    let bpv = index.bytes_per_vec();
    let last = index.packed()[3 * bpv..].to_vec();
    assert_eq!(index.swap_remove(1), 3);
    assert_eq!(index.len(), 3);
    assert_eq!(&index.packed()[bpv..2 * bpv], &last[..]);
    assert!(!index.is_empty());
}

#[test]
fn byte_search_hands_packed_documents_to_the_scorer() {
    for width in [2u8, 4] {
        let docs = make(25, 20 * D);
        let queries = make(26, 2 * D);
        let mut index = RankQuant::new(D, width);
        index.add(&docs);
        let a = search_asymmetric_byte_lut(
            &index,
            &queries,
            6,
            |q: &[F32Bits]| unpack(q),
            |q: &Vec<f32>, bytes: &[u8]| dot(q, &unpack_buckets(bytes, D, width)),
        );
        let b = index.search_asymmetric(&queries, 6, |q: &[F32Bits]| unpack(q), dot);
        assert_eq!(a.indices, b.indices);
        assert_eq!(a.scores, b.scores);
    }
}

#[test]
fn repeated_candidates_take_consecutive_places() {
    let mut index = RankQuant::new(D, 2);
    index.add(&make(31, 10 * D));
    let query = make(32, D);
    let subset = [7u32, 3, 7, 1, 3, 7];
    let (all_scores, all_ids) =
        index.search_asymmetric_subset(&query, &subset, 6, |q: &[F32Bits]| unpack(q), dot);
    let docs = index.search_asymmetric(&query, 10, |q: &[F32Bits]| unpack(q), dot);
    let score_of = |id: u32| {
        let at = docs.indices.iter().position(|&i| i == id as i64).unwrap();
        docs.scores[at]
    };
    let mut want: Vec<(F32Bits, i64)> =
        subset.iter().map(|&id| (score_of(id), id as i64)).collect();
    want.sort_by(|a, b| float(b.0).total_cmp(&float(a.0)).then(a.1.cmp(&b.1)));
    for k in 1..=6 {
        let (scores, ids) =
            index.search_asymmetric_subset(&query, &subset, k, |q: &[F32Bits]| unpack(q), dot);
        for r in 0..k {
            assert_eq!((scores[r], ids[r]), want[r]);
            assert_eq!((scores[r], ids[r]), (all_scores[r], all_ids[r]));
        }
    }
}

#[test]
fn zero_scores_of_either_sign_are_reported_by_id() {
    let mut index = RankQuant::new(D, 2);
    let docs = make(33, 6 * D);
    index.add(&docs);
    let query = make(34, D);
    let positive = bucket_ranks(&rank_transform(&docs[4 * D..5 * D]), 2);
    // Positive zero for one document, negative zero for the others.
    let zeros = |_q: &Vec<f32>, d: &[u8]| pattern(if d == positive { 0.0 } else { -0.0 });
    let r = index.search_asymmetric(&query, 6, |q: &[F32Bits]| unpack(q), zeros);
    assert_eq!(r.indices, vec![0, 1, 2, 3, 4, 5]);
    assert_eq!(r.scores, vec![pattern(0.0); 6]);
    let (scores, ids) =
        index.search_asymmetric_subset(&query, &[5, 0, 3, 1], 2, |q: &[F32Bits]| unpack(q), zeros);
    assert_eq!(ids, vec![0, 1]);
    assert_eq!(scores, vec![pattern(0.0); 2]);
}
