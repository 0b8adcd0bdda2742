//! Searching full-precision rank vectors.

use ordvec::float_bits::F32Bits;
use ordvec::rank::{rank_norm, rank_transform};
use ordvec::rank_index::Rank;
use rand::{RngExt, SeedableRng};
use rand_chacha::ChaCha8Rng;

fn bits(values: &[f32]) -> Vec<F32Bits> {
    values.iter().map(|v| F32Bits::from_bits(v.to_bits())).collect()
}

fn float(v: F32Bits) -> f32 {
    f32::from_bits(v.to_bits())
}

fn pattern(v: f32) -> F32Bits {
    F32Bits::from_bits(v.to_bits())
}

fn make(seed: u64, n: usize) -> Vec<F32Bits> {
    let mut rng = ChaCha8Rng::seed_from_u64(seed);
    let values: Vec<f32> = (0..n).map(|_| rng.random_range(-1.0..1.0)).collect();
    bits(&values)
}

const D: usize = 32;

#[test]
fn rank_search_orders_by_the_centred_product() {
    let n = 50;
    let docs = make(1, n * D);
    let queries = make(2, 3 * D);
    let mut index = Rank::new(D);
    index.add(&docs);
    let norm = rank_norm(D) as f32 / 12.0;
    let r = index.search(&queries, 7, |p: i64| pattern(p as f32 / 4.0 / norm));
    assert_eq!((r.nq, r.k), (3, 7));
    for qi in 0..3 {
        let q = rank_transform(&queries[qi * D..(qi + 1) * D]);
        let mut want: Vec<(i64, i64)> = (0..n)
            .map(|di| {
                let d = rank_transform(&docs[di * D..(di + 1) * D]);
                let p: i64 = (0..D)
                    .map(|j| (2 * q[j] as i64 - 31) * (2 * d[j] as i64 - 31))
                    .sum();
                (-p, di as i64)
            })
            .collect();
        want.sort();
        let ids: Vec<i64> = want.iter().take(7).map(|&(_, d)| d).collect();
        assert_eq!(r.indices_for_query(qi), &ids[..]);
        for (s, w) in r.scores_for_query(qi).iter().zip(&want) {
            assert_eq!(float(*s), -w.0 as f32 / 4.0 / norm);
        }
    }
}

#[test]
fn a_document_is_its_own_best_match() {
    let docs = make(3, 20 * D);
    let mut index = Rank::new(D);
    index.add(&docs);
    let norm = rank_norm(D) as f32 / 12.0;
    let r = index.search(&docs, 1, |p: i64| pattern(p as f32 / 4.0 / norm));
    for di in 0..20 {
        assert_eq!(r.indices_for_query(di), &[di as i64]);
        assert_eq!(float(r.scores_for_query(di)[0]), 1.0);
    }
}

#[test]
fn asymmetric_rank_search_hands_ranks_to_the_scorer() {
    let n = 12;
    let docs = make(4, n * D);
    let queries = make(5, 2 * D);
    let mut index = Rank::new(D);
    index.add(&docs);
    let prepare = |q: &[F32Bits]| -> Vec<f32> { q.iter().map(|v| float(*v)).collect() };
    let dot = |q: &Vec<f32>, d: &[u16]| -> f32 {
        q.iter().zip(d).map(|(a, b)| a * (*b as f32 - 15.5)).sum()
    };
    let r = index.search_asymmetric(&queries, 5, prepare, |q: &Vec<f32>, d: &[u16]| {
        pattern(dot(q, d))
    });
    for qi in 0..2 {
        let q = prepare(&queries[qi * D..(qi + 1) * D]);
        let mut want: Vec<(f32, i64)> = (0..n)
            .map(|di| (dot(&q, &index.ranks()[di * D..(di + 1) * D]), di as i64))
            .collect();
        want.sort_by(|a, b| b.0.total_cmp(&a.0).then(a.1.cmp(&b.1)));
        let ids: Vec<i64> = want.iter().take(5).map(|&(_, d)| d).collect();
        assert_eq!(r.indices_for_query(qi), &ids[..]);
    }
}

#[test]
fn rank_search_clamps_k_to_the_documents() {
    let mut index = Rank::new(D);
    assert!(index.is_empty());
    let r = index.search(&make(6, D), 4, |p: i64| pattern(p as f32));
    assert_eq!((r.nq, r.k), (1, 0));
    assert!(r.scores.is_empty() && r.indices.is_empty());
    index.add(&make(7, 2 * D));
    let r = index.search(&make(6, D), 4, |p: i64| pattern(p as f32));
    assert_eq!((r.nq, r.k), (1, 2));
}

#[test]
fn rank_sizes_and_swap_remove() {
    let docs = make(8, 4 * D);
    let mut index = Rank::new(D);
    index.add(&docs[..D]);
    index.add(&docs[D..]);
    assert_eq!(index.len(), 4);
    assert_eq!(index.dim(), D);
    assert_eq!(index.bytes_per_vec(), 2 * D);
    assert_eq!(index.byte_size(), 8 * D);
    for di in 0..4 {
        let r = rank_transform(&docs[di * D..(di + 1) * D]);
        assert_eq!(&index.ranks()[di * D..(di + 1) * D], &r[..]);
    }
    assert_eq!(index.swap_remove(0), 3);
    assert_eq!(index.len(), 3);
    let last = rank_transform(&docs[3 * D..]);
    assert_eq!(&index.ranks()[..D], &last[..]);
}

#[test]
fn rank_files_round_trip() {
    let mut index = Rank::new(D);
    index.add(&make(9, 5 * D));
    let file = index.write_to().unwrap();
    let loaded = match Rank::load_from_bytes(&file) {
        Ok(loaded) => loaded,
        Err(e) => panic!("{e:?}"),
    };
    assert_eq!(loaded.dim(), D);
    assert_eq!(loaded.len(), 5);
    assert_eq!(loaded.ranks(), index.ranks());
    assert_eq!(loaded.write_to().unwrap(), file);
}
