//! Top-bucket bitmaps.

use ordvec::bitmap::Bitmap;
use ordvec::const_weight_bitmap::BitmapNull;
use ordvec::float_bits::F32Bits;
use ordvec::rank::{bucket_ranks, rank_transform};
use rand::{RngExt, SeedableRng};
use rand_chacha::ChaCha8Rng;

const D: usize = 128;
const TOP: usize = 32;

fn make(seed: u64, n: usize) -> Vec<F32Bits> {
    let mut rng = ChaCha8Rng::seed_from_u64(seed);
    (0..n)
        .map(|_| F32Bits::from_bits(rng.random_range(-1.0f32..1.0).to_bits()))
        .collect()
}

fn built(seed: u64, n: usize) -> Bitmap {
    let mut index = Bitmap::new(D, TOP);
    index.add(&make(seed, n * D));
    index
}

fn overlap(index: &Bitmap, q: &[u64], di: usize) -> u32 {
    let w = D / 64;
    index.bitmaps()[di * w..(di + 1) * w]
        .iter()
        .zip(q)
        .map(|(a, b)| (a & b).count_ones())
        .sum()
}

/// Document ids by descending overlap, then ascending id.
fn by_overlap(index: &Bitmap, q: &[u64], m: usize) -> Vec<u32> {
    let mut ids: Vec<u32> = (0..index.len() as u32).collect();
    ids.sort_by_key(|&d| (u32::MAX - overlap(index, q, d as usize), d));
    ids.truncate(m);
    ids
}

#[test]
fn documents_mark_their_largest_coordinates() {
    let docs = make(1, 3 * D);
    let mut index = Bitmap::new(D, TOP);
    index.add(&docs);
    for di in 0..3 {
        let v = &docs[di * D..(di + 1) * D];
        let words = index.build_query_bitmap_fp32(v);
        assert_eq!(words.iter().map(|w| w.count_ones()).sum::<u32>(), TOP as u32);
        assert_eq!(overlap(&index, &words, di), TOP as u32);
        let mut marked: Vec<f32> = Vec::new();
        let mut rest: Vec<f32> = Vec::new();
        for (j, x) in v.iter().enumerate() {
            let x = f32::from_bits(x.to_bits());
            if (words[j / 64] >> (j % 64)) & 1 == 1 {
                marked.push(x);
            } else {
                rest.push(x);
            }
        }
        let least = marked.iter().copied().fold(f32::INFINITY, f32::min);
        let most = rest.iter().copied().fold(f32::NEG_INFINITY, f32::max);
        assert!(least >= most);
    }
}

#[test]
fn bitmap_search_scores_the_overlap() {
    let index = built(2, 30);
    let queries = make(3, 2 * D);
    let r = index.search(&queries, 6);
    assert_eq!((r.nq, r.k), (2, 6));
    for qi in 0..2 {
        let q = index.build_query_bitmap_fp32(&queries[qi * D..(qi + 1) * D]);
        let want = by_overlap(&index, &q, 6);
        let ids: Vec<i64> = want.iter().map(|&d| d as i64).collect();
        assert_eq!(r.indices_for_query(qi), &ids[..]);
        for (s, &d) in r.scores_for_query(qi).iter().zip(&want) {
            assert_eq!(
                f32::from_bits(s.to_bits()),
                overlap(&index, &q, d as usize) as f32
            );
        }
    }
}

#[test]
fn bitmap_candidates_match_in_every_form() {
    let index = built(4, 50);
    let queries = make(5, 7 * D);
    let batched = index.top_m_candidates_batched(&queries, 9);
    for batch_size in [1usize, 3, 100] {
        assert_eq!(
            index.top_m_candidates_batched_chunked(&queries, 9, batch_size),
            batched
        );
    }
    for qi in 0..7 {
        let q = &queries[qi * D..(qi + 1) * D];
        let words = index.build_query_bitmap_fp32(q);
        assert_eq!(batched[qi], by_overlap(&index, &words, 9));
        assert_eq!(index.top_m_candidates(q, 9), batched[qi]);
    }
    assert_eq!(index.top_m_candidates(&queries[..D], 500).len(), 50);
}

#[test]
fn subset_scores_are_overlaps() {
    let index = built(6, 12);
    let q = index.build_query_bitmap_fp32(&make(7, D));
    let ids = [11u32, 0, 5, 5];
    let mut out = [0u32; 4];
    index.body_overlap_scores_subset(&q, &ids, &mut out);
    for (o, &d) in out.iter().zip(&ids) {
        assert_eq!(*o, overlap(&index, &q, d as usize));
    }
}

#[test]
fn bitmap_files_round_trip() {
    let index = built(8, 5);
    let file = index.write_to().unwrap();
    let loaded = match Bitmap::load_from_bytes(&file) {
        Ok(loaded) => loaded,
        Err(e) => panic!("{e:?}"),
    };
    assert_eq!((loaded.dim(), loaded.n_top(), loaded.len()), (D, TOP, 5));
    assert_eq!(loaded.bitmaps(), index.bitmaps());
    assert_eq!(index.bytes_per_vec(), D / 8);
    assert_eq!(index.byte_size(), 5 * D / 8);
    assert!(!index.is_empty());
}

#[test]
fn the_null_overlap_averages_weight_squared_over_dim() {
    // Over all bitmaps of weight 4 in 16 coordinates the overlap with a fixed
    // one averages 4 * 4 / 16.
    let null = BitmapNull::new(16, 4);
    let total: u128 = (0..=4).map(|o| o as u128 * null.fiber_count(o)).sum();
    assert_eq!(16 * total, 4 * 4 * null.space_size());
}

#[test]
fn a_quarter_bitmap_is_the_top_two_bit_bucket() {
    let v = make(31, D);
    let mut index = Bitmap::new(D, D / 4);
    index.add(&v);
    let codes = bucket_ranks(&rank_transform(&v), 2);
    for (j, &c) in codes.iter().enumerate() {
        let set = (index.bitmaps()[j / 64] >> (j % 64)) & 1 == 1;
        assert_eq!(set, c == 3);
    }
}

#[test]
fn a_batch_without_queries_needs_no_chunk_size() {
    let index = built(21, 5);
    assert!(index.top_m_candidates_batched_chunked(&[], 3, 0).is_empty());
    assert!(index.top_m_candidates_batched_chunked(&[], 3, 4).is_empty());
}

#[test]
fn no_candidates_asked_for_gives_empty_rows() {
    let index = built(22, 5);
    let queries = make(23, 3 * D);
    assert_eq!(index.top_m_candidates_batched(&queries, 0), vec![Vec::<u32>::new(); 3]);
    assert_eq!(index.top_m_candidates_batched_chunked(&queries, 0, 2), vec![Vec::<u32>::new(); 3]);
    let empty = Bitmap::new(D, TOP);
    assert_eq!(empty.top_m_candidates_batched(&queries, 4), vec![Vec::<u32>::new(); 3]);
}
