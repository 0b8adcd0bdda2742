//! The block layout of two-bit codes.

use ordvec::fastscan::RankQuantFastscan;
use ordvec::float_bits::F32Bits;
use ordvec::rank::{bucket_ranks, rank_transform};
use rand::{RngExt, SeedableRng};
use rand_chacha::ChaCha8Rng;

const D: usize = 16;

fn make(seed: u64, n: usize) -> Vec<F32Bits> {
    let mut rng = ChaCha8Rng::seed_from_u64(seed);
    (0..n)
        .map(|_| F32Bits::from_bits(rng.random_range(-1.0f32..1.0).to_bits()))
        .collect()
}

/// A table of small bytes that depends on the query.
fn table(q: &[F32Bits]) -> Vec<u8> {
    (0..q.len() / 2 * 16)
        .map(|i| ((q[i / 16 * 2].to_bits() >> 8) as usize * 31 + i * 7) as u8)
        .collect()
}

fn codes(v: &[F32Bits]) -> Vec<u8> {
    bucket_ranks(&rank_transform(v), 2)
}

#[test]
fn fastscan_search_sums_the_table_entries() {
    for n in [1usize, 31, 32, 33, 70] {
        let docs = make(n as u64, n * D);
        let queries = make(1000 + n as u64, 2 * D);
        let mut index = RankQuantFastscan::new(D);
        index.add(&docs);
        assert_eq!(index.len(), n);
        let r = index.search(
            &queries,
            5,
            |q: &[F32Bits]| (table(q), 2.0f32),
            |p: &f32, s: u32| F32Bits::from_bits((*p * s as f32).to_bits()),
        );
        for qi in 0..2 {
            let lut = table(&queries[qi * D..(qi + 1) * D]);
            let mut want: Vec<(u32, i64)> = (0..n)
                .map(|di| {
                    let c = codes(&docs[di * D..(di + 1) * D]);
                    let s: u32 = (0..D / 2)
                        .map(|p| lut[p * 16 + c[2 * p] as usize * 4 + c[2 * p + 1] as usize] as u32)
                        .sum();
                    (s, di as i64)
                })
                .collect();
            want.sort_by(|a, b| b.0.cmp(&a.0).then(a.1.cmp(&b.1)));
            want.truncate(5);
            let ids: Vec<i64> = want.iter().map(|w| w.1).collect();
            assert_eq!(r.indices_for_query(qi), &ids[..]);
            for (s, w) in r.scores_for_query(qi).iter().zip(&want) {
                assert_eq!(f32::from_bits(s.to_bits()), 2.0 * w.0 as f32);
            }
        }
    }
}

#[test]
fn blocks_hold_32_documents_pair_by_pair() {
    let n = 40;
    let docs = make(7, n * D);
    let mut index = RankQuantFastscan::new(D);
    index.add(&docs);
    let bytes = index.packed();
    assert_eq!(bytes.len(), 2 * (D / 2) * 32);
    assert_eq!(index.bytes_per_vec(), D / 2);
    assert_eq!(index.byte_size(), bytes.len());
    for block in 0..2 {
        for p in 0..D / 2 {
            for lane in 0..32 {
                let di = block * 32 + lane;
                let want = if di < n {
                    let c = codes(&docs[di * D..(di + 1) * D]);
                    c[2 * p] * 4 + c[2 * p + 1]
                } else {
                    0
                };
                assert_eq!(bytes[block * (D / 2) * 32 + p * 32 + lane], want);
            }
        }
    }
}

#[test]
fn fastscan_files_round_trip() {
    let mut index = RankQuantFastscan::new(D);
    index.add(&make(8, 35 * D));
    let file = index.write_to().unwrap();
    let loaded = match RankQuantFastscan::load_from_bytes(&file) {
        Ok(loaded) => loaded,
        Err(e) => panic!("{e:?}"),
    };
    assert_eq!((loaded.dim(), loaded.len()), (D, 35));
    assert_eq!(loaded.packed(), index.packed());
}

#[test]
fn an_empty_block_index_finds_nothing() {
    let index = RankQuantFastscan::new(D);
    assert!(index.is_empty());
    let r = index.search(
        &make(9, D),
        3,
        |q: &[F32Bits]| (table(q), ()),
        |_p: &(), s: u32| F32Bits::from_bits((s as f32).to_bits()),
    );
    assert_eq!((r.nq, r.k), (1, 0));
    let file = index.write_to().unwrap();
    assert!(RankQuantFastscan::load_from_bytes(&file).is_ok());
}
