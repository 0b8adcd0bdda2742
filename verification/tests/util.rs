//! Count guards and the running top-k collector.

use ordvec::bits::{and_popcount, pack_bits, row_popcount, xor_popcount};
use ordvec::float_bits::F32Bits;
use ordvec::rank_io::MAX_VECTORS;
use ordvec::util::{checked_new_count, result_buffer_len, values_finite, TopK};
use rand::{RngExt, SeedableRng};
use rand_chacha::ChaCha8Rng;

fn bits(v: f32) -> F32Bits {
    F32Bits::from_bits(v.to_bits())
}

fn floats(values: &[F32Bits]) -> Vec<f32> {
    values.iter().map(|v| f32::from_bits(v.to_bits())).collect()
}

fn naive_and(d: &[u64], q: &[u64]) -> u32 {
    d.iter().zip(q).map(|(a, b)| (a & b).count_ones()).sum()
}

fn naive_xor(d: &[u64], q: &[u64]) -> u32 {
    d.iter().zip(q).map(|(a, b)| (a ^ b).count_ones()).sum()
}

#[test]
fn popcount_helpers_match_naive() {
    let mut rng = ChaCha8Rng::seed_from_u64(0xC0FFEE);
    for qpv in [1usize, 2, 3, 4, 7, 8, 15, 16, 17, 31] {
        for _ in 0..64 {
            let d: Vec<u64> = (0..qpv).map(|_| rng.random()).collect();
            let q: Vec<u64> = (0..qpv).map(|_| rng.random()).collect();
            assert_eq!(and_popcount(&d, &q), naive_and(&d, &q), "AND qpv={qpv}");
            assert_eq!(xor_popcount(&d, &q), naive_xor(&d, &q), "XOR qpv={qpv}");
        }
    }
}

#[test]
fn topk_zero_k_is_inert() {
    // k == 0 arises when an empty index clamps `k = min(requested, n) = 0`:
    // offers are ignored and nothing is reported.
    let mut top = TopK::new(0);
    top.maybe_insert(bits(1.0), 0);
    top.maybe_insert(bits(f32::NEG_INFINITY), 7);
    let mut scores: [F32Bits; 0] = [];
    let mut indices: [i64; 0] = [];
    top.finalize_into(&mut scores, &mut indices);
    assert!(scores.is_empty() && indices.is_empty());
}

#[test]
fn topk_duplicate_candidate_ties_have_total_final_order() {
    let mut top = TopK::new_with_tie_keys(2, &[7, 7, 7]);
    top.maybe_insert(bits(0.0), 0);
    top.maybe_insert(bits(0.0), 1);
    top.maybe_insert(bits(0.0), 2);

    let mut scores = [bits(f32::NEG_INFINITY); 2];
    let mut indices = [-1; 2];
    top.finalize_into(&mut scores, &mut indices);

    assert_eq!(floats(&scores), [0.0, 0.0]);
    assert_eq!(indices, [0, 1]);
}

#[test]
fn topk_score_offset_is_part_of_eviction_key() {
    // Both scores round to the offset, so that the tie key decides.
    let offset = 16_777_216.0_f32;
    let mut top = TopK::new_with_tie_keys(1, &[10, 3]);
    top.maybe_insert(bits(1.0 + offset), 0);
    top.maybe_insert(bits(0.0 + offset), 1);

    let mut scores = [bits(f32::NEG_INFINITY); 1];
    let mut indices = [-1; 1];
    top.finalize_into(&mut scores, &mut indices);

    assert_eq!(floats(&scores), [16_777_216.0]);
    assert_eq!(indices, [1]);
}

#[test]
fn checked_new_count_accepts_up_to_max() {
    // Exactly MAX_VECTORS is allowed, so a freshly grown index stays
    // write/load round-trippable. (elems=1 isolates the count cap from the
    // buffer-size check.)
    assert_eq!(checked_new_count(0, MAX_VECTORS, 1), MAX_VECTORS);
    assert_eq!(checked_new_count(MAX_VECTORS - 1, 1, 1), MAX_VECTORS);
    // An empty add never trips the guard.
    assert_eq!(checked_new_count(MAX_VECTORS, 0, 1), MAX_VECTORS);
    if usize::BITS == 64 {
        assert_eq!(checked_new_count(0, MAX_VECTORS, 4096), MAX_VECTORS);
    }
}

#[test]
fn topk_reset_and_finalize_with_scratch_match_fresh() {
    let tie = [10u32, 20, 30, 40];
    let mut a = TopK::new_with_tie_keys(2, &tie);
    a.maybe_insert(bits(1.0), 0);
    a.maybe_insert(bits(3.0), 1);
    a.maybe_insert(bits(2.0), 2);
    let mut s_ref = vec![bits(f32::NEG_INFINITY); 2];
    let mut i_ref = vec![-1i64; 2];
    a.finalize_into(&mut s_ref, &mut i_ref);

    // The same through a reused collector and a scratch buffer.
    let mut b = TopK::new(0);
    b.reset_with_tie_keys(2, &tie);
    b.maybe_insert(bits(1.0), 0);
    b.maybe_insert(bits(3.0), 1);
    b.maybe_insert(bits(2.0), 2);
    let mut order_buf = Vec::new();
    let mut s = vec![bits(f32::NEG_INFINITY); 2];
    let mut i = vec![-1i64; 2];
    b.finalize_into_with_scratch(&mut order_buf, &mut s, &mut i);
    assert_eq!(s, s_ref);
    assert_eq!(i, i_ref);

    // A second reset+finalize on the same collector and buffer.
    let cap_buf = order_buf.capacity();
    b.reset_with_tie_keys(2, &tie);
    b.maybe_insert(bits(5.0), 3);
    b.maybe_insert(bits(1.0), 0);
    b.finalize_into_with_scratch(&mut order_buf, &mut s, &mut i);
    assert_eq!(
        order_buf.capacity(),
        cap_buf,
        "finalize order_buf must reuse capacity"
    );
    assert_eq!(i, vec![3, 0]); // score 5.0 (id 40) then 1.0 (id 10)
}

#[test]
fn topk_keeps_the_best_and_pads_what_is_missing() {
    let mut top = TopK::new(3);
    for (i, s) in [0.5f32, -1.0, 2.0, 0.5, 1.5].iter().enumerate() {
        top.maybe_insert(bits(*s), i);
    }
    let mut scores = vec![bits(0.0); 4];
    let mut indices = vec![0i64; 4];
    top.finalize_into(&mut scores, &mut indices);
    assert_eq!(floats(&scores), [2.0, 1.5, 0.5, f32::NEG_INFINITY]);
    assert_eq!(indices, [2, 4, 0, -1]);
}

#[test]
fn values_finite_sees_every_chunk_of_a_long_input() {
    // Long enough to be checked on the thread pool.
    let mut v = vec![bits(1.5); (1 << 20) + 17];
    assert!(values_finite(&v));
    for at in [0usize, 1 << 18, (1 << 20) + 16] {
        let kept = v[at];
        v[at] = bits(f32::NAN);
        assert!(!values_finite(&v));
        v[at] = bits(f32::INFINITY);
        assert!(!values_finite(&v));
        v[at] = kept;
    }
    assert!(values_finite(&v));
}

#[test]
fn values_finite_on_short_inputs() {
    assert!(values_finite(&[]));
    assert!(values_finite(&[bits(f32::MAX), bits(f32::MIN), bits(-0.0)]));
    assert!(!values_finite(&[bits(0.0), bits(f32::NEG_INFINITY)]));
}

#[test]
fn result_buffers_hold_k_per_query() {
    assert_eq!(result_buffer_len(7, 10), 70);
    assert_eq!(result_buffer_len(7, 0), 0);
}

#[test]
fn bits_are_packed_by_position() {
    let mut flags = vec![false; 128];
    flags[0] = true;
    flags[63] = true;
    flags[64] = true;
    let words = pack_bits(&flags);
    assert_eq!(words, vec![0x8000_0000_0000_0001, 1]);
    assert_eq!(row_popcount(&words), 3);
}

#[test]
fn counts_become_the_patterns_of_their_floats() {
    for n in [0u32, 1, 2, 3, 1000, 65535, (1 << 24) - 1] {
        assert_eq!(F32Bits::from_count(n).to_bits(), (n as f32).to_bits());
    }
}

#[test]
fn topk_zero_k_ignores_every_score() {
    let mut top = TopK::new(0);
    for (i, v) in [f32::INFINITY, f32::NAN, -f32::NAN, f32::MAX].iter().enumerate() {
        top.maybe_insert(bits(*v), i);
    }
    let mut scores = [bits(3.0); 2];
    let mut indices = [5i64; 2];
    top.finalize_into(&mut scores, &mut indices);
    assert_eq!(floats(&scores), vec![f32::NEG_INFINITY; 2]);
    assert_eq!(indices, [-1, -1]);
}

#[test]
fn topk_ties_the_two_zeros_and_reports_positive_zero() {
    let mut top = TopK::new(3);
    top.maybe_insert(bits(-0.0), 0);
    top.maybe_insert(bits(0.0), 1);
    top.maybe_insert(bits(-f32::from_bits(1)), 2);
    let mut scores = [bits(3.0); 3];
    let mut indices = [5i64; 3];
    top.finalize_into(&mut scores, &mut indices);
    assert_eq!(indices, [0, 1, 2]);
    assert_eq!(scores, [bits(0.0), bits(0.0), bits(-f32::from_bits(1))]);

    // A full collector does not give up a zero for another one with a higher id,
    // and does for one with a lower id.
    let mut top = TopK::new_with_tie_keys(1, &[4, 9, 2]);
    top.maybe_insert(bits(-0.0), 0);
    top.maybe_insert(bits(0.0), 1);
    let mut score = [bits(3.0)];
    let mut index = [5i64];
    top.finalize_into(&mut score, &mut index);
    assert_eq!((score[0], index[0]), (bits(0.0), 0));
    top.maybe_insert(bits(-0.0), 2);
    top.finalize_into(&mut score, &mut index);
    assert_eq!((score[0], index[0]), (bits(0.0), 2));
}
