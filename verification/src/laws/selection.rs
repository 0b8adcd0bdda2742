//! Which documents are kept, and in what order.

use vstd::prelude::*;

use crate::counting::{count_where, lemma_count_bounds, lemma_count_ext, lemma_count_strict_mono};
use crate::float_bits::{F32Bits, INFINITY_MAGNITUDE};
use crate::laws::floats::{law_keys_order_numbers, number};
use crate::quant::{default_candidates, TwoStageCandidatePolicy};
use crate::results::{
    beats, best_of, best_of_subset, descending, lemma_best_row_is_ranked,
    lemma_best_subset_is_ranked, lemma_reported_slot, orderly, ranks_best, unbeaten, SearchResults,
};
use crate::rows::{lemma_row_inside, row, rows_of};
use crate::select::{
    comes_before, earlier, key_at, lemma_earlier_counts_less, lemma_left_out_comes_after,
    lemma_smallest_is_sorted, lesser, lists_smallest,
};
use crate::sign_bitmap::CandidateBatch;
use crate::sort::{key_less, lemma_ordered_position, ordered, position};
use crate::util::{
    better, lemma_topk_keeps_best, offered_all, reported_before, reported_earlier, reports, widened,
    Entry, TopK,
};

verus! {

/// A list of the smallest keys holds as many ids as asked for, or all of them;
/// the ids are in order of their keys, equal keys by id; and no id that is left
/// out comes before one that is listed.
pub proof fn law_smallest_keys_are_listed(
    n: int,
    m: int,
    key: spec_fn(int) -> int,
    ids: Seq<u32>,
    i: int,
)
    requires
        0 <= n,
        0 <= m,
        lists_smallest(n, m, key, ids),
        0 <= i < n,
    ensures
        m <= n ==> ids.len() == m,
        n <= m ==> ids.len() == n,
        forall|r: int| 0 <= r < ids.len() ==> #[trigger] ids[r] < n,
        forall|r: int, s: int|
            0 <= r < s < ids.len() ==> key(#[trigger] ids[r] as int) < key(
                #[trigger] ids[s] as int,
            ) || (key(ids[r] as int) == key(ids[s] as int) && ids[r] < ids[s]),
        (forall|r: int| 0 <= r < ids.len() ==> #[trigger] ids[r] != i) ==> forall|r: int|
            0 <= r < ids.len() ==> key(#[trigger] ids[r] as int) < key(i) || (key(ids[r] as int)
                == key(i) && ids[r] < i),
{
    lemma_smallest_is_sorted(n, m, key, ids);
    assert forall|r: int, s: int| 0 <= r < s < ids.len() implies key(#[trigger] ids[r] as int)
        < key(#[trigger] ids[s] as int) || (key(ids[r] as int) == key(ids[s] as int) && ids[r]
        < ids[s]) by {
        assert(comes_before(key, ids[r] as int, ids[s] as int));
    }
    if forall|r: int| 0 <= r < ids.len() ==> #[trigger] ids[r] != i {
        assert forall|r: int| 0 <= r < ids.len() implies key(#[trigger] ids[r] as int) < key(i) || (
        key(ids[r] as int) == key(i) && ids[r] < i) by {
            lemma_left_out_comes_after(n, m, key, ids, i, r);
        }
    }
}

/// A sorted order lists every index once, in the order of the keys, equal keys
/// by index.
pub proof fn law_sorted_orders(keys: Seq<u128>, order: Seq<usize>, a: int, b: int)
    requires
        ordered(keys, order, 0, keys.len() as int),
        order.len() == keys.len(),
        0 <= a < b < order.len(),
    ensures
        order[a] < keys.len(),
        order[b] < keys.len(),
        order[a] != order[b],
        keys[order[a] as int] < keys[order[b] as int] || (keys[order[a] as int]
            == keys[order[b] as int] && order[a] < order[b]),
        position(keys, order[a] as int) < position(keys, order[b] as int),
{
    lemma_ordered_position(keys, order, a);
    lemma_ordered_position(keys, order, b);
    assert(key_less(keys, order[a] as int, order[b] as int));
}

/// Tie keys are those of the documents that they stand for.
pub proof fn law_tie_keys(keys: Seq<u32>, i: int)
    requires
        0 <= i < keys.len(),
    ensures
        widened(keys).len() == keys.len(),
        widened(keys)[i] == keys[i],
{
}

/// Keys given one by one are those of their ids, and the lesser of two counts
/// is one of them and exceeds neither.
pub proof fn law_keys_and_counts(keys: Seq<u32>, i: int, a: int, b: int)
    ensures
        key_at(keys)(i) == keys[i],
        lesser(a, b) <= a,
        lesser(a, b) <= b,
        lesser(a, b) == a || lesser(a, b) == b,
{
}

/// The score that a collector orders by: the total order, with the two zeros
/// equal.
pub open spec fn merit(s: F32Bits) -> int {
    if s.bits == 0x8000_0000u32 {
        0
    } else if s.bits > 0x8000_0000u32 {
        0x7FFF_FFFF - s.bits
    } else {
        s.bits as int
    }
}

/// Merit orders finite scores as numbers, and is the same on the two zeros.
pub proof fn law_merit_orders_numbers(a: F32Bits, b: F32Bits)
    requires
        a.finite(),
        b.finite(),
    ensures
        merit(a) < merit(b) <==> number(a) < number(b),
        merit(a) == merit(b) <==> number(a) == number(b),
{
    law_keys_order_numbers(a, b);
    law_keys_order_numbers(b, a);
}

proof fn lemma_merit(s: F32Bits)
    ensures
        merit(s) == s.plus_zero().total_key(),
        merit(s) == merit(s.plus_zero()),
{
}

/// The reported row of a search holds as many documents as asked for, or all
/// of them; each is reported once, with its own score as a number; the scores
/// fall, equal ones by ascending id; and no document that is left out has a
/// higher score than one that is reported, nor an equal score and a lower id.
pub proof fn law_best_scores_are_reported(
    scores: Seq<F32Bits>,
    k: int,
    out_scores: Seq<F32Bits>,
    out_indices: Seq<i64>,
    i: int,
)
    requires
        0 <= k,
        scores.len() <= i64::MAX,
        best_of(scores, k, out_scores, out_indices),
        forall|d: int| 0 <= d < scores.len() ==> merit(#[trigger] scores[d]) <= 0x7F80_0000,
        0 <= i < scores.len(),
    ensures
        k <= scores.len() ==> out_scores.len() == k,
        scores.len() <= k ==> out_scores.len() == scores.len(),
        forall|r: int|
            0 <= r < out_scores.len() ==> 0 <= #[trigger] out_indices[r] < scores.len()
                && out_scores[r].bits == if scores[out_indices[r] as int].bits == 0x8000_0000u32 {
                0
            } else {
                scores[out_indices[r] as int].bits
            },
        forall|r: int, s: int|
            0 <= r < s < out_scores.len() ==> merit(#[trigger] out_scores[s]) < merit(
                #[trigger] out_scores[r],
            ) || (merit(out_scores[s]) == merit(out_scores[r]) && out_indices[r] < out_indices[s]),
        (forall|r: int| 0 <= r < out_scores.len() ==> #[trigger] out_indices[r] != i)
            ==> forall|r: int|
            0 <= r < out_scores.len() ==> merit(scores[i]) < merit(#[trigger] out_scores[r]) || (
            merit(scores[i]) == merit(out_scores[r]) && out_indices[r] < i),
{
    let n = scores.len() as int;
    let key = descending(scores);
    let len = out_scores.len() as int;
    assert(orderly(scores)) by {
        assert forall|d: int| 0 <= d < scores.len() implies (#[trigger] scores[d]).total_key()
            <= INFINITY_MAGNITUDE by {
            assert(merit(scores[d]) <= 0x7F80_0000);
            lemma_merit(scores[d]);
        }
    }
    assert forall|r: int| 0 <= r < len implies ranks_best(scores, out_scores, out_indices, r) by {
        lemma_best_row_is_ranked(scores, k, out_scores, out_indices, r);
    }
    assert forall|r: int| 0 <= r < len implies 0 <= #[trigger] out_indices[r] < n
        && out_scores[r].bits == (if scores[out_indices[r] as int].bits == 0x8000_0000u32 {
        0
    } else {
        scores[out_indices[r] as int].bits
    }) && key(out_indices[r] as int) == -merit(out_scores[r]) by {
        assert(ranks_best(scores, out_scores, out_indices, r));
        lemma_merit(scores[out_indices[r] as int]);
    }
    assert forall|r: int, s: int| 0 <= r < s < len implies merit(#[trigger] out_scores[s]) < merit(
        #[trigger] out_scores[r],
    ) || (merit(out_scores[s]) == merit(out_scores[r]) && out_indices[r] < out_indices[s]) by {
        assert(ranks_best(scores, out_scores, out_indices, r));
        assert(ranks_best(scores, out_scores, out_indices, s));
        let x = out_indices[r] as int;
        let y = out_indices[s] as int;
        if !comes_before(key, x, y) && x != y {
            lemma_earlier_counts_less(n, key, y, x);
        }
    }
    if forall|r: int| 0 <= r < len ==> #[trigger] out_indices[r] != i {
        lemma_merit(scores[i]);
        let p = count_where(n, earlier(key, i));
        lemma_count_bounds(n, earlier(key, i));
        if p < len {
            assert(ranks_best(scores, out_scores, out_indices, p));
            let x = out_indices[p] as int;
            if comes_before(key, x, i) {
                lemma_earlier_counts_less(n, key, x, i);
            } else {
                lemma_earlier_counts_less(n, key, i, x);
            }
        }
        assert forall|r: int| 0 <= r < len implies merit(scores[i]) < merit(
            #[trigger] out_scores[r],
        ) || (merit(scores[i]) == merit(out_scores[r]) && out_indices[r] < i) by {
            assert(ranks_best(scores, out_scores, out_indices, r));
            if !comes_before(key, out_indices[r] as int, i) {
                lemma_earlier_counts_less(n, key, i, out_indices[r] as int);
            }
        }
    }
}

/// The reported row of a search among candidates holds as many of them as
/// asked for, or all. Entry `r` is a candidate with its own id and score, fewer
/// than `r + 1` candidates have a higher score or an equal one and a lower id,
/// and all but `r` or fewer of the others have a lower score or an equal one
/// and a higher id.
pub proof fn law_best_candidates_are_reported(
    scores: Seq<F32Bits>,
    candidates: Seq<u32>,
    k: int,
    out_scores: Seq<F32Bits>,
    out_ids: Seq<i64>,
    r: int,
) -> (i: int)
    requires
        0 <= k,
        scores.len() <= i64::MAX,
        candidates.len() == scores.len(),
        best_of_subset(scores, candidates, k, out_scores, out_ids),
        forall|d: int| 0 <= d < scores.len() ==> merit(#[trigger] scores[d]) <= 0x7F80_0000,
        0 <= r < out_scores.len(),
    ensures
        k <= scores.len() ==> out_scores.len() == k,
        scores.len() <= k ==> out_scores.len() == scores.len(),
        out_ids.len() == out_scores.len(),
        0 <= i < scores.len(),
        out_ids[r] == candidates[i],
        out_scores[r].bits == if scores[i].bits == 0x8000_0000u32 {
            0
        } else {
            scores[i].bits
        },
        count_where(
            scores.len() as int,
            |j: int|
                merit(scores[j]) > merit(scores[i]) || (merit(scores[j]) == merit(scores[i])
                    && candidates[j] < candidates[i]),
        ) <= r < count_where(
            scores.len() as int,
            |j: int|
                merit(scores[j]) > merit(scores[i]) || (merit(scores[j]) == merit(scores[i])
                    && candidates[j] <= candidates[i]),
        ),
{
    let n = scores.len() as int;
    assert(orderly(scores)) by {
        assert forall|d: int| 0 <= d < scores.len() implies (#[trigger] scores[d]).total_key()
            <= INFINITY_MAGNITUDE by {
            assert(merit(scores[d]) <= 0x7F80_0000);
            lemma_merit(scores[d]);
        }
    }
    let i = lemma_best_subset_is_ranked(scores, candidates, k, out_scores, out_ids, r);
    let p = |j: int|
        merit(scores[j]) > merit(scores[i]) || (merit(scores[j]) == merit(scores[i])
            && candidates[j] < candidates[i]);
    let q = |j: int|
        merit(scores[j]) > merit(scores[i]) || (merit(scores[j]) == merit(scores[i])
            && candidates[j] <= candidates[i]);
    assert forall|j: int| 0 <= j < n implies #[trigger] beats(scores, candidates, i)(j) == p(j) by {
        lemma_merit(scores[i]);
        lemma_merit(scores[j]);
    }
    assert forall|j: int| 0 <= j < n implies #[trigger] unbeaten(scores, candidates, i)(j) == q(
        j,
    ) by {
        lemma_merit(scores[i]);
        lemma_merit(scores[j]);
    }
    lemma_count_ext(n, beats(scores, candidates, i), p);
    lemma_count_ext(n, unbeaten(scores, candidates, i), q);
    i
}

/// Of two entries that a collector holds the better one has the higher score,
/// or an equal one and the lower tie key.
pub proof fn law_better_entries(a: Entry, b: Entry)
    requires
        a.score.bits != 0x8000_0000u32,
        b.score.bits != 0x8000_0000u32,
    ensures
        better(a, b) <==> merit(a.score) > merit(b.score) || (merit(a.score) == merit(b.score)
            && a.tie < b.tie),
{
    lemma_merit(a.score);
    lemma_merit(b.score);
}

/// A collector of the best `k` keeps as many entries as it was offered, up to
/// `k`, and only such entries; an entry that was offered and is better than one
/// that it kept is kept too.
pub proof fn law_collectors_keep_the_best(k: int, entries: Seq<Entry>, i: int, s: int)
    requires
        0 < k,
        forall|e: int|
            0 <= e < entries.len() ==> {
                &&& (#[trigger] entries[e]).score.bits != 0x8000_0000u32
                &&& merit(entries[e].score) <= 0x7F80_0000
            },
        0 <= i < entries.len(),
        0 <= s < offered_all(k, entries).len(),
    ensures
        k <= entries.len() ==> offered_all(k, entries).len() == k,
        entries.len() <= k ==> offered_all(k, entries).len() == entries.len(),
        entries.contains(offered_all(k, entries)[s]),
        ({
            let (a, b) = (entries[i], offered_all(k, entries)[s]);
            merit(a.score) > merit(b.score) || (merit(a.score) == merit(b.score) && a.tie < b.tie)
                ==> offered_all(k, entries).contains(a)
        }),
{
    let slots = offered_all(k, entries);
    assert forall|e: int| 0 <= e < entries.len() implies (#[trigger] entries[e]).score.total_key()
        <= INFINITY_MAGNITUDE by {
        assert(merit(entries[e].score) <= 0x7F80_0000);
        lemma_merit(entries[e].score);
    }
    lemma_topk_keeps_best(k, entries);
    assert(exists|j: int| 0 <= j < entries.len() && #[trigger] entries[j] == #[trigger] slots[s]);
    let j = choose|j: int| 0 <= j < entries.len() && #[trigger] entries[j] == slots[s];
    assert(entries[j].score.bits != 0x8000_0000u32);
    law_better_entries(entries[i], slots[s]);
    if better(entries[i], slots[s]) {
        let u = choose|u: int| 0 <= u < slots.len() && slots[u] == entries[i];
        assert(slots[u] == entries[i]);
    }
}

/// The entry that a score makes: negative zero as positive zero, under its
/// index, with the key given for the index or else the index itself.
pub proof fn law_entries_of_scores(t: TopK, score: F32Bits, idx: int)
    requires
        0 <= idx <= i64::MAX,
    ensures
        t.entry(score, idx).score.bits == if score.bits == 0x8000_0000u32 {
            0
        } else {
            score.bits
        },
        t.entry(score, idx).index == idx,
        t.ties() is None ==> t.entry(score, idx).tie == idx,
        t.ties() matches Some(keys) ==> t.entry(score, idx).tie == keys[idx],
{
}

/// A collector reports its entries once each, from the best on, entries with
/// the same score and tie key in the order of their slots, and fills what is
/// left of the buffers with negative infinity and -1.
pub proof fn law_collectors_report_in_order(
    slots: Seq<Entry>,
    scores: Seq<F32Bits>,
    indices: Seq<i64>,
    r: int,
    t: int,
) -> (found: (int, int))
    requires
        reports(slots, scores, indices),
        forall|s: int|
            0 <= s < slots.len() ==> (#[trigger] slots[s]).score.bits != 0x8000_0000u32,
        0 <= r < t < scores.len(),
    ensures
        indices.len() == scores.len(),
        r >= slots.len() ==> scores[r].bits == 0xFF80_0000u32 && indices[r] == -1,
        t >= slots.len() ==> scores[t].bits == 0xFF80_0000u32 && indices[t] == -1,
        r < slots.len() ==> 0 <= found.0 < slots.len() && scores[r] == slots[found.0].score
            && indices[r] == slots[found.0].index,
        t < slots.len() ==> 0 <= found.1 < slots.len() && scores[t] == slots[found.1].score
            && indices[t] == slots[found.1].index && found.0 != found.1 && ({
            let (a, b) = (slots[found.0], slots[found.1]);
            merit(a.score) > merit(b.score) || (merit(a.score) == merit(b.score) && (a.tie < b.tie
                || (a.tie == b.tie && found.0 < found.1)))
        }),
{
    if r < slots.len() {
        let x = lemma_reported_slot(slots, scores, indices, r);
        if t < slots.len() {
            let y = lemma_reported_slot(slots, scores, indices, t);
            law_better_entries(slots[x], slots[y]);
            law_better_entries(slots[y], slots[x]);
            lemma_merit(slots[x].score);
            lemma_merit(slots[y].score);
            if !reported_before(slots, x, y) {
                assert(reported_before(slots, y, x));
                lemma_count_strict_mono(
                    slots.len() as int,
                    reported_earlier(slots, y),
                    reported_earlier(slots, x),
                    y,
                );
            }
            (x, y)
        } else {
            (x, 0)
        }
    } else {
        (0, 0)
    }
}

/// The rows of a flat buffer, and the results of query `qi`, start where the
/// rows before them end.
pub proof fn law_rows_are_consecutive<T>(data: Seq<T>, width: int, n: int, i: int, j: int)
    requires
        0 <= i < n,
        0 <= j < width,
        data.len() == n * width,
    ensures
        0 <= i * width + j < data.len(),
        row(data, width, i).len() == width,
        row(data, width, i)[j] == data[i * width + j],
        rows_of(data, width, n).len() == n,
        rows_of(data, width, n)[i] == row(data, width, i),
{
    lemma_row_inside(i, n, width);
}

/// The scores and ids of query `qi` of search results.
pub proof fn law_result_rows(r: SearchResults, qi: int, j: int)
    requires
        r.wf(),
        0 <= qi < r.nq,
        0 <= j < r.k,
    ensures
        r.scores@.len() == r.nq * r.k,
        r.indices@.len() == r.nq * r.k,
        r.score_row(qi).len() == r.k,
        r.index_row(qi).len() == r.k,
        r.score_row(qi)[j] == r.scores@[qi * r.k + j],
        r.index_row(qi)[j] == r.indices@[qi * r.k + j],
{
    lemma_row_inside(qi, r.nq as int, r.k as int);
}

/// The candidates of a query of a batch lie between two neighbouring offsets,
/// and those of the next query follow on them.
pub proof fn law_candidate_rows(b: CandidateBatch, i: int, j: int)
    requires
        b.wf(),
        0 <= i < b.queries(),
        0 <= j < b.offsets@[i + 1] - b.offsets@[i],
    ensures
        b.queries() + 1 == b.offsets@.len(),
        b.row_of(i).len() == b.offsets@[i + 1] - b.offsets@[i],
        b.offsets@[i] + j < b.candidates@.len(),
        b.row_of(i)[j] == b.candidates@[b.offsets@[i] + j],
        b.offsets@[0] == 0,
        b.offsets@[b.queries()] == b.candidates@.len(),
{
    assert(b.offsets@[i + 1] <= b.offsets@[b.queries()]);
}

/// The candidates that a policy asks for: none for no results or no documents;
/// otherwise never more than there are documents or than the maximum, and
/// unless cut to one of these the larger of the minimum and the multiple of
/// `k`.
pub proof fn law_candidate_policy(p: TwoStageCandidatePolicy, k: int, n: int)
    requires
        0 <= k,
        0 <= n <= usize::MAX,
    ensures
        k == 0 || n == 0 ==> p.candidates(k, n) == 0,
        k > 0 && n > 0 ==> ({
            let c = p.candidates(k, n);
            let cut = c == n || (p.max_candidates is Some && c == p.max_candidates->0);
            &&& c <= n
            &&& p.max_candidates is Some ==> c <= p.max_candidates->0
            &&& !cut ==> c >= p.min_candidates && c >= k * p.k_multiplier
            &&& !cut ==> c == p.min_candidates || c == k * p.k_multiplier
            &&& c <= p.min_candidates || c <= k * p.k_multiplier
        }),
        k > 0 && n > 0 ==> default_candidates(k, n) == if n <= 256 || n <= 32 * k {
            n
        } else if 32 * k <= 256 {
            256
        } else {
            32 * k
        },
        k == 0 || n == 0 ==> default_candidates(k, n) == 0,
{
    let x = k * p.k_multiplier;
    assert(0 <= x) by (nonlinear_arith)
        requires
            0 <= k,
            x == k * p.k_multiplier,
            0 <= p.k_multiplier,
    ;
}

} // verus!
