//! Search results and the selection of the best scores.

use vstd::prelude::*;
use vstd::slice::slice_subrange;

use crate::counting::{
    at, count_where, holds_after, is_permutation, lemma_count_bounds, lemma_count_ext,
    lemma_count_full, lemma_count_mono, lemma_count_permuted, lemma_count_strict_mono,
    lemma_permutation_surjective,
};
use crate::float_bits::{F32Bits, INFINITY_MAGNITUDE};
use crate::rank_io::MAX_VECTORS;
use crate::rows::{lemma_row_inside, row};
use crate::select::{comes_before, earlier, lemma_earlier_counts_less, lesser, lists_smallest};
use crate::text::{decimal, push_decimal, push_text};
use crate::util::{
    better_than, distinct_entries, lemma_place_is_between, lemma_place_is_rank,
    lemma_topk_keeps_best, lemma_worst_slot, not_worse_than, offered_all, place, reported_before,
    reported_earlier, reports, result_buffer_len, widened, Entry, TopK,
};

verus! {

/// Top-`k` results of `nq` queries: flat row-major buffers of `nq * k` scores
/// and document ids.
pub struct SearchResults {
    /// The scores, best first within each query.
    pub scores: Vec<F32Bits>,
    /// The document ids of the scores.
    pub indices: Vec<i64>,
    /// The number of queries.
    pub nq: usize,
    /// The number of results per query.
    pub k: usize,
}

/// The text of a length mismatch.
pub open spec fn mismatch_text(what: Seq<char>, len: nat, expected: nat) -> Seq<char> {
    "SearchResults "@ + what + " length "@ + decimal(len) + " does not match nq * k "@ + decimal(
        expected,
    )
}

impl SearchResults {
    /// Both buffers hold `k` values for each query.
    pub open spec fn wf(&self) -> bool {
        &&& self.scores@.len() == self.nq * self.k
        &&& self.indices@.len() == self.nq * self.k
    }

    /// The scores of query `qi`.
    pub open spec fn score_row(&self, qi: int) -> Seq<F32Bits> {
        row(self.scores@, self.k as int, qi)
    }

    /// The document ids of query `qi`.
    pub open spec fn index_row(&self, qi: int) -> Seq<i64> {
        row(self.indices@, self.k as int, qi)
    }

    /// Assemble results from their parts, checking the shape.
    pub fn from_parts(scores: Vec<F32Bits>, indices: Vec<i64>, nq: u64, k: u64) -> (r: Result<
        Self,
        String,
    >)
        ensures
            match r {
                Ok(s) => {
                    &&& s.wf()
                    &&& s.scores@ == scores@
                    &&& s.indices@ == indices@
                    &&& s.nq == nq
                    &&& s.k == k
                },
                Err(e) => if nq > usize::MAX {
                    e@ == "SearchResults nq does not fit usize"@
                } else if k > usize::MAX {
                    e@ == "SearchResults k does not fit usize"@
                } else if nq * k > usize::MAX {
                    e@ == "SearchResults nq * k overflows usize"@
                } else if scores.len() != nq * k {
                    e@ == mismatch_text("scores"@, scores@.len(), (nq * k) as nat)
                } else {
                    &&& indices.len() != nq * k
                    &&& e@ == mismatch_text("indices"@, indices@.len(), (nq * k) as nat)
                },
            },
    {
        if nq > usize::MAX as u64 {
            return Err("SearchResults nq does not fit usize".to_owned());
        }
        if k > usize::MAX as u64 {
            return Err("SearchResults k does not fit usize".to_owned());
        }
        let nq: usize = nq as usize;
        let k: usize = k as usize;
        let expected: usize = match nq.checked_mul(k) {
            Some(n) => n,
            None => {
                return Err("SearchResults nq * k overflows usize".to_owned());
            },
        };
        if scores.len() != expected {
            return Err(mismatch("scores", scores.len(), expected));
        }
        if indices.len() != expected {
            return Err(mismatch("indices", indices.len(), expected));
        }
        Ok(SearchResults { scores, indices, nq, k })
    }

    /// The scores of query `qi`, best first.
    pub fn scores_for_query(&self, qi: usize) -> (s: &[F32Bits])
        requires
            self.wf(),
            qi < self.nq || (self.k == 0 && qi < usize::MAX),
        ensures
            s@ == self.score_row(qi as int),
    {
        proof {
            if self.k == 0 {
                assert(qi * 0 == 0);
            } else {
                lemma_row_inside(qi as int, self.nq as int, self.k as int);
            }
            assert(self.scores.len() == self.nq * self.k);
        }
        slice_subrange(self.scores.as_slice(), qi * self.k, qi * self.k + self.k)
    }

    /// The document ids of query `qi`, best first.
    pub fn indices_for_query(&self, qi: usize) -> (s: &[i64])
        requires
            self.wf(),
            qi < self.nq || (self.k == 0 && qi < usize::MAX),
        ensures
            s@ == self.index_row(qi as int),
    {
        proof {
            if self.k == 0 {
                assert(qi * 0 == 0);
            } else {
                lemma_row_inside(qi as int, self.nq as int, self.k as int);
            }
            assert(self.indices.len() == self.nq * self.k);
        }
        slice_subrange(self.indices.as_slice(), qi * self.k, qi * self.k + self.k)
    }

    /// Results with one row per query, each of `k` results.
    pub(crate) fn from_rows(rows: &Vec<(Vec<F32Bits>, Vec<i64>)>, k: usize) -> (r: Self)
        requires
            rows.len() * k <= usize::MAX,
            forall|i: int|
                0 <= i < rows.len() ==> (#[trigger] rows[i]).0@.len() == k && rows[i].1@.len() == k,
        ensures
            r.wf(),
            r.nq == rows.len(),
            r.k == k,
            forall|i: int| 0 <= i < rows.len() ==> #[trigger] r.score_row(i) == rows[i].0@,
            forall|i: int| 0 <= i < rows.len() ==> #[trigger] r.index_row(i) == rows[i].1@,
    {
        let len: usize = result_buffer_len(rows.len(), k);
        let mut r = SearchResults {
            scores: Vec::with_capacity(len),
            indices: Vec::with_capacity(len),
            nq: 0,
            k,
        };
        let mut i: usize = 0;
        while i < rows.len()
            invariant
                i <= rows.len(),
                r.wf(),
                r.nq == i,
                r.k == k,
                forall|t: int|
                    0 <= t < rows.len() ==> (#[trigger] rows[t]).0@.len() == k && rows[t].1@.len()
                        == k,
                forall|t: int| 0 <= t < i ==> #[trigger] r.score_row(t) == rows[t].0@,
                forall|t: int| 0 <= t < i ==> #[trigger] r.index_row(t) == rows[t].1@,
            decreases rows.len() - i,
        {
            r.push_row(&rows[i].0, &rows[i].1);
            i = i + 1;
        }
        r
    }

    /// Append the results of one more query.
    fn push_row(&mut self, scores: &Vec<F32Bits>, indices: &Vec<i64>)
        requires
            old(self).wf(),
            old(self).nq < usize::MAX,
            scores@.len() == old(self).k,
            indices@.len() == old(self).k,
        ensures
            final(self).wf(),
            final(self).nq == old(self).nq + 1,
            final(self).k == old(self).k,
            final(self).score_row(old(self).nq as int) == scores@,
            final(self).index_row(old(self).nq as int) == indices@,
            forall|q: int|
                0 <= q < old(self).nq ==> #[trigger] final(self).score_row(q) == old(
                    self,
                ).score_row(q),
            forall|q: int|
                0 <= q < old(self).nq ==> #[trigger] final(self).index_row(q) == old(
                    self,
                ).index_row(q),
    {
        let ghost before = *self;
        let ghost k = self.k as int;
        let ghost n = self.nq as int;
        self.scores.extend_from_slice(scores.as_slice());
        self.indices.extend_from_slice(indices.as_slice());
        self.nq = self.nq + 1;
        proof {
            assert(n * k + k == (n + 1) * k) by (nonlinear_arith);
            assert(self.scores@ =~= before.scores@ + scores@);
            assert(self.indices@ =~= before.indices@ + indices@);
            assert(self.score_row(n) =~= scores@);
            assert(self.index_row(n) =~= indices@);
            assert forall|q: int| 0 <= q < n implies #[trigger] self.score_row(q)
                == before.score_row(q) by {
                lemma_row_inside(q, n, k);
                assert(self.score_row(q) =~= before.score_row(q));
            }
            assert forall|q: int| 0 <= q < n implies #[trigger] self.index_row(q)
                == before.index_row(q) by {
                lemma_row_inside(q, n, k);
                assert(self.index_row(q) =~= before.index_row(q));
            }
        }
    }
}

fn mismatch(what: &'static str, len: usize, expected: usize) -> (s: String)
    ensures
        s@ == mismatch_text(what@, len as nat, expected as nat),
{
    let mut s: String = "SearchResults ".to_owned();
    push_text(&mut s, what);
    push_text(&mut s, " length ");
    push_decimal(&mut s, len as u64);
    push_text(&mut s, " does not match nq * k ");
    push_decimal(&mut s, expected as u64);
    s
}

/// The entries of a full scan: each document under its own id, negative zero as
/// positive zero.
pub open spec fn scan_entries(scores: Seq<F32Bits>) -> Seq<Entry> {
    Seq::new(
        scores.len(),
        |d: int| Entry { score: scores[d].plus_zero(), index: d as i64, tie: d as i64 },
    )
}

/// The entries of a subset scan: each candidate under its position, negative
/// zero as positive zero, ties broken by its document id.
pub open spec fn subset_entries(scores: Seq<F32Bits>, candidates: Seq<u32>) -> Seq<Entry> {
    Seq::new(
        scores.len(),
        |i: int|
            Entry { score: scores[i].plus_zero(), index: i as i64, tie: candidates[i] as i64 },
    )
}

/// No score is a positive NaN, which would lie above positive infinity.
pub open spec fn orderly(scores: Seq<F32Bits>) -> bool {
    forall|i: int|
        0 <= i < scores.len() ==> (#[trigger] scores[i]).total_key() <= INFINITY_MAGNITUDE
}

/// Scores as keys that ascend from the best on. The two zeros share a key.
pub open spec fn descending(scores: Seq<F32Bits>) -> spec_fn(int) -> int {
    |i: int| -scores[i].plus_zero().total_key()
}

/// Entry `r` of the buffers is a document with its own score, negative zero as
/// positive zero, and exactly `r` documents come before it by descending score
/// and then ascending id.
pub open spec fn ranks_best(
    scores: Seq<F32Bits>,
    out_scores: Seq<F32Bits>,
    out_indices: Seq<i64>,
    r: int,
) -> bool {
    &&& 0 <= out_indices[r] < scores.len()
    &&& out_scores[r] == scores[out_indices[r] as int].plus_zero()
    &&& count_where(scores.len() as int, earlier(descending(scores), out_indices[r] as int)) == r
}

/// The buffers hold the best `k` of the scores: in their order, where no score
/// is a positive NaN, and in any case as a collector reports them.
pub open spec fn best_of(
    scores: Seq<F32Bits>,
    k: int,
    out_scores: Seq<F32Bits>,
    out_indices: Seq<i64>,
) -> bool {
    &&& orderly(scores) ==> forall|r: int|
        0 <= r < out_scores.len() ==> #[trigger] ranks_best(scores, out_scores, out_indices, r)
    &&& collects(scores, k, out_scores, out_indices)
}

/// The buffers hold the best `k` of the scores, as a top-`k` collector offered
/// every document in order reports them.
pub open spec fn collects(
    scores: Seq<F32Bits>,
    k: int,
    out_scores: Seq<F32Bits>,
    out_indices: Seq<i64>,
) -> bool {
    &&& out_scores.len() == lesser(k, scores.len() as int)
    &&& k > 0 && scores.len() > 0 ==> reports(
        offered_all(lesser(k, scores.len() as int), scan_entries(scores)),
        out_scores,
        out_indices,
    )
}

/// The best `k` of the scores of a full scan.
pub(crate) fn best_row(scores: &[F32Bits], k: usize) -> (r: (Vec<F32Bits>, Vec<i64>))
    requires
        scores.len() <= i64::MAX,
    ensures
        r.0@.len() == r.1@.len(),
        best_of(scores@, k as int, r.0@, r.1@),
{
    let n: usize = scores.len();
    let take: usize = if k <= n {
        k
    } else {
        n
    };
    let mut out_scores: Vec<F32Bits> = vec![F32Bits::neg_infinity();take];
    let mut out_indices: Vec<i64> = vec![-1i64;take];
    if take > 0 {
        let mut top = TopK::new(take);
        let mut d: usize = 0;
        let ghost entries = scan_entries(scores@);
        assert(entries.subrange(0, 0) =~= Seq::<Entry>::empty());
        while d < n
            invariant
                n == scores.len(),
                n <= i64::MAX,
                d <= n,
                0 < take,
                top.wf(),
                top.capacity() == take,
                top.ties() is None,
                entries == scan_entries(scores@),
                top.kept() == offered_all(take as int, entries.subrange(0, d as int)),
            decreases n - d,
        {
            top.maybe_insert(scores[d], d);
            proof {
                let seen = entries.subrange(0, d + 1);
                assert(seen.drop_last() =~= entries.subrange(0, d as int));
                assert(seen.last() == entries[d as int]);
            }
            d = d + 1;
        }
        assert(entries.subrange(0, n as int) =~= entries);
        top.finalize_into(out_scores.as_mut_slice(), out_indices.as_mut_slice());
    }
    proof {
        if orderly(scores@) {
            assert forall|r: int| 0 <= r < out_scores@.len() implies #[trigger] ranks_best(
                scores@,
                out_scores@,
                out_indices@,
                r,
            ) by {
                lemma_best_row_is_ranked(scores@, k as int, out_scores@, out_indices@, r);
            }
        }
    }
    (out_scores, out_indices)
}

/// `p` is what `prepare` made of a query.
pub open spec fn prepared<P, G: Fn(&[F32Bits]) -> P>(
    prepare: G,
    query: Seq<F32Bits>,
    p: P,
) -> bool {
    exists|q: &[F32Bits]| q@ == query && #[trigger] prepare.ensures((q,), p)
}

/// `s` is what `score` gave for a prepared query and a document.
pub open spec fn scored<P, T, S: Fn(&P, &[T]) -> F32Bits>(
    score: S,
    p: P,
    doc: Seq<T>,
    s: F32Bits,
) -> bool {
    exists|d: &[T]| d@ == doc && #[trigger] score.ensures((&p, d), s)
}

/// `scores` holds what `score` gave for a prepared query and each document.
pub open spec fn scores_of<P, T, S: Fn(&P, &[T]) -> F32Bits>(
    score: S,
    p: P,
    docs: Seq<Seq<T>>,
    scores: Seq<F32Bits>,
) -> bool {
    &&& scores.len() == docs.len()
    &&& forall|i: int| 0 <= i < docs.len() ==> scored(score, p, docs[i], #[trigger] scores[i])
}

/// The buffers hold the best `k` of the scores of a query against every
/// document.
pub open spec fn asymmetric_row<P, T, G: Fn(&[F32Bits]) -> P, S: Fn(&P, &[T]) -> F32Bits>(
    prepare: G,
    score: S,
    query: Seq<F32Bits>,
    docs: Seq<Seq<T>>,
    k: int,
    out_scores: Seq<F32Bits>,
    out_indices: Seq<i64>,
) -> bool {
    exists|p: P, scores: Seq<F32Bits>|
        prepared(prepare, query, p) && #[trigger] scores_of(score, p, docs, scores)
            && #[trigger] best_of(scores, k, out_scores, out_indices)
}

/// No candidate is listed twice.
pub open spec fn distinct(candidates: Seq<u32>) -> bool {
    forall|a: int, b: int|
        0 <= a < b < candidates.len() ==> #[trigger] candidates[a] != #[trigger] candidates[b]
}

/// The candidates that come before candidate `i`, by descending score and then
/// ascending document id. The two zeros are equal scores.
pub open spec fn beats(scores: Seq<F32Bits>, candidates: Seq<u32>, i: int) -> spec_fn(int) -> bool {
    |j: int|
        {
            let (a, b) = (scores[j].plus_zero().total_key(), scores[i].plus_zero().total_key());
            a > b || (a == b && candidates[j] < candidates[i])
        }
}

/// The candidates that candidate `i` does not come before: those that come
/// before it, and those with its score and document id.
pub open spec fn unbeaten(scores: Seq<F32Bits>, candidates: Seq<u32>, i: int) -> spec_fn(
    int,
) -> bool {
    |j: int| !beats(scores, candidates, j)(i)
}

/// Candidate `i` has place `r`: no more than `r` candidates come before it, and
/// more than `r` do not come after it.
pub open spec fn has_place(scores: Seq<F32Bits>, candidates: Seq<u32>, i: int, r: int) -> bool {
    count_where(scores.len() as int, beats(scores, candidates, i)) <= r < count_where(
        scores.len() as int,
        unbeaten(scores, candidates, i),
    )
}

/// Entry `r` of the buffers is a candidate with place `r`, under its document
/// id and with its own score, negative zero as positive zero. Candidates share
/// a place only where they share score and document id.
pub open spec fn ranks_best_candidate(
    scores: Seq<F32Bits>,
    candidates: Seq<u32>,
    out_scores: Seq<F32Bits>,
    out_ids: Seq<i64>,
    r: int,
) -> bool {
    exists|i: int|
        0 <= i < scores.len() && out_ids[r] == candidates[i] && out_scores[r]
            == scores[i].plus_zero() && #[trigger] has_place(scores, candidates, i, r)
}

/// The best `k` of the scores of a candidate list, reported under the document
/// ids of the candidates: in their order, where no score is a positive NaN, and
/// in any case as a collector reports them. A document that is listed more than
/// once is reported as often as it is listed.
pub open spec fn best_of_subset(
    scores: Seq<F32Bits>,
    candidates: Seq<u32>,
    k: int,
    out_scores: Seq<F32Bits>,
    out_ids: Seq<i64>,
) -> bool {
    &&& orderly(scores) ==> forall|r: int|
        0 <= r < out_scores.len() ==> #[trigger] ranks_best_candidate(
            scores,
            candidates,
            out_scores,
            out_ids,
            r,
        )
    &&& collects_subset(scores, candidates, k, out_scores, out_ids)
}

/// The best `k` of the scores of a candidate list, as a top-`k` collector
/// offered every candidate in order reports them.
pub open spec fn collects_subset(
    scores: Seq<F32Bits>,
    candidates: Seq<u32>,
    k: int,
    out_scores: Seq<F32Bits>,
    out_ids: Seq<i64>,
) -> bool {
    &&& out_scores.len() == lesser(k, scores.len() as int)
    &&& out_ids.len() == out_scores.len()
    &&& k > 0 && scores.len() > 0 ==> exists|local: Seq<i64>|
        #![trigger reports(
            offered_all(lesser(k, scores.len() as int), subset_entries(scores, candidates)),
            out_scores,
            local,
        )]
        {
            &&& reports(
                offered_all(lesser(k, scores.len() as int), subset_entries(scores, candidates)),
                out_scores,
                local,
            )
            &&& forall|r: int|
                0 <= r < out_ids.len() ==> #[trigger] out_ids[r] == if local[r] < 0 {
                    -1
                } else {
                    candidates[local[r] as int] as int
                }
        }
}

/// Select the best `k` candidates and map them to their document ids.
pub(crate) fn best_subset(scores: &[F32Bits], candidates: &[u32], k: usize) -> (r: (
    Vec<F32Bits>,
    Vec<i64>,
))
    requires
        scores.len() <= MAX_VECTORS,
        candidates.len() == scores.len(),
    ensures
        best_of_subset(scores@, candidates@, k as int, r.0@, r.1@),
{
    let m: usize = scores.len();
    let take: usize = if k <= m {
        k
    } else {
        m
    };
    let mut out_scores: Vec<F32Bits> = vec![F32Bits::neg_infinity();take];
    let mut local: Vec<i64> = vec![-1i64;take];
    let mut ids: Vec<i64> = Vec::with_capacity(take);
    if take == 0 {
        return (out_scores, ids);
    }
    let mut top = TopK::new_with_tie_keys(take, candidates);
    let mut i: usize = 0;
    let ghost entries = subset_entries(scores@, candidates@);
    let ghost slots = offered_all(take as int, entries);
    assert(entries.subrange(0, 0) =~= Seq::<Entry>::empty());
    while i < m
        invariant
            m == scores.len(),
            m == candidates.len(),
            m <= MAX_VECTORS,
            i <= m,
            0 < take,
            top.wf(),
            top.capacity() == take,
            top.ties() == Some(widened(candidates@)),
            entries == subset_entries(scores@, candidates@),
            top.kept() == offered_all(take as int, entries.subrange(0, i as int)),
        decreases m - i,
    {
        top.maybe_insert(scores[i], i);
        proof {
            let seen = entries.subrange(0, i + 1);
            assert(seen.drop_last() =~= entries.subrange(0, i as int));
            assert(seen.last() == entries[i as int]);
        }
        i = i + 1;
    }
    assert(entries.subrange(0, m as int) =~= entries);
    top.finalize_into(out_scores.as_mut_slice(), local.as_mut_slice());
    let mut r: usize = 0;
    proof {
        lemma_reported_indices(take as int, entries, out_scores@, local@);
    }
    while r < take
        invariant
            m == candidates.len(),
            local@.len() == take,
            ids@.len() == r,
            r <= take,
            forall|t: int| 0 <= t < take ==> -1 <= #[trigger] local@[t] < m,
            forall|t: int|
                0 <= t < r ==> #[trigger] ids@[t] == if local@[t] < 0 {
                    -1
                } else {
                    candidates[local@[t] as int] as int
                },
        decreases take - r,
    {
        let at: i64 = local[r];
        if at < 0 {
            ids.push(-1);
        } else {
            ids.push(candidates[at as usize] as i64);
        }
        r = r + 1;
    }
    proof {
        assert(take == lesser(k as int, scores@.len() as int));
        assert(reports(slots, out_scores@, local@));
        assert(collects_subset(scores@, candidates@, k as int, out_scores@, ids@));
        if orderly(scores@) {
            assert forall|r: int|
                0 <= r < out_scores@.len() implies #[trigger] ranks_best_candidate(
                scores@,
                candidates@,
                out_scores@,
                ids@,
                r,
            ) by {
                let at = lemma_best_subset_is_ranked(
                    scores@,
                    candidates@,
                    k as int,
                    out_scores@,
                    ids@,
                    r,
                );
                assert(has_place(scores@, candidates@, at, r));
            }
        }
    }
    (out_scores, ids)
}

/// The places of the slots of a collector are `0..len`, each taken once.
pub proof fn lemma_places_permute(slots: Seq<Entry>)
    ensures
        is_permutation(Seq::new(slots.len(), |s: int| place(slots, s))),
{
    let m = slots.len() as int;
    let places = Seq::new(slots.len(), |s: int| place(slots, s));
    assert forall|s: int| 0 <= s < m implies 0 <= #[trigger] places[s] < m by {
        let p = reported_earlier(slots, s);
        lemma_count_bounds(m, p);
        if count_where(m, p) == m {
            lemma_count_full(m, p, s);
        }
    }
    assert forall|s: int, t: int| 0 <= s < t < m implies places[s] != places[t] by {
        if reported_before(slots, s, t) {
            lemma_count_strict_mono(m, reported_earlier(slots, s), reported_earlier(slots, t), s);
        } else {
            lemma_count_strict_mono(m, reported_earlier(slots, t), reported_earlier(slots, s), t);
        }
    }
}

/// Every reported row entry is that of some slot.
pub proof fn lemma_reported_slot(
    slots: Seq<Entry>,
    scores: Seq<F32Bits>,
    indices: Seq<i64>,
    r: int,
) -> (s: int)
    requires
        reports(slots, scores, indices),
        0 <= r < scores.len(),
        r < slots.len(),
    ensures
        0 <= s < slots.len(),
        place(slots, s) == r,
        scores[r] == slots[s].score,
        indices[r] == slots[s].index,
{
    lemma_places_permute(slots);
    let places = Seq::new(slots.len(), |s: int| place(slots, s));
    let s = lemma_permutation_surjective(places, r);
    assert(place(slots, s) == r);
    s
}

/// A slot holds an entry that was offered.
proof fn lemma_slot_was_offered(k: int, entries: Seq<Entry>, s: int) -> (i: int)
    requires
        0 <= s < offered_all(k, entries).len(),
    ensures
        0 <= i < entries.len(),
        entries[i] == offered_all(k, entries)[s],
    decreases entries.len(),
{
    let head = entries.drop_last();
    let old_slots = offered_all(k, head);
    let slots = offered_all(k, entries);
    if slots[s] == entries.last() {
        entries.len() - 1
    } else {
        lemma_worst_slot(old_slots, old_slots.len() as int);
        assert(s < old_slots.len() && slots[s] == old_slots[s]);
        lemma_slot_was_offered(k, head, s)
    }
}

/// The indices reported for a subset are positions of the subset or the
/// sentinel.
proof fn lemma_reported_indices(
    k: int,
    entries: Seq<Entry>,
    scores: Seq<F32Bits>,
    indices: Seq<i64>,
)
    requires
        entries.len() <= i64::MAX,
        forall|i: int| 0 <= i < entries.len() ==> (#[trigger] entries[i]).index == i,
        reports(offered_all(k, entries), scores, indices),
    ensures
        forall|r: int| 0 <= r < indices.len() ==> -1 <= #[trigger] indices[r] < entries.len(),
{
    assert forall|r: int| 0 <= r < indices.len() implies -1 <= #[trigger] indices[r]
        < entries.len() by {
        let slots = offered_all(k, entries);
        if r < slots.len() {
            let s = lemma_reported_slot(slots, scores, indices, r);
            let i = lemma_slot_was_offered(k, entries, s);
            assert(entries[i].index == i);
        } else {
            assert(scores[r].bits == 0xFF80_0000u32);
        }
    }
}

/// What a collector reports of a full scan are the best documents in order.
pub proof fn lemma_best_row_is_ranked(
    scores: Seq<F32Bits>,
    k: int,
    out_scores: Seq<F32Bits>,
    out_indices: Seq<i64>,
    r: int,
)
    requires
        collects(scores, k, out_scores, out_indices),
        scores.len() <= i64::MAX,
        orderly(scores),
        0 <= r < out_scores.len(),
    ensures
        ranks_best(scores, out_scores, out_indices, r),
{
    let n = scores.len() as int;
    let take = lesser(k, n);
    let entries = scan_entries(scores);
    let slots = offered_all(take, entries);
    assert forall|i: int| 0 <= i < entries.len() implies (
    #[trigger] entries[i]).score.total_key() <= INFINITY_MAGNITUDE by {
        assert(scores[i].total_key() <= INFINITY_MAGNITUDE);
    }
    lemma_topk_keeps_best(take, entries);
    let s = lemma_reported_slot(slots, out_scores, out_indices, r);
    let i = lemma_slot_was_offered(take, entries, s);
    lemma_place_is_rank(take, entries, s);
    assert forall|j: int| 0 <= j < n implies #[trigger] better_than(entries, slots[s])(j)
        == earlier(descending(scores), i)(j) by {
        assert(entries[j].tie == j);
    }
    lemma_count_ext(n, better_than(entries, slots[s]), earlier(descending(scores), i));
}

/// Candidate ids as integers.
pub open spec fn id_ints(candidates: Seq<u32>) -> Seq<int> {
    Seq::new(candidates.len(), |i: int| candidates[i] as int)
}

/// What a collector reports of candidates is ranked by descending score and then
/// ascending document id, whatever the order of the candidate list. Where no
/// candidate is listed twice, exactly `r` candidates come before entry `r`.
pub proof fn lemma_best_subset_is_ranked(
    scores: Seq<F32Bits>,
    candidates: Seq<u32>,
    k: int,
    out_scores: Seq<F32Bits>,
    out_ids: Seq<i64>,
    r: int,
) -> (i: int)
    requires
        collects_subset(scores, candidates, k, out_scores, out_ids),
        candidates.len() == scores.len(),
        scores.len() <= i64::MAX,
        orderly(scores),
        0 <= r < out_scores.len(),
    ensures
        0 <= i < scores.len(),
        out_ids[r] == candidates[i],
        out_scores[r] == scores[i].plus_zero(),
        has_place(scores, candidates, i, r),
        distinct(candidates) ==> count_where(
            scores.len() as int,
            beats(scores, candidates, i),
        ) == r,
{
    let n = scores.len() as int;
    let take = lesser(k, n);
    let entries = subset_entries(scores, candidates);
    let slots = offered_all(take, entries);
    let local = choose|local: Seq<i64>|
        #![trigger reports(slots, out_scores, local)]
        {
            &&& reports(slots, out_scores, local)
            &&& forall|r: int|
                0 <= r < out_ids.len() ==> #[trigger] out_ids[r] == if local[r] < 0 {
                    -1
                } else {
                    candidates[local[r] as int] as int
                }
        };
    assert forall|i: int| 0 <= i < entries.len() implies (
    #[trigger] entries[i]).score.total_key() <= INFINITY_MAGNITUDE by {
        assert(scores[i].total_key() <= INFINITY_MAGNITUDE);
    }
    assert(distinct_entries(entries)) by {
        assert forall|a: int, b: int| 0 <= a < b < entries.len() implies #[trigger] entries[a]
            != #[trigger] entries[b] by {
            assert(entries[a].index == a && entries[b].index == b);
        }
    }
    lemma_topk_keeps_best(take, entries);
    let s = lemma_reported_slot(slots, out_scores, local, r);
    let i = lemma_slot_was_offered(take, entries, s);
    lemma_place_is_between(take, entries, s);
    assert(local[r] == i);
    assert(out_ids[r] == candidates[i]);
    lemma_count_ext(n, better_than(entries, entries[i]), beats(scores, candidates, i));
    lemma_count_ext(n, not_worse_than(entries, entries[i]), unbeaten(scores, candidates, i));
    if distinct(candidates) {
        assert forall|a: int, b: int| 0 <= a < b < entries.len() implies (
        #[trigger] entries[a]).tie != (#[trigger] entries[b]).tie by {
            assert(candidates[a] != candidates[b]);
        }
        lemma_place_is_rank(take, entries, s);
    }
    i
}

/// Two candidates have the same place only where they have the same score and
/// document id: what a subset search reports at a place is determined.
pub proof fn lemma_place_determines_candidate(
    scores: Seq<F32Bits>,
    candidates: Seq<u32>,
    i: int,
    j: int,
    r: int,
)
    requires
        0 <= i < scores.len(),
        0 <= j < scores.len(),
        has_place(scores, candidates, i, r),
        has_place(scores, candidates, j, r),
    ensures
        scores[i].plus_zero() == scores[j].plus_zero(),
        candidates[i] == candidates[j],
{
    let n = scores.len() as int;
    if beats(scores, candidates, j)(i) {
        lemma_count_mono(n, unbeaten(scores, candidates, i), beats(scores, candidates, j));
    }
    if beats(scores, candidates, i)(j) {
        lemma_count_mono(n, unbeaten(scores, candidates, j), beats(scores, candidates, i));
    }
}

/// A subset search over all documents, in any order and each once, reports
/// what the full search reports.
pub proof fn lemma_full_subset_matches_scan(
    scores: Seq<F32Bits>,
    candidates: Seq<u32>,
    sub_scores: Seq<F32Bits>,
    k: int,
    full: (Seq<F32Bits>, Seq<i64>),
    sub: (Seq<F32Bits>, Seq<i64>),
)
    requires
        best_of(scores, k, full.0, full.1),
        full.1.len() == full.0.len(),
        best_of_subset(sub_scores, candidates, k, sub.0, sub.1),
        candidates.len() == scores.len(),
        sub_scores.len() == scores.len(),
        scores.len() <= i64::MAX,
        is_permutation(id_ints(candidates)),
        forall|i: int|
            0 <= i < candidates.len() ==> #[trigger] sub_scores[i] == scores[candidates[i] as int],
        orderly(scores),
    ensures
        sub.0 == full.0,
        sub.1 == full.1,
{
    let n = scores.len() as int;
    let s = id_ints(candidates);
    let key = descending(scores);
    assert(orderly(sub_scores)) by {
        assert forall|i: int| 0 <= i < n implies (#[trigger] sub_scores[i]).total_key()
            <= INFINITY_MAGNITUDE by {
            assert(0 <= s[i] < n);
            assert(scores[s[i]].total_key() <= INFINITY_MAGNITUDE);
        }
    }
    assert forall|a: int, b: int| 0 <= a < b < n implies #[trigger] candidates[a]
        != #[trigger] candidates[b] by {
        assert(s[a] != s[b]);
    }
    assert forall|r: int| 0 <= r < full.0.len() implies sub.0[r] == full.0[r] && sub.1[r]
        == full.1[r] by {
        lemma_best_row_is_ranked(scores, k, full.0, full.1, r);
        let f = full.1[r] as int;
        let i = lemma_best_subset_is_ranked(sub_scores, candidates, k, sub.0, sub.1, r);
        let c = s[i];
        assert(0 <= c < n);
        let p = earlier(key, c);
        let b = beats(sub_scores, candidates, i);
        assert forall|j: int| 0 <= j < n implies #[trigger] b(j) == holds_after(p, at(s))(j) by {
            assert(0 <= s[j] < n);
        }
        lemma_count_ext(n, b, holds_after(p, at(s)));
        lemma_count_permuted(s, p);
        if c != f {
            if comes_before(key, c, f) {
                lemma_earlier_counts_less(n, key, c, f);
            } else {
                lemma_earlier_counts_less(n, key, f, c);
            }
        }
    }
    assert(sub.0 =~= full.0);
    assert(sub.1 =~= full.1);
}

/// The reported row is determined by the scores: the same scores give the same
/// row, however the search was batched.
pub proof fn lemma_best_row_unique(
    scores: Seq<F32Bits>,
    k: int,
    a: (Seq<F32Bits>, Seq<i64>),
    b: (Seq<F32Bits>, Seq<i64>),
)
    requires
        0 <= k,
        best_of(scores, k, a.0, a.1),
        a.1.len() == a.0.len(),
        best_of(scores, k, b.0, b.1),
        b.1.len() == b.0.len(),
    ensures
        a == b,
{
    if k > 0 && scores.len() > 0 {
        let slots = offered_all(lesser(k, scores.len() as int), scan_entries(scores));
        let places = Seq::new(slots.len(), |s: int| place(slots, s));
        lemma_places_permute(slots);
        assert forall|r: int| 0 <= r < a.0.len() implies a.0[r] == b.0[r] && a.1[r] == b.1[r] by {
            if r < slots.len() {
                let s = lemma_reported_slot(slots, a.0, a.1, r);
                let t = lemma_reported_slot(slots, b.0, b.1, r);
                assert(places[s] == places[t]);
            } else {
                assert(a.0[r].bits == b.0[r].bits);
            }
        }
    }
    assert(a.0 =~= b.0);
    assert(a.1 =~= b.1);
}

/// A candidate list that is not cut short holds every document once, so that a
/// second stage over it is a search of the whole index.
pub proof fn lemma_uncut_candidates_permute(
    n: int,
    m: int,
    key: spec_fn(int) -> int,
    candidates: Seq<u32>,
)
    requires
        lists_smallest(n, m, key, candidates),
        0 <= n <= m,
    ensures
        candidates.len() == n,
        is_permutation(id_ints(candidates)),
{
    let s = id_ints(candidates);
    assert forall|i: int| 0 <= i < s.len() implies 0 <= #[trigger] s[i] < s.len() by {
        assert(0 <= candidates[i] < n);
    }
    assert forall|i: int, j: int| 0 <= i < j < s.len() implies s[i] != s[j] by {
        assert(count_where(n, earlier(key, candidates[i] as int)) == i);
        assert(count_where(n, earlier(key, candidates[j] as int)) == j);
    }
}

} // verus!
