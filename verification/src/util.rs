//! Shared internals: the running top-`k` collector and the checked-size guards.

use vstd::prelude::*;

use crate::counting::{
    count_where, holds_after, lemma_count_ext, lemma_count_injected, lemma_count_mono,
    lemma_count_strict_mono, lemma_permutation_surjective,
};
use crate::float_bits::{all_finite, F32Bits, INFINITY_MAGNITUDE, SIGN_BIT};
use crate::parallel::{chunk, par_all_chunks};
use crate::rank_io::MAX_VECTORS;
use crate::sort::{argsort, as_ints, precedes};

verus! {

/// The length of the flat buffers that hold `k` results for each of `nq`
/// queries.
pub fn result_buffer_len(nq: usize, k: usize) -> (n: usize)
    requires
        nq * k <= usize::MAX,
    ensures
        n == nq * k,
{
    nq * k
}

/// The document count after an addition, within the cap on documents and on the
/// buffer that holds them.
pub fn checked_new_count(current: usize, adding: usize, elems_per_vec: usize) -> (n: usize)
    requires
        current + adding <= MAX_VECTORS,
        (current + adding) * elems_per_vec <= usize::MAX,
    ensures
        n == current + adding,
{
    current + adding
}

/// Inputs from this length on are checked on the thread pool.
const PARALLEL_THRESHOLD: usize = 1048576;

/// Values per chunk of a parallel check.
const CHUNK_LEN: usize = 262144;

fn run_finite(v: &[F32Bits]) -> (r: bool)
    ensures
        r == all_finite(v@),
{
    let mut i: usize = 0;
    while i < v.len()
        invariant
            i <= v.len(),
            forall|j: int| 0 <= j < i ==> (#[trigger] v[j]).finite(),
        decreases v.len() - i,
    {
        if !v[i].is_finite() {
            return false;
        }
        i = i + 1;
    }
    true
}

/// Whether every value is finite.
pub fn values_finite(v: &[F32Bits]) -> (r: bool)
    ensures
        r == all_finite(v@),
{
    if v.len() < PARALLEL_THRESHOLD {
        return run_finite(v);
    }
    let check = |c: &[F32Bits]| -> (r: bool)
        ensures
            r == all_finite(c@),
        { run_finite(c) };
    let r: bool = par_all_chunks(v, CHUNK_LEN, check);
    proof {
        let w = CHUNK_LEN as int;
        if r {
            assert forall|j: int| 0 <= j < v.len() implies (#[trigger] v[j]).finite() by {
                let i = j / w;
                let c = chunk(v@, w, i);
                assert(0 <= i && i * w <= j < i * w + w);
                assert(all_finite(c));
                assert(c[j - i * w] == v[j]);
            }
        } else {
            let (i, c): (int, &[F32Bits]) = choose|i: int, c: &[F32Bits]|
                0 <= i && i * w < v.len() && c@ == #[trigger] chunk(v@, w, i)
                    && #[trigger] check.ensures((c,), false);
            assert(!all_finite(c@));
            let j = choose|j: int| 0 <= j < c@.len() && !(#[trigger] c@[j]).finite();
            assert(v[i * w + j] == c@[j]);
        }
    }
    r
}

/// One kept candidate: its score, the index it is reported under, and the key
/// that breaks ties between equal scores.
#[derive(Clone, Copy, Debug, PartialEq, Eq, Structural)]
pub struct Entry {
    /// The score.
    pub score: F32Bits,
    /// The reported index.
    pub index: i64,
    /// The tie key; lower wins.
    pub tie: i64,
}

/// `a` is strictly better to keep than `b`: a higher score, or an equal score
/// and a lower tie key.
pub open spec fn better(a: Entry, b: Entry) -> bool {
    a.score.total_key() > b.score.total_key() || (a.score.total_key() == b.score.total_key()
        && a.tie < b.tie)
}

/// Where the worst kept entry is, and the score and tie key it is judged by.
pub struct Worst {
    /// The slot.
    pub slot: int,
    /// The total-order key of its score.
    pub key: int,
    /// Its tie key.
    pub tie: int,
}

/// The worst of the first `n` slots: the lowest score, among equal scores the
/// highest tie key, among equals the first slot. Scores above positive infinity
/// never count as worst.
pub open spec fn worst_of(slots: Seq<Entry>, n: int) -> Worst
    decreases n,
{
    if n <= 0 {
        Worst { slot: 0, key: INFINITY_MAGNITUDE as int, tie: i64::MIN as int }
    } else {
        let w = worst_of(slots, n - 1);
        let e = slots[n - 1];
        if e.score.total_key() < w.key || (e.score.total_key() == w.key && e.tie > w.tie) {
            Worst { slot: n - 1, key: e.score.total_key(), tie: e.tie as int }
        } else {
            w
        }
    }
}

/// The slots after offering `e`: appended while there is room, else in place of
/// the worst entry if it is strictly better than that.
pub open spec fn offered(slots: Seq<Entry>, k: int, e: Entry) -> Seq<Entry> {
    let w = worst_of(slots, slots.len() as int);
    if slots.len() < k {
        slots.push(e)
    } else if k > 0 && (e.score.total_key() > w.key || (e.score.total_key() == w.key && e.tie
        < w.tie)) {
        slots.update(w.slot, e)
    } else {
        slots
    }
}

/// Slot `a` is reported before slot `b`: a higher score, then a lower tie key,
/// then a lower slot.
pub open spec fn reported_before(slots: Seq<Entry>, a: int, b: int) -> bool {
    better(slots[a], slots[b]) || (slots[a].score.total_key() == slots[b].score.total_key()
        && slots[a].tie == slots[b].tie && a < b)
}

/// The slots reported before slot `s`.
pub open spec fn reported_earlier(slots: Seq<Entry>, s: int) -> spec_fn(int) -> bool {
    |t: int| reported_before(slots, t, s)
}

/// The place at which slot `s` is reported.
pub open spec fn place(slots: Seq<Entry>, s: int) -> int {
    count_where(slots.len() as int, reported_earlier(slots, s))
}

/// The output buffers hold the slots in reported order, as far as they reach,
/// and sentinels behind them.
pub open spec fn reports(slots: Seq<Entry>, scores: Seq<F32Bits>, indices: Seq<i64>) -> bool {
    &&& scores.len() == indices.len()
    &&& forall|s: int|
        0 <= s < slots.len() && #[trigger] place(slots, s) < scores.len() ==> scores[place(
            slots,
            s,
        )] == slots[s].score && indices[place(slots, s)] == slots[s].index
    &&& forall|r: int|
        slots.len() <= r < scores.len() ==> (#[trigger] scores[r]).bits == 0xFF80_0000u32
            && indices[r] == -1
}

/// Running top-`k` collector.
pub struct TopK {
    k: usize,
    slots: Vec<Entry>,
    tie_key_by_index: Option<Vec<i64>>,
    worst_pos: usize,
    worst_key: i64,
    worst_tie: i64,
}

impl TopK {
    /// How many entries are kept.
    pub closed spec fn capacity(&self) -> int {
        self.k as int
    }

    /// The kept entries, slot by slot.
    pub closed spec fn kept(&self) -> Seq<Entry> {
        self.slots@
    }

    /// The tie keys by index, if indices are not their own tie keys.
    pub closed spec fn ties(&self) -> Option<Seq<i64>> {
        match self.tie_key_by_index {
            Some(v) => Some(v@),
            None => None,
        }
    }

    /// No more entries than the capacity, and the worst of a full collector is
    /// known.
    pub closed spec fn wf(&self) -> bool {
        &&& self.slots@.len() <= self.k
        &&& self.slots@.len() == self.k && self.k > 0 ==> {
            let w = worst_of(self.slots@, self.slots@.len() as int);
            &&& self.worst_pos == w.slot
            &&& self.worst_key == w.key
            &&& self.worst_tie == w.tie
        }
    }

    /// What well-formedness gives to other modules.
    pub proof fn lemma_wf(&self)
        requires
            self.wf(),
        ensures
            self.kept().len() <= self.capacity(),
    {
    }

    /// The entry that offering `score` under `idx` makes. Negative zero counts
    /// as positive zero.
    pub open spec fn entry(&self, score: F32Bits, idx: int) -> Entry {
        Entry {
            score: score.plus_zero(),
            index: idx as i64,
            tie: match self.ties() {
                Some(keys) => keys[idx],
                None => idx as i64,
            },
        }
    }

    /// An empty collector of the best `k`, with indices as their own tie keys.
    pub fn new(k: usize) -> (t: Self)
        ensures
            t.wf(),
            t.capacity() == k,
            t.kept() == Seq::<Entry>::empty(),
            t.ties() is None,
    {
        TopK {
            k,
            slots: Vec::new(),
            tie_key_by_index: None,
            worst_pos: 0,
            worst_key: INFINITY_MAGNITUDE as i64,
            worst_tie: i64::MAX,
        }
    }

    /// An empty collector of the best `k` whose score ties are broken by the
    /// keys given, index by index.
    pub fn new_with_tie_keys(k: usize, tie_key_by_index: &[u32]) -> (t: Self)
        ensures
            t.wf(),
            t.capacity() == k,
            t.kept() == Seq::<Entry>::empty(),
            t.ties() == Some(widened(tie_key_by_index@)),
    {
        let mut t = TopK::new(k);
        t.tie_key_by_index = Some(widen(tie_key_by_index));
        t
    }

    /// Empty the collector for reuse with a new capacity and new tie keys.
    pub fn reset_with_tie_keys(&mut self, k: usize, tie_key_by_index: &[u32])
        ensures
            final(self).wf(),
            final(self).capacity() == k,
            final(self).kept() == Seq::<Entry>::empty(),
            final(self).ties() == Some(widened(tie_key_by_index@)),
    {
        self.k = k;
        self.slots.clear();
        self.tie_key_by_index = Some(widen(tie_key_by_index));
        self.worst_pos = 0;
        self.worst_key = INFINITY_MAGNITUDE as i64;
        self.worst_tie = i64::MAX;
    }

    /// Offer `score` for index `idx`. The two zeros tie, and are kept as
    /// positive zero.
    pub fn maybe_insert(&mut self, score: F32Bits, idx: usize)
        requires
            old(self).wf(),
            idx <= i64::MAX,
            old(self).ties() matches Some(keys) ==> idx < keys.len(),
        ensures
            final(self).wf(),
            final(self).capacity() == old(self).capacity(),
            final(self).ties() == old(self).ties(),
            final(self).kept() == offered(
                old(self).kept(),
                old(self).capacity(),
                old(self).entry(score, idx as int),
            ),
    {
        let score: F32Bits = score.with_zero_added();
        let id: i64 = idx as i64;
        let tie: i64 = match &self.tie_key_by_index {
            Some(keys) => keys[idx],
            None => id,
        };
        let e = Entry { score, index: id, tie };
        if self.slots.len() < self.k {
            self.slots.push(e);
            if self.slots.len() == self.k {
                self.recompute_worst();
            }
        } else if self.k > 0 {
            let key: i64 = score.total_sort_key() as i64 - SIGN_BIT as i64;
            if key > self.worst_key || (key == self.worst_key && tie < self.worst_tie) {
                let pos: usize = self.worst_pos;
                proof {
                    lemma_worst_slot(self.slots@, self.slots@.len() as int);
                }
                self.slots[pos] = e;
                self.recompute_worst();
            }
        }
    }

    /// Locate the worst kept entry.
    fn recompute_worst(&mut self)
        ensures
            final(self).k == old(self).k,
            final(self).slots == old(self).slots,
            final(self).tie_key_by_index == old(self).tie_key_by_index,
            ({
                let w = worst_of(old(self).slots@, old(self).slots@.len() as int);
                &&& final(self).worst_pos == w.slot
                &&& final(self).worst_key == w.key
                &&& final(self).worst_tie == w.tie
            }),
    {
        let mut key: i64 = INFINITY_MAGNITUDE as i64;
        let mut tie: i64 = i64::MIN;
        let mut pos: usize = 0;
        let mut i: usize = 0;
        while i < self.slots.len()
            invariant
                i <= self.slots@.len(),
                pos == worst_of(self.slots@, i as int).slot,
                key == worst_of(self.slots@, i as int).key,
                tie == worst_of(self.slots@, i as int).tie,
            decreases self.slots.len() - i,
        {
            let e: Entry = self.slots[i];
            let s: i64 = e.score.total_sort_key() as i64 - SIGN_BIT as i64;
            if s < key || (s == key && e.tie > tie) {
                key = s;
                tie = e.tie;
                pos = i;
            }
            i = i + 1;
        }
        self.worst_key = key;
        self.worst_tie = tie;
        self.worst_pos = pos;
    }

    /// Write the kept entries in order, best first; what is left of the
    /// buffers is filled with sentinels.
    pub fn finalize_into(&self, out_scores: &mut [F32Bits], out_indices: &mut [i64])
        requires
            old(out_scores).len() == old(out_indices).len(),
        ensures
            final(out_scores)@.len() == old(out_scores)@.len(),
            reports(self.kept(), final(out_scores)@, final(out_indices)@),
    {
        let mut order: Vec<usize> = Vec::new();
        self.finalize_into_with_scratch(&mut order, out_scores, out_indices);
    }

    /// As `finalize_into`, leaving the order of the slots in `order`.
    pub fn finalize_into_with_scratch(
        &self,
        order: &mut Vec<usize>,
        out_scores: &mut [F32Bits],
        out_indices: &mut [i64],
    )
        requires
            old(out_scores).len() == old(out_indices).len(),
        ensures
            final(out_scores)@.len() == old(out_scores)@.len(),
            reports(self.kept(), final(out_scores)@, final(out_indices)@),
            final(order)@.len() == self.kept().len(),
            forall|r: int|
                0 <= r < final(order)@.len() ==> 0 <= #[trigger] final(order)@[r]
                    < self.kept().len() && place(self.kept(), final(order)@[r] as int) == r,
    {
        let n: usize = self.slots.len();
        let mut keys: Vec<u128> = Vec::with_capacity(n);
        let mut i: usize = 0;
        while i < n
            invariant
                n == self.slots@.len(),
                i <= n,
                keys@.len() == i,
                forall|t: int| 0 <= t < i ==> #[trigger] keys@[t] == slot_key(self.slots@[t]),
            decreases n - i,
        {
            let e: Entry = self.slots[i];
            let high: u128 = (u32::MAX - e.score.total_sort_key()) as u128;
            let low: u128 = (e.tie as i128 + 0x8000_0000_0000_0000) as u128;
            keys.push(high * 0x1_0000_0000_0000_0000 + low);
            i = i + 1;
        }
        *order = argsort(keys.as_slice());
        proof {
            assert forall|r: int| 0 <= r < order@.len() implies place(
                self.slots@,
                #[trigger] order@[r] as int,
            ) == r by {
                let s = order@[r] as int;
                let p = precedes(keys@, s);
                let q = reported_earlier(self.slots@, s);
                assert forall|t: int| 0 <= t < n implies #[trigger] p(t) == q(t) by {
                    assert(keys@[t] == slot_key(self.slots@[t]));
                    assert(keys@[s] == slot_key(self.slots@[s]));
                }
                lemma_count_ext(n as int, p, q);
            }
        }
        let len: usize = out_scores.len();
        let mut r: usize = 0;
        while r < len
            invariant
                n == self.slots@.len(),
                len == out_scores@.len(),
                len == out_indices@.len(),
                r <= len,
                order@.len() == n,
                forall|t: int| 0 <= t < n ==> #[trigger] order@[t] < n,
                forall|t: int|
                    0 <= t < r && t < n ==> #[trigger] out_scores@[t]
                        == self.slots@[order@[t] as int].score,
                forall|t: int|
                    0 <= t < r && t < n ==> #[trigger] out_indices@[t]
                        == self.slots@[order@[t] as int].index,
                forall|t: int|
                    n <= t < r ==> (#[trigger] out_scores@[t]).bits == 0xFF80_0000u32,
                forall|t: int| n <= t < r ==> #[trigger] out_indices@[t] == -1,
            decreases len - r,
        {
            if r < n {
                let e: Entry = self.slots[order[r]];
                out_scores[r] = e.score;
                out_indices[r] = e.index;
            } else {
                out_scores[r] = F32Bits::neg_infinity();
                out_indices[r] = -1;
            }
            r = r + 1;
        }
        proof {
            assert forall|s: int|
                0 <= s < n && #[trigger] place(self.slots@, s) < len implies out_scores@[place(
                self.slots@,
                s,
            )] == self.slots@[s].score && out_indices@[place(self.slots@, s)]
                == self.slots@[s].index by {
                let w = lemma_permutation_surjective(as_ints(order@), s);
                assert(order@[w] == s);
                assert(place(self.slots@, order@[w] as int) == w);
                assert(out_scores@[w] == self.slots@[order@[w] as int].score);
                assert(out_indices@[w] == self.slots@[order@[w] as int].index);
            }
        }
    }
}

/// The sort key of a kept entry: score descending, then tie key ascending.
spec fn slot_key(e: Entry) -> int {
    (0x7FFF_FFFF - e.score.total_key()) * 0x1_0000_0000_0000_0000 + (e.tie
        + 0x8000_0000_0000_0000)
}

/// Tie keys in the width they are compared in.
pub open spec fn widened(keys: Seq<u32>) -> Seq<i64> {
    Seq::new(keys.len(), |i: int| keys[i] as i64)
}

fn widen(keys: &[u32]) -> (out: Vec<i64>)
    ensures
        out@ == widened(keys@),
{
    let mut out: Vec<i64> = Vec::with_capacity(keys.len());
    let mut i: usize = 0;
    while i < keys.len()
        invariant
            i <= keys.len(),
            out@.len() == i,
            forall|t: int| 0 <= t < i ==> #[trigger] out@[t] == keys[t],
        decreases keys.len() - i,
    {
        out.push(keys[i] as i64);
        i = i + 1;
    }
    assert(out@ =~= widened(keys@));
    out
}

/// The worst slot is one of the slots.
pub proof fn lemma_worst_slot(slots: Seq<Entry>, n: int)
    requires
        0 <= n <= slots.len(),
    ensures
        0 <= worst_of(slots, n).slot,
        n > 0 ==> worst_of(slots, n).slot < n,
        n == 0 ==> worst_of(slots, n).slot == 0,
    decreases n,
{
    if n > 0 {
        lemma_worst_slot(slots, n - 1);
    }
}

/// The slots after offering `entries` in order to an empty collector of
/// capacity `k`.
pub open spec fn offered_all(k: int, entries: Seq<Entry>) -> Seq<Entry>
    decreases entries.len(),
{
    if entries.len() == 0 {
        Seq::empty()
    } else {
        offered(offered_all(k, entries.drop_last()), k, entries.last())
    }
}

/// Every score is comparable with positive infinity from below: none is a
/// positive NaN.
pub open spec fn no_positive_nan(entries: Seq<Entry>) -> bool {
    forall|i: int|
        0 <= i < entries.len() ==> (#[trigger] entries[i]).score.total_key() <= INFINITY_MAGNITUDE
}

/// The worst slot is not better than any slot.
proof fn lemma_worst_is_worst(slots: Seq<Entry>, n: int)
    requires
        0 <= n <= slots.len(),
        forall|i: int|
            0 <= i < slots.len() ==> (#[trigger] slots[i]).score.total_key() <= INFINITY_MAGNITUDE,
    ensures
        ({
            let w = worst_of(slots, n);
            n > 0 ==> {
                &&& 0 <= w.slot < n
                &&& forall|i: int| 0 <= i < n ==> !better(slots[w.slot], #[trigger] slots[i])
                &&& (w.key == slots[w.slot].score.total_key() && w.tie == slots[w.slot].tie)
                    || (w.key == INFINITY_MAGNITUDE && w.tie == i64::MIN
                    && slots[w.slot].score.total_key() == INFINITY_MAGNITUDE
                    && slots[w.slot].tie == i64::MIN)
            }
        }),
    decreases n,
{
    if n > 0 {
        lemma_worst_is_worst(slots, n - 1);
        let e = slots[n - 1];
        assert(e.score.total_key() <= INFINITY_MAGNITUDE);
        if n == 1 {
            assert(worst_of(slots, 0).tie == i64::MIN);
        }
    }
}

/// A collector keeps the best: it holds as many entries as it can, each of
/// them one that was offered, and no entry that it let go is strictly better
/// than one that it kept.
pub proof fn lemma_topk_keeps_best(k: int, entries: Seq<Entry>)
    requires
        0 < k,
        no_positive_nan(entries),
    ensures
        offered_all(k, entries).len() == if entries.len() <= k {
            entries.len() as int
        } else {
            k
        },
        forall|s: int|
            0 <= s < offered_all(k, entries).len() ==> exists|i: int|
                0 <= i < entries.len() && #[trigger] entries[i] == #[trigger] offered_all(
                    k,
                    entries,
                )[s],
        forall|i: int, s: int|
            0 <= i < entries.len() && 0 <= s < offered_all(k, entries).len() && better(
                #[trigger] entries[i],
                #[trigger] offered_all(k, entries)[s],
            ) ==> exists|t: int|
                0 <= t < offered_all(k, entries).len() && offered_all(k, entries)[t] == entries[i],
    decreases entries.len(),
{
    let slots = offered_all(k, entries);
    if entries.len() > 0 {
        let head = entries.drop_last();
        let e = entries.last();
        let old_slots = offered_all(k, head);
        lemma_topk_keeps_best(k, head);
        assert(entries[entries.len() - 1] == e);
        assert forall|i: int| 0 <= i < old_slots.len() implies (
        #[trigger] old_slots[i]).score.total_key() <= INFINITY_MAGNITUDE by {
            let j = choose|j: int| 0 <= j < head.len() && #[trigger] head[j] == old_slots[i];
            assert(entries[j].score.total_key() <= INFINITY_MAGNITUDE);
        }
        let w = worst_of(old_slots, old_slots.len() as int);
        if old_slots.len() > 0 {
            lemma_worst_is_worst(old_slots, old_slots.len() as int);
        }
        assert forall|s: int| 0 <= s < slots.len() implies exists|i: int|
            0 <= i < entries.len() && #[trigger] entries[i] == #[trigger] slots[s] by {
            if slots[s] == e {
                assert(entries[entries.len() - 1] == slots[s]);
            } else {
                assert(old_slots[s] == slots[s]);
                let j = choose|j: int| 0 <= j < head.len() && #[trigger] head[j] == old_slots[s];
                assert(entries[j] == slots[s]);
            }
        }
        assert forall|i: int, s: int|
            0 <= i < entries.len() && 0 <= s < slots.len() && better(
                #[trigger] entries[i],
                #[trigger] slots[s],
            ) implies exists|t: int| 0 <= t < slots.len() && slots[t] == entries[i] by {
            let x = entries[i];
            if i == entries.len() - 1 {
                if old_slots.len() < k {
                    assert(slots[old_slots.len() as int] == x);
                } else if slots == old_slots {
                    assert(!better(old_slots[w.slot], old_slots[s]));
                } else {
                    assert(slots[w.slot] == x);
                }
            } else {
                assert(head[i] == x);
                // Some kept entry of before is beaten by `x`, so `x` was kept.
                if old_slots.len() < k {
                    if s < old_slots.len() {
                        assert(better(head[i], old_slots[s]));
                        let t = choose|t: int| 0 <= t < old_slots.len() && old_slots[t] == head[i];
                        assert(slots[t] == x);
                    } else {
                        assert(head.len() == old_slots.len());
                        lemma_all_kept(k, head, i);
                        let t = choose|t: int| 0 <= t < old_slots.len() && old_slots[t] == head[i];
                        assert(slots[t] == x);
                    }
                } else if slots == old_slots {
                    assert(better(head[i], old_slots[s]));
                } else {
                    if s == w.slot {
                        assert(better(x, e) && better(e, old_slots[w.slot]));
                        assert(better(head[i], old_slots[w.slot]));
                    } else {
                        assert(better(head[i], old_slots[s]));
                    }
                    let t = choose|t: int| 0 <= t < old_slots.len() && old_slots[t] == head[i];
                    if t == w.slot {
                        assert(!better(old_slots[w.slot], old_slots[s]));
                        assert(false);
                    }
                    assert(slots[t] == x);
                }
            }
        }
    }
}

/// A collector with room keeps everything.
proof fn lemma_all_kept(k: int, entries: Seq<Entry>, i: int)
    requires
        entries.len() <= k,
        0 <= i < entries.len(),
    ensures
        offered_all(k, entries) == entries,
    decreases entries.len(),
{
    let head = entries.drop_last();
    if head.len() > 0 {
        lemma_all_kept(k, head, 0);
    } else {
        assert(head =~= Seq::empty());
    }
    assert(offered_all(k, head) == head);
    assert(entries =~= head.push(entries.last()));
}

/// The entries better than `e`.
pub open spec fn better_than(entries: Seq<Entry>, e: Entry) -> spec_fn(int) -> bool {
    |j: int| better(entries[j], e)
}

/// No two entries share a tie key.
pub open spec fn distinct_ties(entries: Seq<Entry>) -> bool {
    forall|i: int, j: int|
        0 <= i < j < entries.len() ==> (#[trigger] entries[i]).tie != (#[trigger] entries[j]).tie
}

/// When no two entries share a tie key, the place at which a kept entry is
/// reported is the number of offered entries that are better than it.
pub proof fn lemma_place_is_rank(k: int, entries: Seq<Entry>, s: int)
    requires
        0 < k,
        no_positive_nan(entries),
        distinct_ties(entries),
        0 <= s < offered_all(k, entries).len(),
    ensures
        place(offered_all(k, entries), s) == count_where(
            entries.len() as int,
            better_than(entries, offered_all(k, entries)[s]),
        ),
{
    let slots = offered_all(k, entries);
    let n = entries.len() as int;
    let m = slots.len() as int;
    let e = slots[s];
    let g = origin(entries, slots);
    assert(distinct_entries(entries)) by {
        assert forall|i: int, j: int| 0 <= i < j < n implies #[trigger] entries[i]
            != #[trigger] entries[j] by {
            assert(entries[i].tie != entries[j].tie);
        }
    }
    lemma_origins(k, entries);
    let q = reported_earlier(slots, s);
    let p = better_than(entries, e);
    assert forall|t: int| 0 <= t < m implies (#[trigger] q(t) <==> p(g(t))) by {
        assert(entries[g(t)] == slots[t] && entries[g(s)] == slots[s]);
        if t != s {
            assert(g(t) != g(s));
            assert(entries[g(t)].tie != entries[g(s)].tie);
        }
    }
    assert forall|j: int| 0 <= j < n && #[trigger] p(j) implies exists|t: int|
        0 <= t < m && #[trigger] g(t) == j by {
        lemma_better_was_kept(k, entries, s, j);
    }
    lemma_count_injected(m, n, g, q, p);
}

/// No two entries are the same.
pub open spec fn distinct_entries(entries: Seq<Entry>) -> bool {
    forall|i: int, j: int|
        0 <= i < j < entries.len() ==> #[trigger] entries[i] != #[trigger] entries[j]
}

/// The entries that `e` is not better than.
pub open spec fn not_worse_than(entries: Seq<Entry>, e: Entry) -> spec_fn(int) -> bool {
    |j: int| !better(e, entries[j])
}

/// Which offered entry a slot holds.
spec fn origin(entries: Seq<Entry>, slots: Seq<Entry>) -> spec_fn(int) -> int {
    |t: int| choose|i: int| 0 <= i < entries.len() && #[trigger] entries[i] == slots[t]
}

/// The offered entries that some slot holds, among those that `e` is not better
/// than.
spec fn kept_not_worse(entries: Seq<Entry>, slots: Seq<Entry>, e: Entry) -> spec_fn(int) -> bool {
    |j: int|
        !better(e, entries[j]) && exists|t: int|
            0 <= t < slots.len() && #[trigger] origin(entries, slots)(t) == j
}

/// Every slot holds an offered entry, and no two slots the same one.
proof fn lemma_origins(k: int, entries: Seq<Entry>)
    requires
        0 < k,
        no_positive_nan(entries),
        distinct_entries(entries),
    ensures
        ({
            let slots = offered_all(k, entries);
            let g = origin(entries, slots);
            &&& forall|t: int|
                0 <= t < slots.len() ==> 0 <= #[trigger] g(t) < entries.len() && entries[g(t)]
                    == slots[t]
            &&& forall|t: int, u: int|
                0 <= t < u < slots.len() ==> #[trigger] g(t) != #[trigger] g(u)
        }),
{
    let slots = offered_all(k, entries);
    let g = origin(entries, slots);
    lemma_topk_keeps_best(k, entries);
    lemma_kept_distinct(k, entries);
    assert forall|t: int| 0 <= t < slots.len() implies 0 <= #[trigger] g(t) < entries.len()
        && entries[g(t)] == slots[t] by {
        assert(exists|i: int|
            0 <= i < entries.len() && #[trigger] entries[i] == #[trigger] slots[t]);
        let i = choose|i: int| 0 <= i < entries.len() && #[trigger] entries[i] == slots[t];
        assert(entries[i] == slots[t]);
    }
    assert forall|t: int, u: int| 0 <= t < u < slots.len() implies #[trigger] g(t)
        != #[trigger] g(u) by {
        assert(slots[t] != slots[u]);
        assert(entries[g(t)] == slots[t] && entries[g(u)] == slots[u]);
    }
}

/// An offered entry that is better than a kept one is kept.
proof fn lemma_better_was_kept(k: int, entries: Seq<Entry>, s: int, j: int)
    requires
        0 < k,
        no_positive_nan(entries),
        distinct_entries(entries),
        0 <= s < offered_all(k, entries).len(),
        0 <= j < entries.len(),
        better(entries[j], offered_all(k, entries)[s]),
    ensures
        exists|t: int|
            0 <= t < offered_all(k, entries).len() && #[trigger] origin(
                entries,
                offered_all(k, entries),
            )(t) == j,
{
    let slots = offered_all(k, entries);
    let g = origin(entries, slots);
    lemma_topk_keeps_best(k, entries);
    lemma_origins(k, entries);
    let t = choose|t: int| 0 <= t < slots.len() && slots[t] == entries[j];
    assert(entries[g(t)] == slots[t]);
    if g(t) < j {
        assert(entries[g(t)] != entries[j]);
    } else if j < g(t) {
        assert(entries[j] != entries[g(t)]);
    }
    assert(g(t) == j);
}

/// The place at which a kept entry is reported lies behind every offered entry
/// that is better than it, and before every one that it is better than.
pub proof fn lemma_place_is_between(k: int, entries: Seq<Entry>, s: int)
    requires
        0 < k,
        no_positive_nan(entries),
        distinct_entries(entries),
        0 <= s < offered_all(k, entries).len(),
    ensures
        ({
            let slots = offered_all(k, entries);
            count_where(entries.len() as int, better_than(entries, slots[s])) <= place(slots, s)
                < count_where(entries.len() as int, not_worse_than(entries, slots[s]))
        }),
{
    let slots = offered_all(k, entries);
    let n = entries.len() as int;
    let m = slots.len() as int;
    let e = slots[s];
    let g = origin(entries, slots);
    lemma_origins(k, entries);
    let q = reported_earlier(slots, s);
    let p = better_than(entries, e);
    let kept = holds_after(p, g);
    assert forall|j: int| 0 <= j < n && #[trigger] p(j) implies exists|t: int|
        0 <= t < m && #[trigger] g(t) == j by {
        lemma_better_was_kept(k, entries, s, j);
    }
    lemma_count_injected(m, n, g, kept, p);
    assert forall|t: int| 0 <= t < m && #[trigger] kept(t) implies q(t) by {
        assert(entries[g(t)] == slots[t]);
    }
    lemma_count_mono(m, kept, q);

    let low = kept_not_worse(entries, slots, e);
    let held = holds_after(low, g);
    lemma_count_injected(m, n, g, held, low);
    assert forall|t: int| 0 <= t < m && (#[trigger] q(t) || t == s) implies held(t) by {
        assert(entries[g(t)] == slots[t]);
    }
    assert(q(s) || held(s));
    lemma_count_strict_mono(m, q, held, s);
    lemma_count_mono(n, low, not_worse_than(entries, e));
}

/// No two kept entries are the same when no two offered ones are.
proof fn lemma_kept_distinct(k: int, entries: Seq<Entry>)
    requires
        0 < k,
        no_positive_nan(entries),
        distinct_entries(entries),
    ensures
        forall|t: int, u: int|
            0 <= t < offered_all(k, entries).len() && 0 <= u < offered_all(k, entries).len() && t
                != u ==> #[trigger] offered_all(k, entries)[t] != #[trigger] offered_all(
                k,
                entries,
            )[u],
    decreases entries.len(),
{
    if entries.len() > 0 {
        let head = entries.drop_last();
        let e = entries.last();
        let old_slots = offered_all(k, head);
        assert forall|i: int, j: int| 0 <= i < j < head.len() implies #[trigger] head[i]
            != #[trigger] head[j] by {
            assert(entries[i] != entries[j]);
        }
        assert forall|i: int| 0 <= i < head.len() implies (
        #[trigger] head[i]).score.total_key() <= INFINITY_MAGNITUDE by {
            assert(entries[i].score.total_key() <= INFINITY_MAGNITUDE);
        }
        lemma_kept_distinct(k, head);
        lemma_topk_keeps_best(k, head);
        assert forall|t: int| 0 <= t < old_slots.len() implies #[trigger] old_slots[t]
            != e by {
            let i = choose|i: int| 0 <= i < head.len() && #[trigger] head[i] == old_slots[t];
            assert(entries[i] != entries[entries.len() - 1]);
        }
        let slots = offered_all(k, entries);
        let w = worst_of(old_slots, old_slots.len() as int).slot;
        lemma_worst_slot(old_slots, old_slots.len() as int);
        assert(slots == old_slots || slots == old_slots.push(e) || slots == old_slots.update(w, e));
        assert forall|t: int, u: int|
            0 <= t < slots.len() && 0 <= u < slots.len() && t != u implies #[trigger] slots[t]
            != #[trigger] slots[u] by {
            if slots == old_slots.push(e) {
                if t < old_slots.len() && u < old_slots.len() {
                    assert(old_slots[t] != old_slots[u]);
                }
            } else if slots == old_slots.update(w, e) {
                if t != w && u != w {
                    assert(old_slots[t] != old_slots[u]);
                }
            } else {
                assert(old_slots[t] != old_slots[u]);
            }
        }
    }
}

} // verus!
