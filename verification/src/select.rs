//! Selection of the smallest keys, ties broken by ascending id.

use vstd::prelude::*;

use crate::counting::{
    count_where, lemma_count_bounds, lemma_count_ext, lemma_count_mono, lemma_count_strict_mono,
};
use crate::sort::{argsort, position, precedes};

verus! {

/// Id `j` comes before id `i`: a smaller key, or the same key and a lower id.
pub open spec fn comes_before(key: spec_fn(int) -> int, j: int, i: int) -> bool {
    key(j) < key(i) || (key(j) == key(i) && j < i)
}

/// The ids that come before `i`.
pub open spec fn earlier(key: spec_fn(int) -> int, i: int) -> spec_fn(int) -> bool {
    |j: int| comes_before(key, j, i)
}

/// The smaller of two counts.
pub open spec fn lesser(a: int, b: int) -> int {
    if a <= b {
        a
    } else {
        b
    }
}

/// `ids` lists the `m` ids of `0..n` with the smallest keys (all of them when
/// `m` exceeds `n`) in ascending order: entry `r` has exactly `r` ids before
/// it.
pub open spec fn lists_smallest(n: int, m: int, key: spec_fn(int) -> int, ids: Seq<u32>) -> bool {
    &&& ids.len() == lesser(m, n)
    &&& forall|r: int|
        0 <= r < ids.len() ==> 0 <= (#[trigger] ids[r]) < n && count_where(
            n,
            earlier(key, ids[r] as int),
        ) == r
}

/// A list of the smallest keys is unique.
pub proof fn lemma_smallest_unique(
    n: int,
    m: int,
    key: spec_fn(int) -> int,
    a: Seq<u32>,
    b: Seq<u32>,
)
    requires
        lists_smallest(n, m, key, a),
        lists_smallest(n, m, key, b),
    ensures
        a == b,
{
    assert forall|r: int| 0 <= r < a.len() implies a[r] == b[r] by {
        let x = a[r] as int;
        let y = b[r] as int;
        if x != y {
            if comes_before(key, x, y) {
                lemma_earlier_counts_less(n, key, x, y);
            } else {
                lemma_earlier_counts_less(n, key, y, x);
            }
        }
    }
    assert(a =~= b);
}

/// An id that comes before another has fewer ids before it.
pub proof fn lemma_earlier_counts_less(n: int, key: spec_fn(int) -> int, i: int, j: int)
    requires
        0 <= i < n,
        comes_before(key, i, j),
    ensures
        count_where(n, earlier(key, i)) < count_where(n, earlier(key, j)),
{
    lemma_count_strict_mono(n, earlier(key, i), earlier(key, j), i);
}

/// Lists of the smallest keys are in ascending order.
pub proof fn lemma_smallest_is_sorted(n: int, m: int, key: spec_fn(int) -> int, ids: Seq<u32>)
    requires
        lists_smallest(n, m, key, ids),
    ensures
        forall|r: int, s: int|
            0 <= r < s < ids.len() ==> comes_before(
                key,
                #[trigger] ids[r] as int,
                #[trigger] ids[s] as int,
            ),
{
    assert forall|r: int, s: int| 0 <= r < s < ids.len() implies comes_before(
        key,
        #[trigger] ids[r] as int,
        #[trigger] ids[s] as int,
    ) by {
        let x = ids[r] as int;
        let y = ids[s] as int;
        if !comes_before(key, x, y) && x != y {
            lemma_earlier_counts_less(n, key, y, x);
        }
    }
}

/// Every id that is left out comes after every id that is kept.
pub proof fn lemma_left_out_comes_after(
    n: int,
    m: int,
    key: spec_fn(int) -> int,
    ids: Seq<u32>,
    i: int,
    r: int,
)
    requires
        lists_smallest(n, m, key, ids),
        0 <= i < n,
        0 <= r < ids.len(),
        forall|s: int| 0 <= s < ids.len() ==> #[trigger] ids[s] != i,
    ensures
        comes_before(key, ids[r] as int, i),
{
    let p = count_where(n, earlier(key, i));
    lemma_count_bounds(n, earlier(key, i));
    if p < ids.len() {
        let x = ids[p] as int;
        if comes_before(key, x, i) {
            lemma_earlier_counts_less(n, key, x, i);
        } else {
            lemma_earlier_counts_less(n, key, i, x);
        }
    }
    if !comes_before(key, ids[r] as int, i) {
        lemma_earlier_counts_less(n, key, i, ids[r] as int);
    }
}

/// Keys that agree on the ids list the same smallest.
pub proof fn lemma_same_keys(
    n: int,
    m: int,
    a: spec_fn(int) -> int,
    b: spec_fn(int) -> int,
    ids: Seq<u32>,
)
    requires
        lists_smallest(n, m, a, ids),
        forall|i: int| 0 <= i < n ==> #[trigger] a(i) == b(i),
    ensures
        lists_smallest(n, m, b, ids),
{
    assert forall|r: int| 0 <= r < ids.len() implies 0 <= (#[trigger] ids[r]) < n && count_where(
        n,
        earlier(b, ids[r] as int),
    ) == r by {
        let x = ids[r] as int;
        assert(a(x) == b(x));
        assert forall|j: int| 0 <= j < n implies #[trigger] earlier(a, x)(j) == earlier(b, x)(
            j,
        ) by {
            assert(a(j) == b(j));
        }
        lemma_count_ext(n, earlier(a, x), earlier(b, x));
    }
}

/// Keys in a slice as a function of the id.
pub open spec fn key_at(keys: Seq<u32>) -> spec_fn(int) -> int {
    |i: int| keys[i] as int
}

/// The ids of the `m` smallest keys, in ascending order of `(key, id)`.
pub fn smallest_ids(keys: &[u32], m: usize) -> (ids: Vec<u32>)
    requires
        keys.len() <= u32::MAX,
    ensures
        lists_smallest(keys.len() as int, m as int, key_at(keys@), ids@),
{
    let n: usize = keys.len();
    let mut wide: Vec<u128> = Vec::with_capacity(n);
    let mut i: usize = 0;
    while i < n
        invariant
            n == keys.len(),
            i <= n,
            wide.len() == i,
            forall|t: int| 0 <= t < i ==> #[trigger] wide[t] == keys[t],
        decreases n - i,
    {
        wide.push(keys[i] as u128);
        i = i + 1;
    }
    let order = argsort(wide.as_slice());
    let take: usize = if m <= n {
        m
    } else {
        n
    };
    let mut ids: Vec<u32> = Vec::with_capacity(take);
    let mut r: usize = 0;
    while r < take
        invariant
            n == keys.len(),
            n <= u32::MAX,
            take <= n,
            wide.len() == n,
            order.len() == n,
            forall|t: int| 0 <= t < n ==> #[trigger] wide[t] == keys[t],
            forall|t: int| 0 <= t < n ==> #[trigger] order[t] < n,
            forall|t: int| 0 <= t < n ==> position(wide@, #[trigger] order[t] as int) == t,
            r <= take,
            ids.len() == r,
            forall|t: int|
                0 <= t < r ==> 0 <= (#[trigger] ids[t]) < n && count_where(
                    n as int,
                    earlier(key_at(keys@), ids[t] as int),
                ) == t,
        decreases take - r,
    {
        let id: usize = order[r];
        proof {
            let p = precedes(wide@, id as int);
            let q = earlier(key_at(keys@), id as int);
            assert forall|j: int| 0 <= j < n implies #[trigger] p(j) == q(j) by {
                assert(wide[j] == keys[j]);
                assert(wide[id as int] == keys[id as int]);
            }
            lemma_count_ext(n as int, p, q);
        }
        ids.push(id as u32);
        r = r + 1;
    }
    ids
}

/// A bounded collector of the smallest keys of a stream whose ids ascend.
pub struct SmallestCollector {
    limit: usize,
    kept: Vec<(u32, u32)>,
}

impl SmallestCollector {
    /// The ids kept, best first.
    pub closed spec fn ids(&self) -> Seq<u32> {
        Seq::new(self.kept@.len(), |r: int| self.kept@[r].1)
    }

    /// How many ids are kept at most.
    pub closed spec fn bound(&self) -> int {
        self.limit as int
    }

    /// The collector holds the smallest keys of the ids `0..seen`.
    pub closed spec fn holds(&self, key: spec_fn(int) -> int, seen: int) -> bool {
        &&& lists_smallest(seen, self.limit as int, key, self.ids())
        &&& forall|r: int|
            0 <= r < self.kept@.len() ==> (#[trigger] self.kept@[r]).0 == key(
                self.kept@[r].1 as int,
            )
    }

    /// A collector that has seen nothing.
    pub fn new(limit: usize, Ghost(key): Ghost<spec_fn(int) -> int>) -> (c: Self)
        ensures
            c.bound() == limit,
            c.holds(key, 0),
    {
        SmallestCollector { limit, kept: Vec::new() }
    }

    /// The collector's list is the list of the smallest keys.
    pub proof fn lemma_holds(&self, key: spec_fn(int) -> int, seen: int)
        requires
            self.holds(key, seen),
        ensures
            lists_smallest(seen, self.bound(), key, self.ids()),
    {
    }

    /// Offer the next id of the stream with its key.
    pub fn offer(&mut self, hamming: u32, id: u32, Ghost(key): Ghost<spec_fn(int) -> int>)
        requires
            old(self).holds(key, id as int),
            key(id as int) == hamming,
        ensures
            final(self).holds(key, id + 1),
            final(self).bound() == old(self).bound(),
    {
        let n: usize = self.kept.len();
        if n == self.limit && (n == 0 || self.kept[n - 1].0 <= hamming) {
            proof {
                self.lemma_offer_kept(key, hamming as int, id as int, n as int);
            }
            return;
        }
        let mut p: usize = n;
        proof {
            self.lemma_kept_sorted(key, id as int);
        }
        while p > 0 && self.kept[p - 1].0 > hamming
            invariant
                p <= n,
                n == self.kept@.len(),
                forall|r: int| p <= r < n ==> (#[trigger] self.kept@[r]).0 > hamming,
            decreases p,
        {
            p = p - 1;
        }
        let ghost before = *self;
        self.kept.insert(p, (hamming, id));
        if self.kept.len() > self.limit {
            self.kept.pop();
        }
        proof {
            before.lemma_kept_sorted(key, id as int);
            before.lemma_offer_position(key, hamming as int, id as int, p as int);
            let all = before.kept@.insert(p as int, (hamming, id));
            assert(self.kept@ =~= all.subrange(0, lesser(before.limit as int, id + 1)));
            assert forall|r: int| 0 <= r < self.kept@.len() implies 0 <= (#[trigger] self.ids()[r])
                < id + 1 && count_where(id + 1, earlier(key, self.ids()[r] as int)) == r
                && self.kept@[r].0 == key(self.kept@[r].1 as int) by {
                if r < p {
                    assert(before.kept@[r].0 == key(before.kept@[r].1 as int));
                    assert(before.ids()[r] == before.kept@[r].1);
                } else if r > p {
                    assert(before.kept@[r - 1].0 == key(before.kept@[r - 1].1 as int));
                    assert(before.ids()[r - 1] == before.kept@[r - 1].1);
                }
            }
        }
    }

    proof fn lemma_kept_sorted(&self, key: spec_fn(int) -> int, seen: int)
        requires
            self.holds(key, seen),
        ensures
            forall|r: int, s: int|
                0 <= r <= s < self.kept@.len() ==> (#[trigger] self.kept@[r]).0 <= (
                #[trigger] self.kept@[s]).0,
    {
        lemma_smallest_is_sorted(seen, self.limit as int, key, self.ids());
        assert forall|r: int, s: int| 0 <= r <= s < self.kept@.len() implies (
        #[trigger] self.kept@[r]).0 <= (#[trigger] self.kept@[s]).0 by {
            if r < s {
                assert(comes_before(key, self.ids()[r] as int, self.ids()[s] as int));
            }
        }
    }

    /// How many ids below `seen` come before a new id with the given key: as
    /// many as the kept entries with keys no larger, when the entry after them
    /// is kept or everything is.
    proof fn lemma_offer_position(&self, key: spec_fn(int) -> int, h: int, seen: int, p: int)
        requires
            self.holds(key, seen),
            key(seen) == h,
            0 <= seen,
            0 <= p <= self.kept@.len(),
            forall|r: int| 0 <= r < p ==> (#[trigger] self.kept@[r]).0 <= h,
            forall|r: int| p <= r < self.kept@.len() ==> (#[trigger] self.kept@[r]).0 > h,
        ensures
            p < self.kept@.len() || self.kept@.len() == seen ==> count_where(
                seen + 1,
                earlier(key, seen),
            ) == p,
            p == self.kept@.len() ==> count_where(seen + 1, earlier(key, seen)) >= p,
            forall|r: int|
                0 <= r < self.kept@.len() ==> count_where(
                    seen + 1,
                    earlier(key, #[trigger] self.ids()[r] as int),
                ) == if r < p {
                    r
                } else {
                    r + 1
                },
    {
        let e = earlier(key, seen);
        assert(!e(seen));
        lemma_count_bounds(seen, e);
        assert forall|r: int| 0 <= r < self.kept@.len() implies count_where(
            seen + 1,
            earlier(key, #[trigger] self.ids()[r] as int),
        ) == if r < p {
            r
        } else {
            r + 1
        } by {
            let x = self.ids()[r] as int;
            assert(self.kept@[r].0 == key(self.kept@[r].1 as int));
            assert(earlier(key, x)(seen) == (r >= p));
        }
        if p < self.kept@.len() {
            let x = self.ids()[p] as int;
            assert(self.kept@[p].0 == key(self.kept@[p].1 as int));
            lemma_count_mono(seen, e, earlier(key, x));
        }
        if p > 0 {
            let y = self.ids()[p - 1] as int;
            assert(self.kept@[p - 1].0 == key(self.kept@[p - 1].1 as int));
            assert(count_where(seen, earlier(key, y)) == p - 1);
            lemma_count_strict_mono(seen, earlier(key, y), e, y);
        }
    }

    /// A full collector whose worst entry is no worse keeps its list.
    proof fn lemma_offer_kept(&self, key: spec_fn(int) -> int, h: int, seen: int, n: int)
        requires
            self.holds(key, seen),
            key(seen) == h,
            0 <= seen,
            n == self.kept@.len(),
            n == self.limit,
            n == 0 || self.kept@[n - 1].0 <= h,
        ensures
            self.holds(key, seen + 1),
    {
        self.lemma_kept_sorted(key, seen);
        self.lemma_offer_position(key, h, seen, n);
    }

    /// The kept ids, best first.
    pub fn into_ids(self) -> (ids: Vec<u32>)
        ensures
            ids@ == self.ids(),
    {
        let mut ids: Vec<u32> = Vec::with_capacity(self.kept.len());
        let mut r: usize = 0;
        while r < self.kept.len()
            invariant
                r <= self.kept@.len(),
                ids@.len() == r,
                forall|t: int| 0 <= t < r ==> #[trigger] ids@[t] == self.kept@[t].1,
            decreases self.kept.len() - r,
        {
            ids.push(self.kept[r].1);
            r = r + 1;
        }
        assert(ids@ =~= self.ids());
        ids
    }
}

} // verus!
