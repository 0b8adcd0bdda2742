//! Stable ordering of the indices of a key slice.

use vstd::prelude::*;

use crate::counting::{
    at, count_where, holds_after, is_permutation, lemma_count_below, lemma_count_permuted,
};

verus! {

/// Index `i` comes before index `j`: a lower key, or the same key at a lower
/// index.
pub open spec fn key_less(keys: Seq<u128>, i: int, j: int) -> bool {
    keys[i] < keys[j] || (keys[i] == keys[j] && i < j)
}

/// The indices that come before `k`.
pub open spec fn precedes(keys: Seq<u128>, k: int) -> spec_fn(int) -> bool {
    |j: int| key_less(keys, j, k)
}

/// The position of index `k` once the indices of `keys` are in order.
pub open spec fn position(keys: Seq<u128>, k: int) -> int {
    count_where(keys.len() as int, precedes(keys, k))
}

/// `order` lists indices of `lo..hi` in strictly increasing key order.
pub open spec fn ordered(keys: Seq<u128>, order: Seq<usize>, lo: int, hi: int) -> bool {
    &&& forall|a: int| 0 <= a < order.len() ==> lo <= #[trigger] order[a] < hi
    &&& forall|a: int, b: int|
        0 <= a < b < order.len() ==> key_less(
            keys,
            #[trigger] order[a] as int,
            #[trigger] order[b] as int,
        )
}

/// `order` as mathematical integers.
pub open spec fn as_ints(order: Seq<usize>) -> Seq<int> {
    Seq::new(order.len(), |i: int| order[i] as int)
}

fn merge(
    keys: &[u128],
    left: &Vec<usize>,
    right: &Vec<usize>,
    Ghost(lo): Ghost<int>,
    Ghost(mid): Ghost<int>,
    Ghost(hi): Ghost<int>,
) -> (out: Vec<usize>)
    requires
        0 <= lo <= mid <= hi <= keys.len(),
        left.len() == mid - lo,
        right.len() == hi - mid,
        ordered(keys@, left@, lo, mid),
        ordered(keys@, right@, mid, hi),
    ensures
        out.len() == hi - lo,
        ordered(keys@, out@, lo, hi),
{
    let mut out: Vec<usize> = Vec::with_capacity(left.len());
    let mut a: usize = 0;
    let mut b: usize = 0;
    while a < left.len() || b < right.len()
        invariant
            0 <= lo <= mid <= hi <= keys.len(),
            left.len() == mid - lo,
            right.len() == hi - mid,
            ordered(keys@, left@, lo, mid),
            ordered(keys@, right@, mid, hi),
            a <= left.len(),
            b <= right.len(),
            out.len() == a + b,
            ordered(keys@, out@, lo, hi),
            a < left.len() ==> forall|t: int|
                0 <= t < out.len() ==> key_less(
                    keys@,
                    #[trigger] out[t] as int,
                    left[a as int] as int,
                ),
            b < right.len() ==> forall|t: int|
                0 <= t < out.len() ==> key_less(
                    keys@,
                    #[trigger] out[t] as int,
                    right[b as int] as int,
                ),
        decreases left.len() - a + right.len() - b,
    {
        if b >= right.len() || (a < left.len() && keys[left[a]] <= keys[right[b]]) {
            out.push(left[a]);
            a = a + 1;
        } else {
            out.push(right[b]);
            b = b + 1;
        }
    }
    out
}

fn sort_range(keys: &[u128], lo: usize, hi: usize) -> (out: Vec<usize>)
    requires
        lo <= hi <= keys.len(),
    ensures
        out.len() == hi - lo,
        ordered(keys@, out@, lo as int, hi as int),
    decreases hi - lo,
{
    if hi - lo <= 1 {
        let mut out: Vec<usize> = Vec::new();
        if lo < hi {
            out.push(lo);
        }
        out
    } else {
        let mid: usize = lo + (hi - lo) / 2;
        let left = sort_range(keys, lo, mid);
        let right = sort_range(keys, mid, hi);
        merge(keys, &left, &right, Ghost(lo as int), Ghost(mid as int), Ghost(hi as int))
    }
}

/// The indices of `keys` in ascending order of key, equal keys by ascending
/// index.
pub fn argsort(keys: &[u128]) -> (order: Vec<usize>)
    ensures
        order.len() == keys.len(),
        ordered(keys@, order@, 0, keys.len() as int),
        is_permutation(as_ints(order@)),
        forall|r: int| 0 <= r < order.len() ==> position(keys@, #[trigger] order[r] as int) == r,
{
    let order = sort_range(keys, 0, keys.len());
    proof {
        assert forall|r: int| 0 <= r < order.len() implies position(
            keys@,
            #[trigger] order[r] as int,
        ) == r by {
            lemma_ordered_position(keys@, order@, r);
        }
    }
    order
}

/// In an ordered listing of all indices, the entry at place `r` has exactly
/// `r` indices before it.
pub proof fn lemma_ordered_position(keys: Seq<u128>, order: Seq<usize>, r: int)
    requires
        order.len() == keys.len(),
        ordered(keys, order, 0, keys.len() as int),
        0 <= r < order.len(),
    ensures
        is_permutation(as_ints(order)),
        position(keys, order[r] as int) == r,
{
    let s = as_ints(order);
    let n = order.len() as int;
    let p = precedes(keys, order[r] as int);
    assert forall|i: int, j: int| 0 <= i < j < s.len() implies s[i] != s[j] by {
        assert(key_less(keys, order[i] as int, order[j] as int));
    }
    lemma_count_permuted(s, p);
    let q = holds_after(p, at(s));
    assert forall|i: int| 0 <= i < n implies (#[trigger] q(i) <==> i < r) by {
        if i < r {
            assert(key_less(keys, order[i] as int, order[r] as int));
        } else if r < i {
            assert(key_less(keys, order[r] as int, order[i] as int));
        }
    }
    lemma_count_below(n, r, q);
}

} // verus!
