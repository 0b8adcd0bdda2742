//! Finite counts and sums over `0..n`, the vocabulary in which ranks,
//! histograms, overlaps and scores are specified.

use vstd::prelude::*;

verus! {

/// The number of `i` in `0..n` for which `p(i)` holds.
pub open spec fn count_where(n: int, p: spec_fn(int) -> bool) -> int
    decreases n,
{
    if n <= 0 {
        0
    } else {
        count_where(n - 1, p) + if p(n - 1) {
            1int
        } else {
            0int
        }
    }
}

/// The number of `i` in `0..n` at which `c` takes the value `b`.
pub open spec fn count_eq(n: int, c: spec_fn(int) -> int, b: int) -> int
    decreases n,
{
    if n <= 0 {
        0
    } else {
        count_eq(n - 1, c, b) + if c(n - 1) == b {
            1int
        } else {
            0int
        }
    }
}

/// The sum of `f(i)` over `i` in `0..n`.
pub open spec fn sum_to(n: int, f: spec_fn(int) -> int) -> int
    decreases n,
{
    if n <= 0 {
        0
    } else {
        sum_to(n - 1, f) + f(n - 1)
    }
}

/// The least `i` in `from..n` for which `p(i)` holds, or `n` if there is none.
pub open spec fn first_from(from: int, n: int, p: spec_fn(int) -> bool) -> int
    decreases n - from,
{
    if from >= n {
        n
    } else if p(from) {
        from
    } else {
        first_from(from + 1, n, p)
    }
}

/// The least `i` in `0..n` for which `p(i)` holds, or `n` if there is none.
pub open spec fn first_where(n: int, p: spec_fn(int) -> bool) -> int {
    first_from(0, n, p)
}

/// `s` lists every index of `0..s.len()` exactly once.
pub open spec fn is_permutation(s: Seq<int>) -> bool {
    &&& forall|i: int| 0 <= i < s.len() ==> 0 <= #[trigger] s[i] < s.len()
    &&& forall|i: int, j: int| 0 <= i < j < s.len() ==> s[i] != s[j]
}

/// The sequence `s` as a function of its index.
pub open spec fn at(s: Seq<int>) -> spec_fn(int) -> int {
    |i: int| s[i]
}

/// `p` read `a` places further on.
pub open spec fn shifted(p: spec_fn(int) -> bool, a: int) -> spec_fn(int) -> bool {
    |i: int| p(a + i)
}

/// `f` read `a` places further on.
pub open spec fn shifted_term(f: spec_fn(int) -> int, a: int) -> spec_fn(int) -> int {
    |i: int| f(a + i)
}

/// `p` after `c`.
pub open spec fn holds_after(p: spec_fn(int) -> bool, c: spec_fn(int) -> int) -> spec_fn(
    int,
) -> bool {
    |i: int| p(c(i))
}

/// `w` after `c`.
pub open spec fn compose(w: spec_fn(int) -> int, c: spec_fn(int) -> int) -> spec_fn(int) -> int {
    |i: int| w(c(i))
}

/// The weight of each value times how often `c` takes it on `0..n`.
pub open spec fn weighted_fibers(
    n: int,
    c: spec_fn(int) -> int,
    w: spec_fn(int) -> int,
) -> spec_fn(int) -> int {
    |b: int| w(b) * count_eq(n, c, b)
}

/// The sums of the rows of `f`, each of length `m`.
pub open spec fn row_sums(m: int, f: spec_fn(int, int) -> int) -> spec_fn(int) -> int {
    |i: int| sum_to(m, row_of(f, i))
}

/// The sums of the columns of `f`, each of length `n`.
pub open spec fn column_sums(n: int, f: spec_fn(int, int) -> int) -> spec_fn(int) -> int {
    |j: int| sum_to(n, column_of(f, j))
}

/// Row `i` of `f`.
pub open spec fn row_of(f: spec_fn(int, int) -> int, i: int) -> spec_fn(int) -> int {
    |j: int| f(i, j)
}

/// Column `j` of `f`.
pub open spec fn column_of(f: spec_fn(int, int) -> int, j: int) -> spec_fn(int) -> int {
    |i: int| f(i, j)
}

proof fn lemma_first_from(from: int, n: int, p: spec_fn(int) -> bool, w: int)
    requires
        from <= w <= n,
        forall|j: int| from <= j < w ==> !(#[trigger] p(j)),
        w < n ==> p(w),
    ensures
        first_from(from, n, p) == w,
    decreases n - from,
{
    if from < w {
        assert(!p(from));
        lemma_first_from(from + 1, n, p, w);
    }
}

/// The first index is the one where the predicate holds and nowhere before;
/// `n` when it holds nowhere.
pub proof fn lemma_first_where(n: int, p: spec_fn(int) -> bool, w: int)
    requires
        0 <= w <= n,
        forall|j: int| 0 <= j < w ==> !(#[trigger] p(j)),
        w < n ==> p(w),
    ensures
        first_where(n, p) == w,
{
    lemma_first_from(0, n, p, w);
}

proof fn lemma_first_from_holds(from: int, n: int, p: spec_fn(int) -> bool)
    requires
        from <= n,
    ensures
        from <= first_from(from, n, p) <= n,
        first_from(from, n, p) < n ==> p(first_from(from, n, p)),
        forall|j: int| from <= j < first_from(from, n, p) ==> !(#[trigger] p(j)),
    decreases n - from,
{
    if from < n && !p(from) {
        lemma_first_from_holds(from + 1, n, p);
    }
}

/// The predicate holds at the first index, and nowhere before it.
pub proof fn lemma_first_where_holds(n: int, p: spec_fn(int) -> bool)
    requires
        0 <= n,
    ensures
        0 <= first_where(n, p) <= n,
        first_where(n, p) < n ==> p(first_where(n, p)),
        forall|j: int| 0 <= j < first_where(n, p) ==> !(#[trigger] p(j)),
{
    lemma_first_from_holds(0, n, p);
}

/// A count over `0..n` lies in `0..=n`.
pub proof fn lemma_count_bounds(n: int, p: spec_fn(int) -> bool)
    requires
        0 <= n,
    ensures
        0 <= count_where(n, p) <= n,
    decreases n,
{
    if n > 0 {
        lemma_count_bounds(n - 1, p);
    }
}

/// Predicates that agree on `0..n` have equal counts there.
pub proof fn lemma_count_ext(n: int, p: spec_fn(int) -> bool, q: spec_fn(int) -> bool)
    requires
        forall|i: int| 0 <= i < n ==> #[trigger] p(i) == q(i),
    ensures
        count_where(n, p) == count_where(n, q),
    decreases n,
{
    if n > 0 {
        lemma_count_ext(n - 1, p, q);
        assert(p(n - 1) == q(n - 1));
    }
}

/// `count_eq` is the count of any predicate that says the same.
pub proof fn lemma_count_eq_where(
    n: int,
    c: spec_fn(int) -> int,
    b: int,
    p: spec_fn(int) -> bool,
)
    requires
        forall|i: int| 0 <= i < n ==> (#[trigger] p(i) <==> c(i) == b),
    ensures
        count_eq(n, c, b) == count_where(n, p),
    decreases n,
{
    if n > 0 {
        lemma_count_eq_where(n - 1, c, b, p);
        assert(p(n - 1) <==> c(n - 1) == b);
    }
}

/// A weaker predicate counts at least as much.
pub proof fn lemma_count_mono(n: int, p: spec_fn(int) -> bool, q: spec_fn(int) -> bool)
    requires
        forall|i: int| 0 <= i < n && #[trigger] p(i) ==> q(i),
    ensures
        count_where(n, p) <= count_where(n, q),
    decreases n,
{
    if n > 0 {
        lemma_count_mono(n - 1, p, q);
    }
}

/// A strictly weaker predicate counts strictly more.
pub proof fn lemma_count_strict_mono(
    n: int,
    p: spec_fn(int) -> bool,
    q: spec_fn(int) -> bool,
    w: int,
)
    requires
        forall|i: int| 0 <= i < n && #[trigger] p(i) ==> q(i),
        0 <= w < n,
        !p(w),
        q(w),
    ensures
        count_where(n, p) < count_where(n, q),
    decreases n,
{
    if w == n - 1 {
        lemma_count_mono(n - 1, p, q);
    } else {
        lemma_count_strict_mono(n - 1, p, q, w);
    }
}

/// Counts split at any point of the range.
pub proof fn lemma_count_split(a: int, b: int, p: spec_fn(int) -> bool)
    requires
        0 <= a,
        0 <= b,
    ensures
        count_where(a + b, p) == count_where(a, p) + count_where(b, shifted(p, a)),
    decreases b,
{
    if b > 0 {
        lemma_count_split(a, b - 1, p);
        assert(shifted(p, a)(b - 1) == p(a + b - 1));
    }
}

/// A predicate that holds nowhere on `0..n` counts zero.
pub proof fn lemma_count_none(n: int, p: spec_fn(int) -> bool)
    requires
        forall|i: int| 0 <= i < n ==> !(#[trigger] p(i)),
    ensures
        count_where(n, p) == 0,
    decreases n,
{
    if n > 0 {
        lemma_count_none(n - 1, p);
        assert(!p(n - 1));
    }
}

/// A predicate that holds everywhere on `0..n` counts `n`.
pub proof fn lemma_count_all(n: int, p: spec_fn(int) -> bool)
    requires
        0 <= n,
        forall|i: int| 0 <= i < n ==> #[trigger] p(i),
    ensures
        count_where(n, p) == n,
    decreases n,
{
    if n > 0 {
        lemma_count_all(n - 1, p);
        assert(p(n - 1));
    }
}

/// A count that reaches `n` is a predicate that holds everywhere.
pub proof fn lemma_count_full(n: int, p: spec_fn(int) -> bool, w: int)
    requires
        0 <= w < n,
        count_where(n, p) == n,
    ensures
        p(w),
    decreases n,
{
    lemma_count_bounds(n - 1, p);
    if w < n - 1 {
        lemma_count_full(n - 1, p, w);
    }
}

/// A witness makes the count positive.
pub proof fn lemma_count_witness(n: int, p: spec_fn(int) -> bool, w: int)
    requires
        0 <= w < n,
        p(w),
    ensures
        count_where(n, p) >= 1,
    decreases n,
{
    lemma_count_bounds(n - 1, p);
    if w < n - 1 {
        lemma_count_witness(n - 1, p, w);
    }
}

/// A predicate that singles out one index counts one.
pub proof fn lemma_count_single(n: int, p: spec_fn(int) -> bool, w: int)
    requires
        0 <= w < n,
        forall|i: int| 0 <= i < n ==> (#[trigger] p(i) <==> i == w),
    ensures
        count_where(n, p) == 1,
    decreases n,
{
    if w == n - 1 {
        lemma_count_none(n - 1, p);
        assert(p(n - 1));
    } else {
        assert(!p(n - 1));
        lemma_count_single(n - 1, p, w);
    }
}

/// Two disjoint predicates count separately.
pub proof fn lemma_count_disjoint(
    n: int,
    p: spec_fn(int) -> bool,
    q: spec_fn(int) -> bool,
    r: spec_fn(int) -> bool,
)
    requires
        forall|i: int| 0 <= i < n ==> (#[trigger] r(i) <==> (p(i) || q(i))),
        forall|i: int| 0 <= i < n ==> !(#[trigger] p(i) && q(i)),
    ensures
        count_where(n, r) == count_where(n, p) + count_where(n, q),
    decreases n,
{
    if n > 0 {
        lemma_count_disjoint(n - 1, p, q, r);
        assert(r(n - 1) <==> (p(n - 1) || q(n - 1)));
        assert(!(p(n - 1) && q(n - 1)));
    }
}

/// The indices of `0..n` below `r` number `r`, when `r` lies in the range.
pub proof fn lemma_count_below(n: int, r: int, p: spec_fn(int) -> bool)
    requires
        0 <= r <= n,
        forall|i: int| 0 <= i < n ==> (#[trigger] p(i) <==> i < r),
    ensures
        count_where(n, p) == r,
    decreases n,
{
    if n > 0 {
        assert(p(n - 1) <==> n - 1 < r);
        if r == n {
            lemma_count_below(n - 1, r - 1, p);
        } else {
            lemma_count_below(n - 1, r, p);
        }
    }
}

/// The indices of a window of width `m` inside `0..n` number `m`.
pub proof fn lemma_count_window(n: int, start: int, m: int, p: spec_fn(int) -> bool)
    requires
        0 <= start,
        0 <= m,
        start + m <= n,
        forall|i: int| 0 <= i < n ==> (#[trigger] p(i) <==> start <= i < start + m),
    ensures
        count_where(n, p) == m,
{
    let below = |i: int| i < start;
    let upto = |i: int| i < start + m;
    lemma_count_below(n, start, below);
    lemma_count_below(n, start + m, upto);
    lemma_count_disjoint(n, below, p, upto);
}

/// A count is a sum of zeros and ones.
pub proof fn lemma_count_is_sum(n: int, p: spec_fn(int) -> bool, f: spec_fn(int) -> int)
    requires
        forall|i: int| 0 <= i < n ==> #[trigger] f(i) == if p(i) {
            1int
        } else {
            0int
        },
    ensures
        count_where(n, p) == sum_to(n, f),
    decreases n,
{
    if n > 0 {
        lemma_count_is_sum(n - 1, p, f);
        assert(f(n - 1) == if p(n - 1) {
            1int
        } else {
            0int
        });
    }
}

/// Summands that agree on `0..n` have equal sums there.
pub proof fn lemma_sum_ext(n: int, f: spec_fn(int) -> int, g: spec_fn(int) -> int)
    requires
        forall|i: int| 0 <= i < n ==> #[trigger] f(i) == g(i),
    ensures
        sum_to(n, f) == sum_to(n, g),
    decreases n,
{
    if n > 0 {
        lemma_sum_ext(n - 1, f, g);
        assert(f(n - 1) == g(n - 1));
    }
}

/// Sums add term by term.
pub proof fn lemma_sum_add(
    n: int,
    f: spec_fn(int) -> int,
    g: spec_fn(int) -> int,
    h: spec_fn(int) -> int,
)
    requires
        forall|i: int| 0 <= i < n ==> #[trigger] h(i) == f(i) + g(i),
    ensures
        sum_to(n, h) == sum_to(n, f) + sum_to(n, g),
    decreases n,
{
    if n > 0 {
        lemma_sum_add(n - 1, f, g, h);
        assert(h(n - 1) == f(n - 1) + g(n - 1));
    }
}

/// A constant factor leaves the sum.
pub proof fn lemma_sum_scale(n: int, c: int, f: spec_fn(int) -> int, g: spec_fn(int) -> int)
    requires
        forall|i: int| 0 <= i < n ==> #[trigger] g(i) == c * f(i),
    ensures
        sum_to(n, g) == c * sum_to(n, f),
    decreases n,
{
    if n > 0 {
        lemma_sum_scale(n - 1, c, f, g);
        assert(g(n - 1) == c * f(n - 1));
        assert(c * (sum_to(n - 1, f) + f(n - 1)) == c * sum_to(n - 1, f) + c * f(n - 1))
            by (nonlinear_arith);
    } else {
        assert(c * 0 == 0);
    }
}

/// Sums split at any point of the range.
pub proof fn lemma_sum_split(a: int, b: int, f: spec_fn(int) -> int)
    requires
        0 <= a,
        0 <= b,
    ensures
        sum_to(a + b, f) == sum_to(a, f) + sum_to(b, shifted_term(f, a)),
    decreases b,
{
    if b > 0 {
        lemma_sum_split(a, b - 1, f);
        assert(shifted_term(f, a)(b - 1) == f(a + b - 1));
    }
}

/// A sum whose terms vanish off one index is that term.
pub proof fn lemma_sum_single(n: int, f: spec_fn(int) -> int, w: int)
    requires
        0 <= w < n,
        forall|i: int| 0 <= i < n && i != w ==> #[trigger] f(i) == 0,
    ensures
        sum_to(n, f) == f(w),
    decreases n,
{
    if w == n - 1 {
        lemma_sum_zero(n - 1, f);
    } else {
        assert(f(n - 1) == 0);
        lemma_sum_single(n - 1, f, w);
    }
}

/// A sum of zeros is zero.
pub proof fn lemma_sum_zero(n: int, f: spec_fn(int) -> int)
    requires
        forall|i: int| 0 <= i < n ==> #[trigger] f(i) == 0,
    ensures
        sum_to(n, f) == 0,
    decreases n,
{
    if n > 0 {
        lemma_sum_zero(n - 1, f);
        assert(f(n - 1) == 0);
    }
}

/// A sum of equal terms is a product.
pub proof fn lemma_sum_const(n: int, c: int, f: spec_fn(int) -> int)
    requires
        0 <= n,
        forall|i: int| 0 <= i < n ==> #[trigger] f(i) == c,
    ensures
        sum_to(n, f) == n * c,
    decreases n,
{
    if n > 0 {
        lemma_sum_const(n - 1, c, f);
        assert(f(n - 1) == c);
        assert((n - 1) * c + c == n * c) by (nonlinear_arith);
    } else {
        assert(0 * c == 0);
    }
}

/// A sum is bounded term by term.
pub proof fn lemma_sum_le(n: int, f: spec_fn(int) -> int, g: spec_fn(int) -> int)
    requires
        forall|i: int| 0 <= i < n ==> #[trigger] f(i) <= g(i),
    ensures
        sum_to(n, f) <= sum_to(n, g),
    decreases n,
{
    if n > 0 {
        lemma_sum_le(n - 1, f, g);
        assert(f(n - 1) <= g(n - 1));
    }
}

/// Summing over values weighted by how often they occur is summing over the
/// indices that take them.
pub proof fn lemma_group_sum(
    n: int,
    m: int,
    c: spec_fn(int) -> int,
    w: spec_fn(int) -> int,
)
    requires
        forall|i: int| 0 <= i < n ==> 0 <= #[trigger] c(i) < m,
    ensures
        sum_to(m, weighted_fibers(n, c, w)) == sum_to(n, compose(w, c)),
    decreases n,
{
    let f = weighted_fibers(n, c, w);
    if n <= 0 {
        assert forall|b: int| 0 <= b < m implies #[trigger] f(b) == 0 by {
            assert(w(b) * 0 == 0);
        }
        lemma_sum_zero(m, f);
    } else {
        lemma_group_sum(n - 1, m, c, w);
        let g = weighted_fibers(n - 1, c, w);
        let d = |b: int|
            if b == c(n - 1) {
                w(b)
            } else {
                0
            };
        assert(0 <= c(n - 1) < m);
        assert forall|b: int| 0 <= b < m implies #[trigger] f(b) == g(b) + d(b) by {
            let x = count_eq(n - 1, c, b);
            assert(w(b) * (x + 1) == w(b) * x + w(b)) by (nonlinear_arith);
            assert(w(b) * (x + 0) == w(b) * x);
        }
        lemma_sum_add(m, g, d, f);
        lemma_sum_single(m, d, c(n - 1));
        assert(compose(w, c)(n - 1) == w(c(n - 1)));
    }
}

/// Exchanging the order of a double sum.
pub proof fn lemma_sum_swap(n: int, m: int, f: spec_fn(int, int) -> int)
    ensures
        sum_to(n, row_sums(m, f)) == sum_to(m, column_sums(n, f)),
    decreases n,
{
    let rhs = column_sums(n, f);
    if n <= 0 {
        assert forall|j: int| 0 <= j < m implies #[trigger] rhs(j) == 0 by {}
        lemma_sum_zero(m, rhs);
    } else {
        lemma_sum_swap(n - 1, m, f);
        let prev = column_sums(n - 1, f);
        let last = row_of(f, n - 1);
        assert forall|j: int| 0 <= j < m implies #[trigger] rhs(j) == prev(j) + last(j) by {
            assert(column_of(f, j)(n - 1) == f(n - 1, j));
        }
        lemma_sum_add(m, prev, last, rhs);
        assert(row_sums(m, f)(n - 1) == sum_to(m, last));
    }
}

/// An injection that reaches every index where `p` holds carries the count of
/// `p` back to its own range.
pub proof fn lemma_count_injected(
    m: int,
    n: int,
    g: spec_fn(int) -> int,
    q: spec_fn(int) -> bool,
    p: spec_fn(int) -> bool,
)
    requires
        0 <= m,
        forall|s: int| 0 <= s < m ==> 0 <= #[trigger] g(s) < n,
        forall|s: int, t: int| 0 <= s < t < m ==> #[trigger] g(s) != #[trigger] g(t),
        forall|s: int| 0 <= s < m ==> (#[trigger] q(s) <==> p(g(s))),
        forall|j: int|
            0 <= j < n && #[trigger] p(j) ==> exists|s: int|
                0 <= s < m && #[trigger] g(s) == j,
    ensures
        count_where(m, q) == count_where(n, p),
    decreases m,
{
    if m == 0 {
        assert forall|j: int| 0 <= j < n implies !(#[trigger] p(j)) by {
            if p(j) {
                let s = choose|s: int| 0 <= s < m && #[trigger] g(s) == j;
            }
        }
        lemma_count_none(n, p);
    } else {
        let w = g(m - 1);
        let rest = |j: int| p(j) && j != w;
        assert(q(m - 1) <==> p(w));
        assert forall|s: int| 0 <= s < m - 1 implies (#[trigger] q(s) <==> rest(g(s))) by {
            assert(g(s) != g(m - 1));
        }
        assert forall|j: int| 0 <= j < n && #[trigger] rest(j) implies exists|s: int|
            0 <= s < m - 1 && #[trigger] g(s) == j by {
            let s = choose|s: int| 0 <= s < m && #[trigger] g(s) == j;
            assert(s != m - 1);
        }
        lemma_count_injected(m - 1, n, g, q, rest);
        if p(w) {
            let one = |j: int| j == w;
            lemma_count_single(n, one, w);
            lemma_count_disjoint(n, rest, one, p);
        } else {
            lemma_count_ext(n, rest, p);
        }
    }
}

/// A sum whose terms vanish outside `lo..hi` starts at zero there and is done
/// at `hi`.
pub proof fn lemma_sum_window(n: int, lo: int, hi: int, f: spec_fn(int) -> int)
    requires
        0 <= lo <= hi <= n,
        forall|i: int| 0 <= i < n && !(lo <= i < hi) ==> #[trigger] f(i) == 0,
    ensures
        sum_to(lo, f) == 0,
        sum_to(n, f) == sum_to(hi, f),
    decreases n - hi,
{
    lemma_sum_zero(lo, f);
    if hi < n {
        lemma_sum_window(n - 1, lo, hi, f);
        assert(f(n - 1) == 0);
    }
}

/// Prefixes of a sum of terms that are not negative do not exceed it.
pub proof fn lemma_sum_prefix(a: int, b: int, f: spec_fn(int) -> int)
    requires
        0 <= a <= b,
        forall|t: int| 0 <= t < b ==> #[trigger] f(t) >= 0,
    ensures
        sum_to(a, f) <= sum_to(b, f),
    decreases b - a,
{
    if a < b {
        lemma_sum_prefix(a, b - 1, f);
        assert(f(b - 1) >= 0);
    }
}

/// The sum of `f` over an `n` by `m` table.
pub open spec fn table_sum(n: int, m: int, f: spec_fn(int, int) -> int) -> int {
    sum_to(n, row_sums(m, f))
}

/// Tables that agree cell by cell have equal sums.
pub proof fn lemma_table_ext(
    n: int,
    m: int,
    f: spec_fn(int, int) -> int,
    g: spec_fn(int, int) -> int,
)
    requires
        forall|a: int, b: int| 0 <= a < n && 0 <= b < m ==> #[trigger] f(a, b) == g(a, b),
    ensures
        table_sum(n, m, f) == table_sum(n, m, g),
{
    assert forall|a: int| 0 <= a < n implies #[trigger] row_sums(m, f)(a) == row_sums(m, g)(a) by {
        lemma_sum_ext(m, row_of(f, a), row_of(g, a));
    }
    lemma_sum_ext(n, row_sums(m, f), row_sums(m, g));
}

/// Table sums add cell by cell.
pub proof fn lemma_table_add(
    n: int,
    m: int,
    f: spec_fn(int, int) -> int,
    g: spec_fn(int, int) -> int,
    h: spec_fn(int, int) -> int,
)
    requires
        forall|a: int, b: int|
            0 <= a < n && 0 <= b < m ==> #[trigger] h(a, b) == f(a, b) + g(a, b),
    ensures
        table_sum(n, m, h) == table_sum(n, m, f) + table_sum(n, m, g),
{
    assert forall|a: int| 0 <= a < n implies #[trigger] row_sums(m, h)(a) == row_sums(m, f)(a)
        + row_sums(m, g)(a) by {
        assert forall|b: int| 0 <= b < m implies #[trigger] row_of(h, a)(b) == row_of(f, a)(b)
            + row_of(g, a)(b) by {
            assert(h(a, b) == f(a, b) + g(a, b));
        }
        lemma_sum_add(m, row_of(f, a), row_of(g, a), row_of(h, a));
    }
    lemma_sum_add(n, row_sums(m, f), row_sums(m, g), row_sums(m, h));
}

/// A table bounded cell by cell has a bounded sum.
pub proof fn lemma_table_le(
    n: int,
    m: int,
    f: spec_fn(int, int) -> int,
    g: spec_fn(int, int) -> int,
)
    requires
        forall|a: int, b: int| 0 <= a < n && 0 <= b < m ==> #[trigger] f(a, b) <= g(a, b),
    ensures
        table_sum(n, m, f) <= table_sum(n, m, g),
{
    assert forall|a: int| 0 <= a < n implies #[trigger] row_sums(m, f)(a) <= row_sums(m, g)(a) by {
        assert forall|b: int| 0 <= b < m implies #[trigger] row_of(f, a)(b) <= row_of(g, a)(b) by {
            assert(f(a, b) <= g(a, b));
        }
        lemma_sum_le(m, row_of(f, a), row_of(g, a));
    }
    lemma_sum_le(n, row_sums(m, f), row_sums(m, g));
}

/// A constant factor leaves a table sum.
pub proof fn lemma_table_scale(
    n: int,
    m: int,
    c: int,
    f: spec_fn(int, int) -> int,
    g: spec_fn(int, int) -> int,
)
    requires
        forall|a: int, b: int| 0 <= a < n && 0 <= b < m ==> #[trigger] g(a, b) == c * f(a, b),
    ensures
        table_sum(n, m, g) == c * table_sum(n, m, f),
{
    assert forall|a: int| 0 <= a < n implies #[trigger] row_sums(m, g)(a) == c * row_sums(m, f)(
        a,
    ) by {
        assert forall|b: int| 0 <= b < m implies #[trigger] row_of(g, a)(b) == c * row_of(f, a)(
            b,
        ) by {
            assert(g(a, b) == c * f(a, b));
        }
        lemma_sum_scale(m, c, row_of(f, a), row_of(g, a));
    }
    lemma_sum_scale(n, c, row_sums(m, f), row_sums(m, g));
}

/// A table of zeros sums to zero.
pub proof fn lemma_table_zero(n: int, m: int, f: spec_fn(int, int) -> int)
    requires
        forall|a: int, b: int| 0 <= a < n && 0 <= b < m ==> #[trigger] f(a, b) == 0,
    ensures
        table_sum(n, m, f) == 0,
{
    assert forall|a: int| 0 <= a < n implies #[trigger] row_sums(m, f)(a) == 0 by {
        assert forall|b: int| 0 <= b < m implies #[trigger] row_of(f, a)(b) == 0 by {
            assert(f(a, b) == 0);
        }
        lemma_sum_zero(m, row_of(f, a));
    }
    lemma_sum_zero(n, row_sums(m, f));
}

/// A table that vanishes off one cell sums to that cell.
pub proof fn lemma_table_single(n: int, m: int, f: spec_fn(int, int) -> int, x: int, y: int)
    requires
        0 <= x < n,
        0 <= y < m,
        forall|a: int, b: int|
            0 <= a < n && 0 <= b < m && !(a == x && b == y) ==> #[trigger] f(a, b) == 0,
    ensures
        table_sum(n, m, f) == f(x, y),
{
    assert forall|a: int| 0 <= a < n && a != x implies #[trigger] row_sums(m, f)(a) == 0 by {
        assert forall|b: int| 0 <= b < m implies #[trigger] row_of(f, a)(b) == 0 by {
            assert(f(a, b) == 0);
        }
        lemma_sum_zero(m, row_of(f, a));
    }
    lemma_sum_single(n, row_sums(m, f), x);
    assert forall|b: int| 0 <= b < m && b != y implies #[trigger] row_of(f, x)(b) == 0 by {
        assert(f(x, b) == 0);
    }
    lemma_sum_single(m, row_of(f, x), y);
}

/// A predicate that no two indices share counts at most one.
proof fn lemma_count_at_most_one(n: int, p: spec_fn(int) -> bool)
    requires
        forall|i: int, j: int| 0 <= i < j < n ==> !(#[trigger] p(i) && #[trigger] p(j)),
    ensures
        count_where(n, p) <= 1,
    decreases n,
{
    if n > 0 {
        lemma_count_at_most_one(n - 1, p);
        if p(n - 1) {
            assert forall|i: int| 0 <= i < n - 1 implies !(#[trigger] p(i)) by {
                assert(!(p(i) && p(n - 1)));
            }
            lemma_count_none(n - 1, p);
        }
    }
}

/// A permutation takes every value exactly once.
pub proof fn lemma_permutation_count(s: Seq<int>, b: int)
    requires
        is_permutation(s),
        0 <= b < s.len(),
    ensures
        count_eq(s.len() as int, at(s), b) == 1,
{
    let n = s.len() as int;
    let c = at(s);
    let one = |b: int| 1int;
    let f = weighted_fibers(n, c, one);
    let hit = |b: int| count_eq(n, c, b) == 1;
    lemma_group_sum(n, n, c, one);
    lemma_sum_const(n, 1, compose(one, c));
    assert forall|b: int| 0 <= b < n implies #[trigger] f(b) == if hit(b) {
        1int
    } else {
        0int
    } by {
        let p = |i: int| c(i) == b;
        assert forall|i: int, j: int| 0 <= i < j < n implies !(#[trigger] p(i) && #[trigger] p(
            j,
        )) by {
            assert(s[i] != s[j]);
        }
        lemma_count_at_most_one(n, p);
        lemma_count_bounds(n, p);
        lemma_count_eq_where(n, c, b, p);
    }
    lemma_count_is_sum(n, hit, f);
    lemma_count_full(n, hit, b);
    assert(hit(b));
}

/// A permutation takes every value.
pub proof fn lemma_permutation_surjective(s: Seq<int>, b: int) -> (w: int)
    requires
        is_permutation(s),
        0 <= b < s.len(),
    ensures
        0 <= w < s.len(),
        s[w] == b,
{
    let n = s.len() as int;
    let c = at(s);
    let p = |i: int| c(i) == b;
    lemma_permutation_count(s, b);
    lemma_count_eq_where(n, c, b, p);
    if forall|i: int| 0 <= i < n ==> !(#[trigger] p(i)) {
        lemma_count_none(n, p);
    }
    choose|i: int| 0 <= i < n && #[trigger] p(i)
}

/// Reordering the terms keeps a sum.
pub proof fn lemma_sum_permuted(s: Seq<int>, f: spec_fn(int) -> int)
    requires
        is_permutation(s),
    ensures
        sum_to(s.len() as int, compose(f, at(s))) == sum_to(s.len() as int, f),
{
    let n = s.len() as int;
    let c = at(s);
    let g = weighted_fibers(n, c, f);
    lemma_group_sum(n, n, c, f);
    assert forall|b: int| 0 <= b < n implies #[trigger] g(b) == f(b) by {
        lemma_permutation_count(s, b);
        let k = count_eq(n, c, b);
        assert(f(b) * k == f(b)) by (nonlinear_arith)
            requires
                k == 1,
        ;
    }
    lemma_sum_ext(n, g, f);
}

/// Reordering the indices keeps a count.
pub proof fn lemma_count_permuted(s: Seq<int>, p: spec_fn(int) -> bool)
    requires
        is_permutation(s),
    ensures
        count_where(s.len() as int, holds_after(p, at(s))) == count_where(s.len() as int, p),
{
    let n = s.len() as int;
    let f = |b: int|
        if p(b) {
            1int
        } else {
            0int
        };
    lemma_sum_permuted(s, f);
    lemma_count_is_sum(n, p, f);
    lemma_count_is_sum(n, holds_after(p, at(s)), compose(f, at(s)));
}

} // verus!
