//! Counts, sums and searches over ranges.

use vstd::prelude::*;

use crate::counting::{
    count_eq, count_where, first_where, is_permutation, lemma_first_where_holds,
    lemma_permutation_surjective, sum_to,
};

verus! {

/// Counting is cardinality: a count is the number of indices with the property.
pub proof fn law_count_is_cardinality(n: int, p: spec_fn(int) -> bool)
    requires
        0 <= n,
    ensures
        Set::new(|i: int| 0 <= i < n && p(i)).finite(),
        count_where(n, p) == Set::new(|i: int| 0 <= i < n && p(i)).len(),
    decreases n,
{
    let all = Set::new(|i: int| 0 <= i < n && p(i));
    if n == 0 {
        assert(all =~= Set::empty());
    } else {
        law_count_is_cardinality(n - 1, p);
        let less = Set::new(|i: int| 0 <= i < n - 1 && p(i));
        if p(n - 1) {
            assert(all =~= less.insert(n - 1));
        } else {
            assert(all =~= less);
        }
    }
}

/// Counting a value is the cardinality of the indices that have it.
pub proof fn law_value_count_is_cardinality(n: int, c: spec_fn(int) -> int, b: int)
    requires
        0 <= n,
    ensures
        Set::new(|i: int| 0 <= i < n && c(i) == b).finite(),
        count_eq(n, c, b) == Set::new(|i: int| 0 <= i < n && c(i) == b).len(),
    decreases n,
{
    let all = Set::new(|i: int| 0 <= i < n && c(i) == b);
    if n == 0 {
        assert(all =~= Set::empty());
    } else {
        law_value_count_is_cardinality(n - 1, c, b);
        let less = Set::new(|i: int| 0 <= i < n - 1 && c(i) == b);
        if c(n - 1) == b {
            assert(all =~= less.insert(n - 1));
        } else {
            assert(all =~= less);
        }
    }
}

/// A sum is the fold of its terms.
pub proof fn law_sum_is_fold(n: int, f: spec_fn(int) -> int)
    requires
        0 <= n,
    ensures
        sum_to(n, f) == Seq::new(n as nat, f).fold_left(0int, |acc: int, x: int| acc + x),
    decreases n,
{
    let terms = Seq::new(n as nat, f);
    if n > 0 {
        law_sum_is_fold(n - 1, f);
        assert(terms.drop_last() =~= Seq::new((n - 1) as nat, f));
    }
}

/// The first index of a property is the only one that has it and comes before
/// every other one that has it; it is the end of the range where none has it.
pub proof fn law_first_is_least(n: int, p: spec_fn(int) -> bool, i: int)
    requires
        0 <= n,
    ensures
        0 <= first_where(n, p) <= n,
        first_where(n, p) < n ==> p(first_where(n, p)),
        0 <= i < n && p(i) ==> first_where(n, p) <= i,
{
    lemma_first_where_holds(n, p);
}

/// A permutation takes every value below its length exactly once.
pub proof fn law_permutation_takes_each_once(s: Seq<int>, x: int)
    requires
        0 <= x < s.len(),
    ensures
        is_permutation(s) ==> exists|i: int| 0 <= i < s.len() && s[i] == x,
        is_permutation(s) ==> forall|i: int, j: int|
            0 <= i < s.len() && 0 <= j < s.len() && #[trigger] s[i] == #[trigger] s[j] ==> i == j,
        s.no_duplicates() && (forall|i: int| 0 <= i < s.len() ==> 0 <= #[trigger] s[i] < s.len())
            ==> is_permutation(s),
{
    if is_permutation(s) {
        let i = lemma_permutation_surjective(s, x);
        assert(s[i] == x);
        assert forall|i: int, j: int|
            0 <= i < s.len() && 0 <= j < s.len() && #[trigger] s[i] == #[trigger] s[j] implies i
            == j by {
            if i < j {
                assert(s[i] != s[j]);
            } else if j < i {
                assert(s[j] != s[i]);
            }
        }
    }
}

} // verus!
