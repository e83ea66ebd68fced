//! Counting: the binomial coefficient, the rank of a combination in
//! lexicographic order, and the proof that following successors from the
//! first tuple visits every combination exactly once.

use vstd::prelude::*;
use crate::tuples::{
    first_tuple, is_combination, last_tuple, lemma_bounds, lemma_first_is_least, lemma_length,
    lemma_lex_lt_transitive, lemma_no_pivot_iff_last, lemma_pivot_below, lemma_pivot_of_lesser,
    lemma_successor, lemma_successor_is_next, lex_lt, pivot, successor,
};

verus! {

/// The number of `k`-element subsets of an `n`-element set, by Pascal's rule.
pub open spec fn binomial(n: int, k: int) -> int
    decreases n,
{
    if k == 0 {
        1
    } else if k < 0 || n <= 0 {
        0
    } else {
        binomial(n - 1, k - 1) + binomial(n - 1, k)
    }
}

/// The number of combinations of `n` positions that agree with `c` below
/// some position at or after `i` and hold a greater value there: for each
/// such position `j`, the rest is chosen freely among the positions beyond
/// `c[j]`.
pub open spec fn above_from(c: Seq<int>, n: int, i: int) -> int
    decreases c.len() - i,
{
    if i < 0 || i >= c.len() {
        0
    } else {
        binomial(n - 1 - c[i], c.len() - i) + above_from(c, n, i + 1)
    }
}

/// The number of combinations of `n` positions that lie above `c`.
pub open spec fn count_above(c: Seq<int>, n: int) -> int {
    above_from(c, n, 0)
}

/// The place of `c` among the combinations of its length of `n` positions
/// in ascending order, counted from 0: all of them but `c` itself and
/// those above it.
pub open spec fn rank(c: Seq<int>, n: int) -> int {
    binomial(n, c.len() as int) - 1 - count_above(c, n)
}

/// The tuple reached from the first tuple of length `k` by `i` successor
/// steps: what the enumerator holds when it has produced `i + 1`
/// combinations.
pub open spec fn nth_tuple(n: int, k: nat, i: nat) -> Seq<int>
    decreases i,
{
    if i == 0 {
        first_tuple(k)
    } else {
        successor(nth_tuple(n, k, (i - 1) as nat), n)
    }
}

/// A binomial coefficient is never negative.
pub proof fn lemma_binomial_nonnegative(n: int, k: int)
    ensures
        binomial(n, k) >= 0,
    decreases n,
{
    if k > 0 && n > 0 {
        lemma_binomial_nonnegative(n - 1, k - 1);
        lemma_binomial_nonnegative(n - 1, k);
    }
}

/// There is no way to choose more than there is.
pub proof fn lemma_binomial_zero(n: int, k: int)
    requires
        0 <= n < k,
    ensures
        binomial(n, k) == 0,
    decreases n,
{
    if n > 0 {
        lemma_binomial_zero(n - 1, k - 1);
        lemma_binomial_zero(n - 1, k);
    }
}

/// There is one way to choose nothing, and one way to choose everything.
pub proof fn lemma_binomial_ends(n: int)
    requires
        0 <= n,
    ensures
        binomial(n, 0) == 1,
        binomial(n, n) == 1,
    decreases n,
{
    if n > 0 {
        lemma_binomial_ends(n - 1);
        lemma_binomial_zero(n - 1, n);
    }
}

/// The count from any position on is never negative.
pub proof fn lemma_above_nonnegative(c: Seq<int>, n: int, i: int)
    ensures
        above_from(c, n, i) >= 0,
    decreases c.len() - i,
{
    if 0 <= i < c.len() {
        lemma_binomial_nonnegative(n - 1 - c[i], c.len() - i);
        lemma_above_nonnegative(c, n, i + 1);
    }
}

/// Where the values from `p` on run consecutively from `v`, the count from
/// `p` on is one less than the number of ways to choose the rest among the
/// positions from `v` on.
proof fn lemma_above_of_run(c: Seq<int>, n: int, p: int, v: int)
    requires
        0 <= p <= c.len(),
        c.len() - p <= n - v,
        forall|j: int| p <= j < c.len() ==> c[j] == v + (j - p),
    ensures
        above_from(c, n, p) == binomial(n - v, c.len() - p) - 1,
    decreases c.len() - p,
{
    if p < c.len() {
        assert(c[p] == v);
        lemma_above_of_run(c, n, p + 1, v + 1);
    }
}

/// Where every value from `p` on is as large as it can be, nothing lies
/// above from `p` on.
proof fn lemma_above_of_greatest(c: Seq<int>, n: int, p: int)
    requires
        0 <= p <= c.len(),
        forall|j: int| p <= j < c.len() ==> c[j] == n - c.len() + j,
    ensures
        above_from(c, n, p) == 0,
    decreases c.len() - p,
{
    if p < c.len() {
        lemma_binomial_zero(c.len() - 1 - p, c.len() - p);
        lemma_above_of_greatest(c, n, p + 1);
    }
}

/// Tuples that agree from `i` up to `p` count the same over those positions.
proof fn lemma_above_of_common(a: Seq<int>, b: Seq<int>, n: int, i: int, p: int)
    requires
        a.len() == b.len(),
        0 <= i <= p <= a.len(),
        forall|j: int| i <= j < p ==> a[j] == b[j],
    ensures
        above_from(a, n, i) - above_from(a, n, p) == above_from(b, n, i) - above_from(b, n, p),
    decreases p - i,
{
    if i < p {
        lemma_above_of_common(a, b, n, i + 1, p);
    }
}

/// The first tuple has rank 0.
pub proof fn lemma_rank_of_first(n: int, k: nat)
    requires
        k <= n,
    ensures
        rank(first_tuple(k), n) == 0,
{
    lemma_above_of_run(first_tuple(k), n, 0, 0);
}

/// The last tuple has the greatest rank, one less than the number of
/// combinations, and it alone among the combinations has it.
pub proof fn lemma_rank_of_last(c: Seq<int>, n: int)
    requires
        is_combination(c, n),
    ensures
        rank(last_tuple(n, c.len()), n) == binomial(n, c.len() as int) - 1,
        rank(c, n) <= binomial(n, c.len() as int) - 1,
        rank(c, n) == binomial(n, c.len() as int) - 1 ==> c == last_tuple(n, c.len()),
{
    lemma_above_of_greatest(last_tuple(n, c.len()), n, 0);
    lemma_above_nonnegative(c, n, 0);
    lemma_no_pivot_iff_last(c, n);
    if pivot(c, n) >= 0 {
        lemma_rank_of_successor(c, n);
        lemma_above_nonnegative(successor(c, n), n, 0);
    }
}

/// A successor step raises the rank by one.
pub proof fn lemma_rank_of_successor(c: Seq<int>, n: int)
    requires
        is_combination(c, n),
        pivot(c, n) >= 0,
    ensures
        rank(successor(c, n), n) == rank(c, n) + 1,
{
    let p = pivot(c, n);
    let s = successor(c, n);
    lemma_pivot_below(c, n, c.len() as int);
    lemma_above_of_common(c, s, n, 0, p);
    lemma_above_of_run(s, n, p, c[p] + 1);
    assert forall|j: int| p + 1 <= j < c.len() implies c[j] == n - c.len() + j by {
        lemma_bounds(c, n, j);
    }
    lemma_above_of_greatest(c, n, p + 1);
}

/// The tuple after `i` steps, for `i` below the number of combinations, is
/// a combination of rank `i`.
pub proof fn lemma_nth_tuple(n: int, k: nat, i: nat)
    requires
        k <= n,
        i < binomial(n, k as int),
    ensures
        is_combination(nth_tuple(n, k, i), n),
        nth_tuple(n, k, i).len() == k,
        rank(nth_tuple(n, k, i), n) == i,
        i + 1 < binomial(n, k as int) ==> pivot(nth_tuple(n, k, i), n) >= 0,
    decreases i,
{
    let t = nth_tuple(n, k, i);
    if i == 0 {
        lemma_rank_of_first(n, k);
        assert(is_combination(first_tuple(k), n));
    } else {
        let prev = nth_tuple(n, k, (i - 1) as nat);
        lemma_nth_tuple(n, k, (i - 1) as nat);
        lemma_successor(prev, n);
        lemma_rank_of_successor(prev, n);
    }
    lemma_rank_of_last(t, n);
    lemma_no_pivot_iff_last(t, n);
}

/// Later steps give greater tuples.
pub proof fn lemma_nth_tuples_ascend(n: int, k: nat, i: nat, j: nat)
    requires
        k <= n,
        i < j < binomial(n, k as int),
    ensures
        lex_lt(nth_tuple(n, k, i), nth_tuple(n, k, j)),
    decreases j,
{
    let prev = nth_tuple(n, k, (j - 1) as nat);
    lemma_nth_tuple(n, k, (j - 1) as nat);
    lemma_successor(prev, n);
    if i + 1 < j {
        lemma_nth_tuples_ascend(n, k, i, (j - 1) as nat);
        lemma_lex_lt_transitive(nth_tuple(n, k, i), prev, nth_tuple(n, k, j));
    }
}

/// From a step whose tuple is `c` or lies below `c`, some later step
/// reaches `c`.
proof fn lemma_search(c: Seq<int>, n: int, i: nat) -> (r: nat)
    requires
        is_combination(c, n),
        c.len() <= n,
        i < binomial(n, c.len() as int),
        nth_tuple(n, c.len(), i) == c || lex_lt(nth_tuple(n, c.len(), i), c),
    ensures
        r < binomial(n, c.len() as int),
        nth_tuple(n, c.len(), r) == c,
    decreases binomial(n, c.len() as int) - i,
{
    let k = c.len();
    let t = nth_tuple(n, k, i);
    if t == c {
        i
    } else {
        lemma_nth_tuple(n, k, i);
        let d = choose|d: int|
            0 <= d < t.len() && t[d] < c[d] && (forall|j: int| 0 <= j < d ==> t[j] == c[j]);
        lemma_pivot_of_lesser(t, c, n, d);
        lemma_successor(t, n);
        lemma_successor_is_next(t, n);
        lemma_rank_of_successor(t, n);
        lemma_rank_of_last(successor(t, n), n);
        lemma_search(c, n, i + 1)
    }
}

/// Every combination is reached after as many steps as its rank says: the
/// rank lies below the number of combinations, and the tuple at that step
/// is the combination itself.
pub proof fn lemma_every_combination_is_reached(c: Seq<int>, n: int)
    requires
        is_combination(c, n),
        0 <= n,
    ensures
        0 <= rank(c, n) < binomial(n, c.len() as int),
        nth_tuple(n, c.len(), rank(c, n) as nat) == c,
{
    lemma_length(c, n);
    lemma_first_is_least(c, n);
    lemma_rank_of_first(n, c.len());
    lemma_rank_of_last(first_tuple(c.len()), n);
    let r = lemma_search(c, n, 0);
    lemma_nth_tuple(n, c.len(), r);
}

/// Among combinations of one length, the lower one has the lower rank.
pub proof fn lemma_rank_is_monotone(a: Seq<int>, c: Seq<int>, n: int)
    requires
        is_combination(a, n),
        is_combination(c, n),
        a.len() == c.len(),
        0 <= n,
    ensures
        lex_lt(a, c) <==> rank(a, n) < rank(c, n),
        a == c <==> rank(a, n) == rank(c, n),
{
    let k = a.len();
    lemma_length(a, n);
    lemma_every_combination_is_reached(a, n);
    lemma_every_combination_is_reached(c, n);
    let i = rank(a, n) as nat;
    let j = rank(c, n) as nat;
    if i < j {
        lemma_nth_tuples_ascend(n, k, i, j);
    } else if j < i {
        lemma_nth_tuples_ascend(n, k, j, i);
        if lex_lt(a, c) {
            lemma_lex_lt_transitive(a, c, a);
        }
    }
}

/// Following successors from the first tuple of length `k <= n` runs
/// through exactly `binomial(n, k)` tuples before the last one is reached:
/// each is a combination of `k` of the `n` positions, no two steps give the
/// same one, and every such combination is among them.
pub proof fn lemma_enumeration_is_complete(n: int, k: nat)
    requires
        k <= n,
    ensures
        binomial(n, k as int) >= 1,
        forall|i: nat|
            i < binomial(n, k as int) ==> is_combination(#[trigger] nth_tuple(n, k, i), n)
                && nth_tuple(n, k, i).len() == k,
        forall|i: nat|
            i < binomial(n, k as int) ==> (#[trigger] nth_tuple(n, k, i) == last_tuple(n, k) <==> i
                == binomial(n, k as int) - 1),
        forall|i: nat, j: nat|
            i < j < binomial(n, k as int) ==> #[trigger] nth_tuple(n, k, i) != #[trigger] nth_tuple(
                n,
                k,
                j,
            ),
        forall|c: Seq<int>|
            #[trigger] is_combination(c, n) && c.len() == k ==> exists|i: nat|
                i < binomial(n, k as int) && nth_tuple(n, k, i) == c,
{
    lemma_rank_of_first(n, k);
    assert(is_combination(first_tuple(k), n));
    lemma_rank_of_last(first_tuple(k), n);
    assert forall|i: nat| i < binomial(n, k as int) implies is_combination(
        #[trigger] nth_tuple(n, k, i),
        n,
    ) && nth_tuple(n, k, i).len() == k && (nth_tuple(n, k, i) == last_tuple(n, k) <==> i
        == binomial(n, k as int) - 1) by {
        lemma_nth_tuple(n, k, i);
        lemma_rank_of_last(nth_tuple(n, k, i), n);
    }
    assert forall|i: nat, j: nat| i < j < binomial(n, k as int) implies #[trigger] nth_tuple(
        n,
        k,
        i,
    ) != #[trigger] nth_tuple(n, k, j) by {
        lemma_nth_tuple(n, k, i);
        lemma_nth_tuple(n, k, j);
    }
    assert forall|c: Seq<int>| #[trigger] is_combination(c, n) && c.len() == k implies exists|
        i: nat,
    |
        i < binomial(n, k as int) && nth_tuple(n, k, i) == c by {
        lemma_every_combination_is_reached(c, n);
        assert(nth_tuple(n, k, rank(c, n) as nat) == c);
    }
}

} // verus!
