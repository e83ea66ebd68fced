//! Position tuples: the mathematical model of a combination, the
//! lexicographic order on tuples, and the successor of a tuple in that order.

use vstd::prelude::*;

verus! {

/// A combination of `n` positions: a strictly ascending tuple of positions
/// below `n`.
pub open spec fn is_combination(c: Seq<int>, n: int) -> bool {
    &&& forall|i: int| 0 <= i < c.len() ==> 0 <= #[trigger] c[i] < n
    &&& forall|i: int, j: int| 0 <= i < j < c.len() ==> c[i] < c[j]
}

/// The tuple `[0, 1, .., k-1]`.
pub open spec fn first_tuple(k: nat) -> Seq<int> {
    Seq::new(k, |i: int| i)
}

/// The tuple `[n-k, .., n-1]`.
pub open spec fn last_tuple(n: int, k: nat) -> Seq<int> {
    Seq::new(k, |i: int| n - k + i)
}

/// Strict lexicographic order on tuples of one length: the tuples agree up
/// to some position, at which `a` holds the smaller value.
pub open spec fn lex_lt(a: Seq<int>, b: Seq<int>) -> bool {
    &&& a.len() == b.len()
    &&& exists|d: int|
        0 <= d < a.len() && a[d] < b[d] && (forall|j: int| 0 <= j < d ==> a[j] == b[j])
}

/// The largest position below `i` whose value can still grow while leaving
/// room for the positions to its right, or -1 if there is none.
pub open spec fn pivot_below(c: Seq<int>, n: int, i: int) -> int
    decreases i,
{
    if i <= 0 {
        -1
    } else if c[i - 1] < n - c.len() + (i - 1) {
        i - 1
    } else {
        pivot_below(c, n, i - 1)
    }
}

/// The rightmost position of `c` that can grow, or -1 if `c` is the last tuple.
pub open spec fn pivot(c: Seq<int>, n: int) -> int {
    pivot_below(c, n, c.len() as int)
}

/// The tuple that follows `c`: the value at the pivot grows by one, and the
/// positions to its right are packed directly behind it.
pub open spec fn successor(c: Seq<int>, n: int) -> Seq<int> {
    let p = pivot(c, n);
    Seq::new(c.len(), |j: int| if j < p { c[j] } else { c[p] + 1 + (j - p) })
}

/// `b` is the least combination above `a`: a combination of the same
/// length that is greater than `a`, with no combination strictly between.
pub open spec fn is_next_in_order(a: Seq<int>, b: Seq<int>, n: int) -> bool {
    &&& is_combination(b, n)
    &&& lex_lt(a, b)
    &&& forall|c: Seq<int>| #[trigger]
        is_combination(c, n) && lex_lt(a, c) ==> c == b || lex_lt(b, c)
}

/// In a combination, values grow at least as fast as positions.
pub proof fn lemma_gap(c: Seq<int>, n: int, i: int, j: int)
    requires
        is_combination(c, n),
        0 <= i <= j < c.len(),
    ensures
        c[j] - c[i] >= j - i,
    decreases j - i,
{
    if i < j {
        lemma_gap(c, n, i, j - 1);
    }
}

/// The value at position `i` of a combination of `n` positions lies between
/// `i` and `n - k + i`.
pub proof fn lemma_bounds(c: Seq<int>, n: int, i: int)
    requires
        is_combination(c, n),
        0 <= i < c.len(),
    ensures
        i <= c[i] <= n - c.len() + i,
{
    lemma_gap(c, n, 0, i);
    lemma_gap(c, n, i, c.len() - 1);
}

/// A combination of `n` positions has at most `n` of them.
pub proof fn lemma_length(c: Seq<int>, n: int)
    requires
        is_combination(c, n),
        0 <= n,
    ensures
        c.len() <= n,
{
    if c.len() > 0 {
        lemma_bounds(c, n, c.len() - 1);
    }
}

/// What the scan for the pivot finds: a position that can grow, with none
/// to its right, below `i`, that can.
pub proof fn lemma_pivot_below(c: Seq<int>, n: int, i: int)
    requires
        0 <= i <= c.len(),
    ensures
        -1 <= pivot_below(c, n, i) < i,
        pivot_below(c, n, i) >= 0 ==> c[pivot_below(c, n, i)] < n - c.len() + pivot_below(c, n, i),
        forall|j: int| pivot_below(c, n, i) < j < i ==> #[trigger] c[j] >= n - c.len() + j,
    decreases i,
{
    if i > 0 && !(c[i - 1] < n - c.len() + (i - 1)) {
        lemma_pivot_below(c, n, i - 1);
    }
}

/// A combination has no pivot exactly when it is the last tuple.
pub proof fn lemma_no_pivot_iff_last(c: Seq<int>, n: int)
    requires
        is_combination(c, n),
    ensures
        pivot(c, n) < 0 <==> c == last_tuple(n, c.len()),
{
    lemma_pivot_below(c, n, c.len() as int);
    if pivot(c, n) < 0 {
        assert forall|i: int| 0 <= i < c.len() implies c[i] == n - c.len() + i by {
            lemma_bounds(c, n, i);
        }
        assert(c =~= last_tuple(n, c.len()));
    }
}

/// The successor of a combination other than the last is a combination of
/// the same length, and greater.
pub proof fn lemma_successor(c: Seq<int>, n: int)
    requires
        is_combination(c, n),
        pivot(c, n) >= 0,
    ensures
        is_combination(successor(c, n), n),
        successor(c, n).len() == c.len(),
        lex_lt(c, successor(c, n)),
{
    let p = pivot(c, n);
    let s = successor(c, n);
    lemma_pivot_below(c, n, c.len() as int);
    assert forall|i: int| 0 <= i < s.len() implies 0 <= #[trigger] s[i] < n by {
        lemma_bounds(c, n, p);
    }
    assert(c[p] < s[p] && (forall|j: int| 0 <= j < p ==> c[j] == s[j]));
}

/// Two tuples that agree below `from`, with `a` nowhere above `b` from
/// there on, are equal or in order.
pub proof fn lemma_first_difference(a: Seq<int>, b: Seq<int>, from: int)
    requires
        a.len() == b.len(),
        0 <= from <= a.len(),
        forall|j: int| 0 <= j < from ==> a[j] == b[j],
        forall|j: int| from <= j < a.len() ==> a[j] <= b[j],
    ensures
        a == b || lex_lt(a, b),
    decreases a.len() - from,
{
    if from == a.len() {
        assert(a =~= b);
    } else if a[from] < b[from] {
    } else {
        lemma_first_difference(a, b, from + 1);
    }
}

/// A combination that has a combination above it has a pivot, at or to the
/// right of the position where the two first differ.
pub proof fn lemma_pivot_of_lesser(a: Seq<int>, c: Seq<int>, n: int, d: int)
    requires
        is_combination(a, n),
        is_combination(c, n),
        a.len() == c.len(),
        0 <= d < a.len(),
        a[d] < c[d],
    ensures
        d <= pivot(a, n),
{
    lemma_bounds(c, n, d);
    lemma_pivot_below(a, n, a.len() as int);
}

/// The successor of a combination other than the last is the least
/// combination above it.
pub proof fn lemma_successor_is_next(a: Seq<int>, n: int)
    requires
        is_combination(a, n),
        pivot(a, n) >= 0,
    ensures
        is_next_in_order(a, successor(a, n), n),
{
    let p = pivot(a, n);
    let s = successor(a, n);
    lemma_successor(a, n);
    assert forall|c: Seq<int>| #[trigger] is_combination(c, n) && lex_lt(a, c) implies c == s
        || lex_lt(s, c) by {
        let d = choose|d: int|
            0 <= d < a.len() && a[d] < c[d] && (forall|j: int| 0 <= j < d ==> a[j] == c[j]);
        lemma_pivot_of_lesser(a, c, n, d);
        if d < p {
            assert(s[d] < c[d] && (forall|j: int| 0 <= j < d ==> s[j] == c[j]));
        } else {
            assert forall|j: int| p <= j < s.len() implies s[j] <= c[j] by {
                lemma_gap(c, n, p, j);
            }
            lemma_first_difference(s, c, p);
        }
    }
}

/// No combination lies above the last tuple.
pub proof fn lemma_last_is_greatest(c: Seq<int>, n: int)
    requires
        is_combination(c, n),
    ensures
        !lex_lt(last_tuple(n, c.len()), c),
{
    let l = last_tuple(n, c.len());
    if lex_lt(l, c) {
        let d = choose|d: int|
            0 <= d < l.len() && l[d] < c[d] && (forall|j: int| 0 <= j < d ==> l[j] == c[j]);
        lemma_bounds(c, n, d);
    }
}

/// The first tuple is a combination whenever `k <= n`, and every other
/// combination of its length lies above it.
pub proof fn lemma_first_is_least(c: Seq<int>, n: int)
    requires
        is_combination(c, n),
    ensures
        is_combination(first_tuple(c.len()), n),
        c == first_tuple(c.len()) || lex_lt(first_tuple(c.len()), c),
{
    let f = first_tuple(c.len());
    assert forall|i: int| 0 <= i < f.len() implies 0 <= #[trigger] f[i] < n && f[i] <= c[i] by {
        lemma_bounds(c, n, i);
    }
    lemma_first_difference(f, c, 0);
}

/// The first tuple is also the last, so that there is one combination
/// only, exactly when nothing is chosen or everything is.
pub proof fn lemma_first_is_last_iff(n: int, k: nat)
    requires
        k <= n,
    ensures
        first_tuple(k) == last_tuple(n, k) <==> k == 0 || k == n,
{
    if k == 0 || k == n {
        assert(first_tuple(k) =~= last_tuple(n, k));
    } else {
        assert(first_tuple(k)[0] != last_tuple(n, k)[0]);
    }
}

/// The lexicographic order is transitive.
pub proof fn lemma_lex_lt_transitive(a: Seq<int>, b: Seq<int>, c: Seq<int>)
    requires
        lex_lt(a, b),
        lex_lt(b, c),
    ensures
        lex_lt(a, c),
{
    let d = choose|d: int|
        0 <= d < a.len() && a[d] < b[d] && (forall|j: int| 0 <= j < d ==> a[j] == b[j]);
    let e = choose|e: int|
        0 <= e < b.len() && b[e] < c[e] && (forall|j: int| 0 <= j < e ==> b[j] == c[j]);
    let m = if d <= e { d } else { e };
    assert(0 <= m < a.len() && a[m] < c[m] && (forall|j: int| 0 <= j < m ==> a[j] == c[j]));
}

/// No tuple lies below itself.
pub proof fn lemma_lex_lt_irreflexive(a: Seq<int>)
    ensures
        !lex_lt(a, a),
{
}

} // verus!
