//! The enumerator and the view of one combination.

use vstd::prelude::*;
use crate::ranking::{
    binomial, lemma_binomial_ends, lemma_every_combination_is_reached, lemma_rank_of_first, lemma_rank_of_last,
    lemma_rank_of_successor, nth_tuple, rank,
};
use crate::tuples::{
    first_tuple, is_combination, is_next_in_order, last_tuple, lemma_bounds, lemma_length,
    lemma_no_pivot_iff_last, lemma_successor, lemma_successor_is_next, pivot, pivot_below,
    successor,
};

verus! {

/// The positions held in a vector of indices, as mathematical integers.
spec fn positions_of(v: Seq<usize>) -> Seq<int> {
    Seq::new(v.len(), |i: int| v[i] as int)
}

/// Enumerates the combinations of a fixed length of a borrowed sequence.
pub struct Combinator<'a, T> {
    seq: &'a [T],
    indices: Vec<usize>,
    inited: bool,
}

/// A forward-only cursor over the elements of one combination.
pub struct CombinationIter<'a, 'b, T> {
    seq: &'a [T],
    indices: &'b Vec<usize>,
    pos: usize,
}

impl<'a, 'b, T> CombinationIter<'a, 'b, T> {
    /// The sequence that the combination is drawn from.
    pub closed spec fn source(&self) -> Seq<T> {
        self.seq@
    }

    /// The positions of the combination, ascending.
    pub closed spec fn positions(&self) -> Seq<int> {
        positions_of(self.indices@)
    }

    /// How many elements have been handed out.
    pub closed spec fn cursor(&self) -> int {
        self.pos as int
    }

    /// The positions form a combination of the source's positions, and the
    /// cursor lies within it.
    pub open spec fn wf(&self) -> bool {
        &&& is_combination(self.positions(), self.source().len() as int)
        &&& 0 <= self.cursor() <= self.positions().len()
    }

    /// Hands out the next element of the combination, or `None` once all
    /// have been handed out.
    pub fn next(&mut self) -> (r: Option<&'a T>)
        requires
            old(self).wf(),
        ensures
            final(self).wf(),
            final(self).source() == old(self).source(),
            final(self).positions() == old(self).positions(),
            old(self).cursor() < old(self).positions().len() ==> {
                &&& r == Some(&old(self).source()[old(self).positions()[old(self).cursor()]])
                &&& final(self).cursor() == old(self).cursor() + 1
            },
            old(self).cursor() >= old(self).positions().len() ==> {
                &&& r is None
                &&& final(self).cursor() == old(self).cursor()
            },
    {
        if self.pos < self.indices.len() {
            let i: usize = self.indices[self.pos];
            assert(self.positions()[self.pos as int] == i as int);
            self.pos = self.pos + 1;
            Some(&self.seq[i])
        } else {
            None
        }
    }
}

impl<'a, T> Combinator<'a, T> {
    /// The sequence that combinations are drawn from.
    pub closed spec fn source(&self) -> Seq<T> {
        self.seq@
    }

    /// The current position tuple.
    pub closed spec fn positions(&self) -> Seq<int> {
        positions_of(self.indices@)
    }

    /// Whether the first combination has been produced.
    pub closed spec fn started(&self) -> bool {
        self.inited
    }

    /// The current tuple is a combination of the source's positions, and
    /// it is the first tuple as long as nothing has been produced.
    pub open spec fn wf(&self) -> bool {
        &&& is_combination(self.positions(), self.source().len() as int)
        &&& !self.started() ==> self.positions() == first_tuple(self.positions().len())
    }

    /// Nothing is left to produce: the first combination has been handed
    /// out and the current tuple is the last one.
    pub open spec fn exhausted(&self) -> bool {
        &&& self.started()
        &&& self.positions() == last_tuple(
            self.source().len() as int,
            self.positions().len(),
        )
    }

    /// How many combinations have been produced: none before the first
    /// call of `next`, afterwards one more than lie below the current tuple.
    pub open spec fn produced(&self) -> int {
        if self.started() {
            rank(self.positions(), self.source().len() as int) + 1
        } else {
            0
        }
    }

    /// The number of combinations that the enumeration holds in all.
    pub open spec fn total(&self) -> int {
        binomial(self.source().len() as int, self.positions().len() as int)
    }

    /// The enumerator has produced no more combinations than there are, and
    /// is exhausted exactly when it has produced them all. Once started, its
    /// current tuple is the one that as many successor steps from the first
    /// tuple reach as it has produced combinations before the current one.
    pub proof fn lemma_progress(&self)
        requires
            self.wf(),
        ensures
            0 <= self.produced() <= self.total(),
            self.exhausted() <==> self.produced() == self.total(),
            self.started() ==> self.positions() == nth_tuple(
                self.source().len() as int,
                self.positions().len(),
                (self.produced() - 1) as nat,
            ),
    {
        let n = self.source().len() as int;
        lemma_every_combination_is_reached(self.positions(), n);
        lemma_rank_of_last(self.positions(), n);
    }

    /// Where nothing is chosen, or everything is, there is one combination
    /// only: once it has been produced the enumerator is exhausted.
    pub proof fn lemma_single_combination(&self)
        requires
            self.wf(),
            self.positions().len() == 0 || self.positions().len() == self.source().len(),
        ensures
            self.total() == 1,
            self.started() ==> self.exhausted(),
    {
        let n = self.source().len() as int;
        let c = self.positions();
        lemma_binomial_ends(n);
        assert forall|i: int| 0 <= i < c.len() implies c[i] == n - c.len() + i by {
            lemma_bounds(c, n, i);
        }
        assert(c =~= last_tuple(n, c.len()));
    }

    /// Produces the next combination. The first call hands out the current
    /// tuple as it stands; each later call moves to the successor of the
    /// current tuple and hands that out, or, at the last tuple, hands out
    /// nothing and leaves the enumerator as it is.
    pub fn next<'b>(&'b mut self) -> (r: Option<CombinationIter<'a, 'b, T>>)
        requires
            old(self).wf(),
        ensures
            final(self).wf(),
            final(self).source() == old(self).source(),
            final(self).started(),
            final(self).positions().len() == old(self).positions().len(),
            !old(self).started() ==> r is Some && final(self).positions() == old(self).positions(),
            r is None <==> old(self).exhausted(),
            r is None ==> final(self).positions() == old(self).positions(),
            r is None ==> final(self).exhausted(),
            r is Some ==> final(self).produced() == old(self).produced() + 1,
            old(self).started() && r is Some ==> {
                &&& final(self).positions() == successor(
                    old(self).positions(),
                    old(self).source().len() as int,
                )
                &&& is_next_in_order(
                    old(self).positions(),
                    final(self).positions(),
                    old(self).source().len() as int,
                )
            },
            r matches Some(view) ==> {
                &&& view.wf()
                &&& view.cursor() == 0
                &&& view.source() == old(self).source()
                &&& view.positions() == final(self).positions()
            },
    {
        let n: usize = self.seq.len();
        let k: usize = self.indices.len();
        let ghost before = self.positions();
        proof {
            lemma_length(before, n as int);
            lemma_no_pivot_iff_last(before, n as int);
            lemma_rank_of_first(n as int, k as nat);
        }
        if !self.inited {
            self.inited = true;
            return Some(CombinationIter { seq: self.seq, indices: &self.indices, pos: 0 });
        }
        let mut i: usize = k;
        while i > 0
            invariant
                i <= k <= n,
                k == self.indices@.len(),
                n == self.seq@.len(),
                self.inited,
                old(self).inited,
                before == old(self).positions(),
                self.seq@ == old(self).seq@,
                self.positions() == before,
                is_combination(before, n as int),
                pivot(before, n as int) == pivot_below(before, n as int, i as int),
            decreases i,
        {
            i = i - 1;
            let v: usize = self.indices[i];
            assert(before[i as int] == v as int);
            if v < n - k + i {
                proof {
                    lemma_successor(before, n as int);
                    lemma_successor_is_next(before, n as int);
                    lemma_rank_of_successor(before, n as int);
                }
                let ghost after = successor(before, n as int);
                self.indices.set(i, v + 1);
                let mut j: usize = i + 1;
                while j < k
                    invariant
                        i < j <= k <= n,
                        k == self.indices@.len(),
                        k == before.len(),
                        n == self.seq@.len(),
                        self.inited,
                        old(self).inited,
                        before == old(self).positions(),
                        self.seq@ == old(self).seq@,
                        after == successor(before, n as int),
                        pivot(before, n as int) == i,
                        is_combination(after, n as int),
                        forall|t: int| 0 <= t < j ==> self.indices@[t] as int == after[t],
                        forall|t: int| j <= t < k ==> self.indices@[t] as int == before[t],
                    decreases k - j,
                {
                    let prev: usize = self.indices[j - 1];
                    assert(prev as int == after[j - 1]);
                    assert(after[j as int] == prev + 1);
                    self.indices.set(j, prev + 1);
                    j = j + 1;
                }
                assert(self.positions() =~= after);
                return Some(CombinationIter { seq: self.seq, indices: &self.indices, pos: 0 });
            }
        }
        None
    }
}

/// Starts the enumeration of the combinations of `len` elements of `seq`,
/// at the tuple `[0, 1, .., len-1]`, with nothing produced yet.
pub fn combinations<'a, T>(seq: &'a [T], len: usize) -> (c: Combinator<'a, T>)
    requires
        len <= seq@.len(),
    ensures
        c.wf(),
        c.source() == seq@,
        c.positions() == first_tuple(len as nat),
        !c.started(),
{
    let mut indices: Vec<usize> = Vec::new();
    let mut i: usize = 0;
    while i < len
        invariant
            i <= len,
            indices@.len() == i,
            forall|j: int| 0 <= j < i ==> indices@[j] == j,
        decreases len - i,
    {
        indices.push(i);
        i = i + 1;
    }
    assert(positions_of(indices@) =~= first_tuple(len as nat));
    Combinator { seq, indices, inited: false }
}

} // verus!
