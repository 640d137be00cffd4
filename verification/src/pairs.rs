//! Counting the adjacent pairs of an id sequence.

use crate::merge::{occurs, pair_at};
use crate::pair_index::PairIndex;
use vstd::prelude::*;

verus! {

/// The number of positions `p` with `lo <= p < hi` at which `left` stands
/// directly before `right` in `ids`.
pub open spec fn pairs_between(ids: Seq<usize>, lo: int, hi: int, left: usize, right: usize) -> nat
    decreases hi - lo,
{
    if hi <= lo {
        0
    } else {
        pairs_between(ids, lo, hi - 1, left, right) + if pair_at(ids, hi - 1, left, right) {
            1nat
        } else {
            0nat
        }
    }
}

/// The number of times that `left` stands directly before `right` in `ids`.
/// Occurrences that overlap are all counted: `a a a` holds the pair `a a` twice.
pub open spec fn pair_count(ids: Seq<usize>, left: usize, right: usize) -> nat {
    pairs_between(ids, 0, ids.len() - 1, left, right)
}

/// The pairs that occur in `ids`, each with the number of its occurrences.
pub open spec fn pair_counts(ids: Seq<usize>) -> Map<(usize, usize), nat> {
    Map::new(
        |p: (usize, usize)| pair_count(ids, p.0, p.1) > 0,
        |p: (usize, usize)| pair_count(ids, p.0, p.1),
    )
}

/// A range of positions holds at most as many occurrences as positions.
pub proof fn lemma_pairs_between_bound(ids: Seq<usize>, lo: int, hi: int, left: usize, right: usize)
    ensures
        lo <= hi ==> pairs_between(ids, lo, hi, left, right) <= hi - lo,
        hi <= lo ==> pairs_between(ids, lo, hi, left, right) == 0,
    decreases hi - lo,
{
    if hi > lo {
        lemma_pairs_between_bound(ids, lo, hi - 1, left, right);
    }
}

/// The occurrences in two adjoining ranges add up to those in their union.
pub proof fn lemma_pairs_between_split(
    ids: Seq<usize>,
    lo: int,
    mid: int,
    hi: int,
    left: usize,
    right: usize,
)
    requires
        lo <= mid <= hi,
    ensures
        pairs_between(ids, lo, mid, left, right) + pairs_between(ids, mid, hi, left, right)
            == pairs_between(ids, lo, hi, left, right),
    decreases hi - mid,
{
    if hi > mid {
        lemma_pairs_between_split(ids, lo, mid, hi - 1, left, right);
    }
}

/// Positions at which no pair can start add nothing to a range: neither those
/// before the first element nor those from the last element on.
pub proof fn lemma_pairs_between_clip(ids: Seq<usize>, lo: int, hi: int, left: usize, right: usize)
    requires
        lo <= hi,
        ids.len() - 1 <= lo || hi <= 0,
    ensures
        pairs_between(ids, lo, hi, left, right) == 0,
    decreases hi - lo,
{
    if hi > lo {
        lemma_pairs_between_clip(ids, lo, hi - 1, left, right);
    }
}

/// A range holds an occurrence exactly if the pair stands at one of its positions.
pub proof fn lemma_pairs_between_positive(
    ids: Seq<usize>,
    lo: int,
    hi: int,
    left: usize,
    right: usize,
)
    ensures
        pairs_between(ids, lo, hi, left, right) > 0 <==> exists|p: int|
            lo <= p < hi && pair_at(ids, p, left, right),
    decreases hi - lo,
{
    if hi > lo {
        lemma_pairs_between_positive(ids, lo, hi - 1, left, right);
        if pairs_between(ids, lo, hi, left, right) > 0 {
            if pair_at(ids, hi - 1, left, right) {
                assert(lo <= hi - 1 < hi && pair_at(ids, hi - 1, left, right));
            } else {
                let p = choose|p: int| lo <= p < hi - 1 && pair_at(ids, p, left, right);
                assert(lo <= p < hi && pair_at(ids, p, left, right));
            }
        }
        if exists|p: int| lo <= p < hi && pair_at(ids, p, left, right) {
            let p = choose|p: int| lo <= p < hi && pair_at(ids, p, left, right);
            if p < hi - 1 {
                assert(lo <= p < hi - 1 && pair_at(ids, p, left, right));
            }
        }
    }
}

/// A pair has a positive count exactly if it occurs.
pub proof fn lemma_count_positive_iff_occurs(ids: Seq<usize>, left: usize, right: usize)
    ensures
        pair_count(ids, left, right) > 0 <==> occurs(ids, left, right),
{
    lemma_pairs_between_positive(ids, 0, ids.len() - 1, left, right);
    if occurs(ids, left, right) {
        let p = choose|p: int| pair_at(ids, p, left, right);
        assert(0 <= p < ids.len() - 1 && pair_at(ids, p, left, right));
    }
}

/// A pair of ids with the number of its occurrences.
#[derive(Clone, Copy, Debug, PartialEq, Eq, Structural)]
pub struct PairEntry {
    pub left: usize,
    pub right: usize,
    pub count: usize,
}

/// A table of pair counts. It lists the pairs with a positive count in the
/// order in which they were first added, so that walking it is repeatable.
pub struct PairCounts {
    entries: Vec<PairEntry>,
    index: PairIndex,
}

impl PairCounts {
    /// The table is consistent: the index finds each listed pair at its place,
    /// and lists nothing else.
    pub closed spec fn wf(&self) -> bool {
        &&& forall|i: int|
            0 <= i < self.entries@.len() ==> {
                let e = #[trigger] self.entries@[i];
                &&& self.index@.contains_key((e.left, e.right))
                &&& self.index@[(e.left, e.right)] == i
                &&& e.count > 0
            }
        &&& forall|p: (usize, usize)| #[trigger]
            self.index@.contains_key(p) ==> {
                let i = self.index@[p];
                &&& 0 <= i < self.entries@.len()
                &&& self.entries@[i as int].left == p.0
                &&& self.entries@[i as int].right == p.1
            }
    }

    /// The count that the table holds for a pair; zero for a pair that is not listed.
    pub closed spec fn count(&self, left: usize, right: usize) -> nat {
        if self.index@.contains_key((left, right)) {
            self.entries@[self.index@[(left, right)] as int].count as nat
        } else {
            0
        }
    }

    /// The listed pairs, in the order in which they were first added.
    pub closed spec fn entries(&self) -> Seq<PairEntry> {
        self.entries@
    }

    /// The table as a map from the pairs with a positive count to their counts.
    pub open spec fn view(&self) -> Map<(usize, usize), nat> {
        Map::new(
            |p: (usize, usize)| self.count(p.0, p.1) > 0,
            |p: (usize, usize)| self.count(p.0, p.1),
        )
    }

    /// The list of a consistent table holds each pair with a positive count
    /// once, with that count, and no other pair.
    pub proof fn lemma_entries(&self)
        requires
            self.wf(),
        ensures
            forall|i: int|
                0 <= i < self.entries().len() ==> {
                    let e = #[trigger] self.entries()[i];
                    e.count > 0 && self.count(e.left, e.right) == e.count
                },
            forall|i: int, j: int|
                0 <= i < j < self.entries().len() ==> {
                    let e = #[trigger] self.entries()[i];
                    let f = #[trigger] self.entries()[j];
                    e.left != f.left || e.right != f.right
                },
            forall|left: usize, right: usize| #[trigger]
                self.count(left, right) > 0 ==> exists|i: int|
                    0 <= i < self.entries().len() && (#[trigger] self.entries()[i]).left == left
                        && self.entries()[i].right == right,
    {
        assert forall|left: usize, right: usize| #[trigger]
            self.count(left, right) > 0 implies exists|i: int|
            0 <= i < self.entries().len() && (#[trigger] self.entries()[i]).left == left
                && self.entries()[i].right == right by {
            let i = self.index@[(left, right)] as int;
            assert(self.entries()[i].left == left);
        }
    }

    /// A table that holds the count zero for every pair.
    pub fn new() -> (table: PairCounts)
        ensures
            table.wf(),
            table.entries().len() == 0,
            forall|left: usize, right: usize| #[trigger] table.count(left, right) == 0,
    {
        PairCounts { entries: Vec::new(), index: PairIndex::new() }
    }

    /// The number of pairs with a positive count.
    pub fn len(&self) -> (n: usize)
        ensures
            n == self.entries().len(),
    {
        self.entries.len()
    }

    /// The `i`-th pair of the list, with its count.
    pub fn entry(&self, i: usize) -> (e: PairEntry)
        requires
            i < self.entries().len(),
        ensures
            e == self.entries()[i as int],
    {
        self.entries[i]
    }

    /// The count of a pair.
    pub fn get(&self, left: usize, right: usize) -> (n: usize)
        requires
            self.wf(),
        ensures
            n == self.count(left, right),
    {
        match self.index.get(left, right) {
            Some(pos) => self.entries[pos].count,
            None => 0,
        }
    }

    /// Raises the count of one pair by `n` and leaves the other counts as they are.
    pub fn add(&mut self, left: usize, right: usize, n: usize)
        requires
            old(self).wf(),
            old(self).count(left, right) + n <= usize::MAX,
        ensures
            final(self).wf(),
            forall|a: usize, b: usize| #[trigger]
                final(self).count(a, b) == old(self).count(a, b) + if a == left && b == right {
                    n as nat
                } else {
                    0nat
                },
    {
        if n == 0 {
            return ;
        }
        match self.index.get(left, right) {
            Some(pos) => {
                let e = self.entries[pos];
                self.entries.set(pos, PairEntry { left: e.left, right: e.right, count: e.count + n });
            },
            None => {
                let pos: usize = self.entries.len();
                self.entries.push(PairEntry { left, right, count: n });
                self.index.insert(left, right, pos);
            },
        }
    }

    /// Adds the counts of `other` to those of this table, pair by pair.
    pub fn merge_from(&mut self, other: &PairCounts)
        requires
            old(self).wf(),
            other.wf(),
            forall|a: usize, b: usize|
                #![trigger other.count(a, b)]
                old(self).count(a, b) + other.count(a, b) <= usize::MAX,
        ensures
            final(self).wf(),
            forall|a: usize, b: usize| #[trigger]
                final(self).count(a, b) == old(self).count(a, b) + other.count(a, b),
    {
        let n: usize = other.entries.len();
        let mut i: usize = 0;
        while i < n
            invariant
                n == other.entries@.len(),
                i <= n,
                self.wf(),
                other.wf(),
                forall|a: usize, b: usize|
                    #![trigger other.count(a, b)]
                    old(self).count(a, b) + other.count(a, b) <= usize::MAX,
                forall|a: usize, b: usize| #[trigger]
                    self.count(a, b) == old(self).count(a, b) + if other.listed_before(
                        a,
                        b,
                        i as int,
                    ) {
                        other.count(a, b)
                    } else {
                        0nat
                    },
            decreases n - i,
        {
            let e = other.entries[i];
            let ghost before = *self;
            proof {
                assert(other.index@[(e.left, e.right)] == i);
                assert(!other.listed_before(e.left, e.right, i as int));
                assert(other.count(e.left, e.right) == e.count);
            }
            self.add(e.left, e.right, e.count);
            proof {
                assert forall|a: usize, b: usize| #[trigger]
                    self.count(a, b) == old(self).count(a, b) + if other.listed_before(
                        a,
                        b,
                        i + 1,
                    ) {
                        other.count(a, b)
                    } else {
                        0nat
                    } by {
                    assert(self.count(a, b) == before.count(a, b) + if a == e.left && b
                        == e.right {
                        e.count as nat
                    } else {
                        0nat
                    });
                }
            }
            i = i + 1;
        }
        proof {
            assert forall|a: usize, b: usize| #[trigger]
                self.count(a, b) == old(self).count(a, b) + other.count(a, b) by {
                assert(other.listed_before(a, b, n as int) || other.count(a, b) == 0);
            }
        }
    }

    /// Whether the list holds the pair at a place before `i`.
    closed spec fn listed_before(&self, left: usize, right: usize, i: int) -> bool {
        self.index@.contains_key((left, right)) && self.index@[(left, right)] < i
    }

    /// The pair with the highest count, and among several with that count the
    /// one that comes first when pairs are ordered by their left id and then by
    /// their right id; `None` where every count is zero.
    pub fn most_common(&self) -> (best: Option<PairEntry>)
        requires
            self.wf(),
        ensures
            match best {
                Some(e) => leads(|a: usize, b: usize| self.count(a, b), e.left, e.right)
                    && e.count == self.count(e.left, e.right),
                None => forall|a: usize, b: usize| #[trigger] self.count(a, b) == 0,
            },
    {
        let n: usize = self.entries.len();
        proof {
            self.lemma_entries();
        }
        if n == 0 {
            proof {
                assert forall|a: usize, b: usize| #[trigger] self.count(a, b) == 0 by {
                    if self.count(a, b) > 0 {
                        let i = choose|i: int|
                            0 <= i < self.entries().len() && (#[trigger] self.entries()[i]).left
                                == a && self.entries()[i].right == b;
                    }
                }
            }
            return None;
        }
        let mut best: PairEntry = self.entries[0];
        let mut i: usize = 1;
        while i < n
            invariant
                n == self.entries@.len(),
                1 <= i <= n,
                self.wf(),
                best.count > 0,
                best.count == self.count(best.left, best.right),
                forall|j: int|
                    0 <= j < i ==> beats_or_ties(best, #[trigger] self.entries@[j]),
                forall|j: int|
                    0 <= j < self.entries().len() ==> {
                        let e = #[trigger] self.entries()[j];
                        e.count > 0 && self.count(e.left, e.right) == e.count
                    },
            decreases n - i,
        {
            let e = self.entries[i];
            assert(e == self.entries()[i as int]);
            if e.count > best.count || (e.count == best.count && (e.left < best.left || (e.left
                == best.left && e.right <= best.right))) {
                best = e;
            }
            i = i + 1;
        }
        proof {
            let counts = |a: usize, b: usize| self.count(a, b);
            assert forall|a: usize, b: usize|
                #![trigger counts(a, b)]
                counts(a, b) < counts(best.left, best.right) || (counts(a, b) == counts(
                    best.left,
                    best.right,
                ) && pair_le((best.left, best.right), (a, b))) by {
                if self.count(a, b) > 0 {
                    let j = choose|j: int|
                        0 <= j < self.entries().len() && (#[trigger] self.entries()[j]).left == a
                            && self.entries()[j].right == b;
                    assert(beats_or_ties(best, self.entries@[j]));
                }
            }
        }
        Some(best)
    }
}

/// Whether the first pair is the second or comes before it, where pairs are
/// ordered by their left id and then by their right id.
pub open spec fn pair_le(p: (usize, usize), q: (usize, usize)) -> bool {
    p.0 < q.0 || (p.0 == q.0 && p.1 <= q.1)
}

/// Whether the pair `left, right` is the one to pick under the given counts: its
/// count is positive, no pair has a higher count, and every other pair with the
/// same count comes after it in the order of [`pair_le`].
pub open spec fn leads(counts: spec_fn(usize, usize) -> nat, left: usize, right: usize) -> bool {
    &&& counts(left, right) > 0
    &&& forall|a: usize, b: usize|
        #![trigger counts(a, b)]
        counts(a, b) < counts(left, right) || (counts(a, b) == counts(left, right) && pair_le(
            (left, right),
            (a, b),
        ))
}

/// At most one pair leads.
pub proof fn lemma_leads_unique(
    counts: spec_fn(usize, usize) -> nat,
    a: usize,
    b: usize,
    c: usize,
    d: usize,
)
    requires
        leads(counts, a, b),
        leads(counts, c, d),
    ensures
        a == c && b == d,
{
    assert(counts(a, b) <= counts(c, d));
    assert(counts(c, d) <= counts(a, b));
}

spec fn beats_or_ties(best: PairEntry, e: PairEntry) -> bool {
    e.count < best.count || (e.count == best.count && pair_le(
        (best.left, best.right),
        (e.left, e.right),
    ))
}

/// Whether `left, right` is the most common pair of `ids`: the pair that leads
/// under the counts of `ids`.
pub open spec fn is_most_common(ids: Seq<usize>, left: usize, right: usize) -> bool {
    leads(|a: usize, b: usize| pair_count(ids, a, b), left, right)
}

/// The most common pair of `ids`, for a sequence in which some pair occurs.
pub open spec fn most_common_pair(ids: Seq<usize>) -> (usize, usize) {
    choose|p: (usize, usize)| is_most_common(ids, p.0, p.1)
}

/// Whether the pair `p` is to be picked rather than the pair `q`, or is `q`.
spec fn ahead(ids: Seq<usize>, p: (usize, usize), q: (usize, usize)) -> bool {
    pair_count(ids, q.0, q.1) < pair_count(ids, p.0, p.1) || (pair_count(ids, q.0, q.1)
        == pair_count(ids, p.0, p.1) && pair_le(p, q))
}

/// The pair that starts at position `p`.
spec fn pair_here(ids: Seq<usize>, p: int) -> (usize, usize) {
    (ids[p], ids[p + 1])
}

/// The pair to pick among those that start at the first `n` positions.
spec fn best_upto(ids: Seq<usize>, n: int) -> (usize, usize)
    decreases n,
{
    if n <= 1 {
        (ids[0], ids[1])
    } else {
        let before = best_upto(ids, n - 1);
        let here = (ids[n - 1], ids[n]);
        if ahead(ids, before, here) {
            before
        } else {
            here
        }
    }
}

proof fn lemma_best_upto(ids: Seq<usize>, n: int)
    requires
        1 <= n < ids.len(),
    ensures
        exists|p: int| 0 <= p < n && pair_at(ids, p, best_upto(ids, n).0, best_upto(ids, n).1),
        forall|p: int| 0 <= p < n ==> ahead(ids, best_upto(ids, n), #[trigger] pair_here(ids, p)),
    decreases n,
{
    let best = best_upto(ids, n);
    if n <= 1 {
        assert(0 <= 0 < n && pair_at(ids, 0, best.0, best.1));
        assert(pair_here(ids, 0) == best);
    } else {
        lemma_best_upto(ids, n - 1);
        let before = best_upto(ids, n - 1);
        let here = (ids[n - 1], ids[n]);
        assert(pair_here(ids, n - 1) == here);
        if ahead(ids, before, here) {
            let p = choose|p: int| 0 <= p < n - 1 && pair_at(ids, p, before.0, before.1);
            assert(0 <= p < n && pair_at(ids, p, best.0, best.1));
        } else {
            assert(0 <= n - 1 < n && pair_at(ids, n - 1, best.0, best.1));
            assert forall|p: int| 0 <= p < n implies ahead(
                ids,
                here,
                #[trigger] pair_here(ids, p),
            ) by {
                if p < n - 1 {
                    assert(ahead(ids, before, pair_here(ids, p)));
                }
            }
        }
    }
}

/// A sequence of two or more elements has a most common pair, and
/// [`most_common_pair`] is that pair.
pub proof fn lemma_most_common_exists(ids: Seq<usize>)
    requires
        ids.len() >= 2,
    ensures
        is_most_common(ids, most_common_pair(ids).0, most_common_pair(ids).1),
{
    let n = ids.len() - 1;
    let best = best_upto(ids, n);
    lemma_best_upto(ids, n);
    lemma_count_positive_iff_occurs(ids, best.0, best.1);
    let at = choose|p: int| 0 <= p < n && pair_at(ids, p, best.0, best.1);
    assert(pair_at(ids, at, best.0, best.1));
    let counts = |a: usize, b: usize| pair_count(ids, a, b);
    assert forall|a: usize, b: usize|
        #![trigger counts(a, b)]
        counts(a, b) < counts(best.0, best.1) || (counts(a, b) == counts(best.0, best.1)
            && pair_le((best.0, best.1), (a, b))) by {
        lemma_count_positive_iff_occurs(ids, a, b);
        if pair_count(ids, a, b) > 0 {
            let p = choose|p: int| pair_at(ids, p, a, b);
            assert(ahead(ids, best, pair_here(ids, p)));
        }
    }
    assert(is_most_common(ids, best.0, best.1));
}

/// Counts the pairs that start at the positions from `lo` up to, not including, `hi`.
pub fn count_pairs_between(ids: &Vec<usize>, lo: usize, hi: usize) -> (table: PairCounts)
    ensures
        table.wf(),
        forall|a: usize, b: usize| #[trigger]
            table.count(a, b) == pairs_between(ids@, lo as int, hi as int, a, b),
{
    let mut table = PairCounts::new();
    let n: usize = ids.len();
    let end: usize = if n == 0 {
        0
    } else if hi < n - 1 {
        hi
    } else {
        n - 1
    };
    if end <= lo {
        proof {
            assert forall|a: usize, b: usize| #[trigger]
                table.count(a, b) == pairs_between(ids@, lo as int, hi as int, a, b) by {
                if lo < hi {
                    lemma_pairs_between_clip(ids@, lo as int, hi as int, a, b);
                }
            }
        }
        return table;
    }
    let mut p: usize = lo;
    while p < end
        invariant
            lo <= p <= end,
            end <= hi,
            end + 1 <= ids@.len(),
            end == hi || end == ids@.len() - 1,
            table.wf(),
            forall|a: usize, b: usize| #[trigger]
                table.count(a, b) == pairs_between(ids@, lo as int, p as int, a, b),
        decreases end - p,
    {
        let left = ids[p];
        let right = ids[p + 1];
        proof {
            lemma_pairs_between_bound(ids@, lo as int, p as int, left, right);
        }
        table.add(left, right, 1);
        p = p + 1;
    }
    proof {
        assert forall|a: usize, b: usize| #[trigger]
            table.count(a, b) == pairs_between(ids@, lo as int, hi as int, a, b) by {
            if end < hi {
                lemma_pairs_between_clip(ids@, end as int, hi as int, a, b);
            }
            lemma_pairs_between_split(ids@, lo as int, end as int, hi as int, a, b);
        }
    }
    table
}

/// Counts the adjacent pairs of `ids` in one pass from the left.
pub fn count_pairs(ids: &Vec<usize>) -> (table: PairCounts)
    ensures
        table.wf(),
        forall|a: usize, b: usize| #[trigger] table.count(a, b) == pair_count(ids@, a, b),
        table@ == pair_counts(ids@),
{
    let n: usize = ids.len();
    let table = count_pairs_between(ids, 0, n);
    proof {
        assert forall|a: usize, b: usize| #[trigger]
            table.count(a, b) == pair_count(ids@, a, b) by {
            lemma_pairs_between_clip(ids@, n - 1, n as int, a, b);
            if n > 0 {
                lemma_pairs_between_split(ids@, 0, n - 1, n as int, a, b);
            }
        }
        assert(table@ =~= pair_counts(ids@));
    }
    table
}

} // verus!
