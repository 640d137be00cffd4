//! Encoding: applying learned merge rules to an id sequence.

use crate::merge::{lemma_merged_shorter, merge, merged, occurs, pair_at};
use crate::model::MergeRule;
use crate::pair_index::PairIndex;
use crate::train::byte_ids;
use vstd::prelude::*;

verus! {

/// Whether rule `i` of `merges` applies to `ids`: its pair occurs there.
pub open spec fn rule_applies(merges: Seq<MergeRule>, ids: Seq<usize>, i: int) -> bool {
    0 <= i < merges.len() && occurs(ids, merges[i].left, merges[i].right)
}

/// Whether rule `i` is the one to apply to `ids`: it applies, and no rule that
/// was learned before it does.
pub open spec fn is_first_applicable(merges: Seq<MergeRule>, ids: Seq<usize>, i: int) -> bool {
    &&& rule_applies(merges, ids, i)
    &&& forall|j: int| 0 <= j < i ==> !#[trigger] rule_applies(merges, ids, j)
}

/// The encoding of an id sequence: as long as some rule applies, the rule
/// learned first among those that apply is carried out over the whole sequence.
pub open spec fn encode_ids(merges: Seq<MergeRule>, ids: Seq<usize>) -> Seq<usize>
    decreases ids.len(),
{
    if exists|i: int| is_first_applicable(merges, ids, i) {
        let i = choose|i: int| is_first_applicable(merges, ids, i);
        let rule = merges[i];
        proof {
            lemma_merged_shorter(ids, rule.left, rule.right, rule.id);
        }
        encode_ids(merges, merged(ids, rule.left, rule.right, rule.id))
    } else {
        ids
    }
}

/// The encoding of a text with the given bytes.
pub open spec fn encoded(merges: Seq<MergeRule>, bytes: Seq<u8>) -> Seq<usize> {
    encode_ids(merges, byte_ids(bytes))
}

/// Where some rule applies, one of them is the first.
pub proof fn lemma_first_applicable_exists(merges: Seq<MergeRule>, ids: Seq<usize>, i: int)
    requires
        rule_applies(merges, ids, i),
    ensures
        exists|k: int| is_first_applicable(merges, ids, k),
    decreases i,
{
    if exists|j: int| 0 <= j < i && rule_applies(merges, ids, j) {
        let j = choose|j: int| 0 <= j < i && rule_applies(merges, ids, j);
        lemma_first_applicable_exists(merges, ids, j);
    } else {
        assert(is_first_applicable(merges, ids, i));
    }
}

/// One step of encoding with the rule that is to apply.
pub proof fn lemma_encode_step(merges: Seq<MergeRule>, ids: Seq<usize>, i: int)
    requires
        is_first_applicable(merges, ids, i),
    ensures
        encode_ids(merges, ids) == encode_ids(
            merges,
            merged(ids, merges[i].left, merges[i].right, merges[i].id),
        ),
{
    let k = choose|k: int| is_first_applicable(merges, ids, k);
    assert(k == i) by {
        if k < i {
            assert(!rule_applies(merges, ids, k));
        } else if i < k {
            assert(!rule_applies(merges, ids, i));
        }
    }
}

/// Where no rule applies, the sequence is its own encoding.
pub proof fn lemma_encode_done(merges: Seq<MergeRule>, ids: Seq<usize>)
    requires
        forall|i: int| !#[trigger] rule_applies(merges, ids, i),
    ensures
        encode_ids(merges, ids) == ids,
{
}

/// Encoding goes on to the end: no rule applies to the encoding of a sequence.
pub proof fn lemma_encoding_complete(merges: Seq<MergeRule>, ids: Seq<usize>)
    ensures
        forall|i: int| !#[trigger] rule_applies(merges, encode_ids(merges, ids), i),
    decreases ids.len(),
{
    if exists|k: int| is_first_applicable(merges, ids, k) {
        let k = choose|k: int| is_first_applicable(merges, ids, k);
        let rule = merges[k];
        lemma_merged_shorter(ids, rule.left, rule.right, rule.id);
        lemma_encoding_complete(merges, merged(ids, rule.left, rule.right, rule.id));
        lemma_encode_step(merges, ids, k);
    } else {
        assert forall|i: int| !#[trigger] rule_applies(merges, ids, i) by {
            if rule_applies(merges, ids, i) {
                lemma_first_applicable_exists(merges, ids, i);
            }
        }
        lemma_encode_done(merges, ids);
    }
}

/// Whether `ranks` files each pair that has a rule under the place of the
/// first rule for that pair, and no other pair.
pub open spec fn ranks_match(ranks: Map<(usize, usize), usize>, merges: Seq<MergeRule>) -> bool {
    &&& forall|i: int|
        0 <= i < merges.len() ==> {
            let rule = #[trigger] merges[i];
            ranks.contains_key((rule.left, rule.right)) && ranks[(rule.left, rule.right)] <= i
        }
    &&& forall|p: (usize, usize)| #[trigger]
        ranks.contains_key(p) ==> {
            &&& ranks[p] < merges.len()
            &&& merges[ranks[p] as int].left == p.0
            &&& merges[ranks[p] as int].right == p.1
        }
}

/// A merge table: the rules in the order in which they were learned, with an
/// index that finds the first rule for a pair.
pub struct MergeTable {
    rules: Vec<MergeRule>,
    ranks: PairIndex,
}

impl MergeTable {
    /// The rules of the table, the one learned first in front.
    pub closed spec fn view(&self) -> Seq<MergeRule> {
        self.rules@
    }

    /// The index agrees with the rules.
    pub closed spec fn wf(&self) -> bool {
        ranks_match(self.ranks@, self.rules@)
    }

    /// The table of the given rules.
    pub fn new(rules: Vec<MergeRule>) -> (table: MergeTable)
        ensures
            table.wf(),
            table@ == rules@,
    {
        let mut ranks = PairIndex::new();
        let mut i: usize = 0;
        while i < rules.len()
            invariant
                i <= rules@.len(),
                ranks_match(ranks@, rules@.take(i as int)),
            decreases rules@.len() - i,
        {
            let rule = rules[i];
            let ghost before = ranks@;
            if ranks.get(rule.left, rule.right).is_none() {
                ranks.insert(rule.left, rule.right, i);
            }
            proof {
                let shorter = rules@.take(i as int);
                let longer = rules@.take(i + 1);
                assert forall|j: int| 0 <= j < longer.len() implies ({
                    let r = #[trigger] longer[j];
                    ranks@.contains_key((r.left, r.right)) && ranks@[(r.left, r.right)] <= j
                }) by {
                    if j < i {
                        assert(longer[j] == shorter[j]);
                    }
                }
                assert forall|p: (usize, usize)| #[trigger] ranks@.contains_key(p) implies ({
                    &&& ranks@[p] < longer.len()
                    &&& longer[ranks@[p] as int].left == p.0
                    &&& longer[ranks@[p] as int].right == p.1
                }) by {
                    if before.contains_key(p) {
                        assert(longer[before[p] as int] == shorter[before[p] as int]);
                    }
                }
            }
            i = i + 1;
        }
        assert(rules@.take(i as int) =~= rules@);
        MergeTable { rules, ranks }
    }

    /// The number of rules.
    pub fn len(&self) -> (n: usize)
        ensures
            n == self@.len(),
    {
        self.rules.len()
    }

    /// Rule `i` of the table.
    pub fn rule(&self, i: usize) -> (rule: MergeRule)
        requires
            i < self@.len(),
        ensures
            rule == self@[i as int],
    {
        self.rules[i]
    }

    /// The rule to apply to `ids`: among the rules whose pair occurs in `ids`
    /// the one that was learned first, or `None` where no rule applies.
    pub fn first_applicable(&self, ids: &Vec<usize>) -> (found: Option<usize>)
        requires
            self.wf(),
        ensures
            match found {
                Some(i) => is_first_applicable(self@, ids@, i as int),
                None => forall|i: int| !#[trigger] rule_applies(self@, ids@, i),
            },
    {
        let n: usize = ids.len();
        let mut best: Option<usize> = None;
        if n < 2 {
            assert forall|i: int| !#[trigger] rule_applies(self@, ids@, i) by {
                if rule_applies(self@, ids@, i) {
                    let p = choose|p: int| pair_at(ids@, p, self@[i].left, self@[i].right);
                }
            }
            return None;
        }
        let mut p: usize = 0;
        while p < n - 1
            invariant
                n == ids@.len(),
                n >= 2,
                p <= n - 1,
                self.wf(),
                match best {
                    Some(r) => r < self@.len() && exists|q: int|
                        0 <= q < p && pair_at(ids@, q, self@[r as int].left, self@[r as int].right),
                    None => true,
                },
                forall|q: int|
                    0 <= q < p && self.ranks@.contains_key(#[trigger] pair_from(ids@, q)) ==> best
                        is Some && best->0 <= self.ranks@[pair_from(ids@, q)],
            decreases n - 1 - p,
        {
            let left = ids[p];
            let right = ids[p + 1];
            let ghost before = best;
            assert(pair_from(ids@, p as int) == (left, right));
            match self.ranks.get(left, right) {
                Some(r) => {
                    let better = match best {
                        Some(b) => r < b,
                        None => true,
                    };
                    if better {
                        best = Some(r);
                        assert(pair_at(ids@, p as int, self@[r as int].left, self@[r as int].right));
                    }
                },
                None => {},
            }
            proof {
                if before is Some && best == before {
                    let b = (before->0) as int;
                    let q = choose|q: int|
                        0 <= q < p && pair_at(ids@, q, self@[b].left, self@[b].right);
                    assert(0 <= q < p + 1 && pair_at(ids@, q, self@[b].left, self@[b].right));
                }
            }
            p = p + 1;
        }
        proof {
            match best {
                Some(r) => {
                    assert forall|j: int| 0 <= j < r implies !#[trigger] rule_applies(
                        self@,
                        ids@,
                        j,
                    ) by {
                        if rule_applies(self@, ids@, j) {
                            let q = choose|q: int| pair_at(ids@, q, self@[j].left, self@[j].right);
                            assert(pair_from(ids@, q) == (self@[j].left, self@[j].right));
                        }
                    }
                },
                None => {
                    assert forall|i: int| !#[trigger] rule_applies(self@, ids@, i) by {
                        if rule_applies(self@, ids@, i) {
                            let q = choose|q: int| pair_at(ids@, q, self@[i].left, self@[i].right);
                            assert(pair_from(ids@, q) == (self@[i].left, self@[i].right));
                        }
                    }
                },
            }
        }
        best
    }

    /// Encodes an id sequence with the rules of the table.
    pub fn encode_ids(&self, ids: Vec<usize>) -> (out: Vec<usize>)
        requires
            self.wf(),
        ensures
            out@ == encode_ids(self@, ids@),
    {
        let mut out = ids;
        loop
            invariant
                self.wf(),
                encode_ids(self@, out@) == encode_ids(self@, ids@),
            decreases out@.len(),
        {
            match self.first_applicable(&out) {
                Some(i) => {
                    let rule = self.rules[i];
                    proof {
                        lemma_encode_step(self@, out@, i as int);
                        lemma_merged_shorter(out@, rule.left, rule.right, rule.id);
                    }
                    out = merge(&out, rule.left, rule.right, rule.id);
                },
                None => {
                    proof {
                        lemma_encode_done(self@, out@);
                    }
                    return out;
                },
            }
        }
    }
}

/// The pair that starts at position `p`.
spec fn pair_from(ids: Seq<usize>, p: int) -> (usize, usize) {
    (ids[p], ids[p + 1])
}

} // verus!
