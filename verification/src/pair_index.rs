//! A hash map from pairs of ids to positions.

use std::collections::HashMap;
use vstd::prelude::*;

verus! {

broadcast use vstd::std_specs::hash::group_hash_axioms;

/// The key under which a pair is filed: the left id in the upper half of the
/// number, the right id in the lower half.
spec fn key_of(left: usize, right: usize) -> u128 {
    (left as u128 * 0x1_0000_0000_0000_0000u128 + right as u128) as u128
}

proof fn lemma_key_injective(a: usize, b: usize, c: usize, d: usize)
    ensures
        key_of(a, b) == key_of(c, d) ==> a == c && b == d,
{
}

fn key(left: usize, right: usize) -> (k: u128)
    ensures
        k == key_of(left, right),
{
    (left as u128) * 0x1_0000_0000_0000_0000u128 + (right as u128)
}

/// A map from pairs of ids to positions in some list.
pub struct PairIndex {
    slots: HashMap<u128, usize>,
}

impl PairIndex {
    /// The index as a map from pairs to positions.
    pub closed spec fn view(&self) -> Map<(usize, usize), usize> {
        Map::new(
            |p: (usize, usize)| self.slots@.contains_key(key_of(p.0, p.1)),
            |p: (usize, usize)| self.slots@[key_of(p.0, p.1)],
        )
    }

    /// An index that holds no pair.
    pub fn new() -> (index: PairIndex)
        ensures
            index@ == Map::<(usize, usize), usize>::empty(),
    {
        let index = PairIndex { slots: HashMap::new() };
        assert(index@ =~= Map::<(usize, usize), usize>::empty());
        index
    }

    /// The position filed under a pair, if there is one.
    pub fn get(&self, left: usize, right: usize) -> (found: Option<usize>)
        ensures
            found == if self@.contains_key((left, right)) {
                Some(self@[(left, right)])
            } else {
                None
            },
    {
        let k = key(left, right);
        match self.slots.get(&k) {
            Some(pos) => Some(*pos),
            None => None,
        }
    }

    /// Files a position under a pair, in place of the one filed there before, if any.
    pub fn insert(&mut self, left: usize, right: usize, pos: usize)
        ensures
            final(self)@ == old(self)@.insert((left, right), pos),
    {
        let k = key(left, right);
        self.slots.insert(k, pos);
        proof {
            assert forall|p: (usize, usize)|
                #[trigger] self@.contains_key(p) == old(self)@.insert((left, right), pos).contains_key(p)
                && (self@.contains_key(p) ==> self@[p] == old(self)@.insert((left, right), pos)[p]) by {
                lemma_key_injective(p.0, p.1, left, right);
            }
            assert(self@ =~= old(self)@.insert((left, right), pos));
        }
    }
}

} // verus!
