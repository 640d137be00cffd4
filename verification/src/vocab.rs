//! The vocabulary: for every token id the bytes that it stands for.

use crate::model::{
    merge_vocabulary, merges_wf, special_views, token_bytes, vocabulary, MergeRule, SpecialToken,
    SpecialTokenView, BASE_TOKENS,
};
use vstd::prelude::*;
use vstd::string::StrSliceExecFns;

verus! {

/// An entry that stands under a reserved id.
struct Reserved {
    id: usize,
    bytes: Vec<u8>,
}

/// The entries of `tokens`, each under its position as id.
spec fn dense(tokens: Seq<Vec<u8>>) -> Map<usize, Seq<u8>> {
    Map::new(|id: usize| id < tokens.len(), |id: usize| tokens[id as int]@)
}

/// `base` with the reserved entries put in, one after the other.
spec fn overlay(base: Map<usize, Seq<u8>>, reserved: Seq<Reserved>) -> Map<usize, Seq<u8>>
    decreases reserved.len(),
{
    if reserved.len() == 0 {
        base
    } else {
        overlay(base, reserved.drop_last()).insert(reserved.last().id, reserved.last().bytes@)
    }
}

/// The bytes of `first` followed by those of `second`.
pub fn concat_bytes(first: &Vec<u8>, second: &Vec<u8>) -> (out: Vec<u8>)
    ensures
        out@ == first@ + second@,
{
    let mut out: Vec<u8> = Vec::new();
    let mut i: usize = 0;
    while i < first.len()
        invariant
            i <= first@.len(),
            out@ == first@.take(i as int),
        decreases first@.len() - i,
    {
        out.push(first[i]);
        assert(out@ =~= first@.take(i + 1));
        i = i + 1;
    }
    assert(first@.take(i as int) =~= first@);
    let mut j: usize = 0;
    while j < second.len()
        invariant
            j <= second@.len(),
            out@ == first@ + second@.take(j as int),
        decreases second@.len() - j,
    {
        out.push(second[j]);
        assert(out@ =~= first@ + second@.take(j + 1));
        j = j + 1;
    }
    assert(second@.take(j as int) =~= second@);
    out
}

/// A vocabulary, built from merge rules and special tokens.
pub struct Vocabulary {
    tokens: Vec<Vec<u8>>,
    reserved: Vec<Reserved>,
}

impl Vocabulary {
    /// The vocabulary as a map from each id that it holds to the bytes of that id.
    pub closed spec fn view(&self) -> Map<usize, Seq<u8>> {
        overlay(dense(self.tokens@), self.reserved@)
    }

    /// Builds the vocabulary of a merge table and a list of special tokens:
    /// first the 256 byte tokens, then the token of each rule from the bytes of
    /// the two ids that it joins, then the special tokens.
    pub fn build(merges: &Vec<MergeRule>, specials: &Vec<SpecialToken>) -> (vocab: Vocabulary)
        requires
            merges_wf(merges@),
        ensures
            vocab@ == vocabulary(merges@, special_views(specials@)),
    {
        let mut tokens: Vec<Vec<u8>> = Vec::new();
        let mut b: usize = 0;
        while b < BASE_TOKENS
            invariant
                b <= BASE_TOKENS,
                tokens@.len() == b,
                forall|id: int|
                    0 <= id < b ==> (#[trigger] tokens@[id])@ == token_bytes(merges@, id),
            decreases BASE_TOKENS - b,
        {
            let mut single: Vec<u8> = Vec::new();
            single.push(b as u8);
            tokens.push(single);
            b = b + 1;
        }
        let mut i: usize = 0;
        while i < merges.len()
            invariant
                i <= merges@.len(),
                merges_wf(merges@),
                tokens@.len() == BASE_TOKENS + i,
                forall|id: int|
                    0 <= id < BASE_TOKENS + i ==> (#[trigger] tokens@[id])@ == token_bytes(
                        merges@,
                        id,
                    ),
            decreases merges@.len() - i,
        {
            let rule = merges[i];
            let joined = concat_bytes(&tokens[rule.left], &tokens[rule.right]);
            tokens.push(joined);
            i = i + 1;
        }
        let mut reserved: Vec<Reserved> = Vec::new();
        let mut s: usize = 0;
        proof {
            assert(dense(tokens@) =~= merge_vocabulary(merges@));
            assert(special_views(specials@).take(0) =~= Seq::<SpecialTokenView>::empty());
        }
        while s < specials.len()
            invariant
                s <= specials@.len(),
                reserved@.len() == s,
                overlay(dense(tokens@), reserved@) == vocabulary(
                    merges@,
                    special_views(specials@).take(s as int),
                ),
            decreases specials@.len() - s,
        {
            let bytes = specials[s].text.as_str().as_bytes_vec();
            let ghost before = reserved@;
            reserved.push(Reserved { id: specials[s].id, bytes });
            proof {
                let views = special_views(specials@);
                assert(reserved@.drop_last() =~= before);
                assert(views.take(s + 1).drop_last() =~= views.take(s as int));
                assert(views.take(s + 1).last() == specials@[s as int]@);
            }
            s = s + 1;
        }
        proof {
            let views = special_views(specials@);
            assert(views.take(s as int) =~= views);
        }
        Vocabulary { tokens, reserved }
    }

    /// The bytes of a token id, or `None` for an id that the vocabulary does not hold.
    pub fn get(&self, id: usize) -> (bytes: Option<&Vec<u8>>)
        ensures
            match bytes {
                Some(b) => self@.contains_key(id) && b@ == self@[id],
                None => !self@.contains_key(id),
            },
    {
        let mut j: usize = self.reserved.len();
        proof {
            assert(self.reserved@.take(j as int) =~= self.reserved@);
        }
        while j > 0
            invariant
                j <= self.reserved@.len(),
                self@.contains_key(id) == overlay(
                    dense(self.tokens@),
                    self.reserved@.take(j as int),
                ).contains_key(id),
                self@.contains_key(id) ==> self@[id] == overlay(
                    dense(self.tokens@),
                    self.reserved@.take(j as int),
                )[id],
            decreases j,
        {
            proof {
                assert(self.reserved@.take(j as int).drop_last() =~= self.reserved@.take(j - 1));
            }
            j = j - 1;
            if self.reserved[j].id == id {
                return Some(&self.reserved[j].bytes);
            }
        }
        if id < self.tokens.len() {
            Some(&self.tokens[id])
        } else {
            None
        }
    }
}

} // verus!
