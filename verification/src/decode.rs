//! Decoding: rendering a sequence of token ids as text.

use crate::error::TokenizerError;
use crate::render::{render_token, rendered};
use crate::vocab::Vocabulary;
use vstd::prelude::*;
use vstd::string::StringExecFns;

verus! {

/// Whether the vocabulary holds every id of the sequence.
pub open spec fn all_known(vocab: Map<usize, Seq<u8>>, ids: Seq<usize>) -> bool {
    forall|i: int| 0 <= i < ids.len() ==> vocab.contains_key(#[trigger] ids[i])
}

/// The renderings of the tokens of a sequence, one after the other. Each token
/// is rendered by itself: a character whose bytes are spread over two tokens
/// does not come back.
pub open spec fn decoded_text(vocab: Map<usize, Seq<u8>>, ids: Seq<usize>) -> Seq<char>
    decreases ids.len(),
{
    if ids.len() == 0 {
        seq![]
    } else {
        decoded_text(vocab, ids.drop_last()) + rendered(vocab[ids.last()])
    }
}

/// The text that decoding gives for a sequence of ids, or `None` where the
/// vocabulary lacks one of them.
pub open spec fn decoded(vocab: Map<usize, Seq<u8>>, ids: Seq<usize>) -> Option<Seq<char>> {
    if all_known(vocab, ids) {
        Some(decoded_text(vocab, ids))
    } else {
        None
    }
}

/// Decodes a sequence of ids with a vocabulary. Fails with `UnknownToken`
/// where the vocabulary lacks one of the ids.
pub fn decode_ids(vocab: &Vocabulary, ids: &Vec<usize>) -> (result: Result<String, TokenizerError>)
    ensures
        match decoded(vocab@, ids@) {
            Some(text) => result matches Ok(s) && s@ == text,
            None => result matches Err(e) && e == TokenizerError::UnknownToken,
        },
{
    let mut out = String::new();
    let mut i: usize = 0;
    while i < ids.len()
        invariant
            i <= ids@.len(),
            all_known(vocab@, ids@.take(i as int)),
            out@ == decoded_text(vocab@, ids@.take(i as int)),
        decreases ids@.len() - i,
    {
        match vocab.get(ids[i]) {
            Some(bytes) => {
                let piece = render_token(bytes);
                out.append(piece.as_str());
                proof {
                    assert(ids@.take(i + 1).drop_last() =~= ids@.take(i as int));
                }
            },
            None => {
                return Err(TokenizerError::UnknownToken);
            },
        }
        i = i + 1;
    }
    assert(ids@.take(i as int) =~= ids@);
    Ok(out)
}

} // verus!
