//! The tokenizer: training, encoding, decoding, and reading and writing models.

use crate::decode::{decode_ids, decoded};
use crate::encode::{encoded, MergeTable};
use crate::error::TokenizerError;
use crate::model::{
    special_views, MergeRule, SpecialToken, SpecialTokenView, TokenizerModel,
    BASE_TOKENS,
};
use crate::model_file::{
    model_is_valid, model_text, parse_model, read_model, write_model, ModelFile,
};
use crate::train::{byte_ids, byte_ids_of, ids_below, learn_merges, lemma_learn_wf, trained};
use crate::vocab::Vocabulary;
use crate::vocab_file::{vocab_text, write_vocab};
use vstd::prelude::*;
use vstd::string::StringSliceAdditionalSpecFns;

verus! {

/// A tokenizer that learns merge rules from text, and encodes and decodes with
/// what it has learned.
pub trait Tokenizer {
    /// Whether the tokenizer is in a consistent state. A new tokenizer is, and
    /// every operation keeps it so.
    spec fn wf(&self) -> bool;

    /// What the tokenizer has learned.
    spec fn model(&self) -> TokenizerModel;

    /// What a consistent tokenizer has learned is a model that can be written
    /// to a file and read back.
    proof fn lemma_model_wf(&self)
        requires
            self.wf(),
        ensures
            self.model().wf(),
    ;

    /// Learns the merge rules for a vocabulary of `vocab_size` tokens from
    /// `text`, in place of all that the tokenizer had learned before. Fails
    /// with `PreconditionViolation`, and leaves the tokenizer as it was, where
    /// `vocab_size` is below 256 and where the text is too short for that many
    /// rules.
    fn train(&mut self, text: &str, vocab_size: usize) -> (result: Result<(), TokenizerError>)
        requires
            old(self).wf(),
        ensures
            final(self).wf(),
            match trained(text.spec_bytes(), vocab_size) {
                Some(merges) => result is Ok && final(self).model() == (TokenizerModel {
                    pattern: seq![],
                    specials: seq![],
                    merges,
                }),
                None => result matches Err(e) && e == TokenizerError::PreconditionViolation
                    && final(self).model() == old(self).model(),
            },
    ;

    /// Encodes a text: starts from its bytes and applies the merge rules, the
    /// one learned first before the others, until none applies.
    fn encode(&self, text: &str) -> (ids: Vec<usize>)
        requires
            self.wf(),
        ensures
            ids@ == encoded(self.model().merges, text.spec_bytes()),
    ;

    /// Decodes a sequence of ids into the renderings of its tokens. Fails with
    /// `UnknownToken` where the vocabulary lacks one of the ids.
    fn decode(&self, ids: Vec<usize>) -> (result: Result<String, TokenizerError>)
        requires
            self.wf(),
        ensures
            match decoded(self.model().vocabulary(), ids@) {
                Some(text) => result matches Ok(s) && s@ == text,
                None => result matches Err(e) && e == TokenizerError::UnknownToken,
            },
    ;

    /// Takes over the model that a model file holds, in place of all that the
    /// tokenizer had learned before. `contents` is the text of the file. Fails
    /// with `InvalidData`, and leaves the tokenizer as it was, where the text
    /// holds no model.
    fn load(&mut self, contents: &str) -> (result: Result<(), TokenizerError>)
        requires
            old(self).wf(),
        ensures
            final(self).wf(),
            match parse_model(contents@) {
                Some(model) => result is Ok && final(self).model() == model,
                None => result matches Err(e) && e == TokenizerError::InvalidData
                    && final(self).model() == old(self).model(),
            },
    ;

    /// The text of the model file of the tokenizer and, where `with_vocab` is
    /// set, the text of its vocabulary file.
    fn save(&self, with_vocab: bool) -> (files: (String, Option<String>))
        requires
            self.wf(),
        ensures
            files.0@ == model_text(self.model()),
            match files.1 {
                Some(vocab) => with_vocab && vocab@ == vocab_text(
                    self.model().merges,
                    self.model().specials,
                ),
                None => !with_vocab,
            },
    ;
}

/// The byte-pair-encoding tokenizer.
pub struct BasicTokenizer {
    pattern: String,
    specials: Vec<SpecialToken>,
    table: MergeTable,
    vocab: Vocabulary,
    num_threads: usize,
}

impl BasicTokenizer {
    /// A tokenizer that has learned nothing: its vocabulary is that of the 256
    /// byte tokens. `num_threads` is the number of workers among which
    /// training divides the counting of pairs.
    pub fn new(num_threads: usize) -> (tokenizer: BasicTokenizer)
        ensures
            tokenizer.wf(),
            tokenizer.model() == TokenizerModel::empty(),
            tokenizer.spec_num_threads() == num_threads,
    {
        let merges: Vec<MergeRule> = Vec::new();
        let specials: Vec<SpecialToken> = Vec::new();
        let vocab = Vocabulary::build(&merges, &specials);
        let table = MergeTable::new(merges);
        let tokenizer = BasicTokenizer {
            pattern: String::new(),
            specials,
            table,
            vocab,
            num_threads,
        };
        proof {
            assert(tokenizer.model().specials =~= Seq::<SpecialTokenView>::empty());
            assert(tokenizer.model().merges =~= Seq::<MergeRule>::empty());
            assert(tokenizer.model().pattern =~= Seq::<char>::empty());
        }
        tokenizer
    }

    /// A tokenizer that holds the model made up of the parts of a model file.
    /// Fails with `InvalidData` where they make up no model that a tokenizer
    /// can hold.
    pub fn from_parts(file: ModelFile, num_threads: usize) -> (result: Result<
        BasicTokenizer,
        TokenizerError,
    >)
        ensures
            match result {
                Ok(tokenizer) => file@.wf() && tokenizer.wf() && tokenizer.model() == file@
                    && tokenizer.spec_num_threads() == num_threads,
                Err(e) => !file@.wf() && e == TokenizerError::InvalidData,
            },
    {
        if !model_is_valid(&file) {
            return Err(TokenizerError::InvalidData);
        }
        let mut tokenizer = BasicTokenizer::new(num_threads);
        tokenizer.install(file);
        Ok(tokenizer)
    }

    /// Puts a model in the place of the one that the tokenizer holds.
    fn install(&mut self, file: ModelFile)
        requires
            file@.wf(),
        ensures
            final(self).wf(),
            final(self).model() == file@,
            final(self).num_threads == old(self).num_threads,
    {
        let ModelFile { pattern, specials, merges } = file;
        let vocab = Vocabulary::build(&merges, &specials);
        self.pattern = pattern;
        self.specials = specials;
        self.table = MergeTable::new(merges);
        self.vocab = vocab;
    }

    /// The number of workers among which training divides the counting of pairs.
    pub closed spec fn spec_num_threads(&self) -> usize {
        self.num_threads
    }

    /// The number of workers among which training divides the counting of pairs.
    #[verifier::when_used_as_spec(spec_num_threads)]
    pub fn num_threads(&self) -> (n: usize)
        ensures
            n == self.spec_num_threads(),
    {
        self.num_threads
    }

    /// The merge rules, the one learned first in front.
    pub fn merges(&self) -> (rules: Vec<MergeRule>)
        ensures
            rules@ == self.model().merges,
    {
        let mut rules: Vec<MergeRule> = Vec::new();
        let mut i: usize = 0;
        while i < self.table.len()
            invariant
                i <= self.table@.len(),
                rules@ == self.table@.take(i as int),
            decreases self.table@.len() - i,
        {
            rules.push(self.table.rule(i));
            assert(rules@ =~= self.table@.take(i + 1));
            i = i + 1;
        }
        assert(self.table@.take(i as int) =~= self.table@);
        rules
    }

    /// The special tokens, in the order in which the model file lists them.
    pub fn special_tokens(&self) -> (specials: &Vec<SpecialToken>)
        ensures
            special_views(specials@) == self.model().specials,
    {
        &self.specials
    }

    /// The pattern for splitting text. It is kept and written out, and not used.
    pub fn pattern(&self) -> (pattern: &str)
        ensures
            pattern@ == self.model().pattern,
    {
        self.pattern.as_str()
    }

    /// The bytes of a token id, or `None` for an id that the vocabulary lacks.
    pub fn token_bytes(&self, id: usize) -> (bytes: Option<&Vec<u8>>)
        requires
            self.wf(),
        ensures
            match bytes {
                Some(b) => self.model().vocabulary().contains_key(id) && b@
                    == self.model().vocabulary()[id],
                None => !self.model().vocabulary().contains_key(id),
            },
    {
        self.vocab.get(id)
    }
}

impl Tokenizer for BasicTokenizer {
    closed spec fn wf(&self) -> bool {
        &&& self.table.wf()
        &&& self.model().wf()
        &&& self.vocab@ == self.model().vocabulary()
    }

    closed spec fn model(&self) -> TokenizerModel {
        TokenizerModel {
            pattern: self.pattern@,
            specials: special_views(self.specials@),
            merges: self.table@,
        }
    }

    proof fn lemma_model_wf(&self) {
    }

    fn train(&mut self, text: &str, vocab_size: usize) -> (result: Result<(), TokenizerError>) {
        match learn_merges(text, vocab_size, self.num_threads) {
            Ok(merges) => {
                proof {
                    let ids = byte_ids(text.spec_bytes());
                    assert(ids_below(ids, BASE_TOKENS as int));
                    lemma_learn_wf(ids, seq![], (vocab_size - BASE_TOKENS) as nat);
                }
                let file = ModelFile { pattern: String::new(), specials: Vec::new(), merges };
                proof {
                    assert(file@.specials =~= Seq::<SpecialTokenView>::empty());
                    assert(file@.pattern =~= Seq::<char>::empty());
                }
                self.install(file);
                Ok(())
            },
            Err(e) => Err(e),
        }
    }

    fn encode(&self, text: &str) -> (ids: Vec<usize>) {
        self.table.encode_ids(byte_ids_of(text))
    }

    fn decode(&self, ids: Vec<usize>) -> (result: Result<String, TokenizerError>) {
        decode_ids(&self.vocab, &ids)
    }

    fn load(&mut self, contents: &str) -> (result: Result<(), TokenizerError>) {
        match read_model(contents) {
            Ok(file) => {
                self.install(file);
                Ok(())
            },
            Err(e) => Err(e),
        }
    }

    fn save(&self, with_vocab: bool) -> (files: (String, Option<String>)) {
        let merges = self.merges();
        let model = write_model(self.pattern.as_str(), &self.specials, &merges);
        let vocab = if with_vocab {
            Some(write_vocab(&self.specials, &merges, &self.vocab))
        } else {
            None
        };
        (model, vocab)
    }
}

} // verus!
