//! A byte-level byte-pair-encoding tokenizer with machine-checked contracts.
//!
//! A [`BasicTokenizer`] learns a vocabulary from a text: it starts from the 256
//! byte tokens and, round by round, gives the most common pair of adjacent
//! tokens a token of its own. With the rules that it has learned it encodes
//! a text into token ids and decodes token ids into text, and it writes its
//! model as the text of a model file and reads it back.
//!
//! The modules, from the leaves up:
//!
//! - [`pairs`], [`pair_index`] and [`chunks`] count adjacent pairs, in one pass
//!   or chunk by chunk;
//! - [`merge`] replaces a pair in a sequence;
//! - [`model`] and [`vocab`] say which bytes each token stands for;
//! - [`train`], [`encode`] and [`decode`] are the three algorithms;
//! - [`render`] shows bytes as text;
//! - [`strings`] holds what is taken on trust of the standard library;
//! - [`lines`], [`decimal`], [`model_file`] and [`vocab_file`] are the file
//!   formats;
//! - [`tokenizer`] puts them together;
//! - [`expansion`] and [`laws`] hold what is proved of the whole.
//!
//! The library reads and writes no file and starts no thread: it takes and
//! gives the texts of files, and does the work of one worker at a time.

pub mod chunks;
pub mod decimal;
pub mod decode;
pub mod encode;
pub mod error;
pub mod expansion;
pub mod laws;
pub mod lines;
pub mod merge;
pub mod model;
pub mod model_file;
pub mod pair_index;
pub mod pairs;
pub mod render;
pub mod strings;
pub mod tokenizer;
pub mod train;
pub mod vocab;
pub mod vocab_file;

pub use crate::error::TokenizerError;
pub use crate::model::{MergeRule, SpecialToken};
pub use crate::tokenizer::{BasicTokenizer, Tokenizer};
