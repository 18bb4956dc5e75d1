//! A byte-level byte-pair-encoding (BPE) tokenizer whose core logic is
//! verified with Verus.
//!
//! The tokenizer learns merges from training texts ([`Tokenizer::train`]),
//! encodes text into token IDs ([`Tokenizer::encode`]), decodes token IDs
//! back into text ([`Tokenizer::decode`]), and turns itself into the content
//! of a saved tokenizer and back ([`Tokenizer::to_file`],
//! [`Tokenizer::from_file`]).

pub mod model;
pub mod pair_map;
pub mod persist;
pub mod token_table;
pub mod tokenizer;
pub mod training;
pub mod training_laws;
pub mod validity;

pub use pair_map::PairMap;
pub use persist::{InvalidTokenizer, LoadError, MergeFile, TokenizerFile, FILE_VERSION};
pub use token_table::TokenTable;
pub use tokenizer::{DecodeError, Tokenizer};
