//! Byte-pair encoding: learn subword merges from a word list, then encode
//! words into subword tokens and decode token streams back into words.

pub mod token;
pub mod merge;
pub mod vocab;
pub mod tokenize;
pub mod stats;
pub mod train;
pub mod codec;
pub mod laws;

pub use codec::{decode, encode};
pub use merge::{merge, Rule};
pub use stats::{get_stats, most_frequent_pair};
pub use token::Token;
pub use tokenize::{build_initial_vocab, words_to_tokens};
pub use train::train;
pub use vocab::Vocab;
