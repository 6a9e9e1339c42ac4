//! A minimal text tokenizer, verified end to end: a splitting rule that
//! partitions text into tokens losslessly, a vocabulary builder that assigns
//! dense identifiers to the distinct tokens of a corpus in a reproducible
//! order, and a tokenizer that encodes text into identifier sequences and
//! decodes them back.

pub mod chars;
pub mod order;
pub mod split;
pub mod tokenizer;
pub mod vocab;

pub use split::tokenize;
pub use tokenizer::SimpleTokenizerV1;
pub use tokenizer::TokenError;
pub use vocab::Vocab;
