//! Chinese tokenization for full-text search: the tokenizer cuts a text into
//! words (with a jieba dictionary, or one word per Unicode character) and
//! hands them out one by one through a token stream, each token carrying the
//! byte offsets of its text in the source.

pub mod options;
pub mod stream;
pub mod tokenizer;
pub mod unicode;

pub use options::TokenizerOption;
pub use stream::{CangjieToken, CangjieTokenStream, Token};
pub use tokenizer::CangJieTokenizer;
