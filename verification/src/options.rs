use vstd::prelude::*;

verus! {

/// How the tokenizer cuts a text into words.
#[derive(Debug, Clone, Copy)]
pub enum TokenizerOption {
    /// Every word of the dictionary found anywhere in the text (words may overlap).
    All,
    /// The most likely segmentation of the text; `hmm` lets unknown words be
    /// recognised with the hidden Markov model.
    Default { hmm: bool },
    /// The default segmentation plus the shorter dictionary words inside long
    /// words, for search engines.
    ForSearch { hmm: bool },
    /// One token per Unicode scalar value of the text.
    Unicode,
}

} // verus!
