# cang_jie

Chinese tokenization for full-text search, verified with Verus.

- `src/options.rs`: `TokenizerOption`, the ways of cutting a text.
- `src/unicode.rs`: cutting a text into its characters with their byte
  ranges (`split_unicode`), and the proofs that these tokens tile the text.
- `src/stream.rs`: `CangjieTokenStream`, which hands the cut words out one at
  a time as `Token`s, and the proofs about the order and numbering of what it
  hands out.
- `src/tokenizer.rs`: `CangJieTokenizer`, which cuts with jieba or by
  character; the calls into jieba are the crate's trusted items.
- `app/`: the tokenizer and stream wrapped for tantivy's `Tokenizer` and
  `TokenStream` traits, and the stream constructor that finds a word's offset
  from where its slice lies in memory.
