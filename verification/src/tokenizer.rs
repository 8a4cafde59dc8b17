use std::sync::Arc;

use jieba_rs::Jieba;
use vstd::prelude::*;
use vstd::string::StringSliceAdditionalSpecFns;
use vstd::utf8::encode_utf8;

use crate::options::TokenizerOption;
use crate::stream::{
    all_lie_in, byte_in_some_token, lemma_tiling_covers_every_byte, tiles, token_views, CangjieToken, CangjieTokenStream,
};
use crate::unicode::{char_tokens, split_unicode};

verus! {

/// The jieba segmenter, carried through as an opaque value.
#[verifier::external_type_specification]
#[verifier::external_body]
pub struct ExJieba(jieba_rs::Jieba);

/// Calls `Jieba::empty` and shares the segmenter. Claimed: with its empty
/// dictionary and without the hidden Markov model, `cut` joins nothing but
/// runs of ASCII letters and digits (and `\r\n`): every other character comes
/// out as a word of its own. jieba finds no word in an empty dictionary, so
/// its route steps one character at a time, and without the model only runs
/// of ASCII alphanumerics are joined.
#[verifier::external_body]
fn jieba_empty() -> (worker: Arc<Jieba>)
    ensures
        cuts_non_ascii_by_character(worker),
{
    Arc::new(Jieba::empty())
}

/// In `views`, a word that holds a character outside ASCII is that one
/// character alone.
pub open spec fn non_ascii_stands_alone(views: Seq<(Seq<char>, usize, usize)>) -> bool {
    forall|i: int, k: int|
        0 <= i < views.len() && 0 <= k < views[i].0.len() && 0x80 <= (#[trigger] views[i].0[k]) as u32
            ==> views[i].0.len() == 1
}

/// `worker`'s `cut` without the hidden Markov model hands out every character
/// outside ASCII as a word of its own, on every text jieba can cut.
pub open spec fn cuts_non_ascii_by_character(worker: Arc<Jieba>) -> bool {
    forall|text: Seq<char>|
        encode_utf8(text).len() <= u32::MAX ==> non_ascii_stands_alone(
            #[trigger] jieba_cut_tokens(worker, text, false),
        )
}

/// The words come by where they start, those with one start by where they
/// end, none twice and none empty.
pub open spec fn ordered_by_start(views: Seq<(Seq<char>, usize, usize)>) -> bool {
    &&& forall|i: int| 0 <= i < views.len() ==> (#[trigger] views[i]).1 < views[i].2
    &&& forall|i: int, j: int|
        0 <= i < j < views.len() ==> {
            ||| (#[trigger] views[i]).1 < (#[trigger] views[j]).1
            ||| views[i].1 == views[j].1 && views[i].2 < views[j].2
        }
}

/// Every item of `a` is in `b`, and in the same order (`a` is a subsequence
/// of `b`).
pub open spec fn appears_in_order<T>(a: Seq<T>, b: Seq<T>) -> bool {
    exists|at: Seq<int>|
        {
            &&& at.len() == a.len()
            &&& forall|i: int| 0 <= i < a.len() ==> 0 <= #[trigger] at[i] < b.len() && b[at[i]] == a[i]
            &&& forall|i: int, j: int| 0 <= i < j < a.len() ==> #[trigger] at[i] < #[trigger] at[j]
        }
}

/// What `Jieba::cut_all` gives for `text`, with the segmenter `worker`: each
/// token as its word's characters and its byte range.
pub uninterp spec fn jieba_cut_all_tokens(worker: Arc<Jieba>, text: Seq<char>) -> Seq<(Seq<char>, usize, usize)>;

/// What `Jieba::cut` gives for `text` with the hidden Markov model on or off
/// as `hmm` says, with the segmenter `worker`: each token as its word's
/// characters and its byte range.
pub uninterp spec fn jieba_cut_tokens(worker: Arc<Jieba>, text: Seq<char>, hmm: bool) -> Seq<(Seq<char>, usize, usize)>;

/// What `Jieba::cut_for_search` gives for `text` with `hmm`, with the
/// segmenter `worker`: each token as its word's characters and its byte range.
pub uninterp spec fn jieba_cut_for_search_tokens(worker: Arc<Jieba>, text: Seq<char>, hmm: bool) -> Seq<(Seq<char>, usize, usize)>;

/// Calls `Jieba::cut_all` on `text` and keeps, of each token, its word and its
/// byte range. Claimed: the result is `jieba_cut_all_tokens` of the worker and
/// the text (jieba's cut depends on its dictionary and the text alone), and
/// every token's word is the bytes of `text` in its byte range (jieba cuts
/// each word as a slice of `text` and takes its byte offsets from that
/// slice); and they come by where they start, those with one start by where
/// they end, none empty (jieba walks the text from left to right and, at each
/// character, the dictionary words starting there from shortest to longest).
/// Which words these are is left to the name.
/// Texts longer than `u32::MAX` bytes are left out: jieba keeps byte offsets
/// within a run of characters as `u32`, and slices wrongly or panics past it.
#[verifier::external_body]
fn jieba_cut_all<'a>(worker: &Arc<Jieba>, text: &'a str) -> (tokens: Vec<CangjieToken<'a>>)
    requires
        text.spec_bytes().len() <= u32::MAX,
    ensures
        token_views(tokens@) == jieba_cut_all_tokens(*worker, text@),
        all_lie_in(tokens@, text),
        ordered_by_start(token_views(tokens@)),
{
    worker.cut_all(text).into_iter().map(|t| CangjieToken { word: t.word, byte_start: t.byte_start, byte_end: t.byte_end }).collect()
}

/// Calls `Jieba::cut` on `text` with `hmm` and keeps, of each token, its word
/// and its byte range. Claimed: the result is `jieba_cut_tokens` of the
/// worker, the text and `hmm`; every token's word is the bytes of `text` in
/// its byte range; and the tokens tile `text` (jieba splits the text into
/// runs and cuts every run completely, in order, into non-empty words).
/// Texts longer than `u32::MAX` bytes are left out: jieba keeps byte offsets
/// within a run of characters as `u32`, and slices wrongly or panics past it.
#[verifier::external_body]
fn jieba_cut<'a>(worker: &Arc<Jieba>, text: &'a str, hmm: bool) -> (tokens: Vec<CangjieToken<'a>>)
    requires
        text.spec_bytes().len() <= u32::MAX,
    ensures
        token_views(tokens@) == jieba_cut_tokens(*worker, text@, hmm),
        all_lie_in(tokens@, text),
        tiles(text, tokens@),
{
    worker.cut(text, hmm).into_iter().map(|t| CangjieToken { word: t.word, byte_start: t.byte_start, byte_end: t.byte_end }).collect()
}

/// Calls `Jieba::cut_for_search` on `text` with `hmm` and keeps, of each
/// token, its word and its byte range. Claimed: the result is
/// `jieba_cut_for_search_tokens` of the worker, the text and `hmm`; every
/// token's word is the bytes of `text` in its byte range; and `cut`'s tokens
/// with the same `hmm` are all among them, in the same order (jieba cuts as
/// `cut` does with that `hmm`, and hands out each word of that cut after the
/// shorter words it adds for it).
/// Texts longer than `u32::MAX` bytes are left out: jieba keeps byte offsets
/// within a run of characters as `u32`, and slices wrongly or panics past it.
#[verifier::external_body]
fn jieba_cut_for_search<'a>(worker: &Arc<Jieba>, text: &'a str, hmm: bool) -> (tokens: Vec<
    CangjieToken<'a>,
>)
    requires
        text.spec_bytes().len() <= u32::MAX,
    ensures
        token_views(tokens@) == jieba_cut_for_search_tokens(*worker, text@, hmm),
        all_lie_in(tokens@, text),
        appears_in_order(jieba_cut_tokens(*worker, text@, hmm), token_views(tokens@)),
{
    worker.cut_for_search(text, hmm).into_iter().map(|t| CangjieToken { word: t.word, byte_start: t.byte_start, byte_end: t.byte_end }).collect()
}

/// A tokenizer for Chinese text: a jieba segmenter and the way to cut with it.
#[derive(Clone, Debug)]
pub struct CangJieTokenizer {
    /// Separation algorithm provider
    pub worker: Arc<Jieba>,
    /// Separation config
    pub option: TokenizerOption,
}

impl Default for CangJieTokenizer {
    /// An empty dictionary, cutting in the default mode without the hidden
    /// Markov model.
    fn default() -> (t: Self)
        ensures
            t.option == (TokenizerOption::Default { hmm: false }),
            cuts_non_ascii_by_character(t.worker),
    {
        CangJieTokenizer {
            worker: jieba_empty(),
            option: TokenizerOption::Default { hmm: false },
        }
    }
}

/// In the `All` mode no byte range is handed out twice, and a token never
/// starts before one handed out earlier.
pub proof fn lemma_all_mode_ranges_never_repeat(views: Seq<(Seq<char>, usize, usize)>)
    requires
        ordered_by_start(views),
    ensures
        forall|i: int, j: int| 0 <= i < j < views.len() ==> (#[trigger] views[i]).1 <= (#[trigger] views[j]).1,
        forall|i: int, j: int|
            0 <= i < views.len() && 0 <= j < views.len() && i != j ==> ((#[trigger] views[i]).1, views[i].2)
                != ((#[trigger] views[j]).1, views[j].2),
{
    assert forall|i: int, j: int|
        0 <= i < views.len() && 0 <= j < views.len() && i != j implies ((#[trigger] views[i]).1, views[i].2)
        != ((#[trigger] views[j]).1, views[j].2) by {
        if i < j {
            assert(views[i].1 < views[j].1 || (views[i].1 == views[j].1 && views[i].2 < views[j].2));
        } else {
            assert(views[j].1 < views[i].1 || (views[j].1 == views[i].1 && views[j].2 < views[i].2));
        }
    }
}

/// Cutting for search keeps the default cut with the same `hmm`: given the
/// tokens `default_tokens` of the `Default` mode and `search_tokens` of the
/// `ForSearch` mode, with one worker, one text and one `hmm`, every default
/// token is among the search tokens, and every byte of the text lies in some
/// search token.
pub proof fn lemma_search_mode_keeps_the_default_cut<'a>(
    worker: Arc<Jieba>,
    text: &str,
    hmm: bool,
    default_tokens: Seq<CangjieToken<'a>>,
    search_tokens: Seq<CangjieToken<'a>>,
)
    requires
        token_views(default_tokens) == jieba_cut_tokens(worker, text@, hmm),
        tiles(text, default_tokens),
        appears_in_order(jieba_cut_tokens(worker, text@, hmm), token_views(search_tokens)),
    ensures
        forall|i: int|
            0 <= i < default_tokens.len() ==> token_views(search_tokens).contains(
                #[trigger] token_views(default_tokens)[i],
            ),
        forall|p: int| 0 <= p < text.spec_bytes().len() ==> #[trigger] byte_in_some_token(search_tokens, p),
{
    let d = token_views(default_tokens);
    let sv = token_views(search_tokens);
    let at = choose|at: Seq<int>|
        {
            &&& at.len() == d.len()
            &&& forall|i: int| 0 <= i < d.len() ==> 0 <= #[trigger] at[i] < sv.len() && sv[at[i]] == d[i]
            &&& forall|i: int, j: int| 0 <= i < j < d.len() ==> #[trigger] at[i] < #[trigger] at[j]
        };
    assert forall|i: int| 0 <= i < default_tokens.len() implies token_views(search_tokens).contains(
        #[trigger] token_views(default_tokens)[i],
    ) by {
        assert(0 <= at[i] < sv.len() && sv[at[i]] == d[i]);
    }
    lemma_tiling_covers_every_byte(text, default_tokens);
    assert forall|p: int| 0 <= p < text.spec_bytes().len() implies #[trigger] byte_in_some_token(
        search_tokens,
        p,
    ) by {
        assert(byte_in_some_token(default_tokens, p));
        let i = choose|i: int|
            0 <= i < default_tokens.len() && (#[trigger] default_tokens[i]).byte_start <= p
                < default_tokens[i].byte_end;
        assert(0 <= at[i] < sv.len() && sv[at[i]] == d[i]);
        assert(d[i].1 == default_tokens[i].byte_start);
        assert(sv[at[i]].1 == search_tokens[at[i]].byte_start);
        assert(search_tokens[at[i]].byte_start <= p < search_tokens[at[i]].byte_end);
    }
}

/// The default tokenizer hands out every character outside ASCII as a token
/// of its own: its dictionary is empty, so only runs of ASCII letters and
/// digits are ever joined.
pub proof fn lemma_default_tokenizer_splits_non_ascii<'a>(
    tokenizer: CangJieTokenizer,
    text: &str,
    tokens: Seq<CangjieToken<'a>>,
)
    requires
        cuts_non_ascii_by_character(tokenizer.worker),
        tokenizer.option == (TokenizerOption::Default { hmm: false }),
        text.spec_bytes().len() <= u32::MAX,
        token_views(tokens) == jieba_cut_tokens(tokenizer.worker, text@, false),
    ensures
        forall|i: int, k: int|
            0 <= i < tokens.len() && 0 <= k < tokens[i].word@.len() && 0x80 <= (
            #[trigger] tokens[i].word@[k]) as u32 ==> tokens[i].word@.len() == 1,
{
    assert(non_ascii_stands_alone(jieba_cut_tokens(tokenizer.worker, text@, false)));
    assert forall|i: int, k: int|
        0 <= i < tokens.len() && 0 <= k < tokens[i].word@.len() && 0x80 <= (
        #[trigger] tokens[i].word@[k]) as u32 implies tokens[i].word@.len() == 1 by {
        let v = token_views(tokens);
        assert(v[i].0 == tokens[i].word@);
        assert(0x80 <= (v[i].0[k]) as u32);
    }
}

impl CangJieTokenizer {
    /// Cuts `text` into tokens as `option` says, and returns the stream of
    /// them, not started yet: with `All`, `Default` and `ForSearch`, exactly
    /// the tokens of jieba's `cut_all`, `cut` and `cut_for_search` (the last
    /// two with the option's `hmm`), in jieba's order; with `Unicode`, the
    /// characters of `text`. Each token's word is the bytes of `text` in the
    /// token's byte range, and in the `Default` mode the tokens tile `text`.
    /// jieba cannot cut texts longer than `u32::MAX` bytes, so the jieba modes
    /// leave those out.
    pub fn token_stream<'a>(&mut self, text: &'a str) -> (s: CangjieTokenStream<'a>)
        requires
            old(self).option is Unicode || text.spec_bytes().len() <= u32::MAX,
        ensures
            *final(self) == *old(self),
            s.cursor() == 0,
            s.current().is_blank(),
            all_lie_in(s.tokens(), text),
            old(self).option is All ==> {
                &&& token_views(s.tokens()) == jieba_cut_all_tokens(old(self).worker, text@)
                &&& ordered_by_start(token_views(s.tokens()))
            },
            old(self).option matches TokenizerOption::Default { hmm } ==> {
                &&& token_views(s.tokens()) == jieba_cut_tokens(old(self).worker, text@, hmm)
                &&& tiles(text, s.tokens())
            },
            old(self).option matches TokenizerOption::ForSearch { hmm } ==> {
                &&& token_views(s.tokens()) == jieba_cut_for_search_tokens(old(self).worker, text@, hmm)
                &&& appears_in_order(jieba_cut_tokens(old(self).worker, text@, hmm), token_views(s.tokens()))
            },
            old(self).option is Unicode ==> char_tokens(text, s.tokens()),
    {
        let result = match self.option {
            TokenizerOption::All => jieba_cut_all(&self.worker, text),
            TokenizerOption::Default { hmm } => jieba_cut(&self.worker, text, hmm),
            TokenizerOption::ForSearch { hmm } => jieba_cut_for_search(&self.worker, text, hmm),
            TokenizerOption::Unicode => split_unicode(text),
        };
        CangjieTokenStream::from_tokens(result)
    }
}

} // verus!
