use std::sync::Arc;

use cang_jie::stream::span_in;
use cang_jie::{CangJieTokenizer, CangjieTokenStream, Token, TokenizerOption};
use jieba_rs::Jieba;

fn collect_tokens(mut tokenizer: CangJieTokenizer, text: &str) -> Vec<Token> {
    let mut stream = tokenizer.token_stream(text);
    let mut tokens = Vec::new();
    while stream.advance() {
        tokens.push(stream.token().clone());
    }
    tokens
}

fn drain(stream: &mut CangjieTokenStream<'_>) -> Vec<Token> {
    let mut tokens = Vec::new();
    while stream.advance() {
        tokens.push(stream.token().clone());
    }
    tokens
}

#[test]
fn unicode_tokens_keep_byte_offsets() {
    let text = "南a京";
    let tokens = collect_tokens(
        CangJieTokenizer {
            worker: Arc::new(Jieba::empty()),
            option: TokenizerOption::Unicode,
        },
        text,
    );

    let actual = tokens
        .iter()
        .map(|token| (token.text.as_str(), token.offset_from, token.offset_to))
        .collect::<Vec<_>>();

    assert_eq!(actual, vec![("南", 0, 3), ("a", 3, 4), ("京", 4, 7)]);
}

#[test]
fn jieba_tokens_keep_valid_byte_offsets() {
    let text = "南京a长江";
    let options = [
        TokenizerOption::All,
        TokenizerOption::Default { hmm: false },
        TokenizerOption::ForSearch { hmm: false },
    ];

    for option in options {
        let tokens = collect_tokens(
            CangJieTokenizer {
                worker: Arc::new(Jieba::new()),
                option,
            },
            text,
        );

        assert!(!tokens.is_empty());
        for token in tokens {
            assert_eq!(
                token.text,
                &text[token.offset_from..token.offset_to],
                "token offsets should identify the emitted token text"
            );
        }
    }
}

/// The byte range of `word` in `src`, read from where the two lie in memory;
/// panics as the tantivy-facing constructor does when `word` is not a slice
/// of `src`.
fn slice_span(src: &str, word: &str) -> (usize, usize) {
    span_in(src.as_ptr() as usize, src.len(), word.as_ptr() as usize, word.len())
        .expect("token slice must be borrowed from src")
}

#[test]
fn public_token_stream_constructor_keeps_slice_offsets() {
    let text = "南a京";
    let slices = vec![&text[..3], &text[3..4], &text[4..]];
    let spans = slices.iter().map(|word| slice_span(text, word)).collect();
    let mut stream = CangjieTokenStream::new(text, spans);

    let tokens = drain(&mut stream);
    let actual = tokens
        .iter()
        .map(|token| (token.text.as_str(), token.offset_from, token.offset_to))
        .collect::<Vec<_>>();

    assert_eq!(actual, vec![("南", 0, 3), ("a", 3, 4), ("京", 4, 7)]);
}

#[test]
#[should_panic(expected = "token slice must be borrowed from src")]
fn public_token_stream_constructor_rejects_unrelated_slices() {
    let src = "南京";
    let unrelated = "长江";

    let spans = vec![unrelated].iter().map(|word| slice_span(src, word)).collect();
    let _ = CangjieTokenStream::new(src, spans);
}

#[test]
fn span_constructor_keeps_order_and_overlaps() {
    let text = "南京长江";
    let mut stream = CangjieTokenStream::new(text, vec![(6, 12), (0, 6), (0, 12), (3, 3)]);
    let texts = drain(&mut stream)
        .into_iter()
        .map(|token| token.text)
        .collect::<Vec<_>>();
    assert_eq!(texts, ["长江", "南京", "南京长江", ""]);
}

#[test]
fn stream_numbers_tokens_from_zero_and_then_stops() {
    let text = "a南京b";
    let mut tokenizer = CangJieTokenizer {
        worker: Arc::new(Jieba::empty()),
        option: TokenizerOption::Unicode,
    };
    let mut stream = tokenizer.token_stream(text);
    assert_eq!(stream.token().position, usize::MAX);
    assert_eq!(stream.token().text, "");
    let tokens = drain(&mut stream);
    assert_eq!(tokens.len(), 4);
    for (i, token) in tokens.iter().enumerate() {
        assert_eq!(token.position, i);
        assert_eq!(token.position_length, 1);
    }
    // exhausted: further advances change nothing
    assert!(!stream.advance());
    assert!(!stream.advance());
    assert_eq!(stream.token().text, "b");
    assert_eq!(stream.token().position, 3);
    assert_eq!((stream.token().offset_from, stream.token().offset_to), (7, 8));
}

#[test]
fn token_mut_changes_the_current_token() {
    let text = "ab";
    let mut stream = CangjieTokenStream::new(text, vec![(0, 1), (1, 2)]);
    assert!(stream.advance());
    stream.token_mut().text = "A".to_string();
    assert_eq!(stream.token().text, "A");
    assert_eq!(stream.token().offset_from, 0);
    assert!(stream.advance());
    assert_eq!(stream.token().text, "b");
    assert_eq!(stream.token().position, 1);
}

#[test]
fn empty_text_has_no_tokens() {
    for option in [
        TokenizerOption::All,
        TokenizerOption::Default { hmm: true },
        TokenizerOption::ForSearch { hmm: true },
        TokenizerOption::Unicode,
    ] {
        let tokens = collect_tokens(
            CangJieTokenizer {
                worker: Arc::new(Jieba::new()),
                option,
            },
            "",
        );
        assert!(tokens.is_empty());
    }
}

#[test]
fn writes_through_token_mut_do_not_survive_the_next_advance() {
    let text = "南a京";
    let mut stream = CangjieTokenStream::new(text, vec![(0, 3), (3, 4), (4, 7)]);
    assert!(stream.advance());
    {
        let token = stream.token_mut();
        token.text = "X".to_string();
        token.position = 99;
        token.position_length = 5;
        token.offset_from = 42;
        token.offset_to = 42;
    }
    assert_eq!(stream.token().text, "X");
    assert!(stream.advance());
    let token = stream.token();
    assert_eq!(
        (token.text.as_str(), token.offset_from, token.offset_to, token.position, token.position_length),
        ("a", 3, 4, 1, 1)
    );
}

#[test]
fn span_in_locates_a_slice() {
    assert_eq!(span_in(1000, 7, 1000, 3), Some((0, 3)));
    assert_eq!(span_in(1000, 7, 1003, 1), Some((3, 4)));
    assert_eq!(span_in(1000, 7, 1004, 3), Some((4, 7)));
    assert_eq!(span_in(1000, 7, 1007, 0), Some((7, 7)));
    assert_eq!(span_in(1000, 7, 999, 1), None);
    assert_eq!(span_in(1000, 7, 1005, 3), None);
    assert_eq!(span_in(1000, 7, 2000, 6), None);
    assert_eq!(span_in(0, usize::MAX, usize::MAX, 1), None);
}

#[test]
fn default_mode_tokens_tile_the_text() {
    for hmm in [false, true] {
        let text = "我们中出了一个叛徒, Python-3.12 and\r\nmore 👪";
        let tokens = collect_tokens(
            CangJieTokenizer {
                worker: Arc::new(Jieba::new()),
                option: TokenizerOption::Default { hmm },
            },
            text,
        );
        let mut end = 0;
        for token in &tokens {
            assert_eq!(token.offset_from, end);
            assert!(token.offset_from < token.offset_to);
            end = token.offset_to;
        }
        assert_eq!(end, text.len());
        let joined: String = tokens.iter().map(|t| t.text.as_str()).collect();
        assert_eq!(joined, text);
    }
}
