use cang_jie::tokenizer::CangJieTokenizer;
use cang_jie::unicode::{split_unicode, utf8_width};
use cang_jie::TokenizerOption;

#[test]
fn split_unicode_tiles_the_text() {
    let text = "aé南😀";
    let tokens = split_unicode(text);
    let spans = tokens
        .iter()
        .map(|t| (t.word, t.byte_start, t.byte_end))
        .collect::<Vec<_>>();
    assert_eq!(
        spans,
        vec![("a", 0, 1), ("é", 1, 3), ("南", 3, 6), ("😀", 6, 10)]
    );
    let joined: String = tokens.iter().map(|t| t.word).collect();
    assert_eq!(joined, text);
    for t in &tokens {
        assert_eq!(&text[t.byte_start..t.byte_end], t.word);
    }
}

#[test]
fn split_unicode_of_empty_text_is_empty() {
    assert!(split_unicode("").is_empty());
}

#[test]
fn utf8_width_matches_encoding() {
    for c in ['a', '\u{7f}', '\u{80}', 'é', '\u{7ff}', '\u{800}', '南', '\u{ffff}', '\u{10000}', '😀', '\u{10ffff}'] {
        assert_eq!(utf8_width(c), c.len_utf8());
    }
    assert_eq!(utf8_width('a'), 1);
    assert_eq!(utf8_width('é'), 2);
    assert_eq!(utf8_width('南'), 3);
    assert_eq!(utf8_width('😀'), 4);
}

#[test]
fn default_tokenizer_cuts_without_hmm() {
    let tokenizer = CangJieTokenizer::default();
    assert!(matches!(tokenizer.option, TokenizerOption::Default { hmm: false }));
}

#[test]
fn unicode_mode_ignores_the_dictionary() {
    let mut tokenizer = CangJieTokenizer {
        worker: std::sync::Arc::new(jieba_rs::Jieba::new()),
        option: TokenizerOption::Unicode,
    };
    let mut stream = tokenizer.token_stream("南京长江大桥");
    let mut texts = Vec::new();
    while stream.advance() {
        texts.push(stream.token().text.clone());
    }
    assert_eq!(texts, ["南", "京", "长", "江", "大", "桥"]);
}

#[test]
fn unicode_mode_is_the_same_whatever_the_dictionary() {
    let text = "南京a长江";
    let mut results = Vec::new();
    for worker in [jieba_rs::Jieba::empty(), jieba_rs::Jieba::new()] {
        let mut tokenizer = CangJieTokenizer {
            worker: std::sync::Arc::new(worker),
            option: TokenizerOption::Unicode,
        };
        let mut stream = tokenizer.token_stream(text);
        let mut tokens = Vec::new();
        while stream.advance() {
            let t = stream.token();
            tokens.push((t.text.clone(), t.offset_from, t.offset_to, t.position));
        }
        results.push(tokens);
    }
    assert_eq!(results[0], results[1]);
    assert_eq!(results[0].len(), 5);
}
