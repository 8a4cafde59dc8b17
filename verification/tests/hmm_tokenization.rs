use std::sync::Arc;

use cang_jie::{CangJieTokenizer, TokenizerOption};
use jieba_rs::Jieba;

fn words(option: TokenizerOption, text: &str) -> Vec<String> {
    let mut tokenizer = CangJieTokenizer {
        worker: Arc::new(Jieba::new()),
        option,
    };
    let mut stream = tokenizer.token_stream(text);
    let mut words = Vec::new();
    while stream.advance() {
        words.push(stream.token().text.clone());
    }
    words
}

#[test]
fn hmm_controls_version_string_tokenization() {
    let text = "Python-3.12";

    assert_eq!(
        words(TokenizerOption::Default { hmm: false }, text),
        ["Python", "-", "3", ".", "12"]
    );
    assert_eq!(
        words(TokenizerOption::Default { hmm: true }, text),
        ["Python-3.12"]
    );
    assert_eq!(
        words(TokenizerOption::ForSearch { hmm: true }, text),
        ["Python", "Python-3.12"]
    );
}

#[test]
fn default_mode_cuts_dictionary_words() {
    assert_eq!(
        words(TokenizerOption::Default { hmm: false }, "我们中出了一个叛徒"),
        ["我们", "中", "出", "了", "一个", "叛徒"]
    );
    assert_eq!(
        words(TokenizerOption::Default { hmm: true }, "我们中出了一个叛徒"),
        ["我们", "中出", "了", "一个", "叛徒"]
    );
}

#[test]
fn all_mode_lists_overlapping_words() {
    let all = words(TokenizerOption::All, "南京长江大桥");
    assert!(all.contains(&"南京".to_string()));
    assert!(all.contains(&"长江".to_string()));
    assert!(all.contains(&"大桥".to_string()));
}

#[test]
fn search_mode_adds_inner_words() {
    let search = words(TokenizerOption::ForSearch { hmm: false }, "南京长江大桥");
    assert!(search.contains(&"南京".to_string()));
    assert!(search.contains(&"长江".to_string()));
}
