use vstd::prelude::*;
use vstd::string::StringSliceAdditionalSpecFns;
use vstd::utf8::*;

use crate::stream::{all_lie_in, tiles, token_views, CangjieToken};

verus! {

broadcast use {encode_utf8_valid_utf8, encode_utf8_decode_utf8, char_is_scalar};

/// `t` is the token of the `i`-th character of `text`: that character alone,
/// at the bytes its UTF-8 encoding takes in the encoding of `text`.
pub open spec fn is_char_token(text: &str, i: int, t: CangjieToken) -> bool {
    &&& t.word@ == seq![text@[i]]
    &&& t.byte_start == encode_utf8(text@.take(i)).len()
    &&& t.byte_end == encode_utf8(text@.take(i + 1)).len()
}

/// `tokens` are the characters of `text`, one token each, in order.
pub open spec fn char_tokens(text: &str, tokens: Seq<CangjieToken>) -> bool {
    &&& tokens.len() == text@.len()
    &&& forall|i: int| 0 <= i < tokens.len() ==> is_char_token(text, i, #[trigger] tokens[i])
}

/// The words of `tokens`, joined in order.
pub open spec fn joined_words(tokens: Seq<CangjieToken>) -> Seq<char>
    decreases tokens.len(),
{
    if tokens.len() == 0 {
        Seq::empty()
    } else {
        joined_words(tokens.drop_last()) + tokens.last().word@
    }
}

/// The tokens of the characters of `text` tile it, and their words joined in
/// order give back `text`.
pub proof fn lemma_char_tokens_tile(text: &str, tokens: Seq<CangjieToken>)
    requires
        char_tokens(text, tokens),
    ensures
        tiles(text, tokens),
        joined_words(tokens) == text@,
{
    assert forall|i: int| 0 <= i < tokens.len() implies (#[trigger] tokens[i]).byte_start
        < tokens[i].byte_end by {
        assert(text@.take(i + 1) =~= text@.take(i) + seq![text@[i]]);
        lemma_encode_utf8_concat(text@.take(i), seq![text@[i]]);
        assert(encode_utf8(seq![text@[i]]).len() > 0);
    }
    if tokens.len() > 0 {
        assert(text@.take(0) =~= Seq::<char>::empty());
        assert(text@.take(tokens.len() as int) =~= text@);
    } else {
        assert(text@ =~= Seq::<char>::empty());
    }
    lemma_joined_prefix(text, tokens, tokens.len() as int);
    assert(tokens.take(tokens.len() as int) =~= tokens);
    assert(text@.take(tokens.len() as int) =~= text@);
}

/// Tokens that tile `src`, each lying in it, give back `src` when their
/// words are joined in order.
pub proof fn lemma_tiling_words_join_to_text(src: &str, tokens: Seq<CangjieToken>)
    requires
        tiles(src, tokens),
        all_lie_in(tokens, src),
    ensures
        joined_words(tokens) == src@,
{
    let bytes = src.spec_bytes();
    if tokens.len() == 0 {
        assert(decode_utf8(Seq::<u8>::empty()) =~= Seq::<char>::empty());
        assert(bytes =~= Seq::<u8>::empty());
        assert(src@ == decode_utf8(encode_utf8(src@)));
    } else {
        lemma_joined_bytes_prefix(src, tokens, tokens.len() as int);
        assert(tokens.take(tokens.len() as int) =~= tokens);
        assert(bytes.subrange(0, bytes.len() as int) =~= bytes);
        assert(joined_words(tokens) == decode_utf8(encode_utf8(joined_words(tokens))));
        assert(src@ == decode_utf8(encode_utf8(src@)));
    }
}

/// The first `k` tokens of a tiling, joined, encode to the bytes of `src`
/// up to where the `k`-th token ends.
proof fn lemma_joined_bytes_prefix(src: &str, tokens: Seq<CangjieToken>, k: int)
    requires
        tiles(src, tokens),
        all_lie_in(tokens, src),
        1 <= k <= tokens.len(),
    ensures
        encode_utf8(joined_words(tokens.take(k))) == src.spec_bytes().subrange(
            0,
            tokens[k - 1].byte_end as int,
        ),
    decreases k,
{
    let bytes = src.spec_bytes();
    let t = tokens[k - 1];
    assert(t.lies_in(src));
    assert(tokens.take(k).drop_last() =~= tokens.take(k - 1));
    assert(tokens.take(k).last() == t);
    lemma_encode_utf8_concat(joined_words(tokens.take(k - 1)), t.word@);
    if k == 1 {
        assert(joined_words(tokens.take(0)) =~= Seq::<char>::empty());
        assert(encode_utf8(Seq::<char>::empty()) =~= Seq::<u8>::empty());
        assert(encode_utf8(joined_words(tokens.take(k))) =~= bytes.subrange(0, t.byte_end as int));
    } else {
        lemma_joined_bytes_prefix(src, tokens, k - 1);
        assert(tokens[k - 2].byte_end == t.byte_start);
        assert(encode_utf8(joined_words(tokens.take(k))) =~= bytes.subrange(0, t.byte_end as int));
    }
}

/// Two token sequences that are both the character tokens of `text` agree
/// in every word and every byte range: cutting by character depends on the
/// text alone.
pub proof fn lemma_char_tokens_unique(text: &str, a: Seq<CangjieToken>, b: Seq<CangjieToken>)
    requires
        char_tokens(text, a),
        char_tokens(text, b),
    ensures
        token_views(a) == token_views(b),
{
    assert forall|i: int| 0 <= i < a.len() implies #[trigger] token_views(a)[i] == token_views(b)[i] by {
        assert(is_char_token(text, i, a[i]));
        assert(is_char_token(text, i, b[i]));
    }
    assert(token_views(a) =~= token_views(b));
}

/// The first `k` character tokens of `text`, joined, give the first `k`
/// characters of `text`.
proof fn lemma_joined_prefix(text: &str, tokens: Seq<CangjieToken>, k: int)
    requires
        char_tokens(text, tokens),
        0 <= k <= tokens.len(),
    ensures
        joined_words(tokens.take(k)) == text@.take(k),
    decreases k,
{
    if k == 0 {
        assert(text@.take(0) =~= Seq::<char>::empty());
    } else {
        lemma_joined_prefix(text, tokens, k - 1);
        assert(tokens.take(k).drop_last() =~= tokens.take(k - 1));
        assert(tokens.take(k).last() == tokens[k - 1]);
        assert(is_char_token(text, k - 1, tokens[k - 1]));
        assert(text@.take(k) =~= text@.take(k - 1) + seq![text@[k - 1]]);
    }
}

/// The number of bytes of the UTF-8 encoding of `c`.
pub fn utf8_width(c: char) -> (w: usize)
    ensures
        w == encode_scalar(c as u32).len(),
        1 <= w <= 4,
{
    let u = c as u32;
    if u < 0x80 {
        1
    } else if u < 0x800 {
        2
    } else if u < 0x10000 {
        3
    } else {
        4
    }
}

/// Encoding a concatenation concatenates the encodings.
pub proof fn lemma_encode_utf8_concat(a: Seq<char>, b: Seq<char>)
    ensures
        encode_utf8(a + b) == encode_utf8(a) + encode_utf8(b),
    decreases a.len(),
{
    if a.len() == 0 {
        assert(a + b =~= b);
        assert(encode_utf8(a) + encode_utf8(b) =~= encode_utf8(b));
    } else {
        lemma_encode_utf8_concat(a.drop_first(), b);
        assert((a + b).drop_first() =~= a.drop_first() + b);
        assert((a + b)[0] == a[0]);
        assert(encode_utf8(a + b) =~= encode_scalar(a[0] as u32) + (encode_utf8(a.drop_first())
            + encode_utf8(b)));
    }
}

/// The encoding of a non-empty sequence is the encoding of its first
/// character followed by that of the rest, and the first character ends on a
/// character boundary.
proof fn lemma_first_char_boundary(chars: Seq<char>)
    requires
        chars.len() > 0,
    ensures
        encode_utf8(chars) == encode_scalar(chars[0] as u32) + encode_utf8(chars.drop_first()),
        is_char_boundary(encode_utf8(chars), encode_scalar(chars[0] as u32).len() as int),
{
    let bytes = encode_utf8(chars);
    encode_utf8_first_scalar(chars);
    assert(pop_first_scalar(bytes) =~= encode_utf8(chars.drop_first()));
    reveal_with_fuel(is_char_boundary, 2);
}

/// One token per character of `text`, in order, each with the byte range its
/// encoding takes in `text`.
pub fn split_unicode<'a>(text: &'a str) -> (tokens: Vec<CangjieToken<'a>>)
    ensures
        char_tokens(text, tokens@),
        all_lie_in(tokens@, text),
{
    let total = text.as_bytes().len();
    let mut tokens: Vec<CangjieToken<'a>> = Vec::new();
    let mut rest: &'a str = text;
    let mut offset: usize = 0;
    proof {
        assert(text@.take(0) + rest@ =~= text@);
    }
    while !rest.is_empty()
        invariant
            total == text.spec_bytes().len(),
            tokens@.len() <= text@.len(),
            text@ == text@.take(tokens@.len() as int) + rest@,
            offset == encode_utf8(text@.take(tokens@.len() as int)).len(),
            forall|j: int| 0 <= j < tokens@.len() ==> is_char_token(text, j, #[trigger] tokens@[j]),
            all_lie_in(tokens@, text),
        decreases rest@.len(),
    {
        let ghost k = tokens@.len() as int;
        let ghost done = text@.take(k);
        let c = rest.get_char(0);
        let w = utf8_width(c);
        proof {
            lemma_first_char_boundary(rest@);
            lemma_encode_utf8_concat(done, rest@);
            assert(text@[k] == c);
            assert(text@.take(k + 1) =~= done + seq![c]);
            lemma_encode_utf8_concat(done, seq![c]);
            assert(encode_utf8(seq![c]) =~= encode_scalar(c as u32)) by {
                assert(seq![c].drop_first() =~= Seq::<char>::empty());
                assert(seq![c][0] == c);
                assert(encode_utf8(Seq::<char>::empty()) =~= Seq::<u8>::empty());
                assert(encode_utf8(seq![c]) == encode_scalar(c as u32) + encode_utf8(
                    seq![c].drop_first(),
                ));
            }
        }
        let (piece, tail) = rest.split_at(w);
        proof {
            let bytes = text.spec_bytes();
            assert(bytes =~= encode_utf8(done) + (encode_scalar(c as u32) + encode_utf8(
                rest@.drop_first(),
            )));
            assert(piece.spec_bytes() =~= encode_scalar(c as u32));
            assert(bytes.subrange(offset as int, offset + w) =~= encode_scalar(c as u32));
            assert(piece@ == decode_utf8(encode_utf8(piece@)));
            assert(piece@ == decode_utf8(encode_utf8(seq![c])));
            assert(tail.spec_bytes() =~= encode_utf8(rest@.drop_first()));
            assert(tail@ == decode_utf8(encode_utf8(rest@.drop_first())));
            assert(text@.take(k + 1) + tail@ =~= text@);
        }
        let t = CangjieToken::new(piece, offset, offset + w);
        tokens.push(t);
        offset = offset + w;
        rest = tail;
    }
    tokens
}

} // verus!
