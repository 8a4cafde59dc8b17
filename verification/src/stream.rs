use vstd::prelude::*;
use vstd::string::StringSliceAdditionalSpecFns;
use vstd::utf8::*;

verus! {

broadcast use encode_utf8_valid_utf8;

/// A word cut from a source text, with the byte range it occupies there.
#[derive(Debug)]
pub struct CangjieToken<'a> {
    pub word: &'a str,
    pub byte_start: usize,
    pub byte_end: usize,
}

impl<'a> CangjieToken<'a> {
    pub fn new(word: &'a str, byte_start: usize, byte_end: usize) -> (t: Self)
        ensures
            t.word == word,
            t.byte_start == byte_start,
            t.byte_end == byte_end,
    {
        CangjieToken { word, byte_start, byte_end }
    }

    /// The token's range lies in `src`, and its word is exactly the bytes of
    /// `src` in that range.
    pub open spec fn lies_in(self, src: &str) -> bool {
        &&& self.byte_start <= self.byte_end <= src.spec_bytes().len()
        &&& self.word.spec_bytes() == src.spec_bytes().subrange(
            self.byte_start as int,
            self.byte_end as int,
        )
    }
}

/// Every token of `tokens` lies in `src`.
pub open spec fn all_lie_in<'a>(tokens: Seq<CangjieToken<'a>>, src: &str) -> bool {
    forall|i: int| 0 <= i < tokens.len() ==> (#[trigger] tokens[i]).lies_in(src)
}

/// The tokens cut `src` into consecutive non-empty pieces: the first starts
/// at byte 0, each ends where the next starts, the last ends at the end of
/// `src`, and there are none exactly when `src` is empty.
pub open spec fn tiles<'a>(src: &str, tokens: Seq<CangjieToken<'a>>) -> bool {
    &&& (tokens.len() == 0) == (src.spec_bytes().len() == 0)
    &&& tokens.len() > 0 ==> tokens[0].byte_start == 0
    &&& tokens.len() > 0 ==> tokens.last().byte_end == src.spec_bytes().len()
    &&& forall|i: int| 0 <= i < tokens.len() ==> (#[trigger] tokens[i]).byte_start < tokens[i].byte_end
    &&& forall|i: int|
        0 <= i < tokens.len() - 1 ==> (#[trigger] tokens[i]).byte_end == tokens[i + 1].byte_start
}

/// The byte at `p` lies in one of `tokens`.
pub open spec fn byte_in_some_token<'a>(tokens: Seq<CangjieToken<'a>>, p: int) -> bool {
    exists|i: int| 0 <= i < tokens.len() && (#[trigger] tokens[i]).byte_start <= p < tokens[i].byte_end
}

/// Every byte of `src` lies in a token of a tiling of `src`.
pub proof fn lemma_tiling_covers_every_byte<'a>(src: &str, tokens: Seq<CangjieToken<'a>>)
    requires
        tiles(src, tokens),
    ensures
        forall|p: int| 0 <= p < src.spec_bytes().len() ==> #[trigger] byte_in_some_token(tokens, p),
{
    assert forall|p: int| 0 <= p < src.spec_bytes().len() implies #[trigger] byte_in_some_token(
        tokens,
        p,
    ) by {
        lemma_tiling_prefix_covers(src, tokens, tokens.len() - 1, p);
    }
}

/// A byte before the end of the `k`-th token of a tiling lies in one of the
/// first `k + 1` tokens.
proof fn lemma_tiling_prefix_covers<'a>(src: &str, tokens: Seq<CangjieToken<'a>>, k: int, p: int)
    requires
        tiles(src, tokens),
        0 <= k < tokens.len(),
        0 <= p < tokens[k].byte_end,
    ensures
        exists|i: int| 0 <= i <= k && (#[trigger] tokens[i]).byte_start <= p < tokens[i].byte_end,
    decreases k,
{
    if p >= tokens[k].byte_start {
        assert(tokens[k].byte_start <= p < tokens[k].byte_end);
    } else {
        assert(k > 0);
        assert(tokens[k - 1].byte_end == tokens[k].byte_start);
        lemma_tiling_prefix_covers(src, tokens, k - 1, p);
    }
}

/// Each token as its word's characters and its byte range.
pub open spec fn token_views<'a>(tokens: Seq<CangjieToken<'a>>) -> Seq<(Seq<char>, usize, usize)> {
    tokens.map_values(|t: CangjieToken<'a>| (t.word@, t.byte_start, t.byte_end))
}

/// The token a stream hands out: its text, the byte range of that text in the
/// source, and its position counted in tokens.
#[derive(Debug, Clone)]
pub struct Token {
    pub offset_from: usize,
    pub offset_to: usize,
    pub position: usize,
    pub text: String,
    pub position_length: usize,
}

impl Token {
    /// The token a stream holds before its first advance.
    pub open spec fn is_blank(self) -> bool {
        &&& self.offset_from == 0
        &&& self.offset_to == 0
        &&& self.position == usize::MAX
        &&& self.text@ == Seq::<char>::empty()
        &&& self.position_length == 1
    }

    /// `self` is what a stream hands out for `word` as its token number `position`.
    pub open spec fn emitted_for(self, word: CangjieToken, position: int) -> bool {
        &&& self.offset_from == word.byte_start
        &&& self.offset_to == word.byte_end
        &&& self.position == position
        &&& self.text@ == word.word@
        &&& self.position_length == 1
    }
}

impl Token {
    /// The two tokens agree in every field, their texts as characters.
    pub open spec fn same_as(self, other: Token) -> bool {
        &&& self.offset_from == other.offset_from
        &&& self.offset_to == other.offset_to
        &&& self.position == other.position
        &&& self.text@ == other.text@
        &&& self.position_length == other.position_length
    }
}

impl Default for Token {
    fn default() -> (t: Token)
        ensures
            t.is_blank(),
    {
        Token {
            offset_from: 0,
            offset_to: 0,
            position: usize::MAX,
            text: String::new(),
            position_length: 1,
        }
    }
}

/// A byte range of `src` that starts and ends on character boundaries.
pub open spec fn span_fits(src: &str, span: (usize, usize)) -> bool {
    &&& span.0 <= span.1 <= src.spec_bytes().len()
    &&& is_char_boundary(src.spec_bytes(), span.0 as int)
    &&& is_char_boundary(src.spec_bytes(), span.1 as int)
}

/// A stream of the tokens cut from a text, handed out one at a time.
#[derive(Debug)]
pub struct CangjieTokenStream<'a> {
    result: Vec<CangjieToken<'a>>,
    index: usize,
    token: Token,
}

impl<'a> CangjieTokenStream<'a> {
    /// The words the stream hands out, in order.
    pub closed spec fn tokens(&self) -> Seq<CangjieToken<'a>> {
        self.result@
    }

    /// How many words have been handed out so far.
    pub closed spec fn cursor(&self) -> nat {
        self.index as nat
    }

    /// The token last handed out.
    pub closed spec fn current(&self) -> Token {
        self.token
    }

    /// `next` is what one advance leaves of `prev`, returning `r`: while
    /// words are left, the next one becomes the current token, numbered by
    /// how many were out before it; after that, `false` and nothing changes.
    pub open spec fn advances_to(prev: Self, next: Self, r: bool) -> bool {
        &&& next.tokens() == prev.tokens()
        &&& r == (prev.cursor() < prev.tokens().len())
        &&& r ==> next.cursor() == prev.cursor() + 1
        &&& r ==> next.current().emitted_for(
            prev.tokens()[prev.cursor() as int],
            prev.cursor() as int,
        )
        &&& !r ==> next == prev
    }

    /// Advancing a stream that has not started, again and again: the stream
    /// answers `true` exactly as many times as it has words, then `false`
    /// for good; after `k` advances that answered `true`, the current token
    /// is the `k`-th word, numbered `k - 1`.
    pub proof fn lemma_advances_hand_out_in_order(states: Seq<Self>, results: Seq<bool>)
        requires
            states.len() == results.len() + 1,
            states[0].cursor() == 0,
            forall|i: int|
                0 <= i < results.len() ==> Self::advances_to(
                    #[trigger] states[i],
                    states[i + 1],
                    results[i],
                ),
        ensures
            forall|k: int| 0 <= k <= results.len() ==> (#[trigger] states[k]).tokens() == states[0].tokens(),
            forall|k: int|
                0 <= k < results.len() ==> #[trigger] results[k] == (k < states[0].tokens().len()),
            forall|k: int|
                0 <= k <= results.len() ==> (#[trigger] states[k]).cursor() == if k
                    < states[0].tokens().len() {
                    k
                } else {
                    states[0].tokens().len() as int
                },
            forall|k: int|
                0 < k <= results.len() && k <= states[0].tokens().len() ==> (#[trigger] states[k]).current().emitted_for(
                    states[0].tokens()[k - 1],
                    k - 1,
                ),
        decreases results.len(),
    {
        if results.len() > 0 {
            let n = results.len() - 1;
            Self::lemma_advances_hand_out_in_order(states.take(n + 1), results.take(n));
            assert(Self::advances_to(states[n], states[n + 1], results[n]));
            assert forall|k: int| 0 <= k <= n implies (#[trigger] states[k]) == states.take(n + 1)[k] by {}
            assert forall|k: int| 0 <= k < n implies (#[trigger] results[k]) == results.take(n)[k] by {}
        }
    }

    /// What an advance does depends on the words and on how many are out,
    /// never on the current token: two streams that differ at most in their
    /// current token (say, one had it rewritten through `token_mut`) answer
    /// alike, and after a `true` answer hold the same token.
    pub proof fn lemma_advance_ignores_current(
        p1: Self,
        p2: Self,
        n1: Self,
        n2: Self,
        r1: bool,
        r2: bool,
    )
        requires
            p1.tokens() == p2.tokens(),
            p1.cursor() == p2.cursor(),
            Self::advances_to(p1, n1, r1),
            Self::advances_to(p2, n2, r2),
        ensures
            r1 == r2,
            n1.tokens() == n2.tokens(),
            n1.cursor() == n2.cursor(),
            r1 ==> n1.current().same_as(n2.current()),
    {
    }

    /// Every token an advance hands out spans one position, whatever the
    /// length of its word, and is numbered by how many tokens were out
    /// before it; its text and offsets are those of the word.
    pub proof fn lemma_handed_out_token_spans_one_position(prev: Self, next: Self)
        requires
            Self::advances_to(prev, next, true),
        ensures
            next.current().position_length == 1,
            next.current().position == prev.cursor(),
            next.current().text@ == prev.tokens()[prev.cursor() as int].word@,
            next.current().offset_from == prev.tokens()[prev.cursor() as int].byte_start,
            next.current().offset_to == prev.tokens()[prev.cursor() as int].byte_end,
    {
    }

    /// A stream that hands out `result` in order, not started yet.
    pub fn from_tokens(result: Vec<CangjieToken<'a>>) -> (s: Self)
        ensures
            s.tokens() == result@,
            s.cursor() == 0,
            s.current().is_blank(),
    {
        CangjieTokenStream { result, index: 0, token: Token::default() }
    }

    /// A stream of the pieces of `src` that `spans` give as byte ranges, in
    /// the order of `spans`. Every range must lie in `src` and start and end
    /// on character boundaries, as the ranges of slices borrowed from `src` do.
    pub fn new(src: &'a str, spans: Vec<(usize, usize)>) -> (s: Self)
        requires
            forall|i: int| 0 <= i < spans@.len() ==> span_fits(src, #[trigger] spans@[i]),
        ensures
            s.cursor() == 0,
            s.current().is_blank(),
            s.tokens().len() == spans@.len(),
            all_lie_in(s.tokens(), src),
            forall|i: int|
                0 <= i < spans@.len() ==> {
                    &&& (#[trigger] s.tokens()[i]).byte_start == spans@[i].0
                    &&& s.tokens()[i].byte_end == spans@[i].1
                },
    {
        let mut result: Vec<CangjieToken<'a>> = Vec::new();
        let mut i: usize = 0;
        while i < spans.len()
            invariant
                i <= spans@.len(),
                result@.len() == i,
                forall|j: int| 0 <= j < spans@.len() ==> span_fits(src, #[trigger] spans@[j]),
                all_lie_in(result@, src),
                forall|j: int| 0 <= j < i ==> {
                    &&& (#[trigger] result@[j]).byte_start == spans@[j].0
                    &&& result@[j].byte_end == spans@[j].1
                },
            decreases spans@.len() - i,
        {
            let (s, e) = spans[i];
            assert(span_fits(src, spans@[i as int]));
            let word = byte_slice(src, s, e);
            result.push(CangjieToken::new(word, s, e));
            i = i + 1;
        }
        Self::from_tokens(result)
    }

    /// Hands out the next word as the current token, numbered by its place
    /// in the stream; `false`, with nothing changed, once all are out.
    pub fn advance(&mut self) -> (r: bool)
        ensures
            Self::advances_to(*old(self), *final(self), r),
            r ==> final(self).current().position_length == 1,
            r ==> final(self).current().position == old(self).cursor(),
            r ==> final(self).current().offset_from == old(self).tokens()[old(self).cursor() as int].byte_start,
            r ==> final(self).current().offset_to == old(self).tokens()[old(self).cursor() as int].byte_end,
            r ==> final(self).current().text@ == old(self).tokens()[old(self).cursor() as int].word@,
    {
        if self.index < self.result.len() {
            let current_token = &self.result[self.index];
            self.token = Token {
                offset_from: current_token.byte_start,
                offset_to: current_token.byte_end,
                position: self.index,
                text: current_token.word.to_owned(),
                position_length: 1,
            };
            self.index = self.index + 1;
            true
        } else {
            false
        }
    }

    /// The token last handed out.
    pub fn token(&self) -> (t: &Token)
        ensures
            *t == self.current(),
    {
        &self.token
    }

    /// The token last handed out, for token filters to change in place.
    pub fn token_mut(&mut self) -> (t: &mut Token)
        ensures
            *t == old(self).current(),
            final(self).tokens() == old(self).tokens(),
            final(self).cursor() == old(self).cursor(),
            final(self).current() == *final(t),
    {
        &mut self.token
    }
}

/// A token handed out for a word that lies in `src` has as its text exactly
/// the bytes of `src` between its two offsets.
pub proof fn lemma_emitted_text_is_source_bytes(
    src: &str,
    word: CangjieToken,
    position: int,
    token: Token,
)
    requires
        word.lies_in(src),
        token.emitted_for(word, position),
    ensures
        token.offset_from <= token.offset_to <= src.spec_bytes().len(),
        encode_utf8(token.text@) == src.spec_bytes().subrange(
            token.offset_from as int,
            token.offset_to as int,
        ),
{
}

/// Where a slice that starts at address `start` and is `len` bytes long lies
/// in a text that starts at address `base` and is `src_len` bytes long, as a
/// byte range of that text; `None` when the slice does not lie inside it.
pub fn span_in(base: usize, src_len: usize, start: usize, len: usize) -> (r: Option<(usize, usize)>)
    ensures
        r is Some <==> base <= start && start + len <= base + src_len,
        r matches Some(sp) ==> sp.0 == start - base && sp.1 == start - base + len,
{
    if start < base {
        return None;
    }
    let offset = start - base;
    if offset <= src_len && len <= src_len - offset {
        Some((offset, offset + len))
    } else {
        None
    }
}

/// The piece of `src` between two character boundaries.
fn byte_slice<'b>(src: &'b str, s: usize, e: usize) -> (w: &'b str)
    requires
        span_fits(src, (s, e)),
    ensures
        w.spec_bytes() == src.spec_bytes().subrange(s as int, e as int),
{
    let (head, _) = src.split_at(e);
    proof {
        lemma_boundary_in_prefix(src.spec_bytes(), e as int, s as int);
    }
    let (_, w) = head.split_at(s);
    w
}

/// A character boundary before a boundary `e` stays one in the first `e` bytes.
proof fn lemma_boundary_in_prefix(bytes: Seq<u8>, e: int, s: int)
    requires
        valid_utf8(bytes),
        0 <= s <= e <= bytes.len(),
        is_char_boundary(bytes, e),
        is_char_boundary(bytes, s),
    ensures
        is_char_boundary(bytes.subrange(0, e), s),
{
    valid_utf8_split(bytes, e);
    let p = bytes.subrange(0, e);
    if s == e {
        is_char_boundary_start_end_of_seq(p);
    } else if s > 0 {
        is_char_boundary_iff_not_is_continuation_byte(bytes, s);
        is_char_boundary_iff_not_is_continuation_byte(p, s);
        assert(p[s] == bytes[s]);
    }
}

} // verus!
