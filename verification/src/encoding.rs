//! The encoding of a text: one record per token, in order.

use vstd::prelude::*;

verus! {

/// One token of an encoding with everything an encoding records about it.
pub struct Token {
    /// Vocabulary id
    pub id: u32,
    /// Sequence (type) id
    pub type_id: u32,
    /// The token's text
    pub value: String,
    /// Index of the word the token belongs to, if known
    pub word: Option<u32>,
    /// Byte range `(start, end)` of the token in the encoded text
    pub offsets: (usize, usize),
    /// 1 for a special token, 0 otherwise
    pub special: u32,
    /// Attention mask entry
    pub attention: u32,
}

/// `t` with `d` added to both ends of its byte range.
pub open spec fn shift_token(t: Token, d: int) -> Token {
    Token {
        id: t.id,
        type_id: t.type_id,
        value: t.value,
        word: t.word,
        offsets: ((t.offsets.0 + d) as usize, (t.offsets.1 + d) as usize),
        special: t.special,
        attention: t.attention,
    }
}

/// Every token of `s` with `d` added to its byte range.
pub open spec fn shifted(s: Seq<Token>, d: int) -> Seq<Token> {
    Seq::new(s.len(), |i: int| shift_token(s[i], d))
}

/// Adding `d` to the byte ranges of `s` stays within `usize`.
pub open spec fn shift_fits(s: Seq<Token>, d: int) -> bool {
    forall|i: int| 0 <= i < s.len() ==> #[trigger] s[i].offsets.1 + d <= usize::MAX && s[i].offsets.0 + d <= usize::MAX
}

/// The token starts before byte `pos`.
pub open spec fn starts_before(pos: int) -> spec_fn(Token) -> bool {
    |t: Token| t.offsets.0 < pos
}

/// `t` without its word id.
pub open spec fn without_word(t: Token) -> Token {
    Token { word: None, ..t }
}

/// Every token of `s` without its word id.
pub open spec fn without_words(s: Seq<Token>) -> Seq<Token> {
    Seq::new(s.len(), |i: int| without_word(s[i]))
}

/// Dropping word ids twice is dropping them once.
pub proof fn lemma_without_words_twice(s: Seq<Token>)
    ensures
        without_words(without_words(s)) == without_words(s),
{
    assert(without_words(without_words(s)) =~= without_words(s));
}

/// Dropping word ids distributes over concatenation.
pub proof fn lemma_without_words_concat(a: Seq<Token>, b: Seq<Token>)
    ensures
        without_words(a + b) == without_words(a) + without_words(b),
{
    assert(without_words(a + b) =~= without_words(a) + without_words(b));
}

/// Filtering by a test on byte ranges alone commutes with dropping word ids.
pub proof fn lemma_filter_without_words(s: Seq<Token>, p: spec_fn(Token) -> bool)
    requires
        forall|t: Token| #[trigger] p(without_word(t)) == p(t),
    ensures
        without_words(s.filter(p)) == without_words(s).filter(p),
    decreases s.len(),
{
    reveal(Seq::filter);
    if s.len() > 0 {
        let w = without_words(s);
        lemma_filter_without_words(s.drop_last(), p);
        assert(w.drop_last() =~= without_words(s.drop_last()));
        assert(w.last() == without_word(s.last()));
        assert(p(without_word(s.last())) == p(s.last()));
        let sub = s.drop_last().filter(p);
        assert(without_words(sub.push(s.last())) =~= without_words(sub).push(without_word(s.last())));
    }
}

/// The token starts at or after byte `pos`.
pub open spec fn starts_at_or_after(pos: int) -> spec_fn(Token) -> bool {
    |t: Token| t.offsets.0 >= pos
}

/// The tokens of an encoding, in order.
pub struct Encoding {
    tokens: Vec<Token>,
}

impl View for Encoding {
    type V = Seq<Token>;

    closed spec fn view(&self) -> Seq<Token> {
        self.tokens@
    }
}

impl Encoding {
    /// An encoding holding `tokens` in order.
    pub fn from_tokens(tokens: Vec<Token>) -> (r: Encoding)
        ensures
            r@ == tokens@,
    {
        Encoding { tokens }
    }

    /// The tokens, in order.
    pub fn into_tokens(self) -> (r: Vec<Token>)
        ensures
            r@ == self@,
    {
        self.tokens
    }

    /// An empty encoding with room reserved for `len` tokens.
    pub fn with_capacity(len: usize) -> (r: Encoding)
        ensures
            r@ == Seq::<Token>::empty(),
    {
        Encoding { tokens: Vec::with_capacity(len) }
    }

    /// An encoding from parallel per-token columns, which must have one entry
    /// per token each.
    pub fn new(
        ids: Vec<u32>,
        type_ids: Vec<u32>,
        tokens: Vec<String>,
        words: Vec<Option<u32>>,
        offsets: Vec<(usize, usize)>,
        special_tokens_mask: Vec<u32>,
        attention_mask: Vec<u32>,
    ) -> (r: Encoding)
        requires
            type_ids@.len() == ids@.len(),
            tokens@.len() == ids@.len(),
            words@.len() == ids@.len(),
            offsets@.len() == ids@.len(),
            special_tokens_mask@.len() == ids@.len(),
            attention_mask@.len() == ids@.len(),
        ensures
            r@.len() == ids@.len(),
            forall|i: int| 0 <= i < ids@.len() ==> (#[trigger] r@[i]) == (Token {
                id: ids@[i],
                type_id: type_ids@[i],
                value: tokens@[i],
                word: words@[i],
                offsets: offsets@[i],
                special: special_tokens_mask@[i],
                attention: attention_mask@[i],
            }),
    {
        let n = ids.len();
        let mut all: Vec<Token> = Vec::with_capacity(n);
        let mut i: usize = 0;
        while i < n
            invariant
                n == ids@.len(),
                type_ids@.len() == n,
                tokens@.len() == n,
                words@.len() == n,
                offsets@.len() == n,
                special_tokens_mask@.len() == n,
                attention_mask@.len() == n,
                0 <= i <= n,
                all@.len() == i,
                forall|k: int| 0 <= k < i ==> (#[trigger] all@[k]) == (Token {
                    id: ids@[k],
                    type_id: type_ids@[k],
                    value: tokens@[k],
                    word: words@[k],
                    offsets: offsets@[k],
                    special: special_tokens_mask@[k],
                    attention: attention_mask@[k],
                }),
            decreases n - i,
        {
            all.push(Token {
                id: ids[i],
                type_id: type_ids[i],
                value: tokens[i].clone(),
                word: words[i],
                offsets: offsets[i],
                special: special_tokens_mask[i],
                attention: attention_mask[i],
            });
            i += 1;
        }
        Encoding { tokens: all }
    }

    /// The vocabulary ids, in order.
    pub fn get_ids(&self) -> (r: Vec<u32>)
        ensures
            r@ == self@.map_values(|t: Token| t.id),
    {
        let mut r: Vec<u32> = Vec::new();
        let mut i: usize = 0;
        while i < self.tokens.len()
            invariant
                0 <= i <= self@.len(),
                r@ == self@.take(i as int).map_values(|t: Token| t.id),
            decreases self@.len() - i,
        {
            r.push(self.tokens[i].id);
            i += 1;
            assert(self@.take(i as int).map_values(|t: Token| t.id) =~= self@.take(i - 1).map_values(|t: Token| t.id).push(self@[i - 1].id));
        }
        assert(self@.take(self@.len() as int) =~= self@);
        r
    }

    /// The sequence (type) ids, in order.
    pub fn get_type_ids(&self) -> (r: Vec<u32>)
        ensures
            r@ == self@.map_values(|t: Token| t.type_id),
    {
        let mut r: Vec<u32> = Vec::new();
        let mut i: usize = 0;
        while i < self.tokens.len()
            invariant
                0 <= i <= self@.len(),
                r@ == self@.take(i as int).map_values(|t: Token| t.type_id),
            decreases self@.len() - i,
        {
            r.push(self.tokens[i].type_id);
            i += 1;
            assert(self@.take(i as int).map_values(|t: Token| t.type_id) =~= self@.take(i - 1).map_values(|t: Token| t.type_id).push(self@[i - 1].type_id));
        }
        assert(self@.take(self@.len() as int) =~= self@);
        r
    }

    /// The token texts, in order.
    pub fn get_tokens(&self) -> (r: Vec<String>)
        ensures
            r@ == self@.map_values(|t: Token| t.value),
    {
        let mut r: Vec<String> = Vec::new();
        let mut i: usize = 0;
        while i < self.tokens.len()
            invariant
                0 <= i <= self@.len(),
                r@ == self@.take(i as int).map_values(|t: Token| t.value),
            decreases self@.len() - i,
        {
            r.push(self.tokens[i].value.clone());
            i += 1;
            assert(self@.take(i as int).map_values(|t: Token| t.value) =~= self@.take(i - 1).map_values(|t: Token| t.value).push(self@[i - 1].value));
        }
        assert(self@.take(self@.len() as int) =~= self@);
        r
    }

    /// The word indices, in order.
    pub fn get_word_ids(&self) -> (r: Vec<Option<u32>>)
        ensures
            r@ == self@.map_values(|t: Token| t.word),
    {
        let mut r: Vec<Option<u32>> = Vec::new();
        let mut i: usize = 0;
        while i < self.tokens.len()
            invariant
                0 <= i <= self@.len(),
                r@ == self@.take(i as int).map_values(|t: Token| t.word),
            decreases self@.len() - i,
        {
            r.push(self.tokens[i].word);
            i += 1;
            assert(self@.take(i as int).map_values(|t: Token| t.word) =~= self@.take(i - 1).map_values(|t: Token| t.word).push(self@[i - 1].word));
        }
        assert(self@.take(self@.len() as int) =~= self@);
        r
    }

    /// The byte ranges, in order.
    pub fn get_offsets(&self) -> (r: Vec<(usize, usize)>)
        ensures
            r@ == self@.map_values(|t: Token| t.offsets),
    {
        let mut r: Vec<(usize, usize)> = Vec::new();
        let mut i: usize = 0;
        while i < self.tokens.len()
            invariant
                0 <= i <= self@.len(),
                r@ == self@.take(i as int).map_values(|t: Token| t.offsets),
            decreases self@.len() - i,
        {
            r.push(self.tokens[i].offsets);
            i += 1;
            assert(self@.take(i as int).map_values(|t: Token| t.offsets) =~= self@.take(i - 1).map_values(|t: Token| t.offsets).push(self@[i - 1].offsets));
        }
        assert(self@.take(self@.len() as int) =~= self@);
        r
    }

    /// The special-token mask, in order.
    pub fn get_special_tokens_mask(&self) -> (r: Vec<u32>)
        ensures
            r@ == self@.map_values(|t: Token| t.special),
    {
        let mut r: Vec<u32> = Vec::new();
        let mut i: usize = 0;
        while i < self.tokens.len()
            invariant
                0 <= i <= self@.len(),
                r@ == self@.take(i as int).map_values(|t: Token| t.special),
            decreases self@.len() - i,
        {
            r.push(self.tokens[i].special);
            i += 1;
            assert(self@.take(i as int).map_values(|t: Token| t.special) =~= self@.take(i - 1).map_values(|t: Token| t.special).push(self@[i - 1].special));
        }
        assert(self@.take(self@.len() as int) =~= self@);
        r
    }

    /// The attention mask, in order.
    pub fn get_attention_mask(&self) -> (r: Vec<u32>)
        ensures
            r@ == self@.map_values(|t: Token| t.attention),
    {
        let mut r: Vec<u32> = Vec::new();
        let mut i: usize = 0;
        while i < self.tokens.len()
            invariant
                0 <= i <= self@.len(),
                r@ == self@.take(i as int).map_values(|t: Token| t.attention),
            decreases self@.len() - i,
        {
            r.push(self.tokens[i].attention);
            i += 1;
            assert(self@.take(i as int).map_values(|t: Token| t.attention) =~= self@.take(i - 1).map_values(|t: Token| t.attention).push(self@[i - 1].attention));
        }
        assert(self@.take(self@.len() as int) =~= self@);
        r
    }

    /// Number of tokens.
    pub fn len(&self) -> (r: usize)
        ensures
            r == self@.len(),
    {
        self.tokens.len()
    }

    /// No tokens.
    pub fn is_empty(&self) -> (r: bool)
        ensures
            r == (self@.len() == 0),
    {
        self.tokens.len() == 0
    }

    /// The token at `i`.
    pub fn token(&self, i: usize) -> (r: &Token)
        requires
            i < self@.len(),
        ensures
            *r == self@[i as int],
    {
        &self.tokens[i]
    }

    /// Append the tokens of `pair`; with `growing_offsets`, the byte ranges of
    /// `pair` are moved past the end of the last token of `self`.
    pub fn merge_with(&mut self, pair: Encoding, growing_offsets: bool)
        requires
            growing_offsets && old(self)@.len() > 0 ==> shift_fits(pair@, old(self)@.last().offsets.1 as int),
        ensures
            final(self)@ == old(self)@ + shifted(
                pair@,
                if growing_offsets && old(self)@.len() > 0 { old(self)@.last().offsets.1 as int } else { 0 },
            ),
    {
        let starting_offset = if growing_offsets && self.tokens.len() > 0 {
            self.tokens[self.tokens.len() - 1].offsets.1
        } else {
            0
        };
        let mut pair = pair;
        if starting_offset > 0 {
            pair.shift_all_offsets(starting_offset);
        } else {
            assert(pair@ =~= shifted(pair@, 0));
        }
        let mut rest = pair.tokens;
        self.tokens.append(&mut rest);
    }

    /// Keep only the tokens that start before byte `position`, in order.
    pub fn filter_tokens_starting_before(&mut self, position: usize)
        ensures
            final(self)@ == old(self)@.filter(starts_before(position as int)),
    {
        let mut old_tokens: Vec<Token> = Vec::new();
        std::mem::swap(&mut old_tokens, &mut self.tokens);
        let ghost all = old_tokens@;
        let mut kept: Vec<Token> = Vec::new();
        for t in iter: old_tokens
            invariant
                iter.seq() == all,
                kept@ == all.take(iter.index() as int).filter(starts_before(position as int)),
        {
            proof {
                assert(all.take(iter.index() + 1) =~= all.take(iter.index() as int).push(all[iter.index() as int]));
                all.take(iter.index() as int).lemma_filter_push(all[iter.index() as int], starts_before(position as int));
            }
            if t.offsets.0 < position {
                kept.push(t);
            }
        }
        assert(all.take(all.len() as int) =~= all);
        self.tokens = kept;
    }

    /// Keep only the tokens that start at or after byte `position`, in order.
    pub fn filter_tokens_starting_at_or_after(&mut self, position: usize)
        ensures
            final(self)@ == old(self)@.filter(starts_at_or_after(position as int)),
    {
        let mut old_tokens: Vec<Token> = Vec::new();
        std::mem::swap(&mut old_tokens, &mut self.tokens);
        let ghost all = old_tokens@;
        let mut kept: Vec<Token> = Vec::new();
        for t in iter: old_tokens
            invariant
                iter.seq() == all,
                kept@ == all.take(iter.index() as int).filter(starts_at_or_after(position as int)),
        {
            proof {
                assert(all.take(iter.index() + 1) =~= all.take(iter.index() as int).push(all[iter.index() as int]));
                all.take(iter.index() as int).lemma_filter_push(all[iter.index() as int], starts_at_or_after(position as int));
            }
            if t.offsets.0 >= position {
                kept.push(t);
            }
        }
        assert(all.take(all.len() as int) =~= all);
        self.tokens = kept;
    }

    /// Drop the word id of every token.
    pub fn clear_word_ids(&mut self)
        ensures
            final(self)@ == without_words(old(self)@),
    {
        let n = self.tokens.len();
        let mut i: usize = 0;
        while i < n
            invariant
                n == old(self)@.len(),
                self.tokens@.len() == n,
                0 <= i <= n,
                forall|k: int| 0 <= k < i ==> self.tokens@[k] == without_word(old(self)@[k]),
                forall|k: int| i <= k < n ==> self.tokens@[k] == old(self)@[k],
            decreases n - i,
        {
            self.tokens[i].word = None;
            i += 1;
        }
        assert(self.tokens@ =~= without_words(old(self)@));
    }

    /// Add `delta` to the byte range of every token.
    pub fn shift_all_offsets(&mut self, delta: usize)
        requires
            shift_fits(old(self)@, delta as int),
        ensures
            final(self)@ == shifted(old(self)@, delta as int),
    {
        let n = self.tokens.len();
        let mut i: usize = 0;
        while i < n
            invariant
                n == old(self)@.len(),
                self.tokens@.len() == n,
                0 <= i <= n,
                shift_fits(old(self)@, delta as int),
                forall|k: int| 0 <= k < i ==> self.tokens@[k] == shift_token(old(self)@[k], delta as int),
                forall|k: int| i <= k < n ==> self.tokens@[k] == old(self)@[k],
            decreases n - i,
        {
            let (start, end) = self.tokens[i].offsets;
            assert(old(self)@[i as int].offsets.1 + delta <= usize::MAX);
            self.tokens[i].offsets = (start + delta, end + delta);
            i += 1;
        }
        assert(self.tokens@ =~= shifted(old(self)@, delta as int));
    }
}

} // verus!
