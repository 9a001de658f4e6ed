//! When parallel encoding gives the serial encoding.
//!
//! Chunks are encoded with overlapping context, and each keeps only the
//! tokens in its own region. That reproduces the serial encoding, up to word
//! ids, when the encoder is local: encoding a piece of the text yields the
//! serial tokens, except near the piece's cut ends and in the numbering of
//! words.

use vstd::prelude::*;
use crate::encoding::{
    lemma_filter_without_words, lemma_without_words_concat, shifted, starts_at_or_after, starts_before, without_word,
    without_words, Encoding, Token,
};
use crate::lazy_encoding::{
    cut_point, is_partition_point, lemma_cut_point, lemma_filter_drops_all, lemma_filter_keeps_all, lemma_partition_filters,
    lemma_tokens_sorted,
    starts_sorted,
};
use crate::lazy_encoding::LazyEncoding;
use crate::config::ParallelConfig;
use crate::recursive::{
    chunk_overlap, chunk_split, encoder_offsets_within, is_base_case, lemma_parts_are_filters, left_end_of, left_part, merged_halves,
    minus_saturating, offsets_within, recursive_outcome, right_part, right_start_of, serial_outcome, traced_outcome,
    RecursionTrace,
};
use crate::split_point::{
    bytes_of, clamp_to, lemma_next_boundary_exists, lemma_next_boundary_near, lemma_overlap_bounds, next_boundary,
    overlap_size,
};
use crate::streaming::{
    block_end, block_start, blocks_agree_up_to_words, blocks_encoded, blocks_from, blocks_in_order, blocks_partition,
    kept_in_block, lemma_blocks_partition, lemma_blocks_reassemble_up_to_words, merged_blocks, parallel_streaming_outcome,
};
use vstd::utf8::{is_char_boundary, valid_utf8};

verus! {

// =============================================================================
// REGIONS OF AN ENCODING
// =============================================================================

/// The token starts within bytes `[x, y)`.
pub open spec fn starts_in(x: int, y: int) -> spec_fn(Token) -> bool {
    |t: Token| x <= t.offsets.0 && t.offsets.0 < y
}

/// The tokens of `s` that start within bytes `[x, y)`, in order.
pub open spec fn in_region(s: Seq<Token>, x: int, y: int) -> Seq<Token> {
    s.filter(starts_in(x, y))
}

/// Filtering by two predicates that agree on every element keeps the same.
pub proof fn lemma_filter_same(s: Seq<Token>, p: spec_fn(Token) -> bool, q: spec_fn(Token) -> bool)
    requires
        forall|i: int| 0 <= i < s.len() ==> p(#[trigger] s[i]) == q(s[i]),
    ensures
        s.filter(p) == s.filter(q),
    decreases s.len(),
{
    reveal(Seq::filter);
    if s.len() > 0 {
        lemma_filter_same(s.drop_last(), p, q);
        assert(p(s.last()) == q(s[s.len() - 1]));
    }
}

/// Filtering twice is filtering by both predicates.
pub proof fn lemma_filter_twice(s: Seq<Token>, p: spec_fn(Token) -> bool, q: spec_fn(Token) -> bool)
    ensures
        s.filter(p).filter(q) == s.filter(|t: Token| p(t) && q(t)),
    decreases s.len(),
{
    reveal(Seq::filter);
    if s.len() > 0 {
        lemma_filter_twice(s.drop_last(), p, q);
        let inner = s.drop_last().filter(p);
        if p(s.last()) {
            assert(s.filter(p) == inner.push(s.last()));
            inner.lemma_filter_push(s.last(), q);
        }
    }
}

/// A region of a region is the intersection of the two.
pub proof fn lemma_region_of_region(s: Seq<Token>, x1: int, y1: int, x2: int, y2: int)
    ensures
        in_region(in_region(s, x1, y1), x2, y2) == in_region(
            s,
            if x1 >= x2 { x1 } else { x2 },
            if y1 <= y2 { y1 } else { y2 },
        ),
{
    let x = if x1 >= x2 { x1 } else { x2 };
    let y = if y1 <= y2 { y1 } else { y2 };
    lemma_filter_twice(s, starts_in(x1, y1), starts_in(x2, y2));
    lemma_filter_same(s, |t: Token| starts_in(x1, y1)(t) && starts_in(x2, y2)(t), starts_in(x, y));
}

/// The tokens starting before `p` that start within `[x, y)` are those within
/// `[x, min(y, p))`; those starting at or after `p`, those within
/// `[max(x, p), y)`.
pub proof fn lemma_region_of_sides(s: Seq<Token>, p: int, x: int, y: int)
    ensures
        in_region(s.filter(starts_before(p)), x, y) == in_region(s, x, if y <= p { y } else { p }),
        in_region(s.filter(starts_at_or_after(p)), x, y) == in_region(s, if x >= p { x } else { p }, y),
{
    lemma_filter_twice(s, starts_before(p), starts_in(x, y));
    lemma_filter_same(s, |t: Token| starts_before(p)(t) && starts_in(x, y)(t), starts_in(x, if y <= p { y } else { p }));
    lemma_filter_twice(s, starts_at_or_after(p), starts_in(x, y));
    lemma_filter_same(
        s,
        |t: Token| starts_at_or_after(p)(t) && starts_in(x, y)(t),
        starts_in(if x >= p { x } else { p }, y),
    );
}

/// With sorted starts, the part of a region before `p` followed by the part
/// at or after `p` is the whole region.
pub proof fn lemma_region_split(s: Seq<Token>, p: int, x: int, y: int)
    requires
        starts_sorted(s),
    ensures
        in_region(s, x, if y <= p { y } else { p }) + in_region(s, if x >= p { x } else { p }, y) == in_region(s, x, y),
{
    let k = cut_point(s, p);
    lemma_cut_point(s, p);
    let a = s.take(k);
    let b = s.skip(k);
    assert(s =~= a + b);
    let lo = starts_in(x, if y <= p { y } else { p });
    let hi = starts_in(if x >= p { x } else { p }, y);
    let all = starts_in(x, y);
    Seq::filter_distributes_over_add(a, b, lo);
    Seq::filter_distributes_over_add(a, b, hi);
    Seq::filter_distributes_over_add(a, b, all);
    // Before `p` only the lower part can hold tokens, after it only the upper part
    assert forall|i: int| 0 <= i < b.len() implies !lo(#[trigger] b[i]) by {
        assert(b[i] == s[k + i]);
    }
    assert forall|i: int| 0 <= i < a.len() implies !hi(#[trigger] a[i]) by {
        assert(a[i] == s[i]);
    }
    assert forall|i: int| 0 <= i < a.len() implies lo(#[trigger] a[i]) == all(a[i]) by {
        assert(a[i] == s[i]);
    }
    assert forall|i: int| 0 <= i < b.len() implies hi(#[trigger] b[i]) == all(b[i]) by {
        assert(b[i] == s[k + i]);
    }
    lemma_filter_drops_all(b, lo);
    lemma_filter_drops_all(a, hi);
    lemma_filter_same(a, lo, all);
    lemma_filter_same(b, hi, all);
    assert(a.filter(lo) + Seq::<Token>::empty() =~= a.filter(lo));
    assert(Seq::<Token>::empty() + b.filter(hi) =~= b.filter(hi));
}

/// A region that holds every start of `s` keeps all of `s`.
pub proof fn lemma_region_keeps_all(s: Seq<Token>, x: int, y: int)
    requires
        forall|i: int| 0 <= i < s.len() ==> x <= #[trigger] s[i].offsets.0 < y,
    ensures
        in_region(s, x, y) == s,
{
    lemma_filter_keeps_all(s, starts_in(x, y));
}

/// Dropping word ids commutes with taking a region.
pub proof fn lemma_region_without_words(s: Seq<Token>, x: int, y: int)
    ensures
        without_words(in_region(s, x, y)) == in_region(without_words(s), x, y),
{
    assert forall|t: Token| #[trigger] starts_in(x, y)(without_word(t)) == starts_in(x, y)(t) by {}
    lemma_filter_without_words(s, starts_in(x, y));
}

/// Two encodings that agree up to word ids on a region agree up to word ids
/// on every region within it.
pub proof fn lemma_sub_region_up_to_words(a: Seq<Token>, s: Seq<Token>, x1: int, y1: int, x: int, y: int)
    requires
        without_words(in_region(a, x1, y1)) == without_words(in_region(s, x1, y1)),
        x1 <= x,
        y <= y1,
    ensures
        without_words(in_region(a, x, y)) == without_words(in_region(s, x, y)),
{
    lemma_region_of_region(a, x1, y1, x, y);
    lemma_region_of_region(s, x1, y1, x, y);
    lemma_region_without_words(in_region(a, x1, y1), x, y);
    lemma_region_without_words(in_region(s, x1, y1), x, y);
}

// =============================================================================
// LOCAL ENCODERS
// =============================================================================

/// First byte from which the encoding of a piece of the text that starts at
/// `lo` is trusted: the start itself at the start of the text, `m` bytes in
/// anywhere else.
pub open spec fn trusted_from(lo: int, m: int) -> int {
    if lo == 0 {
        0
    } else {
        lo + m
    }
}

/// End (exclusive) of the trusted bytes of a piece that ends at `hi` in a
/// text of `n` bytes: past the last byte at the end of the text, `m` bytes
/// before `hi` anywhere else.
pub open spec fn trusted_to(hi: int, n: int, m: int) -> int {
    if hi == n {
        n + 1
    } else {
        hi - m
    }
}

/// The encoder is local with margin `m` on the text with bytes `b`, whose
/// serial encoding is `s`: encoding any piece of the text gives, once moved to
/// the piece's place in the text, the tokens of `s` that start at least `m`
/// bytes away from the piece's cut ends, equal in everything but their word
/// ids (which an encoder numbers within the piece it is given).
pub open spec fn local_encoder<F: Fn(&str, bool) -> Result<Encoding, E>, E>(f: F, b: Seq<u8>, s: Seq<Token>, m: int) -> bool {
    forall|lo: int, hi: int, piece: &str, e: Encoding|
        #![trigger b.subrange(lo, hi), call_ensures(f, (piece, false), Ok::<Encoding, E>(e))]
        0 <= lo <= hi <= b.len() && bytes_of(piece) == b.subrange(lo, hi) && call_ensures(
            f,
            (piece, false),
            Ok::<Encoding, E>(e),
        ) ==> without_words(in_region(shifted(e@, lo), trusted_from(lo, m), trusted_to(hi, b.len() as int, m)))
            == without_words(in_region(s, trusted_from(lo, m), trusted_to(hi, b.len() as int, m)))
}

/// Every encoding the encoder gives has its starts in order.
pub open spec fn encoder_sorted<F: Fn(&str, bool) -> Result<Encoding, E>, E>(f: F) -> bool {
    forall|piece: &str, e: Encoding| #[trigger] call_ensures(f, (piece, false), Ok::<Encoding, E>(e)) ==> starts_sorted(e@)
}

/// A piece encoded as one gives the serial tokens within its trusted bytes,
/// up to word ids.
proof fn lemma_serial_agrees<F: Fn(&str, bool) -> Result<Encoding, E>, E>(
    f: F,
    text: Seq<u8>,
    s: Seq<Token>,
    m: int,
    lo: int,
    hi: int,
    r: Result<LazyEncoding, E>,
    x: int,
    y: int,
)
    requires
        local_encoder(f, text, s, m),
        encoder_sorted(f),
        0 <= lo <= hi <= text.len(),
        serial_outcome(f, text.subrange(lo, hi), lo, r),
        r is Ok,
        trusted_from(lo, m) <= x,
        y <= trusted_to(hi, text.len() as int, m),
    ensures
        without_words(in_region(r->Ok_0.tokens(), x, y)) == without_words(in_region(s, x, y)),
        starts_sorted(r->Ok_0.kept()),
{
    let l = r->Ok_0;
    let piece = choose|piece: &str| bytes_of(piece) == text.subrange(lo, hi) && #[trigger] crate::recursive::called_with(
        f,
        piece,
        lo,
        r,
    );
    let e = l.encoding();
    assert(call_ensures(f, (piece, false), Ok::<Encoding, E>(e)));
    assert(l.kept() =~= e@);
    let tf = trusted_from(lo, m);
    let tt = trusted_to(hi, text.len() as int, m);
    assert(without_words(in_region(l.tokens(), tf, tt)) == without_words(in_region(s, tf, tt)));
    lemma_sub_region_up_to_words(l.tokens(), s, tf, tt, x, y);
}

/// What merging keeps of each half is sorted, the left part starting before
/// the split and the right part at or after it.
proof fn lemma_sides_sorted(a: LazyEncoding, split: int)
    requires
        a.well_formed(),
        a.fits(),
        starts_sorted(a.kept()),
        0 <= split,
    ensures
        starts_sorted(left_part(a, split)),
        starts_sorted(right_part(a, split)),
        forall|i: int| 0 <= i < left_part(a, split).len() ==> #[trigger] left_part(a, split)[i].offsets.0 < split,
        forall|i: int| 0 <= i < right_part(a, split).len() ==> #[trigger] right_part(a, split)[i].offsets.0 >= split,
{
    lemma_tokens_sorted(a);
    lemma_parts_are_filters(a, split);
    let t = a.tokens();
    let k = cut_point(t, split);
    lemma_cut_point(t, split);
    lemma_partition_filters(t, split, k);
    let lp = t.take(k);
    let rp = t.skip(k);
    assert forall|i: int, j: int| 0 <= i <= j < lp.len() implies #[trigger] lp[i].offsets.0 <= #[trigger] lp[j].offsets.0 by {
        assert(lp[i] == t[i] && lp[j] == t[j]);
    }
    assert forall|i: int, j: int| 0 <= i <= j < rp.len() implies #[trigger] rp[i].offsets.0 <= #[trigger] rp[j].offsets.0 by {
        assert(rp[i] == t[k + i] && rp[j] == t[k + j]);
    }
    assert forall|i: int| 0 <= i < lp.len() implies #[trigger] lp[i].offsets.0 < split by {
        assert(lp[i] == t[i]);
    }
    assert forall|i: int| 0 <= i < rp.len() implies #[trigger] rp[i].offsets.0 >= split by {
        assert(rp[i] == t[k + i]);
    }
}

/// Tokens in order before a position followed by tokens in order from it are
/// in order.
proof fn lemma_concat_sorted(a: Seq<Token>, c: Seq<Token>, split: int)
    requires
        starts_sorted(a),
        starts_sorted(c),
        forall|i: int| 0 <= i < a.len() ==> #[trigger] a[i].offsets.0 < split,
        forall|i: int| 0 <= i < c.len() ==> #[trigger] c[i].offsets.0 >= split,
    ensures
        starts_sorted(a + c),
{
    let t = a + c;
    assert forall|i: int, j: int| 0 <= i <= j < t.len() implies #[trigger] t[i].offsets.0 <= #[trigger] t[j].offsets.0 by {
        if j < a.len() {
            assert(t[i] == a[i] && t[j] == a[j]);
        } else if i >= a.len() {
            assert(t[i] == c[i - a.len()] && t[j] == c[j - a.len()]);
        } else {
            assert(t[i] == a[i] && t[j] == c[j - a.len()]);
        }
    }
}

/// Recursive encoding of a piece of a text by a local encoder gives, within
/// the piece's trusted bytes, the serial tokens up to word ids.
proof fn lemma_traced_agrees<F: Fn(&str, bool) -> Result<Encoding, E>, E>(
    f: F,
    text: Seq<u8>,
    s: Seq<Token>,
    m: int,
    lo: int,
    hi: int,
    depth: int,
    max_depth: int,
    max_token_len: int,
    config: ParallelConfig,
    t: RecursionTrace<E>,
    r: Result<LazyEncoding, E>,
    x: int,
    y: int,
)
    requires
        local_encoder(f, text, s, m),
        encoder_sorted(f),
        starts_sorted(s),
        0 <= m,
        m + 3 <= overlap_size(max_token_len, config.safety_margin as int, true),
        0 <= lo <= hi <= text.len(),
        valid_utf8(text.subrange(lo, hi)),
        traced_outcome(f, text.subrange(lo, hi), lo, depth, max_depth, max_token_len, config, t, r),
        r is Ok,
        trusted_from(lo, m) <= x,
        y <= trusted_to(hi, text.len() as int, m),
    ensures
        without_words(in_region(r->Ok_0.tokens(), x, y)) == without_words(in_region(s, x, y)),
        starts_sorted(r->Ok_0.kept()),
        r->Ok_0.well_formed(),
        r->Ok_0.fits(),
    decreases max_depth - depth,
{
    let b = text.subrange(lo, hi);
    let n = text.len() as int;
    if is_base_case(b.len() as int, depth, max_depth, config) {
        lemma_serial_agrees(f, text, s, m, lo, hi, r, x, y);
    } else {
        match t {
            RecursionTrace::Whole => {},
            RecursionTrace::Split(lt, rt, lr, rr) => {
                let sp = chunk_split(b).0;
                let o = chunk_overlap(b, max_token_len, config);
                let le = left_end_of(b, max_token_len, config);
                let rs = right_start_of(b, max_token_len, config);
                let p = lo + sp;
                lemma_overlap_bounds(max_token_len, config.safety_margin as int);
                lemma_next_boundary_exists(b, clamp_to(sp + o, b.len() as int));
                lemma_next_boundary_near(b, minus_saturating(sp, o));
                lemma_next_boundary_exists(b, 0);
                vstd::utf8::is_char_boundary_start_end_of_seq(b);
                vstd::utf8::valid_utf8_split(b, le);
                vstd::utf8::valid_utf8_split(b, rs);
                assert(b.subrange(0, le) =~= text.subrange(lo, lo + le));
                assert(b.subrange(rs, b.len() as int) =~= text.subrange(lo + rs, hi));
                let a = lr->Ok_0;
                let c = rr->Ok_0;
                match merged_halves(a, c, p, o, lo + b.len()) {
                    None => {
                        lemma_serial_agrees(f, text, s, m, lo, hi, r, x, y);
                    },
                    Some(mm) => {
                        let y1 = if y <= p { y } else { p };
                        let x2 = if x >= p { x } else { p };
                        // The left piece is trusted up to the split, the right piece from it
                        if le < b.len() {
                            assert(clamp_to(sp + o, b.len() as int) == sp + o);
                        }
                        if rs > 0 && sp < o {
                            assert(next_boundary(b, 0) == 0);
                        }
                        lemma_traced_agrees(f, text, s, m, lo, lo + le, depth + 1, max_depth, max_token_len, config, *lt, lr, x, y1);
                        lemma_traced_agrees(f, text, s, m, lo + rs, hi, depth + 1, max_depth, max_token_len, config, *rt, rr, x2, y);
                        let l = r->Ok_0;
                        let lp = left_part(a, p);
                        let rp = right_part(c, p);
                        assert(mm == lp + rp);
                        lemma_parts_are_filters(a, p);
                        lemma_parts_are_filters(c, p);
                        Seq::filter_distributes_over_add(lp, rp, starts_in(x, y));
                        lemma_region_of_sides(a.tokens(), p, x, y);
                        lemma_region_of_sides(c.tokens(), p, x, y);
                        lemma_region_split(s, p, x, y);
                        lemma_sides_sorted(a, p);
                        lemma_sides_sorted(c, p);
                        lemma_concat_sorted(lp, rp, p);
                        assert(l.kept() =~= mm);
                        crate::lazy_encoding::lemma_shifted_zero(mm);
                        // Each half agrees with `s` on its side of the split
                        assert(in_region(l.tokens(), x, y) == in_region(a.tokens(), x, y1) + in_region(c.tokens(), x2, y));
                        lemma_without_words_concat(in_region(a.tokens(), x, y1), in_region(c.tokens(), x2, y));
                        lemma_without_words_concat(in_region(s, x, y1), in_region(s, x2, y));
                    },
                }
            },
        }
    }
}

/// Recursive encoding reproduces serial encoding: for an encoder that keeps
/// its starts in order and is local with a margin at least 3 bytes below the
/// smallest overlap a split can take (the overlap at a safe boundary) on a
/// text whose serial encoding `s` has its starts in order and within the
/// text, every successful outcome of recursive encoding of the whole text is
/// `s` in everything but word ids, whatever the depth.
pub proof fn lemma_recursive_matches_serial<F: Fn(&str, bool) -> Result<Encoding, E>, E>(
    f: F,
    text: Seq<u8>,
    s: Seq<Token>,
    m: int,
    max_depth: int,
    max_token_len: int,
    config: ParallelConfig,
    l: LazyEncoding,
)
    requires
        valid_utf8(text),
        local_encoder(f, text, s, m),
        encoder_sorted(f),
        starts_sorted(s),
        offsets_within(s, text.len() as int),
        0 <= m,
        m + 3 <= overlap_size(max_token_len, config.safety_margin as int, true),
        recursive_outcome(f, text, 0, 0, max_depth, max_token_len, config, Ok::<LazyEncoding, E>(l)),
    ensures
        without_words(l.tokens()) == without_words(s),
{
    let n = text.len() as int;
    let t = choose|t: RecursionTrace<E>| #[trigger] traced_outcome(f, text, 0, 0, max_depth, max_token_len, config, t, Ok::<LazyEncoding, E>(l));
    assert(text.subrange(0, n) =~= text);
    lemma_traced_agrees(f, text, s, m, 0, n, 0, max_depth, max_token_len, config, t, Ok::<LazyEncoding, E>(l), 0, n + 1);
    assert(offsets_within(l.tokens(), n));
    lemma_region_keeps_all(l.tokens(), 0, n + 1);
    lemma_region_keeps_all(s, 0, n + 1);
}

// =============================================================================
// STREAMING
// =============================================================================

/// A merge that succeeds had every block encoded.
proof fn lemma_merged_all_ok<E>(len: int, rs: Seq<Result<(usize, usize, Encoding), E>>)
    requires
        merged_blocks(len, rs) is Ok,
    ensures
        forall|i: int| 0 <= i < rs.len() ==> (#[trigger] rs[i]) is Ok,
    decreases rs.len(),
{
    if rs.len() > 0 {
        lemma_merged_all_ok(len, rs.drop_first());
        assert forall|i: int| 0 <= i < rs.len() implies (#[trigger] rs[i]) is Ok by {
            if i > 0 {
                assert(rs[i] == rs.drop_first()[i - 1]);
            }
        }
    }
}

/// What a block keeps is the region from its logical start to its logical
/// end (past the end of the text for the last block), for tokens that start
/// within the text.
proof fn lemma_kept_is_region(e: Seq<Token>, ls: int, le: int, len: int)
    requires
        0 <= ls,
        forall|i: int| 0 <= i < e.len() ==> #[trigger] e[i].offsets.0 <= len,
    ensures
        kept_in_block(e, ls, le, len) == in_region(e, ls, if le < len { le } else { len + 1 }),
{
    let y = if le < len { le } else { len + 1 };
    let a = e.filter(starts_at_or_after(ls));
    if ls == 0 {
        lemma_filter_keeps_all(e, starts_at_or_after(ls));
    }
    lemma_filter_twice(e, starts_at_or_after(ls), starts_before(y));
    lemma_filter_same(e, |t: Token| starts_at_or_after(ls)(t) && starts_before(y)(t), starts_in(ls, y));
    if le >= len {
        assert forall|i: int| 0 <= i < a.len() implies (starts_before(y))(#[trigger] a[i]) by {
            assert(a.contains(a[i]));
            e.lemma_filter_contains_rev(starts_at_or_after(ls), a[i]);
        }
        lemma_filter_keeps_all(a, starts_before(y));
    }
}

/// Streaming reproduces serial encoding: for an encoder that keeps the byte
/// ranges of its tokens within the text it is given and is local with a
/// margin at least 3 bytes below the overlap, on a text whose serial encoding
/// `s` has its starts in order and within the text (and is empty for an
/// empty text), every successful outcome of parallel block streaming is `s`
/// in everything but word ids.
pub proof fn lemma_streaming_matches_serial<F: Fn(&str, bool) -> Result<Encoding, E>, E>(
    f: F,
    text: Seq<u8>,
    s: Seq<Token>,
    m: int,
    block_size: int,
    overlap: int,
    res: Seq<Token>,
)
    requires
        valid_utf8(text),
        text.len() <= usize::MAX,
        local_encoder(f, text, s, m),
        encoder_offsets_within(f),
        starts_sorted(s),
        offsets_within(s, text.len() as int),
        0 <= m,
        m + 3 <= overlap,
        block_size > 0,
        text.len() > 0 || s.len() == 0,
        parallel_streaming_outcome(f, text, block_size, overlap, Ok::<Seq<Token>, E>(res)),
    ensures
        without_words(res) == without_words(s),
{
    let n = text.len() as int;
    let blocks = blocks_from(text, block_size, overlap, 0);
    let rs = choose|rs: Seq<Result<(usize, usize, Encoding), E>>|
        #[trigger] blocks_encoded(f, text, blocks, rs) && merged_blocks(n, rs) == Ok::<Seq<Token>, E>(res);
    lemma_blocks_partition(text, block_size, overlap, 0);
    lemma_merged_all_ok(n, rs);
    vstd::utf8::is_char_boundary_start_end_of_seq(text);
    assert(blocks_in_order(rs, n)) by {
        assert forall|i: int| 0 <= i < rs.len() implies (#[trigger] rs[i]) is Ok && 0 <= block_start(rs[i]) < block_end(rs[i])
            <= n by {
            assert(crate::streaming::block_well_placed(text, block_size, blocks[i]));
            assert(crate::streaming::block_encoded(f, text, blocks[i], rs[i]));
        }
        assert forall|i: int| 0 <= i && i + 1 < rs.len() implies block_end(#[trigger] rs[i]) == block_start(rs[i + 1]) by {
            assert(crate::streaming::block_encoded(f, text, blocks[i], rs[i]));
            assert(crate::streaming::block_encoded(f, text, blocks[i + 1], rs[i + 1]));
            assert(blocks[i].logical_end == blocks[i + 1].logical_start);
        }
        if rs.len() > 0 {
            assert(crate::streaming::block_encoded(f, text, blocks[rs.len() - 1], rs[rs.len() - 1]));
        }
    }
    assert(blocks_agree_up_to_words(rs, n, s)) by {
        assert forall|i: int| 0 <= i < rs.len() implies match #[trigger] rs[i] {
            Ok((ls, le, e)) => without_words(kept_in_block(e@, ls as int, le as int, n)) == without_words(
                kept_in_block(s, ls as int, le as int, n),
            ),
            Err(_) => false,
        } by {
            let blk = blocks[i];
            assert(crate::streaming::block_well_placed(text, block_size, blk));
            assert(crate::streaming::block_encoded(f, text, blk, rs[i]));
            assert(blk == crate::streaming::block_at(text, block_size, overlap, blk.logical_start as int)) by {
                lemma_block_is_at(text, block_size, overlap, 0, i);
            }
            let (ls, le, e) = rs[i]->Ok_0;
            let so = blk.start_offset as int;
            let eo = blk.end_offset as int;
            let chunk = text.subrange(so, eo);
            let (piece, raw) = choose|piece: &str, raw: Result<Encoding, E>|
                #![trigger bytes_of(piece), call_ensures(f, (piece, false), raw)]
                bytes_of(piece) == chunk && call_ensures(f, (piece, false), raw) && match raw {
                    Ok(x) => Ok::<Encoding, E>(e) matches Ok(yy) && yy@ == shifted(x@, so),
                    Err(x) => Ok::<Encoding, E>(e) == Err::<Encoding, E>(x),
                };
            let x = raw->Ok_0;
            assert(call_ensures(f, (piece, false), Ok::<Encoding, E>(x)));
            let tf = trusted_from(so, m);
            let tt = trusted_to(eo, n, m);
            assert(without_words(in_region(shifted(x@, so), tf, tt)) == without_words(in_region(s, tf, tt)));
            // The block's own range lies within the trusted bytes of its piece
            let y = if le < n { le as int } else { n + 1 };
            if ls > 0 {
                lemma_next_boundary_near(text, minus_saturating(ls as int, overlap));
                lemma_next_boundary_exists(text, 0);
                if ls < overlap {
                    assert(next_boundary(text, 0) == 0);
                }
            }
            if le < n {
                lemma_next_boundary_exists(text, clamp_to(le + overlap, n));
                if le + overlap >= n {
                    assert(next_boundary(text, n) == n);
                }
            }
            assert(tf <= ls);
            assert(y <= tt);
            // Every token starts within the text
            assert(offsets_within(x@, chunk.len() as int));
            assert forall|j: int| 0 <= j < e@.len() implies #[trigger] e@[j].offsets.0 <= n by {
                assert(x@[j].offsets.0 <= chunk.len());
            }
            assert forall|j: int| 0 <= j < s.len() implies #[trigger] s[j].offsets.0 <= n by {
                assert(s[j].offsets.0 <= n);
            }
            lemma_kept_is_region(e@, ls as int, le as int, n);
            lemma_kept_is_region(s, ls as int, le as int, n);
            lemma_sub_region_up_to_words(e@, s, tf, tt, ls as int, y);
        }
    }
    if rs.len() > 0 {
        assert(crate::streaming::block_encoded(f, text, blocks[0], rs[0]));
    }
    lemma_blocks_reassemble_up_to_words(n, rs, s);
}

/// The `i`-th block from `pos` is the block at its own logical start.
proof fn lemma_block_is_at(text: Seq<u8>, block_size: int, overlap: int, pos: int, i: int)
    requires
        block_size > 0,
        0 <= pos,
        text.len() <= usize::MAX,
        0 <= i < blocks_from(text, block_size, overlap, pos).len(),
    ensures
        blocks_from(text, block_size, overlap, pos)[i] == crate::streaming::block_at(
            text,
            block_size,
            overlap,
            blocks_from(text, block_size, overlap, pos)[i].logical_start as int,
        ),
    decreases text.len() - pos,
{
    let bl = blocks_from(text, block_size, overlap, pos);
    let next = crate::streaming::logical_end_of(text.len() as int, block_size, pos);
    if i > 0 {
        lemma_block_is_at(text, block_size, overlap, next, i - 1);
        assert(bl[i] == blocks_from(text, block_size, overlap, next)[i - 1]);
    } else {
        assert(bl[0] == crate::streaming::block_at(text, block_size, overlap, pos));
    }
}

} // verus!
