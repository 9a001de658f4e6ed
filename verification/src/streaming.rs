//! Cache-block streaming encoding strategy.
//!
//! Optimized for cache locality on very large inputs:
//! 1. Process input in cache-sized blocks sequentially
//! 2. Use small overlap windows to handle token boundaries
//! 3. Stream results directly to output

use vstd::prelude::*;
use crate::split_point::{
    bytes_of, clamp_to, find_char_boundary_forward, lemma_boundary_in_prefix, lemma_next_boundary_exists,
    lemma_next_boundary_is, lemma_next_boundary_monotonic, lemma_valid_utf8, next_boundary,
};
use vstd::utf8::{is_char_boundary, valid_utf8};
use rayon::iter::{IntoParallelIterator, ParallelIterator};
use crate::recursive::{encoder_offsets_within, encoder_ready, encoder_total, lemma_shift_within, minus_saturating, offsets_within};
use crate::encoding::{lemma_without_words_concat, shifted, starts_at_or_after, starts_before, without_words, Encoding, Token};
use crate::config::ParallelConfig;
use crate::lazy_encoding::{cut_point, is_partition_point, lemma_cut_point, lemma_partition_filters, starts_sorted};

verus! {

broadcast use vstd::utf8::group_utf8_lib;

// =============================================================================
// BLOCK BOUNDARY CALCULATION
// =============================================================================

/// Describes the boundaries of a single block for processing.
#[derive(Debug, Clone, Copy)]
pub struct BlockBoundaries {
    /// Where to start encoding (includes left overlap for context)
    pub start_offset: usize,
    /// Where this block's tokens should start (filter boundary)
    pub logical_start: usize,
    /// Where this block's tokens should end (filter boundary)
    pub logical_end: usize,
    /// Where to end encoding (includes right overlap for context)
    pub end_offset: usize,
}

/// End of the logical block that starts at `pos`.
pub open spec fn logical_end_of(len: int, block_size: int, pos: int) -> int {
    if pos + block_size <= len { pos + block_size } else { len }
}

/// The block whose logical range starts at `pos`: encoding starts at the
/// first character boundary at or after `pos - overlap` (at 0 for the first
/// block) and ends at the first character boundary at or after
/// `logical_end + overlap` (at the end of the text for the last block).
pub open spec fn block_at(b: Seq<u8>, block_size: int, overlap: int, pos: int) -> BlockBoundaries {
    let len = b.len() as int;
    let logical_end = logical_end_of(len, block_size, pos);
    BlockBoundaries {
        start_offset: (if pos > 0 { next_boundary(b, minus_saturating(pos, overlap)) } else { 0 }) as usize,
        logical_start: pos as usize,
        logical_end: logical_end as usize,
        end_offset: (if logical_end < len { next_boundary(b, clamp_to(logical_end + overlap, len)) } else { len }) as usize,
    }
}

/// The blocks from logical position `pos` to the end of the text, in order.
pub open spec fn blocks_from(b: Seq<u8>, block_size: int, overlap: int, pos: int) -> Seq<BlockBoundaries>
    decreases b.len() - pos,
{
    if pos >= b.len() || block_size <= 0 || pos < 0 {
        Seq::empty()
    } else {
        seq![block_at(b, block_size, overlap, pos)] + blocks_from(
            b,
            block_size,
            overlap,
            logical_end_of(b.len() as int, block_size, pos),
        )
    }
}

/// A block encodes a stretch of text between two character boundaries and
/// keeps a nonempty logical range of at most `block_size` bytes.
pub open spec fn block_well_placed(b: Seq<u8>, block_size: int, blk: BlockBoundaries) -> bool {
    &&& blk.start_offset <= blk.end_offset <= b.len()
    &&& is_char_boundary(b, blk.start_offset as int)
    &&& is_char_boundary(b, blk.end_offset as int)
    &&& blk.logical_start < blk.logical_end <= b.len()
    &&& blk.logical_end - blk.logical_start <= block_size
    &&& blk.logical_end < b.len() ==> blk.logical_end - blk.logical_start == block_size
}

/// The blocks from `pos` split `[pos, len)` into consecutive logical ranges,
/// each well placed.
pub open spec fn blocks_partition(b: Seq<u8>, block_size: int, s: Seq<BlockBoundaries>, pos: int) -> bool {
    &&& (s.len() == 0 <==> pos >= b.len())
    &&& s.len() > 0 ==> s[0].logical_start == pos && s.last().logical_end == b.len()
    &&& forall|i: int| 0 <= i < s.len() ==> block_well_placed(b, block_size, #[trigger] s[i])
    &&& forall|i: int| 0 <= i < s.len() - 1 ==> #[trigger] s[i].logical_end == s[i + 1].logical_start
}

/// A text of `n` bytes from logical position `pos` on splits into the
/// ceiling of `(n - pos) / block_size` blocks.
pub proof fn lemma_block_count(b: Seq<u8>, block_size: int, overlap: int, pos: int)
    requires
        block_size > 0,
        0 <= pos <= b.len(),
    ensures
        blocks_from(b, block_size, overlap, pos).len() == (b.len() - pos + block_size - 1) / block_size,
    decreases b.len() - pos,
{
    let len = b.len() as int;
    let x = len - pos;
    if pos >= len {
        vstd::arithmetic::div_mod::lemma_basic_div(block_size - 1, block_size);
    } else {
        let le = logical_end_of(len, block_size, pos);
        lemma_block_count(b, block_size, overlap, le);
        vstd::arithmetic::div_mod::lemma_div_plus_one(x - 1, block_size);
        assert(block_size + (x - 1) == x + block_size - 1);
        if pos + block_size > len {
            vstd::arithmetic::div_mod::lemma_basic_div(x - 1, block_size);
            vstd::arithmetic::div_mod::lemma_basic_div(block_size - 1, block_size);
        }
    }
}

/// The blocks of a text split it into consecutive logical ranges, the first
/// starting at 0 and the last ending at the end of the text; each block encodes
/// a stretch between two character boundaries, and every logical range but the
/// last holds exactly `block_size` bytes.
pub proof fn lemma_blocks_partition(b: Seq<u8>, block_size: int, overlap: int, pos: int)
    requires
        valid_utf8(b),
        b.len() <= usize::MAX,
        block_size > 0,
        overlap >= 0,
        0 <= pos <= b.len(),
    ensures
        blocks_partition(b, block_size, blocks_from(b, block_size, overlap, pos), pos),
    decreases b.len() - pos,
{
    let s = blocks_from(b, block_size, overlap, pos);
    if pos < b.len() {
        let len = b.len() as int;
        let le = logical_end_of(len, block_size, pos);
        lemma_blocks_partition(b, block_size, overlap, le);
        let rest = blocks_from(b, block_size, overlap, le);
        let blk = block_at(b, block_size, overlap, pos);
        assert(s == seq![blk] + rest);
        let so = if pos > 0 { next_boundary(b, crate::recursive::minus_saturating(pos, overlap)) } else { 0 };
        let eo = if le < len { next_boundary(b, clamp_to(le + overlap, len)) } else { len };
        assert(is_char_boundary(b, 0));
        assert(is_char_boundary(b, len));
        if pos > 0 {
            lemma_next_boundary_exists(b, crate::recursive::minus_saturating(pos, overlap));
        }
        if le < len {
            lemma_next_boundary_exists(b, clamp_to(le + overlap, len));
            if pos > 0 {
                lemma_next_boundary_monotonic(b, crate::recursive::minus_saturating(pos, overlap), clamp_to(le + overlap, len));
            }
        }
        assert(block_well_placed(b, block_size, blk));
        assert forall|i: int| 0 <= i < s.len() implies block_well_placed(b, block_size, #[trigger] s[i]) by {
            if i > 0 {
                assert(s[i] == rest[i - 1]);
            }
        }
        assert forall|i: int| 0 <= i < s.len() - 1 implies #[trigger] s[i].logical_end == s[i + 1].logical_start by {
            assert(s[i + 1] == rest[i]);
            if i > 0 {
                assert(s[i] == rest[i - 1]);
            }
        }
        if rest.len() > 0 {
            assert(s.last() == rest.last());
        }
    }
}

/// The block computation cannot overflow.
pub open spec fn block_sizes_fit(len: int, block_size: int, overlap: int) -> bool {
    len > 0 ==> (len - 1 + block_size <= usize::MAX && len - 1 + overlap <= usize::MAX)
}

/// Calculate block boundaries for streaming encoding.
pub fn calculate_block_boundaries(input: &str, block_size: usize, overlap: usize) -> (r: Vec<BlockBoundaries>)
    requires
        block_size > 0 || bytes_of(input).len() == 0,
        block_sizes_fit(bytes_of(input).len() as int, block_size as int, overlap as int),
    ensures
        r@ == blocks_from(bytes_of(input), block_size as int, overlap as int, 0),
        block_size > 0 ==> r@.len() == (bytes_of(input).len() + block_size - 1) / block_size as int,
{
    let ghost b = bytes_of(input);
    let len = crate::split_point::byte_len(input);
    let mut blocks: Vec<BlockBoundaries> = Vec::new();
    let mut logical_pos: usize = 0;

    while logical_pos < len
        invariant
            b == bytes_of(input),
            len == b.len(),
            block_size > 0 || len == 0,
            block_sizes_fit(len as int, block_size as int, overlap as int),
            logical_pos <= len,
            blocks@ + blocks_from(b, block_size as int, overlap as int, logical_pos as int) == blocks_from(
                b,
                block_size as int,
                overlap as int,
                0,
            ),
        decreases len - logical_pos,
    {
        let logical_end = if logical_pos + block_size < len { logical_pos + block_size } else { len };

        // Include overlap on the left (except for first block)
        let start_offset = if logical_pos > 0 {
            let s = find_char_boundary_forward(input, logical_pos.saturating_sub(overlap));
            proof {
                lemma_next_boundary_is(b, minus_saturating(logical_pos as int, overlap as int), s as int);
            }
            s
        } else {
            0
        };

        // Include overlap on the right (except for last block)
        let end_offset = if logical_end < len {
            let t = if logical_end + overlap < len { logical_end + overlap } else { len };
            let e = find_char_boundary_forward(input, t);
            proof {
                lemma_next_boundary_is(b, t as int, e as int);
            }
            e
        } else {
            len
        };

        let block = BlockBoundaries { start_offset, logical_start: logical_pos, logical_end, end_offset };
        assert(block == block_at(b, block_size as int, overlap as int, logical_pos as int));
        let ghost old_blocks = blocks@;
        blocks.push(block);
        assert(blocks_from(b, block_size as int, overlap as int, logical_pos as int) == seq![block]
            + blocks_from(b, block_size as int, overlap as int, logical_end as int));
        assert(blocks@ + blocks_from(b, block_size as int, overlap as int, logical_end as int) =~= old_blocks
            + blocks_from(b, block_size as int, overlap as int, logical_pos as int));
        logical_pos = logical_end;
    }
    assert(blocks@ =~= blocks@ + blocks_from(b, block_size as int, overlap as int, logical_pos as int));
    proof {
        if block_size > 0 {
            lemma_block_count(b, block_size as int, overlap as int, 0);
        }
    }
    blocks
}

// =============================================================================
// ENCODING AND MERGING BLOCKS
// =============================================================================

/// `r` is what encoding a text with bytes `chunk` with `f` gave, with the
/// byte ranges of a successful result moved by `offset`.
pub open spec fn encoded_at<F: Fn(&str, bool) -> Result<Encoding, E>, E>(
    f: F,
    chunk: Seq<u8>,
    offset: int,
    r: Result<Encoding, E>,
) -> bool {
    exists|s: &str, raw: Result<Encoding, E>|
        #![trigger bytes_of(s), call_ensures(f, (s, false), raw)]
        bytes_of(s) == chunk && call_ensures(f, (s, false), raw) && match raw {
            Ok(x) => r matches Ok(y) && y@ == shifted(x@, offset),
            Err(x) => r == Err::<Encoding, E>(x),
        }
}

/// Encode one block: the text between its start and end offsets, with the
/// byte ranges moved to positions in the whole input.
pub fn encode_block<F, E>(encode_fn: &F, input: &str, boundaries: BlockBoundaries) -> (r: Result<(usize, usize, Encoding), E>)
    where
        F: Fn(&str, bool) -> Result<Encoding, E>,
    requires
        encoder_total(*encode_fn),
        encoder_offsets_within(*encode_fn),
        boundaries.start_offset <= boundaries.end_offset <= bytes_of(input).len(),
        vstd::utf8::is_char_boundary(bytes_of(input), boundaries.start_offset as int),
        vstd::utf8::is_char_boundary(bytes_of(input), boundaries.end_offset as int),
    ensures
        match r {
            Ok((ls, le, e)) => {
                &&& ls == boundaries.logical_start
                &&& le == boundaries.logical_end
                &&& encoded_at(
                    *encode_fn,
                    bytes_of(input).subrange(boundaries.start_offset as int, boundaries.end_offset as int),
                    boundaries.start_offset as int,
                    Ok::<Encoding, E>(e),
                )
                &&& offsets_within(e@, boundaries.end_offset as int)
            },
            Err(e) => encoded_at(
                *encode_fn,
                bytes_of(input).subrange(boundaries.start_offset as int, boundaries.end_offset as int),
                boundaries.start_offset as int,
                Err::<Encoding, E>(e),
            ),
        },
{
    let ghost b = bytes_of(input);
    let head = input.split_at(boundaries.end_offset).0;
    proof {
        lemma_valid_utf8(input);
        lemma_boundary_in_prefix(b, boundaries.end_offset as int, boundaries.start_offset as int);
    }
    let block = head.split_at(boundaries.start_offset).1;
    assert(bytes_of(block) =~= b.subrange(boundaries.start_offset as int, boundaries.end_offset as int));
    assert(call_requires(*encode_fn, (block, false)));
    let raw = encode_fn(block, false);
    let ghost graw = raw;
    match raw {
        Ok(e) => {
            let mut e = e;
            let ghost e0 = e@;
            assert(offsets_within(e0, bytes_of(block).len() as int));
            proof {
                lemma_shift_within(e0, bytes_of(block).len() as int, boundaries.start_offset as int);
            }
            if boundaries.start_offset > 0 {
                e.shift_all_offsets(boundaries.start_offset);
            } else {
                assert(e@ =~= shifted(e0, 0));
            }
            assert(offsets_within(e@, boundaries.end_offset as int));
            let r = Ok((boundaries.logical_start, boundaries.logical_end, e));
            assert(call_ensures(*encode_fn, (block, false), graw));
            r
        },
        Err(err) => {
            assert(call_ensures(*encode_fn, (block, false), graw));
            Err(err)
        },
    }
}

/// The tokens of a block's encoding that belong to its logical range: those
/// starting at or after `logical_start` (all of them for the first block) and
/// before `logical_end` (all of them for the last block).
pub open spec fn kept_in_block(s: Seq<Token>, logical_start: int, logical_end: int, len: int) -> Seq<Token> {
    let a = if logical_start != 0 { s.filter(starts_at_or_after(logical_start)) } else { s };
    if logical_end < len { a.filter(starts_before(logical_end)) } else { a }
}

/// `prefix` followed by what `rest` holds, or the error of `rest`.
pub open spec fn prepend<E>(prefix: Seq<Token>, rest: Result<Seq<Token>, E>) -> Result<Seq<Token>, E> {
    match rest {
        Ok(x) => Ok(prefix + x),
        Err(e) => Err(e),
    }
}

/// Merging the encoded blocks in order: the first error, or the kept tokens of
/// every block one after the other.
pub open spec fn merged_blocks<E>(len: int, rs: Seq<Result<(usize, usize, Encoding), E>>) -> Result<Seq<Token>, E>
    decreases rs.len(),
{
    if rs.len() == 0 {
        Ok(Seq::empty())
    } else {
        match rs[0] {
            Err(e) => Err(e),
            Ok((ls, le, enc)) => prepend(
                kept_in_block(enc@, ls as int, le as int, len),
                merged_blocks(len, rs.drop_first()),
            ),
        }
    }
}

/// Merge encoded blocks in order, keeping from each block only the tokens in
/// its logical range; the first error stops the merge.
pub fn merge_block_results<E>(input_len: usize, block_results: Vec<Result<(usize, usize, Encoding), E>>) -> (r: Result<Encoding, E>)
    ensures
        match r {
            Ok(e) => merged_blocks(input_len as int, block_results@) == Ok::<Seq<Token>, E>(e@),
            Err(e) => merged_blocks(input_len as int, block_results@) == Err::<Seq<Token>, E>(e),
        },
{
    let ghost all = block_results@;
    let mut result = Encoding::with_capacity(0);
    proof {
        assert(all.skip(0) =~= all);
        match merged_blocks(input_len as int, all) {
            Ok(x) => {
                assert(Seq::<Token>::empty() + x =~= x);
            },
            Err(_) => {},
        }
    }
    for block_result in iter: block_results
        invariant
            iter.seq() == all,
            merged_blocks(input_len as int, all) == prepend(result@, merged_blocks(input_len as int, all.skip(iter.index() as int))),
    {
        let ghost k = iter.index() as int;
        proof {
            assert(all.skip(k).drop_first() =~= all.skip(k + 1));
            assert(all.skip(k)[0] == all[k]);
        }
        let (logical_start, logical_end, block_encoding) = match block_result {
            Ok(x) => x,
            Err(e) => {
                return Err(e);
            },
        };
        let mut block_encoding = block_encoding;
        let is_first_block = logical_start == 0;
        let is_last_block = logical_end >= input_len;
        // Filter tokens to only keep those in the logical range [logical_start, logical_end)
        if !is_first_block {
            block_encoding.filter_tokens_starting_at_or_after(logical_start);
        }
        if !is_last_block {
            block_encoding.filter_tokens_starting_before(logical_end);
        }
        let ghost before = result@;
        let ghost kept = block_encoding@;
        assert(all[k] matches Ok((a, z, enc)) && kept == kept_in_block(enc@, a as int, z as int, input_len as int));
        // Merge into result
        if result.is_empty() {
            result = block_encoding;
            assert(result@ =~= before + result@);
        } else {
            result.merge_with(block_encoding, false);
            assert(result@ =~= before + block_encoding@) by {
                crate::lazy_encoding::lemma_shifted_zero(block_encoding@);
            }
        }
        proof {
            let rest = merged_blocks(input_len as int, all.skip(k + 1));
            assert(merged_blocks(input_len as int, all.skip(k)) == prepend(kept, rest));
            match rest {
                Ok(x) => {
                    assert(before + (kept + x) =~= (before + kept) + x);
                },
                Err(_) => {},
            }
        }
    }
    proof {
        assert(all.skip(all.len() as int) =~= Seq::<Result<(usize, usize, Encoding), E>>::empty());
        assert(result@ + Seq::<Token>::empty() =~= result@);
    }
    Ok(result)
}

/// Logical start of an encoded block (0 for an error).
pub open spec fn block_start<E>(r: Result<(usize, usize, Encoding), E>) -> int {
    match r {
        Ok((ls, _, _)) => ls as int,
        Err(_) => 0,
    }
}

/// Logical end of an encoded block (0 for an error).
pub open spec fn block_end<E>(r: Result<(usize, usize, Encoding), E>) -> int {
    match r {
        Ok((_, le, _)) => le as int,
        Err(_) => 0,
    }
}

/// Every block was encoded, each covers a nonempty logical range within the
/// text, and each starts where the one before it ends, the last one ending at
/// the end of the text.
pub open spec fn blocks_in_order<E>(rs: Seq<Result<(usize, usize, Encoding), E>>, len: int) -> bool {
    &&& forall|i: int| 0 <= i < rs.len() ==> (#[trigger] rs[i]) is Ok && 0 <= block_start(rs[i]) < block_end(rs[i]) <= len
    &&& forall|i: int| 0 <= i && i + 1 < rs.len() ==> block_end(#[trigger] rs[i]) == block_start(rs[i + 1])
    &&& rs.len() > 0 ==> block_end(rs.last()) == len
}

/// Each block keeps of its own encoding exactly what it would keep of `s`.
pub open spec fn blocks_agree_with<E>(rs: Seq<Result<(usize, usize, Encoding), E>>, len: int, s: Seq<Token>) -> bool {
    forall|i: int| 0 <= i < rs.len() ==> match #[trigger] rs[i] {
        Ok((ls, le, e)) => kept_in_block(e@, ls as int, le as int, len) == kept_in_block(s, ls as int, le as int, len),
        Err(_) => false,
    }
}

/// The tokens of `s` from byte `p` on (all of them from 0).
pub open spec fn tail_from(s: Seq<Token>, p: int) -> Seq<Token> {
    if p == 0 {
        s
    } else {
        s.filter(starts_at_or_after(p))
    }
}

/// With sorted starts, the tokens from `p` on are those after the partition
/// point of `p`.
proof fn lemma_tail_from(s: Seq<Token>, p: int)
    requires
        starts_sorted(s),
        0 <= p,
    ensures
        is_partition_point(s, p, cut_point(s, p)),
        tail_from(s, p) == s.skip(cut_point(s, p)),
{
    lemma_cut_point(s, p);
    lemma_partition_filters(s, p, cut_point(s, p));
    if p == 0 {
        assert(cut_point(s, 0) == 0) by {
            if cut_point(s, 0) > 0 {
                assert(s[0].offsets.0 < 0);
            }
        }
        assert(s.skip(0) =~= s);
    }
}

/// What a block keeps of `s` followed by the tokens of `s` from its end on is
/// the tokens of `s` from its start on.
proof fn lemma_kept_then_tail(s: Seq<Token>, ls: int, le: int, len: int)
    requires
        starts_sorted(s),
        0 <= ls < le < len,
    ensures
        kept_in_block(s, ls, le, len) + tail_from(s, le) == tail_from(s, ls),
{
    lemma_tail_from(s, ls);
    lemma_tail_from(s, le);
    let k1 = cut_point(s, ls);
    let k2 = cut_point(s, le);
    assert(k1 <= k2) by {
        if k2 < k1 {
            assert(s[k2].offsets.0 >= le);
            assert(s[k2].offsets.0 < ls);
        }
    }
    let t = tail_from(s, ls);
    assert(is_partition_point(t, le, k2 - k1)) by {
        assert forall|i: int| 0 <= i < k2 - k1 implies #[trigger] t[i].offsets.0 < le by {
            assert(t[i] == s[k1 + i]);
        }
        assert forall|i: int| k2 - k1 <= i < t.len() implies #[trigger] t[i].offsets.0 >= le by {
            assert(t[i] == s[k1 + i]);
        }
    }
    lemma_partition_filters(t, le, k2 - k1);
    assert(kept_in_block(s, ls, le, len) == t.take(k2 - k1));
    assert(t.take(k2 - k1) + s.skip(k2) =~= s.skip(k1));
}

/// Merging a chain of blocks that agree with `s` gives the tokens of `s` from
/// the first block's start on.
proof fn lemma_chain_merges<E>(len: int, rs: Seq<Result<(usize, usize, Encoding), E>>, s: Seq<Token>)
    requires
        starts_sorted(s),
        rs.len() > 0,
        blocks_in_order(rs, len),
        blocks_agree_with(rs, len, s),
    ensures
        merged_blocks(len, rs) == Ok::<Seq<Token>, E>(tail_from(s, block_start(rs[0]))),
    decreases rs.len(),
{
    let r0 = rs[0];
    assert(r0 is Ok && 0 <= block_start(r0) < block_end(r0) <= len);
    let ls = block_start(r0);
    let le = block_end(r0);
    let kept = kept_in_block(s, ls, le, len);
    let rest = rs.drop_first();
    if rs.len() == 1 {
        assert(rest.len() == 0);
        assert(le == len);
        assert(merged_blocks(len, rest) == Ok::<Seq<Token>, E>(Seq::empty()));
        assert(kept == tail_from(s, ls));
        assert(kept + Seq::<Token>::empty() =~= kept);
    } else {
        assert(blocks_in_order(rest, len)) by {
            assert forall|i: int| 0 <= i < rest.len() implies (#[trigger] rest[i]) is Ok && 0 <= block_start(rest[i])
                < block_end(rest[i]) <= len by {
                assert(rest[i] == rs[i + 1]);
            }
            assert forall|i: int| 0 <= i && i + 1 < rest.len() implies block_end(#[trigger] rest[i]) == block_start(
                rest[i + 1],
            ) by {
                assert(rest[i] == rs[i + 1]);
                assert(rest[i + 1] == rs[i + 2]);
            }
            assert(rest.last() == rs.last());
        }
        assert(blocks_agree_with(rest, len, s)) by {
            assert forall|i: int| 0 <= i < rest.len() implies match #[trigger] rest[i] {
                Ok((a, z, e)) => kept_in_block(e@, a as int, z as int, len) == kept_in_block(s, a as int, z as int, len),
                Err(_) => false,
            } by {
                assert(rest[i] == rs[i + 1]);
            }
        }
        lemma_chain_merges(len, rest, s);
        assert(rs[1] is Ok && block_start(rs[1]) < block_end(rs[1]) <= len);
        assert(block_start(rest[0]) == le);
        lemma_kept_then_tail(s, ls, le, len);
    }
}

/// Merging blocks reassembles: when the blocks were all encoded, cover the
/// text in order from its start to its end, and each keeps of its own encoding
/// exactly what it would keep of an encoding `s` of the whole text (with
/// sorted starts), merging them gives exactly `s`.
pub proof fn lemma_blocks_reassemble<E>(len: int, rs: Seq<Result<(usize, usize, Encoding), E>>, s: Seq<Token>)
    requires
        starts_sorted(s),
        rs.len() > 0 || s.len() == 0,
        rs.len() > 0 ==> block_start(rs[0]) == 0,
        blocks_in_order(rs, len),
        blocks_agree_with(rs, len, s),
    ensures
        merged_blocks(len, rs) == Ok::<Seq<Token>, E>(s),
{
    if rs.len() > 0 {
        lemma_chain_merges(len, rs, s);
    } else {
        assert(s =~= Seq::<Token>::empty());
    }
}

/// Each block keeps of its own encoding what it would keep of `s`, equal in
/// everything but word ids.
pub open spec fn blocks_agree_up_to_words<E>(rs: Seq<Result<(usize, usize, Encoding), E>>, len: int, s: Seq<Token>) -> bool {
    forall|i: int| 0 <= i < rs.len() ==> match #[trigger] rs[i] {
        Ok((ls, le, e)) => without_words(kept_in_block(e@, ls as int, le as int, len)) == without_words(
            kept_in_block(s, ls as int, le as int, len),
        ),
        Err(_) => false,
    }
}

/// Merging a chain of blocks that agree with `s` up to word ids gives the
/// tokens of `s` from the first block's start on, up to word ids.
proof fn lemma_chain_merges_up_to_words<E>(len: int, rs: Seq<Result<(usize, usize, Encoding), E>>, s: Seq<Token>)
    requires
        starts_sorted(s),
        rs.len() > 0,
        blocks_in_order(rs, len),
        blocks_agree_up_to_words(rs, len, s),
    ensures
        merged_blocks(len, rs) is Ok,
        without_words(merged_blocks(len, rs)->Ok_0) == without_words(tail_from(s, block_start(rs[0]))),
    decreases rs.len(),
{
    let r0 = rs[0];
    assert(r0 is Ok && 0 <= block_start(r0) < block_end(r0) <= len);
    let ls = block_start(r0);
    let le = block_end(r0);
    let (a0, z0, e0) = r0->Ok_0;
    let kept_e = kept_in_block(e0@, ls, le, len);
    let kept = kept_in_block(s, ls, le, len);
    let rest = rs.drop_first();
    if rs.len() == 1 {
        assert(rest.len() == 0);
        assert(le == len);
        assert(merged_blocks(len, rest) == Ok::<Seq<Token>, E>(Seq::empty()));
        assert(kept == tail_from(s, ls));
        assert(kept_e + Seq::<Token>::empty() =~= kept_e);
    } else {
        assert(blocks_in_order(rest, len)) by {
            assert forall|i: int| 0 <= i < rest.len() implies (#[trigger] rest[i]) is Ok && 0 <= block_start(rest[i])
                < block_end(rest[i]) <= len by {
                assert(rest[i] == rs[i + 1]);
            }
            assert forall|i: int| 0 <= i && i + 1 < rest.len() implies block_end(#[trigger] rest[i]) == block_start(
                rest[i + 1],
            ) by {
                assert(rest[i] == rs[i + 1]);
                assert(rest[i + 1] == rs[i + 2]);
            }
            assert(rest.last() == rs.last());
        }
        assert(blocks_agree_up_to_words(rest, len, s)) by {
            assert forall|i: int| 0 <= i < rest.len() implies match #[trigger] rest[i] {
                Ok((a, z, e)) => without_words(kept_in_block(e@, a as int, z as int, len)) == without_words(
                    kept_in_block(s, a as int, z as int, len),
                ),
                Err(_) => false,
            } by {
                assert(rest[i] == rs[i + 1]);
            }
        }
        lemma_chain_merges_up_to_words(len, rest, s);
        assert(rs[1] is Ok && block_start(rs[1]) < block_end(rs[1]) <= len);
        assert(block_start(rest[0]) == le);
        lemma_kept_then_tail(s, ls, le, len);
        let tail = merged_blocks(len, rest)->Ok_0;
        assert(merged_blocks(len, rs) == Ok::<Seq<Token>, E>(kept_e + tail));
        lemma_without_words_concat(kept_e, tail);
        lemma_without_words_concat(kept, tail_from(s, le));
    }
}

/// Merging blocks reassembles up to word ids: when the blocks were all
/// encoded, cover the text in order from its start to its end, and each keeps
/// of its own encoding what it would keep of an encoding `s` of the whole text
/// (with sorted starts), equal in everything but word ids, merging them
/// succeeds and gives `s` in everything but word ids.
pub proof fn lemma_blocks_reassemble_up_to_words<E>(len: int, rs: Seq<Result<(usize, usize, Encoding), E>>, s: Seq<Token>)
    requires
        starts_sorted(s),
        rs.len() > 0 || s.len() == 0,
        rs.len() > 0 ==> block_start(rs[0]) == 0,
        blocks_in_order(rs, len),
        blocks_agree_up_to_words(rs, len, s),
    ensures
        merged_blocks(len, rs) is Ok,
        without_words(merged_blocks(len, rs)->Ok_0) == without_words(s),
{
    if rs.len() > 0 {
        lemma_chain_merges_up_to_words(len, rs, s);
    } else {
        assert(s =~= Seq::<Token>::empty());
        assert(without_words(Seq::<Token>::empty()) =~= without_words(s));
    }
}

/// Every token a block keeps is one of its own.
proof fn lemma_kept_within(e: Seq<Token>, ls: int, le: int, len: int, n: int)
    requires
        offsets_within(e, n),
    ensures
        offsets_within(kept_in_block(e, ls, le, len), n),
{
    let a = if ls != 0 { e.filter(starts_at_or_after(ls)) } else { e };
    assert(offsets_within(a, n)) by {
        if ls != 0 {
            assert forall|i: int| 0 <= i < a.len() implies #[trigger] a[i].offsets.0 <= n && a[i].offsets.1 <= n by {
                assert(a.contains(a[i]));
                e.lemma_filter_contains_rev(starts_at_or_after(ls), a[i]);
            }
        }
    }
    if le < len {
        let k = a.filter(starts_before(le));
        assert forall|i: int| 0 <= i < k.len() implies #[trigger] k[i].offsets.0 <= n && k[i].offsets.1 <= n by {
            assert(k.contains(k[i]));
            a.lemma_filter_contains_rev(starts_before(le), k[i]);
        }
    }
}

/// Merging blocks whose tokens lie within the first `n` bytes gives tokens
/// within them too.
proof fn lemma_merged_blocks_within<E>(len: int, rs: Seq<Result<(usize, usize, Encoding), E>>, n: int)
    requires
        forall|i: int| 0 <= i < rs.len() ==> (#[trigger] rs[i] matches Ok((_, _, e)) ==> offsets_within(e@, n)),
        merged_blocks(len, rs) is Ok,
    ensures
        offsets_within(merged_blocks(len, rs)->Ok_0, n),
    decreases rs.len(),
{
    if rs.len() > 0 {
        let rest = rs.drop_first();
        assert forall|i: int| 0 <= i < rest.len() implies (#[trigger] rest[i] matches Ok((_, _, e)) ==> offsets_within(e@, n)) by {
            assert(rest[i] == rs[i + 1]);
        }
        if let Ok((ls, le, e)) = rs[0] {
            lemma_merged_blocks_within(len, rest, n);
            lemma_kept_within(e@, ls as int, le as int, len, n);
            crate::recursive::lemma_concat_within(
                kept_in_block(e@, ls as int, le as int, len),
                merged_blocks(len, rest)->Ok_0,
                n,
            );
        }
    }
}

// =============================================================================
// SEQUENTIAL STREAMING
// =============================================================================

/// Where the text encoded for the block at `pos` ends: the first character
/// boundary at or after the block end plus the overlap, or the end of the text
/// for the last block.
pub open spec fn process_end_of(b: Seq<u8>, block_size: int, overlap: int, pos: int) -> int {
    let len = b.len() as int;
    let block_end = logical_end_of(len, block_size, pos);
    if block_end < len { next_boundary(b, clamp_to(block_end + overlap, len)) } else { len }
}

/// The tokens a block keeps: those starting before its end, or all of them for
/// the last block.
pub open spec fn kept_in_stream(s: Seq<Token>, len: int, block_size: int, pos: int) -> Seq<Token> {
    if logical_end_of(len, block_size, pos) < len { s.filter(starts_before(pos + block_size)) } else { s }
}

/// `trace` lists, block after block from `pos`, what encoding each block gave
/// (shifted to positions in the whole text), ending at the first error.
pub open spec fn stream_trace_ok<F: Fn(&str, bool) -> Result<Encoding, E>, E>(
    f: F,
    b: Seq<u8>,
    block_size: int,
    overlap: int,
    pos: int,
    trace: Seq<Result<Encoding, E>>,
) -> bool
    decreases b.len() - pos,
{
    if pos >= b.len() || block_size <= 0 || pos < 0 {
        trace.len() == 0
    } else {
        &&& trace.len() >= 1
        &&& encoded_at(f, b.subrange(pos, process_end_of(b, block_size, overlap, pos)), pos, trace[0])
        &&& (trace[0] is Err ==> trace.len() == 1)
        &&& (trace[0] is Ok ==> stream_trace_ok(
            f,
            b,
            block_size,
            overlap,
            logical_end_of(b.len() as int, block_size, pos),
            trace.drop_first(),
        ))
    }
}

/// The result of streaming along `trace` from `pos`: the first error, or the
/// kept tokens of every block one after the other.
pub open spec fn stream_result<E>(len: int, block_size: int, pos: int, trace: Seq<Result<Encoding, E>>) -> Result<Seq<Token>, E>
    decreases trace.len(),
{
    if trace.len() == 0 {
        Ok(Seq::empty())
    } else {
        match trace[0] {
            Err(e) => Err(e),
            Ok(enc) => prepend(
                kept_in_stream(enc@, len, block_size, pos),
                stream_result(len, block_size, logical_end_of(len, block_size, pos), trace.drop_first()),
            ),
        }
    }
}

/// `r` is an outcome of sequential streaming of the text with bytes `b`.
pub open spec fn streaming_outcome<F: Fn(&str, bool) -> Result<Encoding, E>, E>(
    f: F,
    b: Seq<u8>,
    block_size: int,
    overlap: int,
    r: Result<Seq<Token>, E>,
) -> bool {
    exists|t: Seq<Result<Encoding, E>>|
        #[trigger] stream_trace_ok(f, b, block_size, overlap, 0, t) && stream_result(b.len() as int, block_size, 0, t) == r
}

/// The overlap that streaming uses: the configured overlap or three times the
/// maximum token length, whichever is larger.
pub open spec fn streaming_overlap_of(config: ParallelConfig, max_token_len: int) -> int {
    if config.streaming_overlap >= max_token_len * 3 { config.streaming_overlap as int } else { max_token_len * 3 }
}

/// Every multiple of `block_size` within the text is a character boundary.
pub open spec fn block_starts_are_boundaries(b: Seq<u8>, block_size: int) -> bool {
    forall|p: int| 0 <= p < b.len() && p % block_size == 0 ==> vstd::utf8::is_char_boundary(b, p)
}

/// Cache-block streaming encode for very large inputs.
///
/// Processes the input in blocks, sequentially, each with a small overlap
/// window to its right; each block keeps the tokens that start before its end.
pub fn encode_streaming<F, E>(encode_fn: &F, max_token_len: usize, input: &str, config: &ParallelConfig) -> (r: Result<
    Encoding,
    E,
>)
    where
        F: Fn(&str, bool) -> Result<Encoding, E>,
    requires
        encoder_total(*encode_fn),
        encoder_offsets_within(*encode_fn),
        max_token_len * 3 <= usize::MAX,
        config.block_size > 0 || bytes_of(input).len() == 0,
        block_sizes_fit(
            bytes_of(input).len() as int,
            config.block_size as int,
            streaming_overlap_of(*config, max_token_len as int),
        ),
        config.block_size > 0 ==> block_starts_are_boundaries(bytes_of(input), config.block_size as int),
    ensures
        streaming_outcome(
            *encode_fn,
            bytes_of(input),
            config.block_size as int,
            streaming_overlap_of(*config, max_token_len as int),
            match r {
                Ok(e) => Ok::<Seq<Token>, E>(e@),
                Err(e) => Err::<Seq<Token>, E>(e),
            },
        ),
{
    let ghost b = bytes_of(input);
    let block_size = config.block_size;
    let m3 = max_token_len * 3;
    let overlap = if config.streaming_overlap >= m3 { config.streaming_overlap } else { m3 };
    let ghost bs = block_size as int;
    let ghost ov = overlap as int;
    let ghost f = *encode_fn;
    let len = crate::split_point::byte_len(input);
    proof {
        lemma_valid_utf8(input);
    }
    let mut result = Encoding::with_capacity(0);
    let mut offset: usize = 0;
    let ghost mut trace: Seq<Result<Encoding, E>> = Seq::empty();
    proof {
        assert forall|rest: Seq<Result<Encoding, E>>| #[trigger] stream_trace_ok(f, b, bs, ov, 0, rest) implies
            stream_trace_ok(f, b, bs, ov, 0, trace + rest) && stream_result(len as int, bs, 0, trace + rest) == prepend(
                result@,
                stream_result(len as int, bs, 0, rest),
            ) by {
            assert(trace + rest =~= rest);
            match stream_result(len as int, bs, 0, rest) {
                Ok(x) => {
                    assert(result@ + x =~= x);
                },
                Err(_) => {},
            }
        }
    }

    while offset < len
        invariant
            b == bytes_of(input),
            len == b.len(),
            bs == block_size,
            block_size == config.block_size,
            ov == overlap,
            f == *encode_fn,
            encoder_total(*encode_fn),
            encoder_offsets_within(*encode_fn),
            overlap == streaming_overlap_of(*config, max_token_len as int),
            block_size > 0 || len == 0,
            block_sizes_fit(len as int, bs, ov),
            block_size > 0 ==> block_starts_are_boundaries(b, bs),
            vstd::utf8::valid_utf8(b),
            offset <= len,
            block_size > 0 && offset < len ==> offset % block_size == 0,
            forall|rest: Seq<Result<Encoding, E>>| #[trigger] stream_trace_ok(f, b, bs, ov, offset as int, rest) ==> stream_trace_ok(
                f,
                b,
                bs,
                ov,
                0,
                trace + rest,
            ) && stream_result(len as int, bs, 0, trace + rest) == prepend(
                result@,
                stream_result(len as int, bs, offset as int, rest),
            ),
        decreases len - offset,
    {
        // Calculate block boundaries
        let block_end = if offset + block_size < len { offset + block_size } else { len };
        let process_end = if block_end < len {
            let t = if block_end + overlap < len { block_end + overlap } else { len };
            let e = find_char_boundary_forward(input, t);
            proof {
                lemma_next_boundary_is(b, t as int, e as int);
            }
            e
        } else {
            len
        };
        assert(process_end == process_end_of(b, bs, ov, offset as int));
        proof {
            assert(vstd::utf8::is_char_boundary(b, offset as int));
            crate::split_point::lemma_ends_are_boundaries(input);
        }
        // Extract block with potential overlap
        let boundaries = BlockBoundaries {
            start_offset: offset,
            logical_start: offset,
            logical_end: block_end,
            end_offset: process_end,
        };
        let encoded = encode_block(encode_fn, input, boundaries);
        let ghost genc = encoded;
        let ghost x: Result<Encoding, E> = match genc {
            Ok((_, _, e)) => Ok(e),
            Err(e) => Err(e),
        };
        let ghost k = kept_in_stream(match x { Ok(e) => e@, Err(_) => Seq::empty() }, len as int, bs, offset as int);
        let ghost next = logical_end_of(len as int, bs, offset as int);
        proof {
            assert forall|rest: Seq<Result<Encoding, E>>| #[trigger] stream_trace_ok(f, b, bs, ov, next, rest) && x is Ok implies
                stream_trace_ok(f, b, bs, ov, offset as int, seq![x] + rest) by {
                assert((seq![x] + rest).drop_first() =~= rest);
            }
        }
        let mut block_encoding = match encoded {
            Ok((_, _, e)) => e,
            Err(e) => {
                proof {
                    let one = seq![x];
                    assert(stream_trace_ok(f, b, bs, ov, offset as int, one));
                    assert(stream_result(len as int, bs, offset as int, one) == Err::<Seq<Token>, E>(e));
                    assert(stream_trace_ok(f, b, bs, ov, 0, trace + one));
                    assert(stream_result(len as int, bs, 0, trace + one) == Err::<Seq<Token>, E>(e));
                    assert(streaming_outcome(
                        *encode_fn,
                        bytes_of(input),
                        config.block_size as int,
                        streaming_overlap_of(*config, max_token_len as int),
                        Err::<Seq<Token>, E>(e),
                    ));
                }
                return Err(e);
            },
        };
        // Filter tokens: keep only tokens that start before the block boundary
        // (tokens in the overlap region will be processed again with the next block);
        // the last block keeps all tokens
        if block_end < len {
            let global_block_end = offset + block_size;
            block_encoding.filter_tokens_starting_before(global_block_end);
        }
        assert(block_encoding@ == k);
        let ghost before = result@;
        // Stream tokens to result
        if result.is_empty() {
            result = block_encoding;
            assert(result@ =~= before + k);
        } else {
            result.merge_with(block_encoding, false);
            assert(result@ =~= before + k) by {
                crate::lazy_encoding::lemma_shifted_zero(k);
            }
        }
        proof {
            let old_trace = trace;
            trace = trace.push(x);
            assert forall|rest: Seq<Result<Encoding, E>>| #[trigger] stream_trace_ok(f, b, bs, ov, next, rest) implies
                stream_trace_ok(f, b, bs, ov, 0, trace + rest) && stream_result(len as int, bs, 0, trace + rest) == prepend(
                    result@,
                    stream_result(len as int, bs, next, rest),
                ) by {
                let r1 = seq![x] + rest;
                assert(stream_trace_ok(f, b, bs, ov, offset as int, r1));
                assert(old_trace + r1 =~= trace + rest);
                assert(r1.drop_first() =~= rest);
                assert(stream_result(len as int, bs, offset as int, r1) == prepend(k, stream_result(len as int, bs, next, rest)));
                match stream_result(len as int, bs, next, rest) {
                    Ok(y) => {
                        assert(before + (k + y) =~= (before + k) + y);
                    },
                    Err(_) => {},
                }
            }
            if block_size > 0 {
                vstd::arithmetic::div_mod::lemma_mod_add_multiples_vanish(offset as int, block_size as int);
            }
        }
        // Move to next block
        offset = block_end;
    }
    proof {
        let empty = Seq::<Result<Encoding, E>>::empty();
        assert(stream_trace_ok(f, b, bs, ov, offset as int, empty));
        assert(trace + empty =~= trace);
        assert(result@ + Seq::<Token>::empty() =~= result@);
    }
    Ok(result)
}

// =============================================================================
// PARALLEL STREAMING
// =============================================================================

/// Calls rayon's `into_par_iter().map(..).collect()` on the blocks: applies
/// `map` to every block, possibly in parallel, and returns the results in the
/// order of the blocks.
#[verifier::external_body]
fn par_map_blocks<M, R>(blocks: Vec<BlockBoundaries>, map: M) -> (r: Vec<R>)
    where
        M: Fn(BlockBoundaries) -> R + Sync + Send,
        R: Send,
    requires
        forall|i: int| 0 <= i < blocks@.len() ==> call_requires(map, (#[trigger] blocks@[i],)),
    ensures
        r@.len() == blocks@.len(),
        forall|i: int| 0 <= i < blocks@.len() ==> call_ensures(map, (#[trigger] blocks@[i],), r@[i]),
{
    blocks.into_par_iter().map(map).collect()
}

/// `res` is what encoding block `blk` of the text with bytes `b` gave: its
/// logical range and its encoding (with positions in the whole text), or the
/// encoder's error.
pub open spec fn block_encoded<F: Fn(&str, bool) -> Result<Encoding, E>, E>(
    f: F,
    b: Seq<u8>,
    blk: BlockBoundaries,
    res: Result<(usize, usize, Encoding), E>,
) -> bool {
    let chunk = b.subrange(blk.start_offset as int, blk.end_offset as int);
    match res {
        Ok((ls, le, e)) => ls == blk.logical_start && le == blk.logical_end && encoded_at(
            f,
            chunk,
            blk.start_offset as int,
            Ok::<Encoding, E>(e),
        ),
        Err(e) => encoded_at(f, chunk, blk.start_offset as int, Err::<Encoding, E>(e)),
    }
}

/// `block_encoded` for the encoder behind a reference.
pub open spec fn block_encoded_by<F: Fn(&str, bool) -> Result<Encoding, E>, E>(
    f: &F,
    b: Seq<u8>,
    blk: BlockBoundaries,
    res: Result<(usize, usize, Encoding), E>,
) -> bool {
    block_encoded(*f, b, blk, res)
}

/// `rs` holds, block by block, what encoding each block gave.
pub open spec fn blocks_encoded<F: Fn(&str, bool) -> Result<Encoding, E>, E>(
    f: F,
    b: Seq<u8>,
    blocks: Seq<BlockBoundaries>,
    rs: Seq<Result<(usize, usize, Encoding), E>>,
) -> bool {
    &&& rs.len() == blocks.len()
    &&& forall|i: int| 0 <= i < blocks.len() ==> block_encoded(f, b, #[trigger] blocks[i], rs[i])
}

/// `r` is an outcome of parallel streaming of the text with bytes `b`: every
/// block encoded on its own, then the blocks merged in order.
pub open spec fn parallel_streaming_outcome<F: Fn(&str, bool) -> Result<Encoding, E>, E>(
    f: F,
    b: Seq<u8>,
    block_size: int,
    overlap: int,
    r: Result<Seq<Token>, E>,
) -> bool {
    exists|rs: Seq<Result<(usize, usize, Encoding), E>>|
        #[trigger] blocks_encoded(f, b, blocks_from(b, block_size, overlap, 0), rs) && merged_blocks(b.len() as int, rs) == r
}

/// Cache-block streaming encode with parallel block processing.
///
/// 1. Divide input into cache-sized blocks with overlaps
/// 2. Process blocks in parallel using rayon
/// 3. Merge results sequentially with proper boundary handling
pub fn encode_streaming_parallel<F, E>(encode_fn: &F, max_token_len: usize, input: &str, config: &ParallelConfig) -> (r: Result<
    Encoding,
    E,
>)
    where
        F: Fn(&str, bool) -> Result<Encoding, E> + Sync,
        E: Send,
    requires
        encoder_total(*encode_fn),
        encoder_offsets_within(*encode_fn),
        max_token_len * 3 <= usize::MAX,
        config.block_size > 0 || bytes_of(input).len() == 0,
        block_sizes_fit(
            bytes_of(input).len() as int,
            config.block_size as int,
            streaming_overlap_of(*config, max_token_len as int),
        ),
    ensures
        parallel_streaming_outcome(
            *encode_fn,
            bytes_of(input),
            config.block_size as int,
            streaming_overlap_of(*config, max_token_len as int),
            match r {
                Ok(e) => Ok::<Seq<Token>, E>(e@),
                Err(e) => Err::<Seq<Token>, E>(e),
            },
        ),
        r matches Ok(e) ==> offsets_within(e@, bytes_of(input).len() as int),
{
    let ghost b = bytes_of(input);
    let block_size = config.block_size;
    let m3 = max_token_len * 3;
    let overlap = if config.streaming_overlap >= m3 { config.streaming_overlap } else { m3 };
    let len = crate::split_point::byte_len(input);

    // Calculate all block boundaries
    let blocks = calculate_block_boundaries(input, block_size, overlap);
    let ghost bl = blocks@;
    proof {
        lemma_valid_utf8(input);
        if block_size > 0 {
            lemma_blocks_partition(b, block_size as int, overlap as int, 0);
        } else {
            assert(bl.len() == 0);
        }
    }

    // Encode all blocks in parallel; each block encodes with overlap
    let encode_one = (|boundaries: BlockBoundaries| -> (res: Result<(usize, usize, Encoding), E>)
        requires
            encoder_ready(encode_fn),
            block_well_placed(bytes_of(input), block_size as int, boundaries),
        ensures
            block_encoded_by(encode_fn, bytes_of(input), boundaries, res),
        { encode_block(encode_fn, input, boundaries) });
    assert forall|i: int| 0 <= i < bl.len() implies call_requires(encode_one, (#[trigger] bl[i],)) by {
        assert(block_well_placed(b, block_size as int, bl[i]));
    }
    let block_results = par_map_blocks(blocks, encode_one);
    let ghost rs = block_results@;
    assert(blocks_encoded(*encode_fn, b, bl, rs)) by {
        assert forall|i: int| 0 <= i < bl.len() implies block_encoded(*encode_fn, b, #[trigger] bl[i], rs[i]) by {
            assert(call_ensures(encode_one, (bl[i],), rs[i]));
        }
    }

    proof {
        // Every block's tokens lie within the text
        assert forall|i: int| 0 <= i < rs.len() implies (#[trigger] rs[i] matches Ok((_, _, e)) ==> offsets_within(
            e@,
            len as int,
        )) by {
            assert(block_well_placed(b, block_size as int, bl[i]));
            assert(call_ensures(encode_one, (bl[i],), rs[i]));
            if let Ok((_, _, e)) = rs[i] {
                let so = bl[i].start_offset as int;
                let chunk = b.subrange(so, bl[i].end_offset as int);
                let (piece, raw) = choose|piece: &str, raw: Result<Encoding, E>|
                    #![trigger bytes_of(piece), call_ensures(*encode_fn, (piece, false), raw)]
                    bytes_of(piece) == chunk && call_ensures(*encode_fn, (piece, false), raw) && match raw {
                        Ok(x) => Ok::<Encoding, E>(e) matches Ok(yy) && yy@ == shifted(x@, so),
                        Err(x) => Ok::<Encoding, E>(e) == Err::<Encoding, E>(x),
                    };
                let x = raw->Ok_0;
                assert(offsets_within(x@, chunk.len() as int));
                lemma_shift_within(x@, chunk.len() as int, so);
            }
        }
    }

    // Merge results sequentially
    let r = merge_block_results(len, block_results);
    proof {
        if r is Ok {
            lemma_merged_blocks_within(len as int, rs, len as int);
        }
    }
    assert(parallel_streaming_outcome(
        *encode_fn,
        b,
        config.block_size as int,
        streaming_overlap_of(*config, max_token_len as int),
        match r {
            Ok(e) => Ok::<Seq<Token>, E>(e@),
            Err(e) => Err::<Seq<Token>, E>(e),
        },
    ));
    r
}

} // verus!
