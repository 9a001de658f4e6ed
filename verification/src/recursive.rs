//! Recursive parallel encoding strategy.
//!
//! 1. Recursively split the input based on available cores and input size
//! 2. Encode chunks in parallel with overlapping regions
//! 3. Merge results by using left encoding up to the split point and right encoding after
//! 4. Filter and merge the results deterministically

use vstd::prelude::*;
use vstd::arithmetic::power2::{lemma2_to64, lemma_pow2_pos, lemma_pow2_strictly_increases, lemma_pow2_unfold, pow2};
use crate::config::{ParallelConfig, MAX_RECURSION_DEPTH};
use crate::encoding::{shift_fits, shifted, starts_at_or_after, starts_before, Encoding, Token};
use crate::lazy_encoding::{
    adjusted, cut_point, lemma_cut_point, lemma_partition_filters, lemma_shifted_partition, lemma_shifted_take,
    starts_sorted, LazyEncoding,
};
use crate::split_point::{
    bytes_of, calculate_overlap_size, clamp_to, find_char_boundary_forward, find_split_point_safe,
    lemma_next_boundary_is, next_boundary, overlap_size, split_point_of,
};

verus! {

// =============================================================================
// DEPTH CALCULATION
// =============================================================================

/// Estimated token count of `bytes` bytes at `milli` thousandths of a byte per
/// token, rounded down and held within `usize`; at 0 bytes per token, no
/// tokens for no bytes and no bound for any other count.
pub open spec fn estimated_tokens(bytes: int, milli: int) -> int {
    if milli <= 0 {
        if bytes <= 0 { 0 } else { usize::MAX as int }
    } else if (bytes * 1000) / milli > usize::MAX {
        usize::MAX as int
    } else {
        (bytes * 1000) / milli
    }
}

/// `floor(log2(n))` for `n >= 1` (0 below).
pub open spec fn floor_log2(n: int) -> int
    decreases n,
{
    if n < 2 {
        0
    } else {
        1 + floor_log2(n / 2)
    }
}

/// `ceil(log2(n))` for `n >= 1` (0 below).
pub open spec fn ceil_log2(n: int) -> int
    decreases n,
{
    if n <= 1 {
        0
    } else {
        1 + ceil_log2(n / 2 + n % 2)
    }
}

/// The recursion depth for an input: none on a single core; otherwise
/// `floor(log2(chunks))` where `chunks` is the estimated token count over the
/// minimum tokens per chunk (0 for fewer than 2 chunks), capped by
/// `ceil(log2(num_cores))` and by `MAX_RECURSION_DEPTH`.
pub open spec fn optimal_depth(input_bytes: int, num_cores: int, min_tokens_per_chunk: int, bytes_per_token_milli: int) -> int {
    if num_cores <= 1 {
        0
    } else {
        let chunks = estimated_tokens(input_bytes, bytes_per_token_milli) / min_tokens_per_chunk;
        let by_tokens = if chunks >= 2 { floor_log2(chunks) } else { 0 };
        let by_cores = ceil_log2(num_cores);
        let d = if by_tokens <= by_cores { by_tokens } else { by_cores };
        if d <= MAX_RECURSION_DEPTH { d } else { MAX_RECURSION_DEPTH as int }
    }
}

/// `2^floor(log2(c))` is at most `c`.
proof fn lemma_floor_log2_pow2(c: int)
    requires
        c >= 1,
    ensures
        floor_log2(c) >= 0,
        pow2(floor_log2(c) as nat) <= c,
    decreases c,
{
    if c >= 2 {
        lemma_floor_log2_pow2(c / 2);
        lemma_pow2_unfold(floor_log2(c) as nat);
    } else {
        lemma2_to64();
    }
}

/// `2^floor(log2(c))` is the largest power of two at most `c`:
/// `c < 2^(floor(log2(c)) + 1)`.
pub proof fn lemma_floor_log2_upper(c: int)
    requires
        c >= 1,
    ensures
        floor_log2(c) >= 0,
        c < pow2((floor_log2(c) + 1) as nat),
    decreases c,
{
    if c >= 2 {
        lemma_floor_log2_upper(c / 2);
        lemma_pow2_unfold((floor_log2(c) + 1) as nat);
    } else {
        lemma2_to64();
    }
}

/// `2^ceil(log2(n))` is the least power of two at least `n`: it reaches `n`,
/// and for `n > 1` the power below it does not.
pub proof fn lemma_ceil_log2_pow2(n: int)
    requires
        n >= 1,
    ensures
        ceil_log2(n) >= 0,
        n <= pow2(ceil_log2(n) as nat),
        n > 1 ==> ceil_log2(n) >= 1 && pow2((ceil_log2(n) - 1) as nat) < n,
    decreases n,
{
    if n > 1 {
        let m = n / 2 + n % 2;
        lemma_ceil_log2_pow2(m);
        let c = ceil_log2(n);
        assert(c == 1 + ceil_log2(m));
        lemma_pow2_unfold(c as nat);
        assert(2 * m <= n + 1);
        if m == 1 {
            lemma2_to64();
        } else {
            lemma_pow2_unfold(ceil_log2(m) as nat);
            assert(pow2((c - 1) as nat) == pow2(ceil_log2(m) as nat));
        }
    } else {
        lemma2_to64();
    }
}

/// Two exponents whose powers of two both hold `n` between the power below
/// and the power itself are the same.
proof fn lemma_ceil_exponent_unique(a: nat, b: nat, n: int)
    requires
        a >= 1,
        b >= 1,
        pow2((a - 1) as nat) < n <= pow2(a),
        pow2((b - 1) as nat) < n <= pow2(b),
    ensures
        a == b,
{
    if a < b {
        if a < b - 1 {
            lemma_pow2_strictly_increases(a, (b - 1) as nat);
        }
    } else if b < a {
        if b < a - 1 {
            lemma_pow2_strictly_increases(b, (a - 1) as nat);
        }
    }
}

/// Two exponents whose powers of two both hold `n` between the power itself
/// and the next one are the same.
proof fn lemma_floor_exponent_unique(a: nat, b: nat, n: int)
    requires
        pow2(a) <= n < pow2(a + 1),
        pow2(b) <= n < pow2(b + 1),
    ensures
        a == b,
{
    if a < b {
        if a + 1 < b {
            lemma_pow2_strictly_increases(a + 1, b);
        }
    } else if b < a {
        if b + 1 < a {
            lemma_pow2_strictly_increases(b + 1, a);
        }
    }
}

/// `c` is the least exponent whose power of two reaches `n`.
pub open spec fn is_ceil_exponent(n: int, c: nat) -> bool {
    c >= 1 && pow2((c - 1) as nat) < n <= pow2(c)
}

/// `k` is the greatest exponent whose power of two is at most `x` (0 when
/// `x` is below 2).
pub open spec fn is_floor_exponent(x: int, k: nat) -> bool {
    if x >= 2 {
        pow2(k) <= x < pow2(k + 1)
    } else {
        k == 0
    }
}

/// How many chunks the estimated tokens allow at `min_tokens_per_chunk` each.
pub open spec fn chunk_count(input_bytes: int, bytes_per_token_milli: int, min_tokens_per_chunk: int) -> int {
    estimated_tokens(input_bytes, bytes_per_token_milli) / min_tokens_per_chunk
}

/// The smallest of `c`, `k` and `MAX_RECURSION_DEPTH`.
pub open spec fn least_of(c: nat, k: nat) -> int {
    let d = if k <= c { k } else { c };
    if d <= MAX_RECURSION_DEPTH { d as int } else { MAX_RECURSION_DEPTH as int }
}

/// The recursion depth, characterised by powers of two: on two or more
/// threads, with `c` the least exponent whose power of two reaches
/// `num_cores`, and `k` the greatest exponent whose power of two is at most
/// the number of chunks the estimated tokens allow (0 for fewer than 2
/// chunks), the depth is the smallest of `c`, `k` and `MAX_RECURSION_DEPTH`.
pub proof fn lemma_optimal_depth_characterized(
    input_bytes: int,
    num_cores: int,
    min_tokens_per_chunk: int,
    bytes_per_token_milli: int,
    c: nat,
    k: nat,
)
    requires
        num_cores >= 2,
        is_ceil_exponent(num_cores, c),
        is_floor_exponent(chunk_count(input_bytes, bytes_per_token_milli, min_tokens_per_chunk), k),
    ensures
        optimal_depth(input_bytes, num_cores, min_tokens_per_chunk, bytes_per_token_milli) == least_of(c, k),
{
    lemma_ceil_log2_pow2(num_cores);
    lemma_ceil_exponent_unique(ceil_log2(num_cores) as nat, c, num_cores);
    let chunks = chunk_count(input_bytes, bytes_per_token_milli, min_tokens_per_chunk);
    if chunks >= 2 {
        lemma_floor_log2_pow2(chunks);
        lemma_floor_log2_upper(chunks);
        lemma_floor_exponent_unique(floor_log2(chunks) as nat, k, chunks);
    }
}

/// `ceil(log2(n))` is never negative.
proof fn lemma_ceil_log2_nonneg(n: int)
    ensures
        ceil_log2(n) >= 0,
    decreases n,
{
    if n > 1 {
        lemma_ceil_log2_nonneg(n / 2 + n % 2);
    }
}

/// The recursion depth never exceeds `MAX_RECURSION_DEPTH` nor
/// `ceil(log2(num_cores))`, is 0 on a single core, and leaves each of the
/// `2^depth` chunks at least `min_tokens_per_chunk` estimated tokens on
/// average.
pub proof fn lemma_optimal_depth_bounds(input_bytes: int, num_cores: int, min_tokens_per_chunk: int, bytes_per_token_milli: int)
    requires
        0 <= input_bytes,
        num_cores > 1 ==> min_tokens_per_chunk > 0,
    ensures
        0 <= optimal_depth(input_bytes, num_cores, min_tokens_per_chunk, bytes_per_token_milli) <= MAX_RECURSION_DEPTH,
        optimal_depth(input_bytes, num_cores, min_tokens_per_chunk, bytes_per_token_milli) <= ceil_log2(num_cores),
        num_cores <= 1 ==> optimal_depth(input_bytes, num_cores, min_tokens_per_chunk, bytes_per_token_milli) == 0,
        optimal_depth(input_bytes, num_cores, min_tokens_per_chunk, bytes_per_token_milli) > 0 ==> pow2(
            optimal_depth(input_bytes, num_cores, min_tokens_per_chunk, bytes_per_token_milli) as nat,
        ) * min_tokens_per_chunk <= estimated_tokens(input_bytes, bytes_per_token_milli),
{
    lemma_ceil_log2_nonneg(num_cores);
    let d = optimal_depth(input_bytes, num_cores, min_tokens_per_chunk, bytes_per_token_milli);
    if num_cores > 1 {
        let est = estimated_tokens(input_bytes, bytes_per_token_milli);
        assert(est >= 0);
        let chunks = est / min_tokens_per_chunk;
        if chunks >= 2 {
            lemma_floor_log2_pow2(chunks);
            let by_tokens = floor_log2(chunks);
            if d > 0 {
                assert(d <= by_tokens);
                if d < by_tokens {
                    lemma_pow2_strictly_increases(d as nat, by_tokens as nat);
                }
                let pd = pow2(d as nat);
                assert(pd <= chunks);
                assert(pd * min_tokens_per_chunk <= chunks * min_tokens_per_chunk) by (nonlinear_arith)
                    requires
                        pd <= chunks,
                        min_tokens_per_chunk > 0,
                ;
                assert(chunks * min_tokens_per_chunk <= est) by (nonlinear_arith)
                    requires
                        chunks == est / min_tokens_per_chunk,
                        min_tokens_per_chunk > 0,
                        est >= 0,
                ;
            }
        }
    }
}

/// Estimated token count of an input of `bytes` bytes.
pub fn estimate_tokens(bytes: usize, bytes_per_token_milli: usize) -> (r: usize)
    ensures
        r == estimated_tokens(bytes as int, bytes_per_token_milli as int),
{
    if bytes_per_token_milli == 0 {
        return if bytes == 0 { 0 } else { usize::MAX };
    }
    let scaled: u128 = (bytes as u128) * 1000;
    let q: u128 = scaled / (bytes_per_token_milli as u128);
    if q > usize::MAX as u128 {
        usize::MAX
    } else {
        q as usize
    }
}

proof fn lemma_floor_log2_bounds(n: int)
    requires
        n >= 0,
    ensures
        0 <= floor_log2(n) <= n,
        n >= 2 ==> floor_log2(n) >= 1,
    decreases n,
{
    if n >= 2 {
        lemma_floor_log2_bounds(n / 2);
    }
}

proof fn lemma_ceil_log2_bounds(n: int)
    requires
        n >= 0,
    ensures
        0 <= ceil_log2(n) <= n,
        n > 1 ==> ceil_log2(n) >= 1,
    decreases n,
{
    if n > 1 {
        lemma_ceil_log2_bounds(n / 2 + n % 2);
    }
}

fn floor_log2_of(n: usize) -> (r: usize)
    ensures
        r == floor_log2(n as int),
        n >= 1 ==> pow2(r as nat) <= n < pow2((r + 1) as nat),
{
    proof {
        if n >= 1 {
            lemma_floor_log2_pow2(n as int);
            lemma_floor_log2_upper(n as int);
        }
    }
    let mut x = n;
    let mut k: usize = 0;
    while x >= 2
        invariant
            k + floor_log2(x as int) == floor_log2(n as int),
            x <= n,
        decreases x,
    {
        proof {
            lemma_floor_log2_bounds(n as int);
            lemma_floor_log2_bounds(x as int);
        }
        x = x / 2;
        k = k + 1;
    }
    k
}

fn ceil_log2_of(n: usize) -> (r: usize)
    ensures
        r == ceil_log2(n as int),
        n >= 1 ==> n <= pow2(r as nat),
        n > 1 ==> r >= 1 && pow2((r - 1) as nat) < n,
{
    proof {
        if n >= 1 {
            lemma_ceil_log2_pow2(n as int);
        }
    }
    let mut x = n;
    let mut k: usize = 0;
    while x > 1
        invariant
            k + ceil_log2(x as int) == ceil_log2(n as int),
            x <= n,
        decreases x,
    {
        proof {
            lemma_ceil_log2_bounds(n as int);
            lemma_ceil_log2_bounds(x as int);
        }
        x = x / 2 + x % 2;
        k = k + 1;
    }
    k
}

/// Compute the optimal recursion depth based on input size and available cores.
///
/// Uses token-based calculation: each chunk should have at least `min_tokens_per_chunk`
/// tokens to justify the parallel overhead.
pub fn compute_optimal_depth(
    input_bytes: usize,
    num_cores: usize,
    min_tokens_per_chunk: usize,
    bytes_per_token_milli: usize,
) -> (r: usize)
    requires
        num_cores > 1 ==> min_tokens_per_chunk > 0,
    ensures
        r == optimal_depth(input_bytes as int, num_cores as int, min_tokens_per_chunk as int, bytes_per_token_milli as int),
        num_cores <= 1 ==> r == 0,
        forall|c: nat, k: nat|
            #![trigger is_ceil_exponent(num_cores as int, c), is_floor_exponent(chunk_count(input_bytes as int, bytes_per_token_milli as int, min_tokens_per_chunk as int), k)]
            num_cores >= 2 && is_ceil_exponent(num_cores as int, c) && is_floor_exponent(
                chunk_count(input_bytes as int, bytes_per_token_milli as int, min_tokens_per_chunk as int),
                k,
            ) ==> r == least_of(c, k),
{
    proof {
        assert forall|c: nat, k: nat|
            #![trigger is_ceil_exponent(num_cores as int, c), is_floor_exponent(chunk_count(input_bytes as int, bytes_per_token_milli as int, min_tokens_per_chunk as int), k)]
            num_cores >= 2 && is_ceil_exponent(num_cores as int, c) && is_floor_exponent(
                chunk_count(input_bytes as int, bytes_per_token_milli as int, min_tokens_per_chunk as int),
                k,
            ) implies optimal_depth(
            input_bytes as int,
            num_cores as int,
            min_tokens_per_chunk as int,
            bytes_per_token_milli as int,
        ) == least_of(c, k) by {
            lemma_optimal_depth_characterized(
                input_bytes as int,
                num_cores as int,
                min_tokens_per_chunk as int,
                bytes_per_token_milli as int,
                c,
                k,
            );
        }
    }
    if num_cores <= 1 {
        return 0;  // No parallelism benefit with single core
    }
    // Estimate total tokens from input size
    let estimated = estimate_tokens(input_bytes, bytes_per_token_milli);
    // How many chunks can we make while keeping each >= min_tokens_per_chunk?
    let max_chunks_by_tokens = estimated / min_tokens_per_chunk;
    // depth = floor(log2(max_chunks))
    let depth_by_tokens = if max_chunks_by_tokens >= 2 { floor_log2_of(max_chunks_by_tokens) } else { 0 };
    // Also limit by available cores (no benefit beyond core count)
    let depth_by_cores = ceil_log2_of(num_cores);
    let d = if depth_by_tokens <= depth_by_cores { depth_by_tokens } else { depth_by_cores };
    if d <= MAX_RECURSION_DEPTH { d } else { MAX_RECURSION_DEPTH }
}

// =============================================================================
// THE ENCODER
// =============================================================================

/// Every token of `s` lies within bytes `[lo, hi]`, and none starts before
/// the token before it ends.
pub open spec fn ordered_within(s: Seq<Token>, lo: int, hi: int) -> bool {
    &&& forall|i: int|
        0 <= i < s.len() ==> lo <= #[trigger] s[i].offsets.0 <= hi && lo <= s[i].offsets.1 <= hi
    &&& !has_overlap(s)
}

/// Every encoding the encoder gives is ordered within its text.
pub open spec fn encoder_ordered<F: Fn(&str, bool) -> Result<Encoding, E>, E>(f: F) -> bool {
    forall|s: &str, e: Encoding|
        #[trigger] call_ensures(f, (s, false), Ok::<Encoding, E>(e)) ==> ordered_within(e@, 0, bytes_of(s).len() as int)
}

/// Shifting an ordered encoding by `d` moves its bounds by `d`.
proof fn lemma_shift_ordered(s: Seq<Token>, d: int, n: int)
    requires
        ordered_within(s, 0, n),
        0 <= d,
        n + d <= usize::MAX,
    ensures
        ordered_within(shifted(s, d), d, n + d),
{
    let t = shifted(s, d);
    assert forall|i: int| 0 <= i < t.len() implies d <= #[trigger] t[i].offsets.0 <= n + d && d <= t[i].offsets.1 <= n + d by {
        assert(0 <= s[i].offsets.0 <= n && 0 <= s[i].offsets.1 <= n);
    }
    if has_overlap(t) {
        let i = choose|i: int| 0 <= i && i + 1 < t.len() && #[trigger] t[i + 1].offsets.0 < t[i].offsets.1;
        assert(s[i + 1].offsets.0 < s[i].offsets.1);
        assert(has_overlap(s));
    }
}

/// A merge that succeeds is ordered within the bounds that hold both halves.
proof fn lemma_merged_ordered(a: LazyEncoding, c: LazyEncoding, split: int, overlap: int, end: int, lo: int, hi: int)
    requires
        a.well_formed(),
        c.well_formed(),
        forall|i: int| 0 <= i < a.tokens().len() ==> lo <= #[trigger] a.tokens()[i].offsets.0 <= hi && lo <= a.tokens()[i].offsets.1 <= hi,
        forall|i: int| 0 <= i < c.tokens().len() ==> lo <= #[trigger] c.tokens()[i].offsets.0 <= hi && lo <= c.tokens()[i].offsets.1 <= hi,
        merged_halves(a, c, split, overlap, end) is Some,
    ensures
        ordered_within(merged_halves(a, c, split, overlap, end)->0, lo, hi),
{
    let ka = cut_point(a.kept(), adjusted(split, a.base()));
    let kc = cut_point(c.kept(), adjusted(split, c.base()));
    lemma_cut_point(a.kept(), adjusted(split, a.base()));
    lemma_cut_point(c.kept(), adjusted(split, c.base()));
    let lp = left_part(a, split);
    let rp = right_part(c, split);
    let m = lp + rp;
    assert forall|i: int| 0 <= i < m.len() implies lo <= #[trigger] m[i].offsets.0 <= hi && lo <= m[i].offsets.1 <= hi by {
        if i < lp.len() {
            assert(m[i] == lp[i]);
            assert(a.kept().subrange(0, ka)[i] == a.kept()[i]);
            assert(lp[i] == a.tokens()[i]);
        } else {
            let j = i - lp.len();
            assert(m[i] == rp[j]);
            assert(c.kept().subrange(kc, c.kept().len() as int)[j] == c.kept()[kc + j]);
            assert(rp[j] == c.tokens()[kc + j]);
        }
    }
}

/// Every token of `s` lies within bytes `[0, n]`.
pub open spec fn offsets_within(s: Seq<Token>, n: int) -> bool {
    forall|i: int| 0 <= i < s.len() ==> #[trigger] s[i].offsets.0 <= n && s[i].offsets.1 <= n
}

/// The encoder accepts every text.
pub open spec fn encoder_total<F: Fn(&str, bool) -> Result<Encoding, E>, E>(f: F) -> bool {
    forall|s: &str| #[trigger] call_requires(f, (s, false))
}

/// Every encoding the encoder returns has its byte ranges within its text.
pub open spec fn encoder_offsets_within<F: Fn(&str, bool) -> Result<Encoding, E>, E>(f: F) -> bool {
    forall|s: &str, r: Result<Encoding, E>|
        #[trigger] call_ensures(f, (s, false), r) ==> (r matches Ok(e) ==> offsets_within(e@, bytes_of(s).len() as int))
}

/// The encoder behind `f` accepts every text and keeps its byte ranges
/// within the text.
pub open spec fn encoder_ready<F: Fn(&str, bool) -> Result<Encoding, E>, E>(f: &F) -> bool {
    encoder_total(*f) && encoder_offsets_within(*f)
}

/// `r` is what encoding the text `s` with `f` (without special tokens) gave,
/// wrapped as a lazy encoding shifted by `offset`.
pub open spec fn called_with<F: Fn(&str, bool) -> Result<Encoding, E>, E>(
    f: F,
    s: &str,
    offset: int,
    r: Result<LazyEncoding, E>,
) -> bool {
    match r {
        Ok(l) => {
            &&& call_ensures(f, (s, false), Ok::<Encoding, E>(l.encoding()))
            &&& l.base() == offset
            &&& l.start() == 0
            &&& l.end() == l.inner().len()
        },
        Err(e) => call_ensures(f, (s, false), Err::<Encoding, E>(e)),
    }
}

/// `r` is what encoding a text with bytes `chunk` with `f` gave, wrapped and
/// shifted by `offset`.
pub open spec fn serial_outcome<F: Fn(&str, bool) -> Result<Encoding, E>, E>(
    f: F,
    chunk: Seq<u8>,
    offset: int,
    r: Result<LazyEncoding, E>,
) -> bool {
    exists|s: &str| bytes_of(s) == chunk && #[trigger] called_with(f, s, offset, r)
}

// =============================================================================
// SERIAL FALLBACK HELPER
// =============================================================================

/// Encode serially and wrap in LazyEncoding with offset.
pub fn encode_serial_lazy<F, E>(encode_fn: &F, input: &str, global_offset: usize) -> (r: Result<LazyEncoding, E>)
    where
        F: Fn(&str, bool) -> Result<Encoding, E>,
    requires
        call_requires(*encode_fn, (input, false)),
    ensures
        called_with(*encode_fn, input, global_offset as int, r),
        serial_outcome(*encode_fn, bytes_of(input), global_offset as int, r),
{
    let encoding = match encode_fn(input, false) {
        Ok(e) => e,
        Err(e) => {
            let r = Err(e);
            assert(called_with(*encode_fn, input, global_offset as int, r));
            return r;
        },
    };
    let mut lazy = LazyEncoding::new(encoding);
    if global_offset > 0 {
        lazy.shift_offset(global_offset);
    }
    let r = Ok(lazy);
    assert(called_with(*encode_fn, input, global_offset as int, r));
    r
}

// =============================================================================
// MERGING TWO HALVES
// =============================================================================

/// Some token of `s` starts before the end of the token before it.
pub open spec fn has_overlap(s: Seq<Token>) -> bool {
    exists|i: int| 0 <= i && i + 1 < s.len() && #[trigger] s[i + 1].offsets.0 < s[i].offsets.1
}

/// The tokens of the left half that start before the split point.
pub open spec fn left_part(a: LazyEncoding, split: int) -> Seq<Token> {
    shifted(a.kept().subrange(0, cut_point(a.kept(), adjusted(split, a.base()))), a.base())
}

/// The tokens of the right half that start at or after the split point.
pub open spec fn right_part(b: LazyEncoding, split: int) -> Seq<Token> {
    shifted(
        b.kept().subrange(cut_point(b.kept(), adjusted(split, b.base())), b.kept().len() as int),
        b.base(),
    )
}

/// Merging the encodings of two overlapping halves at `split`: the left half's
/// tokens starting before `split` followed by the right half's tokens starting
/// at or after it; no result when the space between the last kept left token
/// and the first kept right token (the end of the input, `end`, standing in
/// for a missing right token) exceeds `overlap`, or when the merged tokens
/// overlap.
pub open spec fn merged_halves(a: LazyEncoding, b: LazyEncoding, split: int, overlap: int, end: int) -> Option<Seq<Token>> {
    let l = left_part(a, split);
    let r = right_part(b, split);
    let left_max_end = if l.len() == 0 { 0 } else { l.last().offsets.1 as int };
    let right_min_start = if r.len() == 0 { end } else { r[0].offsets.0 as int };
    let gap = if right_min_start >= left_max_end { right_min_start - left_max_end } else { 0 };
    if gap > overlap {
        None
    } else if has_overlap(l + r) {
        None
    } else {
        Some(l + r)
    }
}

/// Whether any token starts before the end of the token before it.
pub fn has_overlapping_offsets(e: &Encoding) -> (r: bool)
    ensures
        r == has_overlap(e@),
{
    let n = e.len();
    let mut i: usize = 0;
    while i < n && i + 1 < n
        invariant
            n == e@.len(),
            i <= n,
            forall|k: int| 0 <= k < i && k + 1 < n ==> !(#[trigger] e@[k + 1].offsets.0 < e@[k].offsets.1),
        decreases n - i,
    {
        let (_start1, end1) = e.token(i).offsets;
        let (start2, _end2) = e.token(i + 1).offsets;
        if start2 < end1 {
            assert(e@[i + 1].offsets.0 < e@[i as int].offsets.1);
            return true;
        }
        i += 1;
    }
    false
}

proof fn lemma_subrange_fits(s: Seq<Token>, d: int, lo: int, hi: int)
    requires
        shift_fits(s, d),
        0 <= lo <= hi <= s.len(),
    ensures
        shift_fits(s.subrange(lo, hi), d),
{
    assert forall|i: int| 0 <= i < hi - lo implies #[trigger] s.subrange(lo, hi)[i].offsets.1 + d <= usize::MAX
        && s.subrange(lo, hi)[i].offsets.0 + d <= usize::MAX by {
        assert(s.subrange(lo, hi)[i] == s[lo + i]);
    }
}

/// Merge the encodings of the two overlapping halves of a split, or give
/// nothing when the halves do not meet cleanly (the caller then encodes
/// serially).
pub fn merge_at_split(
    left: LazyEncoding,
    right: LazyEncoding,
    global_split_point: usize,
    overlap_size: usize,
    input_global_offset: usize,
    input_len: usize,
) -> (r: Option<Encoding>)
    requires
        left.fits(),
        right.fits(),
        input_global_offset + input_len <= usize::MAX,
    ensures
        match r {
            Some(e) => merged_halves(left, right, global_split_point as int, overlap_size as int, input_global_offset + input_len) == Some(e@),
            None => merged_halves(left, right, global_split_point as int, overlap_size as int, input_global_offset + input_len) is None,
        },
{
    let ghost left0 = left;
    let ghost right0 = right;
    let mut left_lazy = left;
    let mut right_lazy = right;
    // O(log n) count using binary search
    let left_tokens_expected = left_lazy.count_starting_before(global_split_point);
    let right_tokens_expected = right_lazy.count_starting_at_or_after(global_split_point);
    // O(log n) filter using binary search - just updates indices, no data copying
    left_lazy.filter_starting_before(global_split_point);
    right_lazy.filter_starting_at_or_after(global_split_point);
    proof {
        lemma_cut_point(left0.kept(), adjusted(global_split_point as int, left0.base()));
        lemma_cut_point(right0.kept(), adjusted(global_split_point as int, right0.base()));
        assert(left_lazy.kept() =~= left0.kept().subrange(0, cut_point(left0.kept(), adjusted(global_split_point as int, left0.base()))));
        assert(right_lazy.kept() =~= right0.kept().subrange(
            cut_point(right0.kept(), adjusted(global_split_point as int, right0.base())),
            right0.kept().len() as int,
        ));
        lemma_subrange_fits(left0.kept(), left0.base(), 0, cut_point(left0.kept(), adjusted(global_split_point as int, left0.base())));
        lemma_subrange_fits(
            right0.kept(),
            right0.base(),
            cut_point(right0.kept(), adjusted(global_split_point as int, right0.base())),
            right0.kept().len() as int,
        );
    }
    // Safety check: tokens lost during filtering
    if (left_tokens_expected > 0 && left_lazy.is_empty()) || (right_tokens_expected > 0 && right_lazy.is_empty()) {
        return None;
    }
    // Safety check: gap between left and right
    let left_max_end = match left_lazy.last_offset() {
        Some((_, end)) => end,
        None => 0,
    };
    let right_min_start = match right_lazy.first_offset() {
        Some((start, _)) => start,
        None => input_global_offset + input_len,
    };
    let gap = right_min_start.saturating_sub(left_max_end);
    if gap > overlap_size {
        return None;
    }
    // Merge: materialize both and combine
    let result = left_lazy.merge_materialized(right_lazy);
    // Validate for overlapping offsets
    if has_overlapping_offsets(&result) {
        return None;
    }
    Some(result)
}

// =============================================================================
// RECURSIVE ENCODING
// =============================================================================

/// Calls `rayon::join`: runs both closures, possibly in parallel, and returns
/// their two results.
#[verifier::external_body]
fn join<A, B, RA, RB>(oper_a: A, oper_b: B) -> (r: (RA, RB))
    where
        A: FnOnce() -> RA + Send,
        B: FnOnce() -> RB + Send,
        RA: Send,
        RB: Send,
    requires
        call_requires(oper_a, ()),
        call_requires(oper_b, ()),
    ensures
        call_ensures(oper_a, (), r.0),
        call_ensures(oper_b, (), r.1),
{
    rayon::join(oper_a, oper_b)
}

/// Input length below which an input is not split: twice the minimum tokens
/// per chunk, in bytes, rounded down and held within `usize`.
pub open spec fn min_bytes_for_split(config: ParallelConfig) -> int {
    let x = (config.min_tokens_per_chunk * config.bytes_per_token_milli) / 500;
    if x > usize::MAX { usize::MAX as int } else { x }
}

/// An input of `len` bytes at `depth` is encoded as one piece.
pub open spec fn is_base_case(len: int, depth: int, max_depth: int, config: ParallelConfig) -> bool {
    depth >= max_depth || !large_enough_to_split(len, config)
}

/// An input of `len` bytes is long enough, in bytes and in estimated tokens,
/// to be split into two chunks of at least the minimum tokens each.
pub open spec fn large_enough_to_split(len: int, config: ParallelConfig) -> bool {
    &&& len >= min_bytes_for_split(config)
    &&& estimated_tokens(len, config.bytes_per_token_milli as int) >= config.min_tokens_per_chunk * 2
}

/// Whether an input of `len` bytes is long enough to be split.
pub fn is_large_enough_to_split(len: usize, config: &ParallelConfig) -> (r: bool)
    ensures
        r == large_enough_to_split(len as int, *config),
{
    let estimated_tokens = estimate_tokens(len, config.bytes_per_token_milli);
    let min_bytes = min_split_bytes(config);
    len >= min_bytes && (estimated_tokens as u128) >= (config.min_tokens_per_chunk as u128) * 2
}

/// The overlap computation cannot overflow.
pub open spec fn overlap_inputs_fit(max_token_len: int, safety_margin: int) -> bool {
    &&& max_token_len + safety_margin <= usize::MAX
    &&& max_token_len * 3 <= usize::MAX
    &&& safety_margin * 3 <= usize::MAX
}

/// `a - b`, or 0 when `b` is larger.
pub open spec fn minus_saturating(a: int, b: int) -> int {
    if a >= b { a - b } else { 0 }
}

/// Split point of a chunk (near its middle, searching 500 bytes each way).
pub open spec fn chunk_split(b: Seq<u8>) -> (int, bool) {
    split_point_of(b, (b.len() / 2) as int, 500)
}

/// Overlap for a chunk's split.
pub open spec fn chunk_overlap(b: Seq<u8>, max_token_len: int, config: ParallelConfig) -> int {
    overlap_size(max_token_len, config.safety_margin as int, chunk_split(b).1)
}

/// End of the left chunk: the first character boundary at or after the split
/// point plus the overlap.
pub open spec fn left_end_of(b: Seq<u8>, max_token_len: int, config: ParallelConfig) -> int {
    next_boundary(b, clamp_to(chunk_split(b).0 + chunk_overlap(b, max_token_len, config), b.len() as int))
}

/// Start of the right chunk: the first character boundary at or after the
/// split point minus the overlap.
pub open spec fn right_start_of(b: Seq<u8>, max_token_len: int, config: ParallelConfig) -> int {
    next_boundary(b, minus_saturating(chunk_split(b).0, chunk_overlap(b, max_token_len, config)))
}

/// How the results of the two halves make the result of the whole: the first
/// error, else the merge of the halves at the split point, else (when they do
/// not meet cleanly) the serial encoding of the whole chunk.
pub open spec fn halves_outcome<F: Fn(&str, bool) -> Result<Encoding, E>, E>(
    f: F,
    b: Seq<u8>,
    offset: int,
    split: int,
    overlap: int,
    lr: Result<LazyEncoding, E>,
    rr: Result<LazyEncoding, E>,
    r: Result<LazyEncoding, E>,
) -> bool {
    match lr {
        Err(e) => r == Err::<LazyEncoding, E>(e),
        Ok(a) => match rr {
            Err(e) => r == Err::<LazyEncoding, E>(e),
            Ok(c) => match merged_halves(a, c, offset + split, overlap, offset + b.len()) {
                Some(m) => r matches Ok(l) && l.inner() == m && l.base() == 0 && l.start() == 0 && l.end() == m.len(),
                None => serial_outcome(f, b, offset, r),
            },
        },
    }
}

/// How a chunk was encoded: as a whole, or split into two halves with their
/// own histories and results.
pub enum RecursionTrace<E> {
    /// Encoded as one piece
    Whole,
    /// Split; the histories and results of the left and right halves
    Split(Box<RecursionTrace<E>>, Box<RecursionTrace<E>>, Result<LazyEncoding, E>, Result<LazyEncoding, E>),
}

/// Along history `t`, recursive encoding of a chunk with bytes `b` that starts
/// at byte `offset` of the whole input gave `r`: a base-case chunk is encoded
/// as one piece; any other is split near its middle into two overlapping
/// chunks that are encoded recursively and merged. The split lies within the
/// chunk, and a successful result lies within the chunk's bytes (ordered, for
/// an ordered encoder).
pub open spec fn traced_outcome<F: Fn(&str, bool) -> Result<Encoding, E>, E>(
    f: F,
    b: Seq<u8>,
    offset: int,
    depth: int,
    max_depth: int,
    max_token_len: int,
    config: ParallelConfig,
    t: RecursionTrace<E>,
    r: Result<LazyEncoding, E>,
) -> bool
    decreases max_depth - depth,
{
    &&& ok_within(r, offset + b.len())
    &&& encoder_ordered(f) ==> (r matches Ok(l) ==> ordered_within(l.tokens(), offset, offset + b.len()))
    &&& if is_base_case(b.len() as int, depth, max_depth, config) {
        serial_outcome(f, b, offset, r)
    } else {
        match t {
            RecursionTrace::Whole => false,
            RecursionTrace::Split(lt, rt, lr, rr) => {
                let left_end = left_end_of(b, max_token_len, config);
                let right_start = right_start_of(b, max_token_len, config);
                &&& 0 <= chunk_split(b).0 <= b.len()
                &&& traced_outcome(f, b.subrange(0, left_end), offset, depth + 1, max_depth, max_token_len, config, *lt, lr)
                &&& traced_outcome(
                    f,
                    b.subrange(right_start, b.len() as int),
                    offset + right_start,
                    depth + 1,
                    max_depth,
                    max_token_len,
                    config,
                    *rt,
                    rr,
                )
                &&& halves_outcome(f, b, offset, chunk_split(b).0, chunk_overlap(b, max_token_len, config), lr, rr, r)
            },
        }
    }
}

/// `r` is an outcome of recursive encoding of a chunk with bytes `b` that
/// starts at byte `offset` of the whole input (along some history).
pub open spec fn recursive_outcome<F: Fn(&str, bool) -> Result<Encoding, E>, E>(
    f: F,
    b: Seq<u8>,
    offset: int,
    depth: int,
    max_depth: int,
    max_token_len: int,
    config: ParallelConfig,
    r: Result<LazyEncoding, E>,
) -> bool {
    exists|t: RecursionTrace<E>| #[trigger] traced_outcome(f, b, offset, depth, max_depth, max_token_len, config, t, r)
}

/// A lazy encoding whose tokens all lie within bytes `[0, end]`.
pub open spec fn lazy_within(l: LazyEncoding, end: int) -> bool {
    &&& l.well_formed()
    &&& l.fits()
    &&& offsets_within(l.tokens(), end)
}

/// A successful result lies within bytes `[0, end]`.
pub open spec fn ok_within<E>(r: Result<LazyEncoding, E>, end: int) -> bool {
    r matches Ok(l) ==> lazy_within(l, end)
}

pub proof fn lemma_shift_within(s: Seq<Token>, n: int, d: int)
    requires
        offsets_within(s, n),
        0 <= d,
        n + d <= usize::MAX,
    ensures
        shift_fits(s, d),
        offsets_within(shifted(s, d), n + d),
{
    assert forall|i: int| 0 <= i < s.len() implies #[trigger] s[i].offsets.1 + d <= usize::MAX && s[i].offsets.0 + d
        <= usize::MAX by {
        assert(s[i].offsets.0 <= n && s[i].offsets.1 <= n);
    }
}

pub proof fn lemma_part_within(s: Seq<Token>, d: int, lo: int, hi: int, n: int)
    requires
        offsets_within(shifted(s, d), n),
        0 <= lo <= hi <= s.len(),
    ensures
        offsets_within(shifted(s.subrange(lo, hi), d), n),
{
    assert forall|i: int| 0 <= i < hi - lo implies #[trigger] shifted(s.subrange(lo, hi), d)[i].offsets.0 <= n
        && shifted(s.subrange(lo, hi), d)[i].offsets.1 <= n by {
        assert(shifted(s.subrange(lo, hi), d)[i] == shifted(s, d)[lo + i]);
        assert(shifted(s, d)[lo + i].offsets.0 <= n);
    }
}

pub proof fn lemma_concat_within(a: Seq<Token>, c: Seq<Token>, n: int)
    requires
        offsets_within(a, n),
        offsets_within(c, n),
    ensures
        offsets_within(a + c, n),
{
    assert forall|i: int| 0 <= i < (a + c).len() implies #[trigger] (a + c)[i].offsets.0 <= n && (a + c)[i].offsets.1 <= n by {
        if i < a.len() {
            assert((a + c)[i] == a[i]);
            assert(a[i].offsets.0 <= n);
        } else {
            assert((a + c)[i] == c[i - a.len()]);
            assert(c[i - a.len()].offsets.0 <= n);
        }
    }
}

pub proof fn lemma_within_grows(s: Seq<Token>, n: int, m: int)
    requires
        offsets_within(s, n),
        n <= m,
    ensures
        offsets_within(s, m),
{
}

/// The merge of two halves lies within the larger of their ends.
proof fn lemma_merged_within(a: LazyEncoding, c: LazyEncoding, split: int, overlap: int, end: int, n: int)
    requires
        lazy_within(a, n),
        lazy_within(c, n),
        merged_halves(a, c, split, overlap, end) is Some,
    ensures
        offsets_within(merged_halves(a, c, split, overlap, end)->0, n),
{
    let ka = cut_point(a.kept(), adjusted(split, a.base()));
    let kc = cut_point(c.kept(), adjusted(split, c.base()));
    lemma_cut_point(a.kept(), adjusted(split, a.base()));
    lemma_cut_point(c.kept(), adjusted(split, c.base()));
    lemma_part_within(a.kept(), a.base(), 0, ka, n);
    lemma_part_within(c.kept(), c.base(), kc, c.kept().len() as int, n);
    lemma_concat_within(left_part(a, split), right_part(c, split), n);
}

/// The tokens of a lazy encoding with sorted starts that start before `split`
/// are what merging keeps of it as the left half; those starting at or after
/// it are what merging keeps of it as the right half.
pub proof fn lemma_parts_are_filters(a: LazyEncoding, split: int)
    requires
        a.well_formed(),
        a.fits(),
        starts_sorted(a.kept()),
        0 <= split,
    ensures
        left_part(a, split) == a.tokens().filter(starts_before(split)),
        right_part(a, split) == a.tokens().filter(starts_at_or_after(split)),
{
    let k = cut_point(a.kept(), adjusted(split, a.base()));
    lemma_cut_point(a.kept(), adjusted(split, a.base()));
    lemma_shifted_partition(a.kept(), a.base(), split, k);
    lemma_partition_filters(a.tokens(), split, k);
    lemma_shifted_take(a.kept(), a.base(), k);
    assert(a.kept().subrange(0, k) =~= a.kept().take(k));
    assert(a.kept().subrange(k, a.kept().len() as int) =~= a.kept().skip(k));
}

/// Merging reassembles: when the left half agrees with an encoding `s` of the
/// whole chunk (with sorted starts) on the tokens starting before the split,
/// and the right half agrees with it on the tokens starting at or after the
/// split, a merge that succeeds gives exactly `s`.
pub proof fn lemma_merge_reassembles(a: LazyEncoding, b: LazyEncoding, split: int, overlap: int, end: int, s: Seq<Token>)
    requires
        a.well_formed(),
        b.well_formed(),
        a.fits(),
        b.fits(),
        starts_sorted(a.kept()),
        starts_sorted(b.kept()),
        starts_sorted(s),
        0 <= split,
        a.tokens().filter(starts_before(split)) == s.filter(starts_before(split)),
        b.tokens().filter(starts_at_or_after(split)) == s.filter(starts_at_or_after(split)),
    ensures
        merged_halves(a, b, split, overlap, end) is Some ==> merged_halves(a, b, split, overlap, end) == Some(s),
{
    let k = cut_point(s, split);
    assert(left_part(a, split) + right_part(b, split) == s) by {
        lemma_parts_are_filters(a, split);
        lemma_parts_are_filters(b, split);
        lemma_cut_point(s, split);
        lemma_partition_filters(s, split, k);
        assert(s.take(k) + s.skip(k) =~= s);
    }
}

/// Minimum input length in bytes before a chunk is split.
fn min_split_bytes(config: &ParallelConfig) -> (r: usize)
    ensures
        r == min_bytes_for_split(*config),
{
    let a = config.min_tokens_per_chunk as u128;
    let c = config.bytes_per_token_milli as u128;
    assert(a * c <= u128::MAX) by (nonlinear_arith)
        requires
            a <= usize::MAX,
            c <= usize::MAX,
            usize::MAX < 0x1_0000_0000_0000_0000,
    ;
    let p: u128 = a * c;
    let x: u128 = p / 500;
    if x > usize::MAX as u128 {
        usize::MAX
    } else {
        x as usize
    }
}

/// Encode serially, the outcome a serial call gives, with the tokens within the chunk.
fn encode_whole<F, E>(encode_fn: &F, input: &str, global_offset: usize) -> (r: Result<LazyEncoding, E>)
    where
        F: Fn(&str, bool) -> Result<Encoding, E>,
    requires
        encoder_total(*encode_fn),
        encoder_offsets_within(*encode_fn),
        global_offset + bytes_of(input).len() <= usize::MAX,
    ensures
        serial_outcome(*encode_fn, bytes_of(input), global_offset as int, r),
        r matches Ok(l) ==> lazy_within(l, global_offset + bytes_of(input).len()),
        encoder_ordered(*encode_fn) ==> (r matches Ok(l) ==> ordered_within(
            l.tokens(),
            global_offset as int,
            global_offset + bytes_of(input).len(),
        )),
{
    assert(call_requires(*encode_fn, (input, false)));
    let r = encode_serial_lazy(encode_fn, input, global_offset);
    let ghost gr = r;
    proof {
        if let Ok(l) = gr {
            assert(call_ensures(*encode_fn, (input, false), Ok::<Encoding, E>(l.encoding())));
            assert(l.kept() =~= l.inner());
            lemma_shift_within(l.inner(), bytes_of(input).len() as int, global_offset as int);
            if encoder_ordered(*encode_fn) {
                lemma_shift_ordered(l.inner(), global_offset as int, bytes_of(input).len() as int);
            }
        }
    }
    r
}

/// Internal recursive encoding function using LazyEncoding for O(1) offset shifts.
///
/// 1. Split input near its midpoint with overlap on both sides
/// 2. Left chunk: [0, mid + overlap], Right chunk: [mid - overlap, end]
/// 3. Both chunks encode the overlap region [mid - overlap, mid + overlap]
/// 4. After encoding, use LEFT's tokens for positions < mid (split point)
/// 5. Use RIGHT's tokens for positions >= mid
pub fn encode_recursive_lazy<F, E>(
    encode_fn: &F,
    max_token_len: usize,
    input: &str,
    input_global_offset: usize,
    current_depth: usize,
    max_depth: usize,
    config: &ParallelConfig,
) -> (r: Result<LazyEncoding, E>)
    where
        F: Fn(&str, bool) -> Result<Encoding, E> + Sync,
        E: Send,
    requires
        encoder_total(*encode_fn),
        encoder_offsets_within(*encode_fn),
        input_global_offset + bytes_of(input).len() <= isize::MAX,
        !is_base_case(bytes_of(input).len() as int, current_depth as int, max_depth as int, *config)
            ==> overlap_inputs_fit(max_token_len as int, config.safety_margin as int),
    ensures
        recursive_outcome(
            *encode_fn,
            bytes_of(input),
            input_global_offset as int,
            current_depth as int,
            max_depth as int,
            max_token_len as int,
            *config,
            r,
        ),
        r matches Ok(l) ==> lazy_within(l, input_global_offset + bytes_of(input).len()),
        encoder_ordered(*encode_fn) ==> (r matches Ok(l) ==> ordered_within(
            l.tokens(),
            input_global_offset as int,
            input_global_offset + bytes_of(input).len(),
        )),
    decreases max_depth - current_depth,
{
    let len = crate::split_point::byte_len(input);
    // Base case: reached max depth or input too small
    if current_depth >= max_depth || !is_large_enough_to_split(len, config) {
        let r = encode_whole(encode_fn, input, input_global_offset);
        assert(traced_outcome(
            *encode_fn,
            bytes_of(input),
            input_global_offset as int,
            current_depth as int,
            max_depth as int,
            max_token_len as int,
            *config,
            RecursionTrace::Whole,
            r,
        ));
        return r;
    }
    let ghost b = bytes_of(input);

    // Find split point near midpoint
    let mid = len / 2;
    let split_result = find_split_point_safe(input, mid, 500);
    let split_point = split_result.position;

    // Calculate overlap size - much smaller for safe boundaries
    let overlap_size = calculate_overlap_size(max_token_len, config.safety_margin, split_result.is_safe_boundary);

    // Create overlapping chunks
    let left_target = if split_point + overlap_size < len { split_point + overlap_size } else { len };
    let left_end = find_char_boundary_forward(input, left_target);
    let right_start = find_char_boundary_forward(input, split_point.saturating_sub(overlap_size));
    proof {
        lemma_next_boundary_is(b, left_target as int, left_end as int);
        lemma_next_boundary_is(b, minus_saturating(split_point as int, overlap_size as int), right_start as int);
    }
    let left_chunk = input.split_at(left_end).0;
    let right_chunk = input.split_at(right_start).1;
    let global_split_point = input_global_offset + split_point;
    let right_offset = input_global_offset + right_start;

    // Parallel recursive calls
    let left_call = (|| -> (res: Result<LazyEncoding, E>)
            requires
                encoder_total(*encode_fn),
                encoder_offsets_within(*encode_fn),
                input_global_offset + bytes_of(left_chunk).len() <= isize::MAX,
                overlap_inputs_fit(max_token_len as int, config.safety_margin as int),
            ensures
                recursive_outcome(
                    *encode_fn,
                    bytes_of(left_chunk),
                    input_global_offset as int,
                    current_depth + 1,
                    max_depth as int,
                    max_token_len as int,
                    *config,
                    res,
                ),
                ok_within(res, input_global_offset + bytes_of(left_chunk).len()),
                encoder_ordered(*encode_fn) ==> (res matches Ok(l) ==> ordered_within(
                    l.tokens(),
                    input_global_offset as int,
                    input_global_offset + bytes_of(left_chunk).len(),
                )),
        {
            encode_recursive_lazy(
                encode_fn,
                max_token_len,
                left_chunk,
                input_global_offset,
                current_depth + 1,
                max_depth,
                config,
            )
        });
    let right_call = (|| -> (res: Result<LazyEncoding, E>)
            requires
                encoder_total(*encode_fn),
                encoder_offsets_within(*encode_fn),
                right_offset + bytes_of(right_chunk).len() <= isize::MAX,
                overlap_inputs_fit(max_token_len as int, config.safety_margin as int),
            ensures
                recursive_outcome(
                    *encode_fn,
                    bytes_of(right_chunk),
                    right_offset as int,
                    current_depth + 1,
                    max_depth as int,
                    max_token_len as int,
                    *config,
                    res,
                ),
                ok_within(res, right_offset + bytes_of(right_chunk).len()),
                encoder_ordered(*encode_fn) ==> (res matches Ok(l) ==> ordered_within(
                    l.tokens(),
                    right_offset as int,
                    right_offset + bytes_of(right_chunk).len(),
                )),
        {
            encode_recursive_lazy(
                encode_fn,
                max_token_len,
                right_chunk,
                right_offset,
                current_depth + 1,
                max_depth,
                config,
            )
        });
    let (left_result, right_result) = join(left_call, right_call);
    let ghost lr = left_result;
    let ghost rr = right_result;
    let ghost split = split_point as int;
    let ghost overlap = overlap_size as int;
    let ghost f = *encode_fn;
    let ghost off = input_global_offset as int;
    let ghost depth = current_depth as int;
    let ghost mtl = max_token_len as int;
    proof {
        assert(bytes_of(left_chunk) =~= b.subrange(0, left_end as int));
        assert(bytes_of(right_chunk) =~= b.subrange(right_start as int, b.len() as int));
        assert(split == chunk_split(b).0);
        assert(overlap == chunk_overlap(b, mtl, *config));
        assert(left_end == left_end_of(b, mtl, *config));
        assert(right_start == right_start_of(b, mtl, *config));
        assert(!is_base_case(b.len() as int, depth, max_depth as int, *config));
        assert(recursive_outcome(f, b.subrange(0, left_end as int), off, depth + 1, max_depth as int, mtl, *config, lr));
        assert(recursive_outcome(f, b.subrange(right_start as int, b.len() as int), off + right_start, depth + 1, max_depth as int, mtl, *config, rr));
    }

    let r = match left_result {
        Err(e) => Err(e),
        Ok(left_lazy) => match right_result {
            Err(e) => Err(e),
            Ok(right_lazy) => match merge_at_split(
                left_lazy,
                right_lazy,
                global_split_point,
                overlap_size,
                input_global_offset,
                len,
            ) {
                Some(result) => Ok(LazyEncoding::new(result)),
                // The halves do not meet cleanly: encode the whole chunk serially
                None => encode_whole(encode_fn, input, input_global_offset),
            },
        },
    };
    proof {
        assert(halves_outcome(f, b, off, split, overlap, lr, rr, r));
        let lt = choose|t: RecursionTrace<E>| #[trigger] traced_outcome(
            f, b.subrange(0, left_end as int), off, depth + 1, max_depth as int, mtl, *config, t, lr);
        let rt = choose|t: RecursionTrace<E>| #[trigger] traced_outcome(
            f, b.subrange(right_start as int, b.len() as int), off + right_start, depth + 1, max_depth as int, mtl, *config, t, rr);
        let t = RecursionTrace::Split(Box::new(lt), Box::new(rt), lr, rr);
        if let (Ok(a), Ok(c)) = (lr, rr) {
            let end = off + b.len();
            if let Some(m) = merged_halves(a, c, off + split, overlap, end) {
                lemma_within_grows(a.tokens(), off + left_end, end);
                lemma_within_grows(c.tokens(), off + right_start + (b.len() - right_start), end);
                lemma_merged_within(a, c, off + split, overlap, end, end);
                assert(r matches Ok(l) && l.tokens() =~= m);
                if encoder_ordered(*encode_fn) {
                    lemma_merged_ordered(a, c, off + split, overlap, end, off, end);
                }
            }
        }
        assert(ok_within(r, off + b.len()));
        assert(traced_outcome(f, b, off, depth, max_depth as int, mtl, *config, t, r));
    }
    r
}

/// Public wrapper that materializes the lazy encoding: the entry point for
/// recursive parallel encoding.
pub fn encode_recursive<F, E>(
    encode_fn: &F,
    max_token_len: usize,
    input: &str,
    input_global_offset: usize,
    current_depth: usize,
    max_depth: usize,
    config: &ParallelConfig,
) -> (r: Result<Encoding, E>)
    where
        F: Fn(&str, bool) -> Result<Encoding, E> + Sync,
        E: Send,
    requires
        encoder_total(*encode_fn),
        encoder_offsets_within(*encode_fn),
        input_global_offset + bytes_of(input).len() <= isize::MAX,
        !is_base_case(bytes_of(input).len() as int, current_depth as int, max_depth as int, *config)
            ==> overlap_inputs_fit(max_token_len as int, config.safety_margin as int),
    ensures
        match r {
            Ok(e) => exists|l: LazyEncoding|
                #[trigger] recursive_outcome(
                    *encode_fn,
                    bytes_of(input),
                    input_global_offset as int,
                    current_depth as int,
                    max_depth as int,
                    max_token_len as int,
                    *config,
                    Ok::<LazyEncoding, E>(l),
                ) && e@ == l.tokens(),
            Err(e) => recursive_outcome(
                *encode_fn,
                bytes_of(input),
                input_global_offset as int,
                current_depth as int,
                max_depth as int,
                max_token_len as int,
                *config,
                Err::<LazyEncoding, E>(e),
            ),
        },
        r matches Ok(e) ==> offsets_within(e@, input_global_offset + bytes_of(input).len()),
        encoder_ordered(*encode_fn) ==> (r matches Ok(e) ==> ordered_within(
            e@,
            input_global_offset as int,
            input_global_offset + bytes_of(input).len(),
        )),
{
    // Use lazy encoding internally, materialize at the end
    let lazy = encode_recursive_lazy(
        encode_fn,
        max_token_len,
        input,
        input_global_offset,
        current_depth,
        max_depth,
        config,
    );
    match lazy {
        Ok(l) => {
            let ghost l0 = l;
            let e = l.materialize();
            assert(recursive_outcome(
                *encode_fn,
                bytes_of(input),
                input_global_offset as int,
                current_depth as int,
                max_depth as int,
                max_token_len as int,
                *config,
                Ok::<LazyEncoding, E>(l0),
            ));
            Ok(e)
        },
        Err(e) => Err(e),
    }
}

} // verus!
