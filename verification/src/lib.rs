//! Verified core of parallel single-input tokenization: split-point search,
//! overlap sizing, deferred-offset encodings and the merge logic of the
//! recursive and block-streaming strategies.
//!
//! ## Strategy 1: Recursive Splitting (Default)
//! The input is split near its middle, both halves are encoded in parallel
//! with an overlapping region, and the left encoding is kept up to the split
//! point, the right one after it.
//!
//! ## Strategy 2: Cache-Block Streaming
//! The input is cut into cache-sized blocks, each encoded with small overlap
//! windows around it (to its right only in the sequential variant); each block
//! keeps the tokens that start inside it.

pub mod config;
pub mod encoding;
pub mod lazy_encoding;
pub mod locality;
pub mod recursive;
pub mod split_point;
pub mod streaming;

use vstd::prelude::*;
use crate::config::{ParallelConfig, ParallelMode, MAX_RECURSION_DEPTH};
use crate::encoding::{lemma_without_words_twice, without_words, Encoding, Token};
use crate::lazy_encoding::{starts_sorted, LazyEncoding};
use crate::locality::{
    encoder_sorted, lemma_recursive_matches_serial, lemma_region_keeps_all, lemma_streaming_matches_serial,
    local_encoder,
};
use crate::recursive::{
    compute_optimal_depth, encode_recursive, encoder_offsets_within, encoder_total, offsets_within, optimal_depth,
    encoder_ordered, has_overlap, large_enough_to_split, ordered_within, overlap_inputs_fit, recursive_outcome,
};
use crate::split_point::{bytes_of, overlap_size};
use crate::streaming::{block_sizes_fit, encode_streaming_parallel, parallel_streaming_outcome, streaming_overlap_of};

verus! {

// =============================================================================
// SPECIFICATION
// =============================================================================

/// The vocabulary ids of the tokens, in order.
pub open spec fn ids_of(s: Seq<Token>) -> Seq<u32> {
    s.map_values(|t: Token| t.id)
}

/// Whether an input of `len` bytes is encoded by block streaming (else by
/// recursive splitting).
pub open spec fn uses_streaming(config: ParallelConfig, len: int) -> bool {
    match config.mode {
        ParallelMode::Streaming => true,
        ParallelMode::Recursive => false,
        ParallelMode::Auto => len >= config.streaming_threshold,
    }
}

/// Recursion depth for an input of `len` bytes on `num_cores` threads: the
/// configured depth (capped) when one is set, else the automatic one.
pub open spec fn depth_for(config: ParallelConfig, len: int, num_cores: int) -> int {
    if config.max_depth > 0 {
        if config.max_depth <= MAX_RECURSION_DEPTH {
            config.max_depth as int
        } else {
            MAX_RECURSION_DEPTH as int
        }
    } else {
        optimal_depth(len, num_cores, config.min_tokens_per_chunk as int, config.bytes_per_token_milli as int)
    }
}

/// `r` is what comparing with a serial encoding of `input` gave for the
/// tokens `result`: the serial encoding when it succeeded with other ids,
/// else nothing.
pub open spec fn validation_outcome<F: Fn(&str, bool) -> Result<Encoding, E>, E>(
    f: F,
    input: &str,
    result: Seq<Token>,
    r: Option<Encoding>,
) -> bool {
    match r {
        Some(reference) => {
            &&& call_ensures(f, (input, false), Ok::<Encoding, E>(reference))
            &&& ids_of(reference@) != ids_of(result)
        },
        None => exists|x: Result<Encoding, E>|
            #[trigger] call_ensures(f, (input, false), x) && (x matches Ok(reference) ==> ids_of(reference@)
                == ids_of(result)),
    }
}

/// `r` is the result of handing `e` to post-processing when special tokens
/// are asked for, else `e` itself.
pub open spec fn post_outcome<P: Fn(Encoding, Option<Encoding>, bool) -> Result<Encoding, E>, E>(
    p: P,
    e: Encoding,
    add_special_tokens: bool,
    r: Result<Encoding, E>,
) -> bool {
    if add_special_tokens {
        call_ensures(p, (e, None::<Encoding>, true), r)
    } else {
        r == Ok::<Encoding, E>(e)
    }
}

/// `r` is what finishing the parallel encoding `result` gives: when
/// validation is on and a serial encoding differs in its ids, the serial
/// encoding is post-processed in its place.
pub open spec fn finished_outcome<
    F: Fn(&str, bool) -> Result<Encoding, E>,
    P: Fn(Encoding, Option<Encoding>, bool) -> Result<Encoding, E>,
    E,
>(
    f: F,
    p: P,
    input: &str,
    add_special_tokens: bool,
    validate: bool,
    result: Encoding,
    r: Result<Encoding, E>,
) -> bool {
    if validate {
        exists|v: Option<Encoding>|
            #[trigger] validation_outcome::<F, E>(f, input, result@, v) && post_outcome(
                p,
                match v {
                    Some(reference) => reference,
                    None => result,
                },
                add_special_tokens,
                r,
            )
    } else {
        post_outcome(p, result, add_special_tokens, r)
    }
}

/// `r` is an outcome of the streaming path: the merged blocks, without word
/// ids, finished.
pub open spec fn streaming_path_outcome<
    F: Fn(&str, bool) -> Result<Encoding, E>,
    P: Fn(Encoding, Option<Encoding>, bool) -> Result<Encoding, E>,
    E,
>(
    f: F,
    p: P,
    max_token_len: int,
    input: &str,
    add_special_tokens: bool,
    config: ParallelConfig,
    validate: bool,
    r: Result<Encoding, E>,
) -> bool {
    let b = bytes_of(input);
    let bs = config.block_size as int;
    let ov = streaming_overlap_of(config, max_token_len);
    ||| r matches Err(e) && parallel_streaming_outcome(f, b, bs, ov, Err::<Seq<Token>, E>(e))
    ||| exists|raw: Seq<Token>, res: Encoding|
        #![trigger parallel_streaming_outcome(f, b, bs, ov, Ok::<Seq<Token>, E>(raw)), finished_outcome(f, p, input, add_special_tokens, validate, res, r)]
        parallel_streaming_outcome(f, b, bs, ov, Ok::<Seq<Token>, E>(raw)) && res@ == without_words(raw)
            && finished_outcome(f, p, input, add_special_tokens, validate, res, r)
}

/// `r` is an outcome of the recursive path on `num_cores` threads: at depth 0
/// the encoder's own result, else the merged chunks, without word ids,
/// finished.
pub open spec fn recursive_path_outcome<
    F: Fn(&str, bool) -> Result<Encoding, E>,
    P: Fn(Encoding, Option<Encoding>, bool) -> Result<Encoding, E>,
    E,
>(
    f: F,
    p: P,
    max_token_len: int,
    input: &str,
    add_special_tokens: bool,
    config: ParallelConfig,
    num_cores: int,
    validate: bool,
    r: Result<Encoding, E>,
) -> bool {
    let b = bytes_of(input);
    let md = depth_for(config, b.len() as int, num_cores);
    if md == 0 {
        call_ensures(f, (input, add_special_tokens), r)
    } else {
        ||| r matches Err(e) && recursive_outcome(f, b, 0, 0, md, max_token_len, config, Err::<LazyEncoding, E>(e))
        ||| exists|l: LazyEncoding, res: Encoding|
            #![trigger recursive_outcome(f, b, 0, 0, md, max_token_len, config, Ok::<LazyEncoding, E>(l)), finished_outcome(f, p, input, add_special_tokens, validate, res, r)]
            recursive_outcome(f, b, 0, 0, md, max_token_len, config, Ok::<LazyEncoding, E>(l)) && res@
                == without_words(l.tokens()) && finished_outcome(f, p, input, add_special_tokens, validate, res, r)
    }
}

/// `r` is an outcome of parallel single-input encoding: short inputs, and all
/// inputs when parallelism is off, are encoded serially as asked; longer ones
/// go through the streaming or the recursive path, on any number of threads.
pub open spec fn single_outcome<
    F: Fn(&str, bool) -> Result<Encoding, E>,
    P: Fn(Encoding, Option<Encoding>, bool) -> Result<Encoding, E>,
    E,
>(
    f: F,
    p: P,
    max_token_len: int,
    input: &str,
    add_special_tokens: bool,
    config: ParallelConfig,
    parallelism_enabled: bool,
    validate: bool,
    r: Result<Encoding, E>,
) -> bool {
    let len = bytes_of(input).len() as int;
    if len < config.threshold || !parallelism_enabled {
        call_ensures(f, (input, add_special_tokens), r)
    } else if uses_streaming(config, len) {
        streaming_path_outcome(f, p, max_token_len, input, add_special_tokens, config, validate, r)
    } else {
        exists|n: usize|
            #[trigger] recursive_path_outcome(
                f,
                p,
                max_token_len,
                input,
                add_special_tokens,
                config,
                n as int,
                validate,
                r,
            )
    }
}

/// What the recursive path needs of its inputs.
pub open spec fn recursive_inputs_fit(config: ParallelConfig, max_token_len: int, len: int) -> bool {
    &&& len <= isize::MAX
    &&& large_enough_to_split(len, config) ==> overlap_inputs_fit(max_token_len, config.safety_margin as int)
}

/// What the streaming path needs of its inputs.
pub open spec fn streaming_inputs_fit(config: ParallelConfig, max_token_len: int, len: int) -> bool {
    &&& max_token_len * 3 <= usize::MAX
    &&& config.block_size > 0 || len == 0
    &&& block_sizes_fit(len, config.block_size as int, streaming_overlap_of(config, max_token_len))
}

/// What the path that an input of `len` bytes takes needs of its inputs.
pub open spec fn parallel_inputs_fit(config: ParallelConfig, max_token_len: int, len: int, parallelism_enabled: bool) -> bool {
    len >= config.threshold && parallelism_enabled ==> if uses_streaming(config, len) {
        streaming_inputs_fit(config, max_token_len, len)
    } else {
        recursive_inputs_fit(config, max_token_len, len) && config.min_tokens_per_chunk > 0
    }
}

/// The encoder accepts every text, keeps its byte ranges within the text, and
/// accepts `input` with `add_special_tokens`; post-processing accepts every
/// encoding when special tokens are asked for.
pub open spec fn functions_ready<
    F: Fn(&str, bool) -> Result<Encoding, E>,
    P: Fn(Encoding, Option<Encoding>, bool) -> Result<Encoding, E>,
    E,
>(f: F, p: P, input: &str, add_special_tokens: bool) -> bool {
    &&& call_requires(f, (input, add_special_tokens))
    &&& encoder_total(f)
    &&& encoder_offsets_within(f)
    &&& add_special_tokens ==> forall|e: Encoding| #[trigger] call_requires(p, (e, None::<Encoding>, true))
}

// =============================================================================
// VALIDATION
// =============================================================================

/// Whether two id sequences are equal.
fn same_ids(a: &Vec<u32>, b: &Vec<u32>) -> (r: bool)
    ensures
        r == (a@ == b@),
{
    if a.len() != b.len() {
        return false;
    }
    let mut i: usize = 0;
    while i < a.len()
        invariant
            a@.len() == b@.len(),
            0 <= i <= a@.len(),
            forall|k: int| 0 <= k < i ==> a@[k] == b@[k],
        decreases a@.len() - i,
    {
        if a[i] != b[i] {
            return false;
        }
        i += 1;
    }
    assert(a@ =~= b@);
    true
}

/// Validate a parallel result against serial encoding.
///
/// Returns `Some(reference)` if validation fails and the serial result should
/// be used; `None` if validation passes (or the serial encoding fails).
pub fn validate_parallel_result<F, E>(result: &Encoding, encode_fn: &F, input: &str) -> (r: Option<Encoding>)
    where
        F: Fn(&str, bool) -> Result<Encoding, E>,
    requires
        call_requires(*encode_fn, (input, false)),
    ensures
        validation_outcome::<F, E>(*encode_fn, input, result@, r),
{
    let serial = encode_fn(input, false);
    let ghost x = serial;
    let reference = match serial {
        Ok(e) => e,
        Err(_) => {
            assert(call_ensures(*encode_fn, (input, false), x));
            return None;
        },
    };
    let ref_ids = reference.get_ids();
    let result_ids = result.get_ids();
    if !same_ids(&result_ids, &ref_ids) {
        Some(reference)
    } else {
        assert(call_ensures(*encode_fn, (input, false), x));
        None
    }
}

/// Hand `e` to post-processing when special tokens are asked for.
fn post_process<P, E>(post_process_fn: &P, e: Encoding, add_special_tokens: bool) -> (r: Result<Encoding, E>)
    where
        P: Fn(Encoding, Option<Encoding>, bool) -> Result<Encoding, E>,
    requires
        add_special_tokens ==> forall|x: Encoding| #[trigger] call_requires(*post_process_fn, (x, None::<Encoding>, true)),
    ensures
        post_outcome(*post_process_fn, e, add_special_tokens, r),
{
    if add_special_tokens {
        assert(call_requires(*post_process_fn, (e, None::<Encoding>, true)));
        post_process_fn(e, None, true)
    } else {
        Ok(e)
    }
}

/// Validate (when asked) and post-process a parallel result.
fn finish<F, P, E>(
    result: Encoding,
    encode_fn: &F,
    post_process_fn: &P,
    input: &str,
    add_special_tokens: bool,
    validate: bool,
) -> (r: Result<Encoding, E>)
    where
        F: Fn(&str, bool) -> Result<Encoding, E>,
        P: Fn(Encoding, Option<Encoding>, bool) -> Result<Encoding, E>,
    requires
        encoder_total(*encode_fn),
        add_special_tokens ==> forall|x: Encoding| #[trigger] call_requires(*post_process_fn, (x, None::<Encoding>, true)),
    ensures
        finished_outcome(*encode_fn, *post_process_fn, input, add_special_tokens, validate, result, r),
{
    // Validation: compare with serial encoding when asked for
    if validate {
        let ghost res = result;
        assert(call_requires(*encode_fn, (input, false)));
        let checked = validate_parallel_result(&result, encode_fn, input);
        let ghost v = checked;
        let chosen = match checked {
            // Use the reference (serial) result
            Some(reference) => reference,
            None => result,
        };
        let r = post_process(post_process_fn, chosen, add_special_tokens);
        assert(validation_outcome::<F, E>(*encode_fn, input, res@, v));
        return r;
    }
    // Apply post-processing with special tokens if needed
    post_process(post_process_fn, result, add_special_tokens)
}

// =============================================================================
// PUBLIC API
// =============================================================================

/// Calls `rayon::current_num_threads`: the number of threads in the current
/// thread pool. Nothing is promised of the number.
#[verifier::external_body]
fn current_num_threads() -> usize {
    rayon::current_num_threads()
}

/// The recursive path of `encode_parallel_single`, on `num_cores` threads.
pub fn encode_recursive_path<F, P, E>(
    encode_fn: &F,
    post_process_fn: &P,
    max_token_len: usize,
    input: &str,
    add_special_tokens: bool,
    config: &ParallelConfig,
    num_cores: usize,
    validate: bool,
) -> (r: Result<Encoding, E>)
    where
        F: Fn(&str, bool) -> Result<Encoding, E> + Sync,
        P: Fn(Encoding, Option<Encoding>, bool) -> Result<Encoding, E>,
        E: Send,
    requires
        functions_ready(*encode_fn, *post_process_fn, input, add_special_tokens),
        recursive_inputs_fit(*config, max_token_len as int, bytes_of(input).len() as int),
        num_cores > 1 ==> config.min_tokens_per_chunk > 0,
    ensures
        recursive_path_outcome(
            *encode_fn,
            *post_process_fn,
            max_token_len as int,
            input,
            add_special_tokens,
            *config,
            num_cores as int,
            validate,
            r,
        ),
{
    let len = crate::split_point::byte_len(input);
    let auto_depth = compute_optimal_depth(len, num_cores, config.min_tokens_per_chunk, config.bytes_per_token_milli);

    // Use configured max_depth if set, otherwise use auto-detected depth
    let max_depth = if config.max_depth > 0 {
        if config.max_depth <= MAX_RECURSION_DEPTH {
            config.max_depth
        } else {
            MAX_RECURSION_DEPTH
        }
    } else {
        auto_depth
    };

    // If depth is 0, just use serial encoding
    if max_depth == 0 {
        return encode_fn(input, add_special_tokens);
    }

    // Perform recursive parallel encoding
    let encoded = encode_recursive(
        encode_fn,
        max_token_len,
        input,
        0,  // Start at global offset 0
        0,  // Start at depth 0
        max_depth,
        config,
    );
    let mut result = match encoded {
        Ok(e) => e,
        Err(e) => {
            return Err(e);
        },
    };
    let ghost raw = result@;
    // Word ids are not computed on the parallel paths
    result.clear_word_ids();
    let ghost res = result;
    let r = finish(result, encode_fn, post_process_fn, input, add_special_tokens, validate);
    proof {
        let l = choose|l: LazyEncoding|
            #[trigger] recursive_outcome(
                *encode_fn,
                bytes_of(input),
                0,
                0,
                max_depth as int,
                max_token_len as int,
                *config,
                Ok::<LazyEncoding, E>(l),
            ) && raw == l.tokens();
        assert(finished_outcome(*encode_fn, *post_process_fn, input, add_special_tokens, validate, res, r));
    }
    r
}

/// Encode a single long input in parallel using recursive overlapping chunks
/// or cache-block streaming.
///
/// * `encode_fn` - Function that encodes a string slice (without special tokens)
/// * `post_process_fn` - Function that applies post-processing with special tokens
/// * `max_token_len` - Maximum token length in bytes from the model vocabulary
/// * `input` - The input string to tokenize
/// * `add_special_tokens` - Whether to add special tokens via post-processing
/// * `config` - Configuration for parallel encoding
/// * `parallelism_enabled` - Whether parallelism is allowed at all
/// * `validate` - Whether to check the result against a serial encoding and
///   use the serial one when the ids differ
///
/// Word ids are not computed: a result of a parallel path carries none.
pub fn encode_parallel_single<F, P, E>(
    encode_fn: F,
    post_process_fn: P,
    max_token_len: usize,
    input: &str,
    add_special_tokens: bool,
    config: ParallelConfig,
    parallelism_enabled: bool,
    validate: bool,
) -> (r: Result<Encoding, E>)
    where
        F: Fn(&str, bool) -> Result<Encoding, E> + Send + Sync,
        P: Fn(Encoding, Option<Encoding>, bool) -> Result<Encoding, E>,
        E: Send,
    requires
        functions_ready(encode_fn, post_process_fn, input, add_special_tokens),
        parallel_inputs_fit(config, max_token_len as int, bytes_of(input).len() as int, parallelism_enabled),
    ensures
        single_outcome(
            encode_fn,
            post_process_fn,
            max_token_len as int,
            input,
            add_special_tokens,
            config,
            parallelism_enabled,
            validate,
            r,
        ),
{
    let len = crate::split_point::byte_len(input);
    // Early exit for short inputs or if parallelism is disabled
    if len < config.threshold || !parallelism_enabled {
        return encode_fn(input, add_special_tokens);
    }

    // Determine which mode to use
    let use_streaming = match config.mode {
        ParallelMode::Streaming => true,
        ParallelMode::Recursive => false,
        ParallelMode::Auto => len >= config.streaming_threshold,
    };

    if use_streaming {
        // Use cache-block streaming for very large inputs
        let encoded = encode_streaming_parallel(&encode_fn, max_token_len, input, &config);
        let mut result = match encoded {
            Ok(e) => e,
            Err(e) => {
                return Err(e);
            },
        };
        let ghost raw = result@;
        // Word ids are not computed on the parallel paths
        result.clear_word_ids();
        let ghost res = result;
        let r = finish(result, &encode_fn, &post_process_fn, input, add_special_tokens, validate);
        assert(finished_outcome(encode_fn, post_process_fn, input, add_special_tokens, validate, res, r));
        assert(parallel_streaming_outcome(
            encode_fn,
            bytes_of(input),
            config.block_size as int,
            streaming_overlap_of(config, max_token_len as int),
            Ok::<Seq<Token>, E>(raw),
        ));
        r
    } else {
        // Use recursive parallel encoding
        let num_cores = current_num_threads();
        let r = encode_recursive_path(
            &encode_fn,
            &post_process_fn,
            max_token_len,
            input,
            add_special_tokens,
            &config,
            num_cores,
            validate,
        );
        assert(recursive_path_outcome(
            encode_fn,
            post_process_fn,
            max_token_len as int,
            input,
            add_special_tokens,
            config,
            num_cores as int,
            validate,
            r,
        ));
        r
    }
}

// =============================================================================
// LAWS
// =============================================================================

/// Finishing with validation on, without special tokens, for an encoder that
/// gives `serial` for `input`: a successful result has the ids of `serial`.
proof fn lemma_finished_matches_serial<F, P, E>(f: F, p: P, input: &str, res: Encoding, r: Result<Encoding, E>, serial: Encoding)
    where
        F: Fn(&str, bool) -> Result<Encoding, E>,
        P: Fn(Encoding, Option<Encoding>, bool) -> Result<Encoding, E>,
    requires
        finished_outcome(f, p, input, false, true, res, r),
        forall|x: Result<Encoding, E>| #[trigger] call_ensures(f, (input, false), x) ==> x == Ok::<Encoding, E>(serial),
        r is Ok,
    ensures
        ids_of(r->Ok_0@) == ids_of(serial@),
{
    let v = choose|v: Option<Encoding>|
        #[trigger] validation_outcome::<F, E>(f, input, res@, v) && post_outcome(
            p,
            match v {
                Some(reference) => reference,
                None => res,
            },
            false,
            r,
        );
    match v {
        Some(reference) => {
            assert(call_ensures(f, (input, false), Ok::<Encoding, E>(reference)));
        },
        None => {
            let x = choose|x: Result<Encoding, E>|
                #[trigger] call_ensures(f, (input, false), x) && (x matches Ok(reference) ==> ids_of(reference@)
                    == ids_of(res@));
            assert(x == Ok::<Encoding, E>(serial));
        },
    }
}

/// Validation makes the result serial-exact in its ids: with validation on
/// and no special tokens, for an encoder that gives one result for the input
/// and succeeds with `serial`, every successful result of parallel
/// single-input encoding has the ids of `serial`, whichever path it took.
pub proof fn lemma_validated_result_matches_serial<F, P, E>(
    f: F,
    p: P,
    max_token_len: int,
    input: &str,
    config: ParallelConfig,
    parallelism_enabled: bool,
    r: Result<Encoding, E>,
    serial: Encoding,
)
    where
        F: Fn(&str, bool) -> Result<Encoding, E>,
        P: Fn(Encoding, Option<Encoding>, bool) -> Result<Encoding, E>,
    requires
        single_outcome(f, p, max_token_len, input, false, config, parallelism_enabled, true, r),
        forall|x: Result<Encoding, E>| #[trigger] call_ensures(f, (input, false), x) ==> x == Ok::<Encoding, E>(serial),
        r is Ok,
    ensures
        ids_of(r->Ok_0@) == ids_of(serial@),
{
    let b = bytes_of(input);
    let len = b.len() as int;
    if len < config.threshold || !parallelism_enabled {
        assert(call_ensures(f, (input, false), r));
    } else if uses_streaming(config, len) {
        let bs = config.block_size as int;
        let ov = streaming_overlap_of(config, max_token_len);
        let (raw, res) = choose|raw: Seq<Token>, res: Encoding|
            #![trigger parallel_streaming_outcome(f, b, bs, ov, Ok::<Seq<Token>, E>(raw)), finished_outcome(f, p, input, false, true, res, r)]
            parallel_streaming_outcome(f, b, bs, ov, Ok::<Seq<Token>, E>(raw)) && res@ == without_words(raw)
                && finished_outcome(f, p, input, false, true, res, r);
        lemma_finished_matches_serial(f, p, input, res, r, serial);
    } else {
        let n = choose|n: usize|
            #[trigger] recursive_path_outcome(f, p, max_token_len, input, false, config, n as int, true, r);
        let md = depth_for(config, len, n as int);
        if md == 0 {
            assert(call_ensures(f, (input, false), r));
        } else {
            let (l, res) = choose|l: LazyEncoding, res: Encoding|
                #![trigger recursive_outcome(f, b, 0, 0, md, max_token_len, config, Ok::<LazyEncoding, E>(l)), finished_outcome(f, p, input, false, true, res, r)]
                recursive_outcome(f, b, 0, 0, md, max_token_len, config, Ok::<LazyEncoding, E>(l)) && res@
                    == without_words(l.tokens()) && finished_outcome(f, p, input, false, true, res, r);
            lemma_finished_matches_serial(f, p, input, res, r, serial);
        }
    }
}

/// A serial encoding of the whole text by a local encoder is `s` up to word
/// ids.
proof fn lemma_whole_call_matches<F: Fn(&str, bool) -> Result<Encoding, E>, E>(
    f: F,
    input: &str,
    s: Seq<Token>,
    m: int,
    e: Encoding,
)
    requires
        local_encoder(f, bytes_of(input), s, m),
        encoder_offsets_within(f),
        offsets_within(s, bytes_of(input).len() as int),
        call_ensures(f, (input, false), Ok::<Encoding, E>(e)),
    ensures
        without_words(e@) == without_words(s),
{
    let b = bytes_of(input);
    let n = b.len() as int;
    assert(b.subrange(0, n) =~= b);
    crate::lazy_encoding::lemma_shifted_zero(e@);
    assert(offsets_within(e@, n));
    lemma_region_keeps_all(e@, 0, n + 1);
    lemma_region_keeps_all(s, 0, n + 1);
}

/// Finishing a result equal to `s` up to word ids, without special tokens,
/// for a local encoder, gives `s` up to word ids.
proof fn lemma_finished_keeps_serial<F, P, E>(
    f: F,
    p: P,
    input: &str,
    validate: bool,
    res: Encoding,
    r: Result<Encoding, E>,
    s: Seq<Token>,
    m: int,
)
    where
        F: Fn(&str, bool) -> Result<Encoding, E>,
        P: Fn(Encoding, Option<Encoding>, bool) -> Result<Encoding, E>,
    requires
        finished_outcome(f, p, input, false, validate, res, r),
        without_words(res@) == without_words(s),
        local_encoder(f, bytes_of(input), s, m),
        encoder_offsets_within(f),
        offsets_within(s, bytes_of(input).len() as int),
        r is Ok,
    ensures
        without_words(r->Ok_0@) == without_words(s),
{
    if validate {
        let v = choose|v: Option<Encoding>|
            #[trigger] validation_outcome::<F, E>(f, input, res@, v) && post_outcome(
                p,
                match v {
                    Some(reference) => reference,
                    None => res,
                },
                false,
                r,
            );
        if let Some(reference) = v {
            lemma_whole_call_matches(f, input, s, m, reference);
        }
    }
}

/// Parallel single-input encoding reproduces serial encoding: for an encoder
/// that keeps its starts in order and its byte ranges within the text it is
/// given, and is local with a margin at least 3 bytes below the overlap that
/// the path takes (the smallest split overlap when splitting, the streaming
/// overlap when streaming) on an input whose serial
/// encoding `s` has its starts in order and within the input (and is empty
/// for an empty input), every successful result without special tokens is
/// `s` in everything but word ids, on every path, with or without
/// validation, on any number of threads.
pub proof fn lemma_parallel_matches_serial<F, P, E>(
    f: F,
    p: P,
    max_token_len: int,
    input: &str,
    config: ParallelConfig,
    parallelism_enabled: bool,
    validate: bool,
    r: Result<Encoding, E>,
    s: Seq<Token>,
    m: int,
)
    where
        F: Fn(&str, bool) -> Result<Encoding, E>,
        P: Fn(Encoding, Option<Encoding>, bool) -> Result<Encoding, E>,
    requires
        single_outcome(f, p, max_token_len, input, false, config, parallelism_enabled, validate, r),
        parallel_inputs_fit(config, max_token_len, bytes_of(input).len() as int, parallelism_enabled),
        local_encoder(f, bytes_of(input), s, m),
        encoder_sorted(f),
        encoder_offsets_within(f),
        starts_sorted(s),
        offsets_within(s, bytes_of(input).len() as int),
        bytes_of(input).len() > 0 || s.len() == 0,
        0 <= m,
        !uses_streaming(config, bytes_of(input).len() as int) ==> m + 3 <= overlap_size(
            max_token_len,
            config.safety_margin as int,
            true,
        ),
        uses_streaming(config, bytes_of(input).len() as int) ==> m + 3 <= streaming_overlap_of(config, max_token_len),
        r is Ok,
    ensures
        without_words(r->Ok_0@) == without_words(s),
{
    let b = bytes_of(input);
    let len = b.len() as int;
    crate::split_point::lemma_valid_utf8(input);
    if len < config.threshold || !parallelism_enabled {
        lemma_whole_call_matches(f, input, s, m, r->Ok_0);
    } else if uses_streaming(config, len) {
        let bs = config.block_size as int;
        let ov = streaming_overlap_of(config, max_token_len);
        if r matches Err(e) && parallel_streaming_outcome(f, b, bs, ov, Err::<Seq<Token>, E>(e)) {
        } else {
            let (raw, res) = choose|raw: Seq<Token>, res: Encoding|
                #![trigger parallel_streaming_outcome(f, b, bs, ov, Ok::<Seq<Token>, E>(raw)), finished_outcome(f, p, input, false, validate, res, r)]
                parallel_streaming_outcome(f, b, bs, ov, Ok::<Seq<Token>, E>(raw)) && res@ == without_words(raw)
                    && finished_outcome(f, p, input, false, validate, res, r);
            if len > 0 {
                lemma_streaming_matches_serial(f, b, s, m, bs, ov, raw);
            } else {
                // No blocks: the merge of nothing is empty
                let rs = choose|rs: Seq<Result<(usize, usize, Encoding), E>>|
                    #[trigger] crate::streaming::blocks_encoded(f, b, crate::streaming::blocks_from(b, bs, ov, 0), rs)
                        && crate::streaming::merged_blocks(len, rs) == Ok::<Seq<Token>, E>(raw);
                assert(rs.len() == 0);
                assert(s =~= raw);
            }
            lemma_without_words_twice(raw);
            lemma_finished_keeps_serial(f, p, input, validate, res, r, s, m);
        }
    } else {
        let n = choose|n: usize| #[trigger] recursive_path_outcome(f, p, max_token_len, input, false, config, n as int, validate, r);
        let md = depth_for(config, len, n as int);
        if md == 0 {
            lemma_whole_call_matches(f, input, s, m, r->Ok_0);
        } else {
            let (l, res) = choose|l: LazyEncoding, res: Encoding|
                #![trigger recursive_outcome(f, b, 0, 0, md, max_token_len, config, Ok::<LazyEncoding, E>(l)), finished_outcome(f, p, input, false, validate, res, r)]
                recursive_outcome(f, b, 0, 0, md, max_token_len, config, Ok::<LazyEncoding, E>(l)) && res@
                    == without_words(l.tokens()) && finished_outcome(f, p, input, false, validate, res, r);
            lemma_recursive_matches_serial(f, b, s, m, md, max_token_len, config, l);
            lemma_without_words_twice(l.tokens());
            lemma_finished_keeps_serial(f, p, input, validate, res, r, s, m);
        }
    }
}

/// Finishing without special tokens gives the finished result itself or,
/// with validation, possibly the encoder's own result for the input.
proof fn lemma_finished_is_result_or_serial<F, P, E>(
    f: F,
    p: P,
    input: &str,
    validate: bool,
    res: Encoding,
    r: Result<Encoding, E>,
)
    where
        F: Fn(&str, bool) -> Result<Encoding, E>,
        P: Fn(Encoding, Option<Encoding>, bool) -> Result<Encoding, E>,
    requires
        finished_outcome(f, p, input, false, validate, res, r),
    ensures
        r == Ok::<Encoding, E>(res) || call_ensures(f, (input, false), r),
{
    if validate {
        let v = choose|v: Option<Encoding>|
            #[trigger] validation_outcome::<F, E>(f, input, res@, v) && post_outcome(
                p,
                match v {
                    Some(reference) => reference,
                    None => res,
                },
                false,
                r,
            );
    }
}

/// Parallel results carry no word ids: without special tokens, a successful
/// result of parallel single-input encoding either is the encoder's own result
/// for the whole input (short input, parallelism off, depth 0, or the serial
/// encoding that validation put in its place) or has no word id on any token.
pub proof fn lemma_parallel_results_carry_no_word_ids<F, P, E>(
    f: F,
    p: P,
    max_token_len: int,
    input: &str,
    config: ParallelConfig,
    parallelism_enabled: bool,
    validate: bool,
    r: Result<Encoding, E>,
)
    where
        F: Fn(&str, bool) -> Result<Encoding, E>,
        P: Fn(Encoding, Option<Encoding>, bool) -> Result<Encoding, E>,
    requires
        single_outcome(f, p, max_token_len, input, false, config, parallelism_enabled, validate, r),
        r is Ok,
    ensures
        call_ensures(f, (input, false), r) || forall|i: int| 0 <= i < r->Ok_0@.len() ==> (#[trigger] r->Ok_0@[i]).word is None,
{
    let b = bytes_of(input);
    let len = b.len() as int;
    if len < config.threshold || !parallelism_enabled {
    } else if uses_streaming(config, len) {
        let bs = config.block_size as int;
        let ov = streaming_overlap_of(config, max_token_len);
        if r matches Err(e) && parallel_streaming_outcome(f, b, bs, ov, Err::<Seq<Token>, E>(e)) {
        } else {
            let (raw, res) = choose|raw: Seq<Token>, res: Encoding|
                #![trigger parallel_streaming_outcome(f, b, bs, ov, Ok::<Seq<Token>, E>(raw)), finished_outcome(f, p, input, false, validate, res, r)]
                parallel_streaming_outcome(f, b, bs, ov, Ok::<Seq<Token>, E>(raw)) && res@ == without_words(raw)
                    && finished_outcome(f, p, input, false, validate, res, r);
            lemma_finished_is_result_or_serial(f, p, input, validate, res, r);
        }
    } else {
        let n = choose|n: usize| #[trigger] recursive_path_outcome(f, p, max_token_len, input, false, config, n as int, validate, r);
        let md = depth_for(config, len, n as int);
        if md != 0 {
            let (l, res) = choose|l: LazyEncoding, res: Encoding|
                #![trigger recursive_outcome(f, b, 0, 0, md, max_token_len, config, Ok::<LazyEncoding, E>(l)), finished_outcome(f, p, input, false, validate, res, r)]
                recursive_outcome(f, b, 0, 0, md, max_token_len, config, Ok::<LazyEncoding, E>(l)) && res@
                    == without_words(l.tokens()) && finished_outcome(f, p, input, false, validate, res, r);
            lemma_finished_is_result_or_serial(f, p, input, validate, res, r);
        }
    }
}

/// The special-token result of the encoder for `input` is what post-processing
/// gives for one of its plain results.
pub open spec fn special_tokens_by_post_processing<
    F: Fn(&str, bool) -> Result<Encoding, E>,
    P: Fn(Encoding, Option<Encoding>, bool) -> Result<Encoding, E>,
    E,
>(f: F, p: P, input: &str) -> bool {
    forall|x: Result<Encoding, E>|
        #[trigger] call_ensures(f, (input, true), x) && x is Ok ==> exists|e: Encoding|
            call_ensures(f, (input, false), Ok::<Encoding, E>(e)) && #[trigger] call_ensures(
                p,
                (e, None::<Encoding>, true),
                x,
            )
}

/// `r` is what post-processing gives for an encoding that is `s` in
/// everything but word ids.
pub open spec fn post_processed_serial<P: Fn(Encoding, Option<Encoding>, bool) -> Result<Encoding, E>, E>(
    p: P,
    s: Seq<Token>,
    r: Result<Encoding, E>,
) -> bool {
    exists|e: Encoding| without_words(e@) == without_words(s) && #[trigger] call_ensures(p, (e, None::<Encoding>, true), r)
}

/// Finishing with special tokens a result that is `s` up to word ids, for a
/// local encoder, post-processes an encoding that is `s` up to word ids.
proof fn lemma_finished_post_processes_serial<F, P, E>(
    f: F,
    p: P,
    input: &str,
    validate: bool,
    res: Encoding,
    r: Result<Encoding, E>,
    s: Seq<Token>,
    m: int,
)
    where
        F: Fn(&str, bool) -> Result<Encoding, E>,
        P: Fn(Encoding, Option<Encoding>, bool) -> Result<Encoding, E>,
    requires
        finished_outcome(f, p, input, true, validate, res, r),
        without_words(res@) == without_words(s),
        local_encoder(f, bytes_of(input), s, m),
        encoder_offsets_within(f),
        offsets_within(s, bytes_of(input).len() as int),
    ensures
        post_processed_serial(p, s, r),
{
    if validate {
        let v = choose|v: Option<Encoding>|
            #[trigger] validation_outcome::<F, E>(f, input, res@, v) && post_outcome(
                p,
                match v {
                    Some(reference) => reference,
                    None => res,
                },
                true,
                r,
            );
        if let Some(reference) = v {
            lemma_whole_call_matches(f, input, s, m, reference);
            assert(call_ensures(p, (reference, None::<Encoding>, true), r));
        } else {
            assert(call_ensures(p, (res, None::<Encoding>, true), r));
        }
    } else {
        assert(call_ensures(p, (res, None::<Encoding>, true), r));
    }
}

/// A serial result with special tokens post-processes the serial encoding.
proof fn lemma_special_call_post_processes_serial<F, P, E>(
    f: F,
    p: P,
    input: &str,
    r: Result<Encoding, E>,
    s: Seq<Token>,
    m: int,
)
    where
        F: Fn(&str, bool) -> Result<Encoding, E>,
        P: Fn(Encoding, Option<Encoding>, bool) -> Result<Encoding, E>,
    requires
        call_ensures(f, (input, true), r),
        r is Ok,
        special_tokens_by_post_processing(f, p, input),
        local_encoder(f, bytes_of(input), s, m),
        encoder_offsets_within(f),
        offsets_within(s, bytes_of(input).len() as int),
    ensures
        post_processed_serial(p, s, r),
{
    let e = choose|e: Encoding|
        call_ensures(f, (input, false), Ok::<Encoding, E>(e)) && #[trigger] call_ensures(p, (e, None::<Encoding>, true), r);
    lemma_whole_call_matches(f, input, s, m, e);
}

/// Parallel single-input encoding with special tokens reproduces serial
/// encoding: under the premises of `lemma_parallel_matches_serial`, for an
/// encoder whose special-token result for the input is what post-processing
/// gives for its plain result, every successful result with special tokens
/// is what post-processing gives for an encoding that is the serial one in
/// everything but word ids, on every path, with or without validation.
pub proof fn lemma_parallel_matches_serial_with_special_tokens<F, P, E>(
    f: F,
    p: P,
    max_token_len: int,
    input: &str,
    config: ParallelConfig,
    parallelism_enabled: bool,
    validate: bool,
    r: Result<Encoding, E>,
    s: Seq<Token>,
    m: int,
)
    where
        F: Fn(&str, bool) -> Result<Encoding, E>,
        P: Fn(Encoding, Option<Encoding>, bool) -> Result<Encoding, E>,
    requires
        single_outcome(f, p, max_token_len, input, true, config, parallelism_enabled, validate, r),
        parallel_inputs_fit(config, max_token_len, bytes_of(input).len() as int, parallelism_enabled),
        special_tokens_by_post_processing(f, p, input),
        local_encoder(f, bytes_of(input), s, m),
        encoder_sorted(f),
        encoder_offsets_within(f),
        starts_sorted(s),
        offsets_within(s, bytes_of(input).len() as int),
        bytes_of(input).len() > 0 || s.len() == 0,
        0 <= m,
        !uses_streaming(config, bytes_of(input).len() as int) ==> m + 3 <= overlap_size(
            max_token_len,
            config.safety_margin as int,
            true,
        ),
        uses_streaming(config, bytes_of(input).len() as int) ==> m + 3 <= streaming_overlap_of(config, max_token_len),
        r is Ok,
    ensures
        post_processed_serial(p, s, r),
{
    let b = bytes_of(input);
    let len = b.len() as int;
    crate::split_point::lemma_valid_utf8(input);
    if len < config.threshold || !parallelism_enabled {
        lemma_special_call_post_processes_serial(f, p, input, r, s, m);
    } else if uses_streaming(config, len) {
        let bs = config.block_size as int;
        let ov = streaming_overlap_of(config, max_token_len);
        if r matches Err(e) && parallel_streaming_outcome(f, b, bs, ov, Err::<Seq<Token>, E>(e)) {
        } else {
            let (raw, res) = choose|raw: Seq<Token>, res: Encoding|
                #![trigger parallel_streaming_outcome(f, b, bs, ov, Ok::<Seq<Token>, E>(raw)), finished_outcome(f, p, input, true, validate, res, r)]
                parallel_streaming_outcome(f, b, bs, ov, Ok::<Seq<Token>, E>(raw)) && res@ == without_words(raw)
                    && finished_outcome(f, p, input, true, validate, res, r);
            if len > 0 {
                lemma_streaming_matches_serial(f, b, s, m, bs, ov, raw);
            } else {
                let rs = choose|rs: Seq<Result<(usize, usize, Encoding), E>>|
                    #[trigger] crate::streaming::blocks_encoded(f, b, crate::streaming::blocks_from(b, bs, ov, 0), rs)
                        && crate::streaming::merged_blocks(len, rs) == Ok::<Seq<Token>, E>(raw);
                assert(rs.len() == 0);
                assert(s =~= raw);
            }
            lemma_without_words_twice(raw);
            lemma_finished_post_processes_serial(f, p, input, validate, res, r, s, m);
        }
    } else {
        let n = choose|n: usize| #[trigger] recursive_path_outcome(f, p, max_token_len, input, true, config, n as int, validate, r);
        let md = depth_for(config, len, n as int);
        if md == 0 {
            lemma_special_call_post_processes_serial(f, p, input, r, s, m);
        } else {
            let (l, res) = choose|l: LazyEncoding, res: Encoding|
                #![trigger recursive_outcome(f, b, 0, 0, md, max_token_len, config, Ok::<LazyEncoding, E>(l)), finished_outcome(f, p, input, true, validate, res, r)]
                recursive_outcome(f, b, 0, 0, md, max_token_len, config, Ok::<LazyEncoding, E>(l)) && res@
                    == without_words(l.tokens()) && finished_outcome(f, p, input, true, validate, res, r);
            lemma_recursive_matches_serial(f, b, s, m, md, max_token_len, config, l);
            lemma_without_words_twice(l.tokens());
            lemma_finished_post_processes_serial(f, p, input, validate, res, r, s, m);
        }
    }
}

/// Dropping word ids keeps an ordering of the byte ranges.
proof fn lemma_without_words_ordered(s: Seq<Token>, lo: int, hi: int)
    requires
        ordered_within(s, lo, hi),
    ensures
        ordered_within(without_words(s), lo, hi),
{
    let t = without_words(s);
    assert forall|i: int| 0 <= i < t.len() implies lo <= #[trigger] t[i].offsets.0 <= hi && lo <= t[i].offsets.1 <= hi by {
        assert(t[i].offsets == s[i].offsets);
    }
    if has_overlap(t) {
        let i = choose|i: int| 0 <= i && i + 1 < t.len() && #[trigger] t[i + 1].offsets.0 < t[i].offsets.1;
        assert(s[i + 1].offsets.0 < s[i].offsets.1);
        assert(has_overlap(s));
    }
}

/// Parallel output is ordered: for an encoder whose tokens are ordered and lie
/// within the text it is given, every successful result without special
/// tokens lies within the input with no token starting before the previous
/// one ends, on the serial and recursive paths; on the streaming path when,
/// moreover, the encoder is local there with a margin at least 3 bytes below
/// the streaming overlap and its serial encoding `s` is ordered (block
/// streaming keeps no merge check of its own).
pub proof fn lemma_parallel_output_ordered<F, P, E>(
    f: F,
    p: P,
    max_token_len: int,
    input: &str,
    config: ParallelConfig,
    parallelism_enabled: bool,
    validate: bool,
    r: Result<Encoding, E>,
    s: Seq<Token>,
    m: int,
)
    where
        F: Fn(&str, bool) -> Result<Encoding, E>,
        P: Fn(Encoding, Option<Encoding>, bool) -> Result<Encoding, E>,
    requires
        single_outcome(f, p, max_token_len, input, false, config, parallelism_enabled, validate, r),
        parallel_inputs_fit(config, max_token_len, bytes_of(input).len() as int, parallelism_enabled),
        encoder_ordered(f),
        bytes_of(input).len() >= config.threshold && parallelism_enabled && uses_streaming(
            config,
            bytes_of(input).len() as int,
        ) ==> {
            &&& local_encoder(f, bytes_of(input), s, m)
            &&& encoder_offsets_within(f)
            &&& starts_sorted(s)
            &&& ordered_within(s, 0, bytes_of(input).len() as int)
            &&& bytes_of(input).len() > 0 || s.len() == 0
            &&& 0 <= m
            &&& m + 3 <= streaming_overlap_of(config, max_token_len)
        },
        r is Ok,
    ensures
        ordered_within(r->Ok_0@, 0, bytes_of(input).len() as int),
{
    let b = bytes_of(input);
    let len = b.len() as int;
    crate::split_point::lemma_valid_utf8(input);
    if len < config.threshold || !parallelism_enabled {
        assert(call_ensures(f, (input, false), r));
    } else if uses_streaming(config, len) {
        let bs = config.block_size as int;
        let ov = streaming_overlap_of(config, max_token_len);
        if r matches Err(e) && parallel_streaming_outcome(f, b, bs, ov, Err::<Seq<Token>, E>(e)) {
        } else {
            let (raw, res) = choose|raw: Seq<Token>, res: Encoding|
                #![trigger parallel_streaming_outcome(f, b, bs, ov, Ok::<Seq<Token>, E>(raw)), finished_outcome(f, p, input, false, validate, res, r)]
                parallel_streaming_outcome(f, b, bs, ov, Ok::<Seq<Token>, E>(raw)) && res@ == without_words(raw)
                    && finished_outcome(f, p, input, false, validate, res, r);
            assert(offsets_within(s, len));
            if bs > 0 && len > 0 {
                lemma_streaming_matches_serial(f, b, s, m, bs, ov, raw);
                lemma_without_words_ordered(s, 0, len);
                lemma_without_words_twice(raw);
            } else {
                let rs = choose|rs: Seq<Result<(usize, usize, Encoding), E>>|
                    #[trigger] crate::streaming::blocks_encoded(f, b, crate::streaming::blocks_from(b, bs, ov, 0), rs)
                        && crate::streaming::merged_blocks(len, rs) == Ok::<Seq<Token>, E>(raw);
                if len > 0 {
                    assert(crate::streaming::blocks_from(b, bs, ov, 0).len() == 0);
                }
                assert(rs.len() == 0);
                assert(raw =~= Seq::<Token>::empty());
                lemma_without_words_ordered(raw, 0, len);
            }
            lemma_finished_is_result_or_serial(f, p, input, validate, res, r);
            if r != Ok::<Encoding, E>(res) {
                assert(call_ensures(f, (input, false), r));
            }
        }
    } else {
        let n = choose|n: usize| #[trigger] recursive_path_outcome(f, p, max_token_len, input, false, config, n as int, validate, r);
        let md = depth_for(config, len, n as int);
        if md == 0 {
            assert(call_ensures(f, (input, false), r));
        } else {
            let (l, res) = choose|l: LazyEncoding, res: Encoding|
                #![trigger recursive_outcome(f, b, 0, 0, md, max_token_len, config, Ok::<LazyEncoding, E>(l)), finished_outcome(f, p, input, false, validate, res, r)]
                recursive_outcome(f, b, 0, 0, md, max_token_len, config, Ok::<LazyEncoding, E>(l)) && res@
                    == without_words(l.tokens()) && finished_outcome(f, p, input, false, validate, res, r);
            let t = choose|t: crate::recursive::RecursionTrace<E>|
                #[trigger] crate::recursive::traced_outcome(f, b, 0, 0, md, max_token_len, config, t, Ok::<LazyEncoding, E>(l));
            assert(ordered_within(l.tokens(), 0, len));
            lemma_without_words_ordered(l.tokens(), 0, len);
            lemma_finished_is_result_or_serial(f, p, input, validate, res, r);
            if r != Ok::<Encoding, E>(res) {
                assert(call_ensures(f, (input, false), r));
            }
        }
    }
}

} // verus!
