//! Parallel single-input encoding against serial encoding, with a word-level
//! encoder (words and punctuation marks are tokens) that is local enough for
//! the split and block overlaps.

use std::collections::HashMap;

use parallel_encode::config::{ParallelConfig, ParallelMode};
use parallel_encode::encoding::{Encoding, Token};
use parallel_encode::{encode_parallel_single, encode_recursive_path, validate_parallel_result};

fn special(id: u32, value: &str) -> Token {
    Token { id, type_id: 0, value: value.to_string(), word: None, offsets: (0, 0), special: 1, attention: 1 }
}

/// Adds `[CLS]` in front and `[SEP]` at the end.
fn post_process(e: Encoding, _pair: Option<Encoding>, _add_special: bool) -> Result<Encoding, String> {
    let mut tokens = vec![special(101, "[CLS]")];
    tokens.extend(e.into_tokens());
    tokens.push(special(102, "[SEP]"));
    Ok(Encoding::from_tokens(tokens))
}

fn raw_encode(s: &str) -> Encoding {
    let mut tokens = Vec::new();
    let mut start: Option<usize> = None;
    let push = |tokens: &mut Vec<Token>, a: usize, b: usize| {
        let mut h: u32 = 7;
        for byte in s[a..b].bytes() {
            h = h.wrapping_mul(31).wrapping_add(byte as u32);
        }
        tokens.push(Token {
            id: h % 30_000,
            type_id: 0,
            value: s[a..b].to_string(),
            word: None,
            offsets: (a, b),
            special: 0,
            attention: 1,
        });
    };
    for (i, c) in s.char_indices() {
        if c.is_whitespace() || c.is_ascii_punctuation() {
            if let Some(a) = start.take() {
                push(&mut tokens, a, i);
            }
            if c.is_ascii_punctuation() {
                push(&mut tokens, i, i + 1);
            }
        } else if start.is_none() {
            start = Some(i);
        }
    }
    if let Some(a) = start {
        push(&mut tokens, a, s.len());
    }
    Encoding::from_tokens(tokens)
}

/// The word-level encoder, with special tokens when asked for.
fn word_encode(s: &str, add_special: bool) -> Result<Encoding, String> {
    let e = raw_encode(s);
    if add_special {
        post_process(e, None, true)
    } else {
        Ok(e)
    }
}

const MAX_TOKEN_LEN: usize = 100;

fn serial(text: &str, add_special: bool) -> Encoding {
    word_encode(text, add_special).unwrap()
}

fn parallel_with(text: &str, add_special: bool, config: ParallelConfig) -> Encoding {
    encode_parallel_single(word_encode, post_process, MAX_TOKEN_LEN, text, add_special, config, true, false).unwrap()
}

fn parallel(text: &str, add_special: bool) -> Encoding {
    parallel_with(text, add_special, ParallelConfig::default())
}

/// A configuration that splits small inputs too.
fn eager_recursive() -> ParallelConfig {
    let mut config = ParallelConfig::recursive();
    config.threshold = 100;
    config.min_tokens_per_chunk = 50;
    config.max_depth = 3;
    config
}

fn eager_streaming() -> ParallelConfig {
    let mut config = ParallelConfig::streaming().with_block_size(256).with_streaming_overlap(64);
    config.threshold = 100;
    config
}

fn assert_encodings_equal(serial: &Encoding, parallel: &Encoding) {
    assert_eq!(serial.get_ids(), parallel.get_ids(), "IDs don't match between serial and parallel");
    assert_eq!(serial.get_tokens(), parallel.get_tokens(), "Tokens don't match between serial and parallel");
    assert_eq!(serial.get_offsets(), parallel.get_offsets(), "Offsets don't match between serial and parallel");
    assert_eq!(serial.get_type_ids(), parallel.get_type_ids(), "Type IDs don't match between serial and parallel");
    assert_eq!(
        serial.get_attention_mask(),
        parallel.get_attention_mask(),
        "Attention masks don't match between serial and parallel"
    );
    assert_eq!(
        serial.get_special_tokens_mask(),
        parallel.get_special_tokens_mask(),
        "Special tokens masks don't match between serial and parallel"
    );
}

/// Every configuration under test gives the serial encoding.
fn assert_all_paths_match(text: &str, add_special: bool) {
    let expected = serial(text, add_special);
    assert_encodings_equal(&expected, &parallel(text, add_special));
    assert_encodings_equal(&expected, &parallel_with(text, add_special, eager_recursive()));
    assert_encodings_equal(&expected, &parallel_with(text, add_special, eager_streaming()));
}

/// The default and the eagerly splitting recursive configuration give the
/// serial encoding (streaming keeps no token longer than its overlap whole).
fn assert_recursive_paths_match(text: &str, add_special: bool) {
    let expected = serial(text, add_special);
    assert_encodings_equal(&expected, &parallel(text, add_special));
    assert_encodings_equal(&expected, &parallel_with(text, add_special, eager_recursive()));
}

fn assert_offsets_monotonic(offsets: &[(usize, usize)], len: usize) {
    for i in 0..offsets.len() {
        let (start, end) = offsets[i];
        assert!(start <= end, "Invalid offset at position {}: ({}, {})", i, start, end);
        assert!(end <= len, "Offset exceeds text length at position {}: ({}, {}) > {}", i, start, end, len);
        if i + 1 < offsets.len() {
            let (next_start, _) = offsets[i + 1];
            assert!(end <= next_start, "Overlapping offsets at positions {}-{}", i, i + 1);
        }
    }
}

#[test]
fn test_parallel_correctness_long_input() {
    // Create a long input (>10KB to trigger parallel encoding)
    let text = "The quick brown fox jumps over the lazy dog. ".repeat(500);
    assert_all_paths_match(&text, false);
}

#[test]
fn test_parallel_with_special_tokens() {
    let text = "Hello world! This is a test. ".repeat(500);
    assert_all_paths_match(&text, true);
}

#[test]
fn test_parallel_short_input_fallback() {
    let text = "Short input text.";
    assert_encodings_equal(&serial(text, false), &parallel(text, false));
}

#[test]
fn test_parallel_threshold_boundary() {
    // Create input at exactly 10,000 bytes
    let unit = "Hello world! ";
    let repeat_count = 10_000 / unit.len();
    let text = unit.repeat(repeat_count);
    assert_all_paths_match(&text, false);
}

#[test]
fn test_parallel_multibyte_utf8() {
    // Mix ASCII and multi-byte characters
    let text = "Hello 世界! This is a test with émojis 🎉 and Chinese 你好. ".repeat(300);
    assert_all_paths_match(&text, false);
}

#[test]
fn test_parallel_various_patterns() {
    let patterns = vec![
        "The quick brown fox jumps over the lazy dog. ",
        "1234567890 !@#$%^&*() ",
        "CamelCaseWords and snake_case_words ",
        "Multiple    spaces   and\ttabs\there ",
        "Line breaks\nand\r\ncarriage returns ",
    ];
    for pattern in patterns {
        let text = pattern.repeat(300);
        assert_all_paths_match(&text, false);
    }
}

#[test]
fn test_parallel_empty_string() {
    let text = "";
    assert_encodings_equal(&serial(text, false), &parallel(text, false));
    assert_encodings_equal(&serial(text, false), &parallel_with(text, false, eager_streaming()));
}

#[test]
fn test_parallel_very_long_input() {
    // Create a very long input (~100KB)
    let text = "This is a test sentence that will be repeated many times. ".repeat(2000);
    assert_all_paths_match(&text, false);
}

#[test]
fn test_parallel_whitespace_only() {
    let text = " ".repeat(15_000);
    assert_all_paths_match(&text, false);
}

#[test]
fn test_parallel_repeated_character() {
    let text = "a".repeat(15_000);
    assert_recursive_paths_match(&text, false);
}

#[test]
fn test_parallel_utf8_at_boundaries() {
    // Create text where UTF-8 multi-byte chars are likely near split point
    let before = "a".repeat(4990);
    let multi = "你好世界"; // 12 bytes (3 bytes per character)
    let after = "b".repeat(5000);
    let text = format!("{}{}{}", before, multi, after);
    assert_recursive_paths_match(&text, false);
}

#[test]
fn test_parallel_with_parallelism_disabled() {
    let text = "Hello world! ".repeat(1000);
    let result =
        encode_parallel_single(word_encode, post_process, MAX_TOKEN_LEN, &text, false, eager_recursive(), false, false)
            .unwrap();
    let expected = serial(&text, false);
    assert_encodings_equal(&expected, &result);
}

#[test]
fn test_offsets_monotonic_and_valid() {
    let text = "The quick brown fox jumps over the lazy dog. ".repeat(500);
    for config in [ParallelConfig::default(), eager_recursive(), eager_streaming()] {
        let encoding = parallel_with(&text, false, config);
        assert_offsets_monotonic(&encoding.get_offsets(), text.len());
    }
}

#[test]
fn test_split_point_handling() {
    // Create text with clear structure across the split point
    let part1 = "Hello world test sentence. ".repeat(200); // ~5400 bytes
    let part2 = "Another test sentence here. ".repeat(200); // ~5600 bytes
    let text = format!("{}{}", part1, part2);
    assert_all_paths_match(&text, false);
}

#[test]
fn test_many_word_boundaries() {
    // Each word is small, creating many word boundaries
    let text = (0..2000).map(|i| format!("word{} ", i)).collect::<String>();
    assert_all_paths_match(&text, false);
}

#[test]
fn test_long_tokens() {
    // Create long "words" without spaces
    let long_word = "a".repeat(100);
    let text = format!("{} ", long_word).repeat(150);
    assert_all_paths_match(&text, false);
}

#[test]
fn test_offset_text_reconstruction() {
    let text = "The quick brown fox jumps over the lazy dog. ".repeat(500);
    let encoding = parallel_with(&text, false, eager_recursive());
    // Reconstruct text from offsets
    let mut reconstructed = String::new();
    for (start, end) in encoding.get_offsets() {
        if end > start && end <= text.len() {
            reconstructed.push_str(&text[start..end]);
        }
    }
    assert!(!reconstructed.is_empty(), "Should reconstruct some text from offsets");
    let expected: String = text.chars().filter(|c| !c.is_whitespace()).collect();
    assert_eq!(reconstructed, expected);
}

#[test]
fn test_no_token_loss_or_duplication() {
    let text = "Test sentence with various words. ".repeat(400);
    let serial = serial(&text, false);
    let parallel = parallel_with(&text, false, eager_recursive());
    assert_eq!(serial.get_ids().len(), parallel.get_ids().len(), "Different number of tokens");
    let mut serial_counts: HashMap<u32, usize> = HashMap::new();
    let mut parallel_counts: HashMap<u32, usize> = HashMap::new();
    for id in serial.get_ids() {
        *serial_counts.entry(id).or_insert(0) += 1;
    }
    for id in parallel.get_ids() {
        *parallel_counts.entry(id).or_insert(0) += 1;
    }
    assert_eq!(serial_counts, parallel_counts, "Token frequency distribution differs");
}

#[test]
fn test_boundary_with_special_patterns() {
    // Create text with known structure around midpoint
    let prefix = "normal text ".repeat(400); // ~4800 bytes
    let special = "🎉 你好 world "; // Multi-byte chars near split
    let suffix = "more text ".repeat(500); // ~5000 bytes
    let text = format!("{}{}{}", prefix, special, suffix);
    assert_all_paths_match(&text, false);
}

#[test]
fn test_multiple_parallel_encode_calls() {
    let text1 = "The quick brown fox jumps over the lazy dog. ".repeat(500);
    let text2 = "Hello world! This is another test. ".repeat(500);
    let text3 = "Testing repeated encoding calls. ".repeat(500);
    for text in [text1, text2, text3] {
        let result = parallel_with(&text, false, eager_recursive());
        let expected = serial(&text, false);
        assert_encodings_equal(&expected, &result);
    }
}

#[test]
fn test_recursive_parallel_medium_input() {
    // ~100KB input, should trigger depth 1-2 depending on cores
    let text = "The quick brown fox jumps over the lazy dog. ".repeat(2500);
    assert!(text.len() > 100_000);
    assert_all_paths_match(&text, false);
}

#[test]
fn test_recursive_parallel_large_input() {
    // ~250KB input, should trigger depth 2-3 depending on cores
    let text = "The quick brown fox jumps over the lazy dog. ".repeat(6000);
    assert!(text.len() > 250_000);
    assert_encodings_equal(&serial(&text, false), &parallel(&text, false));
}

#[test]
fn test_recursive_parallel_very_large_input() {
    // ~500KB input, should trigger depth 3+ depending on cores
    let text = "Testing recursive parallelism with a longer sentence structure. ".repeat(8000);
    assert!(text.len() > 500_000);
    assert_encodings_equal(&serial(&text, false), &parallel(&text, false));
}

#[test]
fn test_recursive_parallel_1mb_input() {
    // ~1MB input (each repeat is 76 bytes, need ~13200 repeats)
    let text = "This is a comprehensive test of the recursive parallel encoding algorithm. ".repeat(14000);
    assert!(text.len() > 1_000_000, "Text length {} should be > 1MB", text.len());
    assert_encodings_equal(&serial(&text, false), &parallel(&text, false));
}

#[test]
fn test_recursive_parallel_with_special_tokens_large() {
    // ~200KB input with special tokens
    let text = "Testing with special tokens. ".repeat(7000);
    assert!(text.len() > 200_000);
    assert_encodings_equal(&serial(&text, true), &parallel(&text, true));
}

#[test]
fn test_recursive_parallel_utf8_large() {
    // ~200KB with mixed UTF-8
    let text = "Hello 世界! Testing émojis 🎉 and Chinese 你好. ".repeat(4000);
    assert!(text.len() > 200_000);
    assert_encodings_equal(&serial(&text, false), &parallel(&text, false));
}

#[test]
fn test_recursive_depth_boundaries() {
    // Based on 10k tokens per chunk, ~45KB per chunk
    let test_sizes = vec![40_000, 90_000, 180_000, 360_000];
    for size in test_sizes {
        let repeats = size / 45;
        let text = "The quick brown fox jumps over the lazy dog. ".repeat(repeats);
        assert_encodings_equal(&serial(&text, false), &parallel(&text, false));
    }
}

#[test]
fn test_recursive_parallel_no_whitespace_large() {
    // ~100KB with no whitespace - challenging for split point finding
    let text = "abcdefghij".repeat(10000);
    assert!(text.len() >= 100_000);
    assert_encodings_equal(&serial(&text, false), &parallel(&text, false));
    assert_encodings_equal(&serial(&text, false), &parallel_with(&text, false, eager_recursive()));
}

#[test]
fn test_recursive_offsets_monotonic() {
    let text = "The quick brown fox jumps over the lazy dog. ".repeat(6000);
    let encoding = parallel(&text, false);
    assert_offsets_monotonic(&encoding.get_offsets(), text.len());
}

// =============================================================================
// Paths, validation and errors
// =============================================================================

#[test]
fn recursive_path_on_given_core_counts() {
    let text = "The quick brown fox jumps over the lazy dog. ".repeat(500);
    let mut config = eager_recursive();
    config.max_depth = 0; // depth from the core count
    let expected = serial(&text, false);
    for cores in [1usize, 2, 3, 8] {
        let r = encode_recursive_path(&word_encode, &post_process, MAX_TOKEN_LEN, &text, false, &config, cores, false)
            .unwrap();
        assert_encodings_equal(&expected, &r);
    }
}

#[test]
fn recursive_path_with_special_tokens_post_processes_once() {
    let text = "Hello world! This is a test. ".repeat(100);
    let r = encode_recursive_path(&word_encode, &post_process, MAX_TOKEN_LEN, &text, true, &eager_recursive(), 4, false)
        .unwrap();
    let ids = r.get_ids();
    assert_eq!(ids[0], 101);
    assert_eq!(*ids.last().unwrap(), 102);
    assert_eq!(ids.iter().filter(|&&i| i == 101).count(), 1);
    assert_encodings_equal(&serial(&text, true), &r);
}

/// An encoder whose ids depend on where a token sits in the text it was
/// given: chunked encoding then differs from serial encoding.
fn position_encode(s: &str, _add_special: bool) -> Result<Encoding, String> {
    let mut e = raw_encode(s);
    let tokens: Vec<Token> = e
        .into_tokens()
        .into_iter()
        .map(|mut t| {
            t.id = t.offsets.0 as u32;
            t
        })
        .collect();
    e = Encoding::from_tokens(tokens);
    Ok(e)
}

#[test]
fn validation_falls_back_to_serial_ids() {
    let text = "The quick brown fox jumps over the lazy dog. ".repeat(100);
    let expected = position_encode(&text, false).unwrap();
    let unchecked =
        encode_parallel_single(position_encode, post_process, MAX_TOKEN_LEN, &text, false, eager_recursive(), true, false)
            .unwrap();
    assert_ne!(unchecked.get_ids(), expected.get_ids());
    let checked =
        encode_parallel_single(position_encode, post_process, MAX_TOKEN_LEN, &text, false, eager_recursive(), true, true)
            .unwrap();
    assert_eq!(checked.get_ids(), expected.get_ids());
    let streamed =
        encode_parallel_single(position_encode, post_process, MAX_TOKEN_LEN, &text, false, eager_streaming(), true, true)
            .unwrap();
    assert_eq!(streamed.get_ids(), expected.get_ids());
}

#[test]
fn validation_passes_matching_results() {
    let text = "Hello world. ".repeat(50);
    let result = raw_encode(&text);
    assert!(validate_parallel_result(&result, &word_encode, &text).is_none());
    let other = raw_encode("something else");
    let reference = validate_parallel_result(&other, &word_encode, &text).expect("ids differ");
    assert_eq!(reference.get_ids(), result.get_ids());
    let failing = |_: &str, _: bool| -> Result<Encoding, String> { Err("no".to_string()) };
    assert!(validate_parallel_result(&other, &failing, &text).is_none());
}

#[test]
fn errors_are_returned_on_every_path() {
    let text = "fine words here. ".repeat(100) + "BAD" + &" fine words.".repeat(100);
    let failing = |s: &str, _: bool| -> Result<Encoding, String> {
        if s.contains("BAD") {
            Err("bad".to_string())
        } else {
            word_encode(s, false)
        }
    };
    for config in [ParallelConfig::default(), eager_recursive(), eager_streaming()] {
        let r = encode_parallel_single(failing, post_process, MAX_TOKEN_LEN, &text, false, config, true, false);
        assert_eq!(r.err(), Some("bad".to_string()));
    }
}

#[test]
fn auto_mode_picks_streaming_for_large_inputs() {
    let text = "Streaming text block. ".repeat(200);
    let mut config = ParallelConfig::default();
    config.mode = ParallelMode::Auto;
    config.threshold = 100;
    config.streaming_threshold = 1000;
    config.block_size = 128;
    assert_encodings_equal(&serial(&text, false), &parallel_with(&text, false, config));
}

#[test]
fn test_parallel_without_pretokenizer() {
    let text = "test ".repeat(3000);
    assert_all_paths_match(&text, false);
}

#[test]
fn test_debug_find_duplicate() {
    let text = "The quick brown fox jumps over the lazy dog. ".repeat(500);
    let serial = serial(&text, false);
    for config in [ParallelConfig::default(), eager_recursive(), eager_streaming()] {
        let parallel = parallel_with(&text, false, config);
        assert_eq!(serial.len(), parallel.len(), "Length mismatch");
        let first_mismatch = serial.get_ids().iter().zip(parallel.get_ids().iter()).position(|(s, p)| s != p);
        assert_eq!(first_mismatch, None);
    }
}

/// The word-level encoder, numbering the words of the text it is given.
fn numbered_encode(s: &str, add_special: bool) -> Result<Encoding, String> {
    let e = word_encode(s, add_special)?;
    let tokens: Vec<Token> = e
        .into_tokens()
        .into_iter()
        .enumerate()
        .map(|(i, mut t)| {
            t.word = Some(i as u32);
            t
        })
        .collect();
    Ok(Encoding::from_tokens(tokens))
}

#[test]
fn parallel_results_carry_no_word_ids() {
    let text = "Hello world! This is a test. ".repeat(200);
    for config in [eager_recursive(), eager_streaming()] {
        let r = encode_parallel_single(numbered_encode, post_process, MAX_TOKEN_LEN, &text, false, config, true, false)
            .unwrap();
        assert!(!r.is_empty());
        assert!(r.get_word_ids().iter().all(|w| w.is_none()));
        // everything else is the serial encoding
        let expected = numbered_encode(&text, false).unwrap();
        assert_encodings_equal(&expected, &r);
    }
    // a short input is encoded serially, word ids included
    let short = "Hello world!";
    let r = encode_parallel_single(numbered_encode, post_process, MAX_TOKEN_LEN, short, false, eager_recursive(), true, false)
        .unwrap();
    assert_eq!(r.get_word_ids(), vec![Some(0), Some(1), Some(2)]);
    // with parallelism off too
    let r = encode_parallel_single(numbered_encode, post_process, MAX_TOKEN_LEN, &text, false, eager_recursive(), false, false)
        .unwrap();
    assert_eq!(r.get_word_ids()[5], Some(5));
}

#[test]
fn validation_fallback_keeps_serial_word_ids() {
    // Chunk-relative ids make the parallel result differ; the serial encoding,
    // with its word ids, takes its place
    let text = "The quick brown fox jumps over the lazy dog. ".repeat(100);
    let encode = |s: &str, add: bool| -> Result<Encoding, String> {
        let e = position_encode(s, add)?;
        let tokens: Vec<Token> = e.into_tokens().into_iter().map(|mut t| {
            t.word = Some(7);
            t
        }).collect();
        Ok(Encoding::from_tokens(tokens))
    };
    let checked =
        encode_parallel_single(encode, post_process, MAX_TOKEN_LEN, &text, false, eager_recursive(), true, true).unwrap();
    assert!(checked.get_word_ids().iter().all(|w| *w == Some(7)));
}

#[test]
fn unsplit_inputs_need_no_overlap_arithmetic() {
    // An input too short to split never sizes an overlap, whatever the token
    // length
    let text = "Hello world. ".repeat(100);
    let mut config = ParallelConfig::recursive();
    config.threshold = 10;
    config.max_depth = 3;
    let r = encode_parallel_single(word_encode, post_process, usize::MAX, &text, false, config, true, false).unwrap();
    assert_encodings_equal(&serial(&text, false), &r);
}

/// A byte-level encoder in the style of byte-level BPE: a word or a
/// punctuation mark is a token, and takes the single space before it (shown
/// as `Ġ`); with `add_prefix`, the first word of the text is marked as if a
/// space stood before it.
fn byte_level_encode(s: &str, add_prefix: bool) -> Encoding {
    let bytes = s.as_bytes();
    let mut tokens = Vec::new();
    let mut push = |tokens: &mut Vec<Token>, a: usize, b: usize| {
        let spaced = a > 0 && bytes[a - 1] == b' ';
        let start = if spaced { a - 1 } else { a };
        let value = if spaced || (add_prefix && a == 0) { format!("Ġ{}", &s[a..b]) } else { s[a..b].to_string() };
        let mut h: u32 = 11;
        for byte in value.bytes() {
            h = h.wrapping_mul(37).wrapping_add(byte as u32);
        }
        tokens.push(Token {
            id: h % 50_000,
            type_id: 0,
            value,
            word: None,
            offsets: (start, b),
            special: 0,
            attention: 1,
        });
    };
    let mut start: Option<usize> = None;
    for (i, c) in s.char_indices() {
        if c.is_whitespace() || c.is_ascii_punctuation() {
            if let Some(a) = start.take() {
                push(&mut tokens, a, i);
            }
            if c.is_ascii_punctuation() {
                push(&mut tokens, i, i + 1);
            }
        } else if start.is_none() {
            start = Some(i);
        }
    }
    if let Some(a) = start {
        push(&mut tokens, a, s.len());
    }
    Encoding::from_tokens(tokens)
}

fn byte_level_matches(text: &str, add_prefix: bool) {
    let encode = move |s: &str, _add: bool| -> Result<Encoding, String> { Ok(byte_level_encode(s, add_prefix)) };
    let expected = byte_level_encode(text, add_prefix);
    for config in [ParallelConfig::default(), eager_recursive(), eager_streaming()] {
        let parallel = encode_parallel_single(encode, post_process, MAX_TOKEN_LEN, text, false, config, true, false).unwrap();
        assert_encodings_equal(&expected, &parallel);
    }
}

/// Joins the token strings back into text.
fn decode(e: &Encoding) -> String {
    e.get_tokens().iter().map(|t| t.replace('Ġ', " ")).collect::<String>()
}

#[test]
fn test_parallel_byte_level_bpe() {
    let text = "Hello world! How are you doing today? ".repeat(500);
    byte_level_matches(&text, false);
}

#[test]
fn test_parallel_byte_level_with_prefix() {
    let text = "Hello world! ".repeat(1000);
    byte_level_matches(&text, true);
}

#[test]
fn test_recursive_parallel_byte_level_large() {
    // ~300KB input
    let text = "Hello world! How are you doing today? ".repeat(8000);
    assert!(text.len() > 300_000);
    byte_level_matches(&text, false);
}

#[test]
fn test_parallel_decode_consistency() {
    let text = "The quick brown fox jumps over the lazy dog. ".repeat(500);
    let encode = |s: &str, _add: bool| -> Result<Encoding, String> { Ok(byte_level_encode(s, false)) };
    let serial = byte_level_encode(&text, false);
    let parallel = encode_parallel_single(encode, post_process, MAX_TOKEN_LEN, &text, false, eager_recursive(), true, false)
        .unwrap();
    assert_eq!(decode(&serial), decode(&parallel), "Decoded text doesn't match");
    assert_eq!(decode(&parallel), text.trim_end());
}

#[test]
fn test_debug_max_token_length() {
    // The longest token the stand-in encoders give stays within the maximum
    // token length handed to parallel encoding
    let text = "Hello world! How are you doing today? ".repeat(50);
    let word_max = raw_encode(&text).get_offsets().iter().map(|(a, b)| b - a).max().unwrap();
    let byte_max = byte_level_encode(&text, false).get_offsets().iter().map(|(a, b)| b - a).max().unwrap();
    assert_eq!(word_max, 5);
    assert_eq!(byte_max, 6);
    assert!(word_max <= MAX_TOKEN_LEN && byte_max <= MAX_TOKEN_LEN);
}

/// The word-level encoder with word ids: a token opens a new word unless it
/// follows the previous token with no byte between them; words are numbered
/// from 0 within the text given, as a tokenizer numbers the words of its
/// input.
fn word_id_encode(s: &str, add_special: bool) -> Result<Encoding, String> {
    let mut tokens = raw_encode(s).into_tokens();
    let mut word: u32 = 0;
    let mut prev_end: Option<usize> = None;
    for t in tokens.iter_mut() {
        if let Some(end) = prev_end {
            if t.offsets.0 > end {
                word += 1;
            }
        }
        t.word = Some(word);
        prev_end = Some(t.offsets.1);
    }
    let e = Encoding::from_tokens(tokens);
    if add_special {
        post_process(e, None, true)
    } else {
        Ok(e)
    }
}

#[test]
fn parallel_matches_serial_up_to_word_ids() {
    // Pieces number their words from 0, so no piece sees the serial word ids;
    // every other field of every token is the serial one, on every path
    let text = "The quick brown fox, jumps over the lazy dog. Numbered words!\n\n".repeat(300);
    for add_special in [false, true] {
        let expected = word_id_encode(&text, add_special).unwrap();
        let words = expected.get_word_ids();
        assert!(words.iter().any(|w| *w > Some(1000)));
        for config in [eager_recursive(), eager_streaming()] {
            let r = encode_parallel_single(word_id_encode, post_process, MAX_TOKEN_LEN, &text, add_special, config, true, false)
                .unwrap();
            assert_encodings_equal(&expected, &r);
            assert_ne!(r.get_word_ids(), words);
        }
        let mut config = eager_recursive();
        config.max_depth = 0;
        for cores in [2usize, 8] {
            let r = encode_recursive_path(&word_id_encode, &post_process, MAX_TOKEN_LEN, &text, add_special, &config, cores, false)
                .unwrap();
            assert_encodings_equal(&expected, &r);
        }
    }
}
