use parallel_encode::config::ParallelConfig;
use parallel_encode::encoding::{Encoding, Token};
use parallel_encode::lazy_encoding::LazyEncoding;
use parallel_encode::recursive::{
    compute_optimal_depth, encode_recursive, encode_recursive_lazy, encode_serial_lazy, estimate_tokens,
    has_overlapping_offsets, merge_at_split,
};

fn tok(id: u32, start: usize, end: usize) -> Token {
    Token {
        id,
        type_id: 0,
        value: format!("t{}", id),
        word: None,
        offsets: (start, end),
        special: 0,
        attention: 1,
    }
}

fn enc(tokens: Vec<Token>) -> Encoding {
    Encoding::from_tokens(tokens)
}

/// Word-level encoder: every maximal run of non-whitespace, non-punctuation
/// characters is a token, and so is every ASCII punctuation character.
fn word_encode(s: &str, _add_special: bool) -> Result<Encoding, String> {
    let mut tokens = Vec::new();
    let mut start: Option<usize> = None;
    let mut push = |tokens: &mut Vec<Token>, a: usize, b: usize| {
        let mut h: u32 = 7;
        for byte in s[a..b].bytes() {
            h = h.wrapping_mul(31).wrapping_add(byte as u32);
        }
        tokens.push(Token {
            id: h % 30_000,
            type_id: 0,
            value: s[a..b].to_string(),
            word: None,
            offsets: (a, b),
            special: 0,
            attention: 1,
        });
    };
    for (i, c) in s.char_indices() {
        if c.is_whitespace() || c.is_ascii_punctuation() {
            if let Some(a) = start.take() {
                push(&mut tokens, a, i);
            }
            if c.is_ascii_punctuation() {
                push(&mut tokens, i, i + 1);
            }
        } else if start.is_none() {
            start = Some(i);
        }
    }
    if let Some(a) = start {
        push(&mut tokens, a, s.len());
    }
    Ok(Encoding::from_tokens(tokens))
}

fn offsets(e: &Encoding) -> Vec<(usize, usize)> {
    e.get_offsets()
}

#[test]
fn test_compute_optimal_depth() {
    // Single core: always 0
    assert_eq!(compute_optimal_depth(1_000_000, 1, 10_000, 4500), 0);

    // Small input (45KB = ~10k tokens): depth 0
    assert_eq!(compute_optimal_depth(45_000, 8, 10_000, 4500), 0);

    // 90KB (~20k tokens) with 8 cores: depth 1 (2 chunks of 10k each)
    assert_eq!(compute_optimal_depth(90_000, 8, 10_000, 4500), 1);

    // 180KB (~40k tokens) with 8 cores: depth 2 (4 chunks of 10k each)
    assert_eq!(compute_optimal_depth(180_000, 8, 10_000, 4500), 2);

    // 360KB (~80k tokens) with 8 cores: depth 3 (8 chunks)
    assert_eq!(compute_optimal_depth(360_000, 8, 10_000, 4500), 3);

    // 720KB (~160k tokens) with 8 cores: depth 3 (core-limited)
    assert_eq!(compute_optimal_depth(720_000, 8, 10_000, 4500), 3);

    // 1MB with 16 cores: depth 4 (16 chunks)
    assert_eq!(compute_optimal_depth(1_000_000, 16, 10_000, 4500), 4);

    // Very large input: capped at MAX_RECURSION_DEPTH (4)
    assert_eq!(compute_optimal_depth(10_000_000, 32, 10_000, 4500), 4);

    // 2 cores: max depth 1
    assert_eq!(compute_optimal_depth(1_000_000, 2, 10_000, 4500), 1);

    // 4 cores: max depth 2
    assert_eq!(compute_optimal_depth(1_000_000, 4, 10_000, 4500), 2);
}

#[test]
fn depth_is_limited_by_odd_core_counts() {
    // 3 cores round up to 2 levels (4 chunks)
    assert_eq!(compute_optimal_depth(1_000_000, 3, 10_000, 4500), 2);
    // 5 cores round up to 3 levels
    assert_eq!(compute_optimal_depth(1_000_000, 5, 10_000, 4500), 3);
    // no bytes-per-token estimate: every input counts as huge
    assert_eq!(compute_optimal_depth(10, 8, 10_000, 0), 3);
}

#[test]
fn estimate_tokens_rounds_down() {
    assert_eq!(estimate_tokens(45_000, 4500), 10_000);
    assert_eq!(estimate_tokens(10, 4500), 2);
    assert_eq!(estimate_tokens(0, 4500), 0);
    assert_eq!(estimate_tokens(10, 0), usize::MAX);
    assert_eq!(estimate_tokens(3, 1000), 3);
}

#[test]
fn overlapping_offsets_are_detected() {
    assert!(!has_overlapping_offsets(&enc(vec![tok(1, 0, 2), tok(2, 2, 4), tok(3, 5, 6)])));
    assert!(has_overlapping_offsets(&enc(vec![tok(1, 0, 3), tok(2, 2, 4)])));
    assert!(!has_overlapping_offsets(&enc(vec![])));
}

#[test]
fn merge_keeps_left_before_split_and_right_after() {
    // Left half covers [0, 12), right half [4, 20) encoded from byte 4
    let left = LazyEncoding::new(enc(vec![tok(1, 0, 3), tok(2, 4, 7), tok(3, 8, 12)]));
    let mut right = LazyEncoding::new(enc(vec![tok(20, 0, 3), tok(21, 4, 8), tok(22, 9, 12)]));
    right.shift_offset(4);
    // Split at byte 8: left keeps tokens starting before 8, right those at or after 8
    let merged = merge_at_split(left, right, 8, 100, 0, 20).expect("halves meet");
    assert_eq!(merged.get_ids(), vec![1, 2, 21, 22]);
    assert_eq!(offsets(&merged), vec![(0, 3), (4, 7), (8, 12), (13, 16)]);
}

#[test]
fn merge_refuses_a_gap_wider_than_the_overlap() {
    let left = LazyEncoding::new(enc(vec![tok(1, 0, 2)]));
    let right = LazyEncoding::new(enc(vec![tok(2, 50, 52)]));
    assert!(merge_at_split(left, right, 10, 20, 0, 60).is_none());
}

#[test]
fn merge_refuses_overlapping_tokens() {
    // The left token crosses the split point and overlaps the right one
    let left = LazyEncoding::new(enc(vec![tok(1, 0, 12)]));
    let right = LazyEncoding::new(enc(vec![tok(2, 10, 14)]));
    assert!(merge_at_split(left, right, 10, 100, 0, 20).is_none());
}

#[test]
fn merge_with_no_right_tokens_measures_gap_to_end() {
    let left = LazyEncoding::new(enc(vec![tok(1, 0, 5)]));
    let right = LazyEncoding::new(enc(vec![]));
    let merged = merge_at_split(left, right, 3, 10, 0, 8).expect("gap to end within overlap");
    assert_eq!(merged.get_ids(), vec![1]);
    let left = LazyEncoding::new(enc(vec![tok(1, 0, 5)]));
    let right = LazyEncoding::new(enc(vec![]));
    assert!(merge_at_split(left, right, 3, 2, 0, 8).is_none());
}

#[test]
fn serial_lazy_shifts_by_the_global_offset() {
    let lazy = encode_serial_lazy(&word_encode, "ab cd", 100).expect("encodes");
    let e = lazy.materialize();
    assert_eq!(offsets(&e), vec![(100, 102), (103, 105)]);
}

#[test]
fn serial_lazy_passes_errors_through() {
    let failing = |_: &str, _: bool| -> Result<Encoding, String> { Err("nope".to_string()) };
    assert_eq!(encode_serial_lazy(&failing, "x", 0).err(), Some("nope".to_string()));
}

fn small_chunks() -> ParallelConfig {
    let mut config = ParallelConfig::recursive();
    config.min_tokens_per_chunk = 50;
    config
}

#[test]
fn recursive_encoding_matches_serial() {
    let text = "The quick brown fox jumps over the lazy dog. ".repeat(300);
    let serial = word_encode(&text, false).unwrap();
    for depth in 0..4 {
        let parallel = encode_recursive(&word_encode, 20, &text, 0, 0, depth, &small_chunks()).unwrap();
        assert_eq!(parallel.get_ids(), serial.get_ids());
        assert_eq!(offsets(&parallel), offsets(&serial));
        assert_eq!(parallel.get_tokens(), serial.get_tokens());
    }
}

#[test]
fn recursive_encoding_without_whitespace_falls_back_to_serial() {
    // One huge token: the halves never meet cleanly, so the whole chunk is
    // encoded serially
    let text = "abcdefghij".repeat(2_000);
    let serial = word_encode(&text, false).unwrap();
    let parallel = encode_recursive(&word_encode, 20, &text, 0, 0, 3, &small_chunks()).unwrap();
    assert_eq!(offsets(&parallel), offsets(&serial));
    assert_eq!(parallel.get_ids(), serial.get_ids());
}

#[test]
fn recursive_encoding_at_an_offset_shifts_tokens() {
    let text = "Hello world. ".repeat(200);
    let serial = word_encode(&text, false).unwrap();
    let lazy = encode_recursive_lazy(&word_encode, 20, &text, 1000, 0, 2, &small_chunks()).unwrap();
    let shifted = lazy.materialize();
    let expected: Vec<(usize, usize)> = offsets(&serial).iter().map(|(a, b)| (a + 1000, b + 1000)).collect();
    assert_eq!(offsets(&shifted), expected);
}

#[test]
fn recursive_encoding_reports_errors() {
    let text = "good words here. ".repeat(200) + "BAD" + &" more words.".repeat(200);
    let failing = |s: &str, _: bool| -> Result<Encoding, String> {
        if s.contains("BAD") {
            Err("bad input".to_string())
        } else {
            word_encode(s, false)
        }
    };
    let r = encode_recursive(&failing, 20, &text, 0, 0, 3, &small_chunks());
    assert_eq!(r.err(), Some("bad input".to_string()));
}

#[test]
fn depth_stays_within_its_bounds() {
    for bytes in [0usize, 1_000, 45_000, 90_000, 500_000, 5_000_000, 100_000_000] {
        for cores in [1usize, 2, 3, 4, 7, 8, 16, 64] {
            let d = compute_optimal_depth(bytes, cores, 10_000, 4500);
            assert!(d <= 4);
            if cores <= 1 {
                assert_eq!(d, 0);
            }
            // never more chunks than the next power of two of the core count
            assert!((1usize << d) < 2 * cores.next_power_of_two().max(1));
            assert!((1usize << d) <= cores.next_power_of_two());
            // each chunk keeps at least the minimum token count on average
            if d > 0 {
                assert!((1usize << d) * 10_000 <= estimate_tokens(bytes, 4500));
            }
        }
    }
}

#[test]
fn base_case_takes_any_token_length() {
    let text = "Hello world. ".repeat(10);
    let serial = word_encode(&text, false).unwrap();
    let r = encode_recursive(&word_encode, usize::MAX, &text, 5, 0, 0, &ParallelConfig::recursive()).unwrap();
    let expected: Vec<(usize, usize)> = offsets(&serial).iter().map(|(a, b)| (a + 5, b + 5)).collect();
    assert_eq!(offsets(&r), expected);
}

#[test]
fn recursive_offsets_are_ordered_within_the_chunk() {
    let text = "Hello 世界! Testing émojis 🎉 and Chinese 你好. ".repeat(100);
    let r = encode_recursive(&word_encode, 20, &text, 1000, 0, 3, &small_chunks()).unwrap();
    let o = offsets(&r);
    for w in o.windows(2) {
        assert!(w[0].1 <= w[1].0);
    }
    assert!(o.iter().all(|&(a, b)| 1000 <= a && a <= b && b <= 1000 + text.len()));
}

#[test]
fn no_bytes_estimate_no_tokens() {
    assert_eq!(estimate_tokens(0, 0), 0);
    assert_eq!(estimate_tokens(1, 0), usize::MAX);
}
