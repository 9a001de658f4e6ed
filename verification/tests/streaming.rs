use parallel_encode::config::ParallelConfig;
use parallel_encode::encoding::{Encoding, Token};
use parallel_encode::streaming::{
    calculate_block_boundaries, encode_block, encode_streaming, encode_streaming_parallel, merge_block_results,
    BlockBoundaries,
};

fn word_encode(s: &str, _add_special: bool) -> Result<Encoding, String> {
    let mut tokens = Vec::new();
    let mut start: Option<usize> = None;
    let push = |tokens: &mut Vec<Token>, a: usize, b: usize| {
        let mut h: u32 = 7;
        for byte in s[a..b].bytes() {
            h = h.wrapping_mul(31).wrapping_add(byte as u32);
        }
        tokens.push(Token {
            id: h % 30_000,
            type_id: 0,
            value: s[a..b].to_string(),
            word: None,
            offsets: (a, b),
            special: 0,
            attention: 1,
        });
    };
    for (i, c) in s.char_indices() {
        if c.is_whitespace() || c.is_ascii_punctuation() {
            if let Some(a) = start.take() {
                push(&mut tokens, a, i);
            }
            if c.is_ascii_punctuation() {
                push(&mut tokens, i, i + 1);
            }
        } else if start.is_none() {
            start = Some(i);
        }
    }
    if let Some(a) = start {
        push(&mut tokens, a, s.len());
    }
    Ok(Encoding::from_tokens(tokens))
}

fn tok(id: u32, start: usize, end: usize) -> Token {
    Token { id, type_id: 0, value: String::new(), word: None, offsets: (start, end), special: 0, attention: 1 }
}

fn ranges(blocks: &[BlockBoundaries]) -> Vec<(usize, usize, usize, usize)> {
    blocks.iter().map(|b| (b.start_offset, b.logical_start, b.logical_end, b.end_offset)).collect()
}

#[test]
fn block_boundaries_partition_the_input() {
    let input = "a".repeat(25);
    let blocks = calculate_block_boundaries(&input, 10, 3);
    assert_eq!(ranges(&blocks), vec![(0, 0, 10, 13), (7, 10, 20, 23), (17, 20, 25, 25)]);
}

#[test]
fn block_boundaries_snap_to_char_boundaries() {
    // '世' takes 3 bytes: 0..3, 3..6, ...
    let input = "世".repeat(6);
    let blocks = calculate_block_boundaries(&input, 4, 1);
    for b in &blocks {
        assert!(input.is_char_boundary(b.start_offset));
        assert!(input.is_char_boundary(b.end_offset));
        assert!(b.start_offset < b.logical_end && b.logical_end <= b.end_offset);
    }
    assert_eq!(blocks[0].logical_start, 0);
    assert_eq!(blocks.last().unwrap().logical_end, input.len());
    for w in blocks.windows(2) {
        assert_eq!(w[0].logical_end, w[1].logical_start);
    }
    assert_eq!(ranges(&blocks)[1], (3, 4, 8, 9));
    // The left overlap of the third block starts inside a character and moves
    // forward past the block's own logical start
    assert_eq!(ranges(&blocks)[2], (9, 8, 12, 15));
}

#[test]
fn block_boundaries_of_empty_input() {
    assert!(calculate_block_boundaries("", 10, 3).is_empty());
}

#[test]
fn encode_block_shifts_into_the_input() {
    let input = "aa bb cc dd";
    let b = BlockBoundaries { start_offset: 3, logical_start: 4, logical_end: 8, end_offset: 8 };
    let (ls, le, e) = encode_block(&word_encode, input, b).unwrap();
    assert_eq!((ls, le), (4, 8));
    assert_eq!(e.get_offsets(), vec![(3, 5), (6, 8)]);
}

#[test]
fn merge_block_results_keeps_logical_ranges() {
    let first = Encoding::from_tokens(vec![tok(1, 0, 2), tok(2, 3, 5), tok(3, 6, 8)]);
    let second = Encoding::from_tokens(vec![tok(2, 3, 5), tok(3, 6, 8), tok(4, 9, 10)]);
    let results: Vec<Result<(usize, usize, Encoding), String>> = vec![Ok((0, 6, first)), Ok((6, 10, second))];
    let merged = merge_block_results(10, results).unwrap();
    assert_eq!(merged.get_ids(), vec![1, 2, 3, 4]);
}

#[test]
fn merge_block_results_stops_at_first_error() {
    let first = Encoding::from_tokens(vec![tok(1, 0, 2)]);
    let results: Vec<Result<(usize, usize, Encoding), String>> =
        vec![Ok((0, 5, first)), Err("second".to_string()), Err("third".to_string())];
    assert_eq!(merge_block_results(10, results).err(), Some("second".to_string()));
}

fn config(block_size: usize, overlap: usize) -> ParallelConfig {
    ParallelConfig::streaming().with_block_size(block_size).with_streaming_overlap(overlap)
}

#[test]
fn parallel_streaming_matches_serial() {
    let text = "Hello 世界! This is a test with émojis 🎉 and Chinese 你好. ".repeat(40);
    let serial = word_encode(&text, false).unwrap();
    for block_size in [16usize, 64, 100, 1000, 100_000] {
        let parallel = encode_streaming_parallel(&word_encode, 10, &text, &config(block_size, 32)).unwrap();
        assert_eq!(parallel.get_ids(), serial.get_ids());
        assert_eq!(parallel.get_offsets(), serial.get_offsets());
    }
}

#[test]
fn parallel_streaming_of_empty_input() {
    let parallel = encode_streaming_parallel(&word_encode, 10, "", &config(16, 8)).unwrap();
    assert!(parallel.is_empty());
}

#[test]
fn parallel_streaming_reports_errors() {
    let text = "fine words ".repeat(50) + "BAD" + &" fine".repeat(50);
    let failing = |s: &str, _: bool| -> Result<Encoding, String> {
        if s.contains("BAD") {
            Err("bad block".to_string())
        } else {
            word_encode(s, false)
        }
    };
    let r = encode_streaming_parallel(&failing, 10, &text, &config(64, 32));
    assert_eq!(r.err(), Some("bad block".to_string()));
}

#[test]
fn sequential_streaming_matches_serial_at_word_aligned_blocks() {
    // Blocks of one repeated unit each start at a word start
    let unit = "abc def. ";
    let text = unit.repeat(50);
    let serial = word_encode(&text, false).unwrap();
    let streamed = encode_streaming(&word_encode, 5, &text, &config(unit.len() * 3, 20)).unwrap();
    assert_eq!(streamed.get_ids(), serial.get_ids());
    assert_eq!(streamed.get_offsets(), serial.get_offsets());
}

#[test]
fn block_count_is_the_ceiling_of_length_over_block_size() {
    for len in 0..40usize {
        let input = "a".repeat(len);
        for block_size in 1..12usize {
            let blocks = calculate_block_boundaries(&input, block_size, 2);
            assert_eq!(blocks.len(), (len + block_size - 1) / block_size);
        }
    }
}
