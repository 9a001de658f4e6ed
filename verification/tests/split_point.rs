use parallel_encode::split_point::{
    calculate_overlap_size, find_char_boundary_backward, find_char_boundary_forward, find_split_point,
    find_split_point_safe,
};

#[test]
fn test_find_char_boundary_forward() {
    let s = "Hello 世界";
    assert_eq!(find_char_boundary_forward(s, 0), 0);
    assert_eq!(find_char_boundary_forward(s, 6), 6);
    // Middle of multi-byte char '世' (starts at 6, is 3 bytes)
    assert_eq!(find_char_boundary_forward(s, 7), 9);
    assert_eq!(find_char_boundary_forward(s, 100), s.len());
}

#[test]
fn test_find_char_boundary_backward() {
    let s = "Hello 世界";
    assert_eq!(find_char_boundary_backward(s, 0), 0);
    assert_eq!(find_char_boundary_backward(s, 6), 6);
    // Middle of multi-byte char '世' (starts at 6, is 3 bytes)
    assert_eq!(find_char_boundary_backward(s, 7), 6);
    assert_eq!(find_char_boundary_backward(s, 100), s.len());
}

#[test]
fn test_calculate_overlap_size() {
    // Regular boundary (not safe): uses 3x multiplier with bounds
    assert_eq!(calculate_overlap_size(100, 64, false), 500); // Hits minimum
    assert_eq!(calculate_overlap_size(1000, 64, false), 3000); // 1000 * 3
    assert_eq!(calculate_overlap_size(2000, 64, false), 5000); // Capped at 5000

    // Safe boundary (sentence/paragraph end): uses minimal overlap
    assert_eq!(calculate_overlap_size(100, 64, true), 164); // 100 + 64
    assert_eq!(calculate_overlap_size(50, 30, true), 100); // Hits minimum of 100
    assert_eq!(calculate_overlap_size(500, 64, true), 500); // Capped at 500
}

#[test]
fn test_find_split_point_safe() {
    // Test paragraph break detection
    // "Hello world.\n\n" - paragraph break is at positions 12-13, so after is 14
    let input = "Hello world.\n\nThis is a new paragraph.";
    let result = find_split_point_safe(input, 15, 20);
    assert!(result.is_safe_boundary);
    assert_eq!(result.position, 14); // After "\n\n"

    // Test sentence boundary detection
    // "First sentence. " - ". " is at positions 14-15, so after is 16
    let input2 = "First sentence. Second sentence here.";
    let result2 = find_split_point_safe(input2, 16, 10);
    assert!(result2.is_safe_boundary);
    assert_eq!(result2.position, 16); // After ". "

    // Test fallback to whitespace
    let input3 = "word1 word2 word3";
    let result3 = find_split_point_safe(input3, 8, 5);
    assert!(!result3.is_safe_boundary);
}

#[test]
fn split_point_prefers_forward_whitespace() {
    // No sentence ends: the first space at or after the target wins
    let input = "word1 word2 word3";
    let result = find_split_point_safe(input, 8, 5);
    assert_eq!(result.position, 11);
    assert_eq!(find_split_point(input, 8, 5), 11);
}

#[test]
fn split_point_falls_back_to_backward_whitespace() {
    // No whitespace at or after the target within the window: split after the
    // last whitespace before it
    let input = "ab cdefghijklmnop";
    let result = find_split_point_safe(input, 6, 4);
    assert!(!result.is_safe_boundary);
    assert_eq!(result.position, 3);
}

#[test]
fn split_point_falls_back_to_char_boundary() {
    // No whitespace anywhere: the next character boundary at or after the target
    let input = "世界世界世界";
    let result = find_split_point_safe(input, 4, 2);
    assert!(!result.is_safe_boundary);
    assert_eq!(result.position, 6);
    assert!(input.is_char_boundary(result.position));
}

#[test]
fn split_point_picks_nearest_sentence_end() {
    // Two sentence ends; the one nearer the target is chosen
    let input = "One. Two three four. Five six.";
    let result = find_split_point_safe(input, 18, 20);
    assert!(result.is_safe_boundary);
    assert_eq!(result.position, 21);
}

#[test]
fn split_point_is_always_a_char_boundary() {
    let input = "Hello 世界! This is a test with émojis 🎉 and Chinese 你好. ".repeat(20);
    for target in 0..input.len() + 3 {
        let result = find_split_point_safe(&input, target, 7);
        assert!(result.position <= input.len());
        assert!(input.is_char_boundary(result.position));
    }
}

#[test]
fn split_point_with_zero_window_at_start() {
    let result = find_split_point_safe("hello", 0, 0);
    assert_eq!(result.position, 0);
    assert!(!result.is_safe_boundary);
}

#[test]
fn overlap_for_safe_boundary_never_exceeds_regular() {
    for m in [0usize, 10, 50, 100, 400, 1000, 3000] {
        for s in [0usize, 30, 64, 200] {
            let safe = calculate_overlap_size(m, s, true);
            let regular = calculate_overlap_size(m, s, false);
            assert!((100..=500).contains(&safe));
            assert!((500..=5000).contains(&regular));
            assert!(safe <= regular);
        }
    }
    // Safety margin larger than the token length drives the regular overlap
    assert_eq!(calculate_overlap_size(10, 400, false), 1200);
}

#[test]
fn paragraph_break_wins_over_a_nearer_sentence_end() {
    let input = "One.\n\nTwo three four five. Six seven.";
    // the sentence end after "five." is nearer the target than the break
    let result = find_split_point_safe(input, 26, 30);
    assert!(result.is_safe_boundary);
    assert_eq!(result.position, 6);
}

#[test]
fn nearest_paragraph_break_wins_lower_on_tie() {
    // breaks at 2 and 6, target 4: both 2 away, the lower one wins
    let input = "ab\n\ncd\n\nef";
    let result = find_split_point_safe(input, 4, 10);
    assert!(result.is_safe_boundary);
    assert_eq!(result.position, 4);
    // target 5: the break at 6 is nearer
    let result = find_split_point_safe(input, 5, 10);
    assert_eq!(result.position, 8);
}

#[test]
fn split_point_never_falls_before_the_window() {
    let texts = [
        "Hello world.\n\nThis is a new paragraph.",
        "no_spaces_at_all_in_this_text_whatsoever",
        "a b c d e f g h i j k l m n o p",
        "Wait! Really? Yes. Fine",
        "世界 世界 世界 世界",
    ];
    for text in texts {
        for target in 0..text.len() + 3 {
            for window in 1..12usize {
                let p = find_split_point_safe(text, target, window).position;
                let t = target.min(text.len());
                assert!(p >= t.saturating_sub(window), "{} {} {}", target, window, p);
                assert!(p <= text.len());
                assert!(text.is_char_boundary(p));
                assert_eq!(find_split_point(text, target, window), p);
            }
        }
    }
}
