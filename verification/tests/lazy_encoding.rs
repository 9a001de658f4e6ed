use parallel_encode::encoding::{Encoding, Token};
use parallel_encode::lazy_encoding::LazyEncoding;

fn tok(id: u32, start: usize, end: usize) -> Token {
    Token {
        id,
        type_id: 1,
        value: format!("w{}", id),
        word: Some(id),
        offsets: (start, end),
        special: 0,
        attention: 1,
    }
}

fn sample() -> LazyEncoding {
    LazyEncoding::new(Encoding::from_tokens(vec![tok(1, 0, 2), tok(2, 3, 5), tok(3, 6, 9), tok(4, 10, 12)]))
}

#[test]
fn new_wraps_without_changes() {
    let l = sample();
    assert_eq!(l.len(), 4);
    assert!(!l.is_empty());
    assert_eq!(l.first_offset(), Some((0, 2)));
    assert_eq!(l.last_offset(), Some((10, 12)));
    let e = l.materialize();
    assert_eq!(e.get_ids(), vec![1, 2, 3, 4]);
    assert_eq!(e.get_word_ids(), vec![Some(1), Some(2), Some(3), Some(4)]);
}

#[test]
fn shift_offset_is_applied_on_read_and_materialize() {
    let mut l = sample();
    l.shift_offset(100);
    l.shift_offset(5);
    assert_eq!(l.get_offset(0), (105, 107));
    assert_eq!(l.get_offset(2), (111, 114));
    let e = l.materialize();
    assert_eq!(e.get_offsets(), vec![(105, 107), (108, 110), (111, 114), (115, 117)]);
    assert_eq!(e.get_type_ids(), vec![1, 1, 1, 1]);
}

#[test]
fn counts_split_the_range() {
    let mut l = sample();
    l.shift_offset(10);
    // Shifted starts: 10, 13, 16, 20
    assert_eq!(l.count_starting_before(16), 2);
    assert_eq!(l.count_starting_at_or_after(16), 2);
    assert_eq!(l.count_starting_before(5), 0);
    assert_eq!(l.count_starting_at_or_after(5), 4);
    assert_eq!(l.count_starting_before(1000), 4);
    for pos in 0..30 {
        assert_eq!(l.count_starting_before(pos) + l.count_starting_at_or_after(pos), l.len());
    }
}

#[test]
fn filters_match_eager_filtering() {
    for pos in 0..20 {
        let mut before = sample();
        before.shift_offset(3);
        before.filter_starting_before(pos);
        let mut after = sample();
        after.shift_offset(3);
        after.filter_starting_at_or_after(pos);

        let mut eager_before = sample().materialize();
        eager_before.shift_all_offsets(3);
        eager_before.filter_tokens_starting_before(pos);
        let mut eager_after = sample().materialize();
        eager_after.shift_all_offsets(3);
        eager_after.filter_tokens_starting_at_or_after(pos);

        assert_eq!(before.materialize().get_offsets(), eager_before.get_offsets());
        assert_eq!(after.materialize().get_offsets(), eager_after.get_offsets());
    }
}

#[test]
fn filtering_to_nothing_gives_empty() {
    let mut l = sample();
    l.filter_starting_before(0);
    assert!(l.is_empty());
    assert_eq!(l.len(), 0);
    assert_eq!(l.first_offset(), None);
    assert_eq!(l.last_offset(), None);
    assert_eq!(l.materialize().len(), 0);
}

#[test]
fn chained_filters_keep_a_window() {
    let mut l = sample();
    l.filter_starting_at_or_after(3);
    l.filter_starting_before(10);
    assert_eq!(l.len(), 2);
    assert_eq!(l.first_offset(), Some((3, 5)));
    assert_eq!(l.last_offset(), Some((6, 9)));
    assert_eq!(l.materialize().get_ids(), vec![2, 3]);
}

#[test]
fn merge_materialized_concatenates() {
    let mut left = sample();
    left.filter_starting_before(6);
    let mut right = sample();
    right.shift_offset(20);
    right.filter_starting_at_or_after(26);
    let merged = left.merge_materialized(right);
    assert_eq!(merged.get_ids(), vec![1, 2, 3, 4]);
    assert_eq!(merged.get_offsets(), vec![(0, 2), (3, 5), (26, 29), (30, 32)]);
}

#[test]
fn filtering_twice_is_filtering_once_at_the_smaller_position() {
    for p in 0..15 {
        for q in 0..15 {
            let mut twice = sample();
            twice.filter_starting_before(p);
            twice.filter_starting_before(q);
            let mut once = sample();
            once.filter_starting_before(p.min(q));
            assert_eq!(twice.len(), once.len());
            assert_eq!(twice.materialize().get_offsets(), once.materialize().get_offsets());
        }
    }
}

#[test]
fn before_and_after_split_the_tokens() {
    for p in 0..15 {
        let mut a = sample();
        a.shift_offset(2);
        a.filter_starting_before(p);
        let mut b = sample();
        b.shift_offset(2);
        b.filter_starting_at_or_after(p);
        assert_eq!(a.len() + b.len(), 4);
        let mut all = a.materialize().get_offsets();
        all.extend(b.materialize().get_offsets());
        let mut whole = sample();
        whole.shift_offset(2);
        assert_eq!(all, whole.materialize().get_offsets());
    }
}
