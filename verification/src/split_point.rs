//! Byte positions in UTF-8 text where an input may be cut.

use vstd::prelude::*;
use vstd::utf8::*;
use vstd::string::*;

verus! {

broadcast use vstd::utf8::group_utf8_lib;

/// The bytes of `s`, as UTF-8.
#[verifier::inline]
pub open spec fn bytes_of(s: &str) -> Seq<u8> {
    s.spec_bytes()
}

/// `p` is a byte position of `s` at which a character starts (or the end).
#[verifier::inline]
pub open spec fn boundary(s: &str, p: int) -> bool {
    is_char_boundary(bytes_of(s), p)
}

/// Both ends of the text are character boundaries.
pub proof fn lemma_ends_are_boundaries(s: &str)
    ensures
        boundary(s, 0),
        boundary(s, bytes_of(s).len() as int),
{
    assert(valid_utf8(encode_utf8(s@)));
}

/// A character boundary of a text that lies within a prefix ending at a
/// character boundary is a character boundary of that prefix.
pub proof fn lemma_boundary_in_prefix(b: Seq<u8>, end: int, i: int)
    requires
        valid_utf8(b),
        is_char_boundary(b, end),
        is_char_boundary(b, i),
        0 <= i <= end,
    ensures
        is_char_boundary(b.subrange(0, end), i),
{
    let p = b.subrange(0, end);
    assert(valid_utf8(p));
    if i == end || i == 0 {
        assert(is_char_boundary(p, 0));
        assert(is_char_boundary(p, p.len() as int));
    } else {
        assert(0 <= end <= b.len()) by {
            if end > b.len() {
                assert(!is_char_boundary(b, end));
            }
        }
        assert(p[i] == b[i]);
        assert(is_char_boundary(b, i) <==> !is_continuation_byte(b[i]));
        assert(is_char_boundary(p, i) <==> !is_continuation_byte(p[i]));
    }
}

/// Every position at most the length has a next character boundary.
pub proof fn lemma_next_boundary_exists(b: Seq<u8>, p: int)
    requires
        valid_utf8(b),
        0 <= p <= b.len(),
    ensures
        is_next_boundary(b, p, next_boundary(b, p)),
    decreases b.len() - p,
{
    assert(is_char_boundary(b, b.len() as int));
    if is_char_boundary(b, p) {
        assert(is_next_boundary(b, p, p));
    } else {
        lemma_next_boundary_exists(b, p + 1);
        let r = next_boundary(b, p + 1);
        assert(is_next_boundary(b, p, r));
    }
}

/// Later positions have later (or the same) next boundaries.
pub proof fn lemma_next_boundary_monotonic(b: Seq<u8>, p: int, q: int)
    requires
        valid_utf8(b),
        0 <= p <= q <= b.len(),
    ensures
        next_boundary(b, p) <= next_boundary(b, q),
{
    lemma_next_boundary_exists(b, p);
    lemma_next_boundary_exists(b, q);
    let rp = next_boundary(b, p);
    let rq = next_boundary(b, q);
    if rq < rp {
        assert(p <= rq);
        assert(!is_char_boundary(b, rq));
    }
}

/// The bytes of any text are valid UTF-8.
pub proof fn lemma_valid_utf8(s: &str)
    ensures
        valid_utf8(bytes_of(s)),
{
}

/// Length of `s` in bytes.
pub fn byte_len(s: &str) -> (n: usize)
    ensures
        n == bytes_of(s).len(),
{
    s.as_bytes().len()
}

/// `pos` clamped to the byte length `len`.
pub open spec fn clamp_to(pos: int, len: int) -> int {
    if pos <= len { pos } else { len }
}

/// Find a UTF-8 character boundary at or after the given byte position:
/// the first boundary at or after `pos` (clamped to the length).
pub fn find_char_boundary_forward(s: &str, pos: usize) -> (r: usize)
    ensures
        clamp_to(pos as int, bytes_of(s).len() as int) <= r <= bytes_of(s).len(),
        boundary(s, r as int),
        forall|q: int| clamp_to(pos as int, bytes_of(s).len() as int) <= q < r ==> !boundary(s, q),
{
    proof {
        lemma_ends_are_boundaries(s);
    }
    let len = byte_len(s);
    let mut pos = if pos < len { pos } else { len };
    let ghost lo = pos;
    while pos < len && !s.is_char_boundary(pos)
        invariant
            len == bytes_of(s).len(),
            lo <= pos <= len,
            boundary(s, len as int),
            forall|q: int| lo <= q < pos ==> !boundary(s, q),
        decreases len - pos,
    {
        pos += 1;
    }
    pos
}

/// Find a UTF-8 character boundary at or before the given byte position:
/// the last boundary at or before `pos` (clamped to the length).
pub fn find_char_boundary_backward(s: &str, pos: usize) -> (r: usize)
    ensures
        r <= clamp_to(pos as int, bytes_of(s).len() as int),
        boundary(s, r as int),
        forall|q: int| r < q <= clamp_to(pos as int, bytes_of(s).len() as int) ==> !boundary(s, q),
{
    proof {
        lemma_ends_are_boundaries(s);
    }
    let len = byte_len(s);
    let mut pos = if pos < len { pos } else { len };
    let ghost hi = pos;
    while pos > 0 && !s.is_char_boundary(pos)
        invariant
            len == bytes_of(s).len(),
            pos <= hi <= len,
            boundary(s, 0),
            forall|q: int| pos < q <= hi ==> !boundary(s, q),
        decreases pos,
    {
        pos -= 1;
    }
    pos
}

// =============================================================================
// BYTE SEARCH
// =============================================================================

/// `r` lists, in ascending order, every index of `hay` that holds `needle`.
pub open spec fn lists_occurrences(needle: u8, hay: Seq<u8>, r: Seq<usize>) -> bool {
    &&& forall|k: int| 0 <= k < r.len() ==> #[trigger] r[k] < hay.len() && hay[r[k] as int] == needle
    &&& forall|k: int, l: int| 0 <= k < l < r.len() ==> #[trigger] r[k] < #[trigger] r[l]
    &&& forall|i: int| 0 <= i < hay.len() && hay[i] == needle ==> #[trigger] r.contains(i as usize)
}

/// Calls `memchr::memchr_iter`: the positions of `needle` in `haystack`, in the
/// ascending order in which that iterator yields them.
#[verifier::external_body]
fn memchr_positions(needle: u8, haystack: &[u8]) -> (r: Vec<usize>)
    ensures
        lists_occurrences(needle, haystack@, r@),
{
    memchr::memchr_iter(needle, haystack).collect()
}

/// Bytes `x` then `y` stand at `p` and `p + 1`.
pub open spec fn pair_at(b: Seq<u8>, p: int, x: u8, y: u8) -> bool {
    0 <= p && p + 1 < b.len() && b[p] == x && b[p + 1] == y
}

/// Distance between byte positions.
pub open spec fn dist(p: int, t: int) -> int {
    if p >= t { p - t } else { t - p }
}

/// `p` is at least as near to `t` as `q`, the lower position winning a tie.
pub open spec fn no_farther(p: int, q: int, t: int) -> bool {
    dist(p, t) < dist(q, t) || (dist(p, t) == dist(q, t) && p <= q)
}

/// `p` is, among the positions in `[from, to)` holding the pair `x y`, the
/// nearest to `t` (the lowest one on a tie).
pub open spec fn is_nearest_pair(b: Seq<u8>, from: int, to: int, t: int, x: u8, y: u8, p: int) -> bool {
    &&& from <= p < to
    &&& pair_at(b, p, x, y)
    &&& forall|q: int| from <= q < to && #[trigger] pair_at(b, q, x, y) ==> no_farther(p, q, t)
}

/// Some position in `[from, to)` holds the pair `x y`.
pub open spec fn has_pair(b: Seq<u8>, from: int, to: int, x: u8, y: u8) -> bool {
    exists|q: int| from <= q < to && #[trigger] pair_at(b, q, x, y)
}

/// The position in `[from, to)` holding `x y` nearest to `t`, if any.
pub open spec fn nearest_pair(b: Seq<u8>, from: int, to: int, t: int, x: u8, y: u8) -> Option<int> {
    if has_pair(b, from, to, x, y) {
        Some(choose|p: int| is_nearest_pair(b, from, to, t, x, y, p))
    } else {
        None
    }
}

/// An optional exec position and an optional spec position agree.
pub open spec fn same_position(r: Option<usize>, s: Option<int>) -> bool {
    match r {
        Some(p) => s == Some(p as int),
        None => s is None,
    }
}

/// There is at most one nearest position.
pub proof fn lemma_nearest_pair_unique(b: Seq<u8>, from: int, to: int, t: int, x: u8, y: u8, p: int, q: int)
    requires
        is_nearest_pair(b, from, to, t, x, y, p),
        is_nearest_pair(b, from, to, t, x, y, q),
    ensures
        p == q,
{
    assert(no_farther(p, q, t));
    assert(no_farther(q, p, t));
}

/// A found nearest position is the one that `nearest_pair` names.
proof fn lemma_nearest_pair_is(b: Seq<u8>, from: int, to: int, t: int, x: u8, y: u8, p: int)
    requires
        is_nearest_pair(b, from, to, t, x, y, p),
    ensures
        nearest_pair(b, from, to, t, x, y) == Some(p),
{
    assert(has_pair(b, from, to, x, y));
    let c = choose|c: int| is_nearest_pair(b, from, to, t, x, y, c);
    lemma_nearest_pair_unique(b, from, to, t, x, y, p, c);
}

/// Scans the occurrences of `x` in `bytes[from..to]` for the pair `x y`
/// nearest to `target`.
fn nearest_pair_in(bytes: &[u8], target: usize, from: usize, to: usize, x: u8, y: u8) -> (r: Option<usize>)
    requires
        from <= to <= bytes@.len(),
    ensures
        same_position(r, nearest_pair(bytes@, from as int, to as int, target as int, x, y)),
        r matches Some(p) ==> is_nearest_pair(bytes@, from as int, to as int, target as int, x, y, p as int),
{
    let b = Ghost(bytes@);
    let window = &bytes[from..to];
    let positions = memchr_positions(x, window);
    let mut best: Option<(usize, usize)> = None;
    let mut k: usize = 0;
    proof {
        if positions@.len() > 0 {
            assert forall|q: int| from <= q < to && q < from + positions@[0] && #[trigger] pair_at(b@, q, x, y)
                implies false by {
                assert(window@[q - from] == x);
                assert(positions@.contains((q - from) as usize));
                let kk = choose|kk: int| 0 <= kk < positions@.len() && positions@[kk] == (q - from) as usize;
                if kk > 0 {
                    assert(positions@[0] < positions@[kk]);
                }
            }
        } else {
            assert forall|q: int| from <= q < to && #[trigger] pair_at(b@, q, x, y) implies false by {
                assert(window@[q - from] == x);
                assert(positions@.contains((q - from) as usize));
            }
        }
    }
    while k < positions.len()
        invariant
            b@ == bytes@,
            window@ == bytes@.subrange(from as int, to as int),
            from <= to <= bytes@.len(),
            lists_occurrences(x, window@, positions@),
            0 <= k <= positions@.len(),
            match best {
                None => forall|q: int|
                    from <= q < to && q < (if k < positions@.len() { from + positions@[k as int] } else { to as int })
                        && #[trigger] pair_at(b@, q, x, y) ==> false,
                Some((bp, bd)) => {
                    &&& from <= bp < to
                    &&& bp < (if k < positions@.len() { from + positions@[k as int] } else { to as int })
                    &&& pair_at(b@, bp as int, x, y)
                    &&& bd == dist(bp as int, target as int)
                    &&& forall|q: int|
                        from <= q < to && q < (if k < positions@.len() { from + positions@[k as int] } else { to as int })
                            && #[trigger] pair_at(b@, q, x, y) ==> no_farther(bp as int, q, target as int)
                },
            },
        decreases positions@.len() - k,
    {
        let pos = positions[k];
        let global_pos = from + pos;
        let ghost old_best = best;
        if global_pos + 1 < bytes.len() && bytes[global_pos + 1] == y {
            let d = if global_pos >= target { global_pos - target } else { target - global_pos };
            match best {
                None => {
                    best = Some((global_pos, d));
                },
                Some((_, bd)) => {
                    if d < bd {
                        best = Some((global_pos, d));
                    }
                },
            }
        }
        proof {
            let next_bound = if k + 1 < positions@.len() { from + positions@[k + 1] } else { to as int };
            assert(positions@[k as int] < window@.len());
            assert forall|q: int|
                from <= q < to && (from + positions@[k as int] <= q < next_bound) && #[trigger] pair_at(b@, q, x, y)
                implies q == global_pos by {
                assert(window@[q - from] == x);
                assert(positions@.contains((q - from) as usize));
                let kk = choose|kk: int| 0 <= kk < positions@.len() && positions@[kk] == (q - from) as usize;
                if kk < k {
                    assert(positions@[kk] < positions@[k as int]);
                } else if kk > k {
                    if k + 1 < positions@.len() {
                        if kk > k + 1 {
                            assert(positions@[k + 1] < positions@[kk]);
                        }
                    }
                }
            }
            if k > 0 {
                assert(positions@[k - 1] < positions@[k as int]);
            }
        }
        k += 1;
    }
    proof {
        match best {
            None => {
                assert(!has_pair(b@, from as int, to as int, x, y));
            },
            Some((bp, bd)) => {
                lemma_nearest_pair_is(b@, from as int, to as int, target as int, x, y, bp as int);
            },
        }
    }
    match best {
        None => None,
        Some((bp, _)) => Some(bp),
    }
}

/// SIMD-accelerated search for a 2-byte pattern near target position:
/// the position in `[start, end)` holding `first second` nearest to `target`.
fn find_pattern_near(bytes: &[u8], target: usize, start: usize, end: usize, first: u8, second: u8) -> (r: Option<usize>)
    requires
        end <= bytes@.len(),
    ensures
        same_position(r, nearest_pair(bytes@, start as int, end as int, target as int, first, second)),
        r matches Some(p) ==> start <= p && p + 1 < bytes@.len() && pair_at(bytes@, p as int, first, second),
{
    if end <= start {
        assert(!has_pair(bytes@, start as int, end as int, first, second));
        return None;
    }
    nearest_pair_in(bytes, target, start, end, first, second)
}

/// `end - 1`, or 0 when `end` is 0.
pub open spec fn minus_one_saturating(end: int) -> int {
    if end >= 1 { end - 1 } else { 0 }
}

/// SIMD-accelerated search for punctuation followed by a specific character:
/// the position in `[start, end - 1)` holding `punct follow` nearest to `target`.
fn find_punct_boundary_near(bytes: &[u8], target: usize, start: usize, end: usize, punct: u8, follow: u8) -> (r: Option<usize>)
    requires
        start <= minus_one_saturating(end as int),
        end <= bytes@.len(),
    ensures
        same_position(r, nearest_pair(bytes@, start as int, minus_one_saturating(end as int), target as int, punct, follow)),
        r matches Some(p) ==> start <= p && p + 1 < bytes@.len() && pair_at(bytes@, p as int, punct, follow),
{
    let stop = end.saturating_sub(1);
    nearest_pair_in(bytes, target, start, stop, punct, follow)
}

// =============================================================================
// SPLIT POINT DETECTION
// =============================================================================

/// Result of finding a split point, including whether it's a "safe" boundary.
#[derive(Debug, Clone, Copy)]
pub struct SplitPoint {
    /// The byte position of the split point
    pub position: usize,
    /// If true, this is a safe boundary (sentence/paragraph end) that needs minimal overlap
    pub is_safe_boundary: bool,
}

/// The sentence-ending pairs, in the order in which they are tried:
/// `. `, `.\n`, `! `, `!\n`, `? `, `?\n`.
pub open spec fn sentence_pair(j: int) -> (u8, u8) {
    if j == 0 {
        (46u8, 32u8)
    } else if j == 1 {
        (46u8, 10u8)
    } else if j == 2 {
        (33u8, 32u8)
    } else if j == 3 {
        (33u8, 10u8)
    } else if j == 4 {
        (63u8, 32u8)
    } else {
        (63u8, 10u8)
    }
}

/// The whitespace bytes, in the order in which they are tried: space, newline, tab.
pub open spec fn whitespace_byte(j: int) -> u8 {
    if j == 0 {
        32u8
    } else if j == 1 {
        10u8
    } else {
        9u8
    }
}

fn sentence_pair_at(j: usize) -> (r: (u8, u8))
    requires
        j < 6,
    ensures
        r == sentence_pair(j as int),
{
    if j == 0 {
        (46u8, 32u8)
    } else if j == 1 {
        (46u8, 10u8)
    } else if j == 2 {
        (33u8, 32u8)
    } else if j == 3 {
        (33u8, 10u8)
    } else if j == 4 {
        (63u8, 32u8)
    } else {
        (63u8, 10u8)
    }
}

fn whitespace_byte_at(j: usize) -> (r: u8)
    requires
        j < 3,
    ensures
        r == whitespace_byte(j as int),
{
    if j == 0 {
        32u8
    } else if j == 1 {
        10u8
    } else {
        9u8
    }
}

/// The nearest sentence-ending pair in `[from, to)`, trying the pairs from
/// index `j` on and taking the first kind that occurs.
pub open spec fn sentence_phase(b: Seq<u8>, from: int, to: int, t: int, j: int) -> Option<int>
    decreases 6 - j,
{
    if j < 0 || j >= 6 {
        None
    } else {
        match nearest_pair(b, from, to, t, sentence_pair(j).0, sentence_pair(j).1) {
            Some(p) => Some(p),
            None => sentence_phase(b, from, to, t, j + 1),
        }
    }
}

/// `p` is the lowest position in `[from, to)` holding `ws` at a character boundary.
pub open spec fn is_first_space(b: Seq<u8>, from: int, to: int, ws: u8, p: int) -> bool {
    &&& from <= p < to
    &&& b[p] == ws
    &&& is_char_boundary(b, p)
    &&& forall|q: int| from <= q < p && b[q] == ws ==> !is_char_boundary(b, q)
}

/// The lowest position in `[from, to)` holding `ws` at a character boundary, if any.
pub open spec fn first_space(b: Seq<u8>, from: int, to: int, ws: u8) -> Option<int> {
    if exists|q: int| from <= q < to && b[q] == ws && #[trigger] is_char_boundary(b, q) {
        Some(choose|p: int| is_first_space(b, from, to, ws, p))
    } else {
        None
    }
}

/// The first whitespace kind, from index `j` on, with a position in `[from, to)`.
pub open spec fn forward_space_phase(b: Seq<u8>, from: int, to: int, j: int) -> Option<int>
    decreases 3 - j,
{
    if j < 0 || j >= 3 {
        None
    } else {
        match first_space(b, from, to, whitespace_byte(j)) {
            Some(p) => Some(p),
            None => forward_space_phase(b, from, to, j + 1),
        }
    }
}

/// `p` is the highest position in `[from, to)` holding `ws`.
pub open spec fn is_last_occurrence(b: Seq<u8>, from: int, to: int, ws: u8, p: int) -> bool {
    &&& from <= p < to
    &&& b[p] == ws
    &&& forall|q: int| p < q < to ==> b[q] != ws
}

/// The highest position in `[from, to)` holding `ws`, if any.
pub open spec fn last_occurrence(b: Seq<u8>, from: int, to: int, ws: u8) -> Option<int> {
    if exists|q: int| from <= q < to && #[trigger] b[q] == ws {
        Some(choose|p: int| is_last_occurrence(b, from, to, ws, p))
    } else {
        None
    }
}

/// For the whitespace kinds from index `j` on: the last occurrence in
/// `[from, to)` of the first kind whose last occurrence is followed by a
/// character boundary.
pub open spec fn backward_space_phase(b: Seq<u8>, from: int, to: int, j: int) -> Option<int>
    decreases 3 - j,
{
    if j < 0 || j >= 3 {
        None
    } else {
        match last_occurrence(b, from, to, whitespace_byte(j)) {
            Some(p) => if is_char_boundary(b, p + 1) {
                Some(p)
            } else {
                backward_space_phase(b, from, to, j + 1)
            },
            None => backward_space_phase(b, from, to, j + 1),
        }
    }
}

/// `r` is the first character boundary at or after `pos`.
pub open spec fn is_next_boundary(b: Seq<u8>, pos: int, r: int) -> bool {
    &&& pos <= r <= b.len()
    &&& is_char_boundary(b, r)
    &&& forall|q: int| pos <= q < r ==> !is_char_boundary(b, q)
}

/// The first character boundary at or after `pos` (for `pos` within the text).
pub open spec fn next_boundary(b: Seq<u8>, pos: int) -> int {
    choose|r: int| is_next_boundary(b, pos, r)
}

/// The split point for `input` near `target` searching `window` bytes each way:
/// the nearest paragraph break (split after it), else the nearest sentence end
/// of the first kind that occurs (split after it), else the first whitespace
/// at or after the target, else the last whitespace before it (split after
/// it), else the next character boundary; only the first two are safe.
pub open spec fn split_point_of(b: Seq<u8>, target: int, window: int) -> (int, bool) {
    let t = clamp_to(target, b.len() as int);
    let lo = if t >= window { t - window } else { 0 };
    let hi = clamp_to(t + window, b.len() as int);
    match nearest_pair(b, lo, hi, t, 10u8, 10u8) {
        Some(p) => (p + 2, true),
        None => match sentence_phase(b, lo, minus_one_saturating(hi), t, 0) {
            Some(p) => (p + 2, true),
            None => match forward_space_phase(b, t, hi, 0) {
                Some(p) => (p, false),
                None => match backward_space_phase(b, lo, t, 0) {
                    Some(p) => (p + 1, false),
                    None => (next_boundary(b, t), false),
                },
            },
        },
    }
}

proof fn lemma_first_space_is(b: Seq<u8>, from: int, to: int, ws: u8, p: int)
    requires
        is_first_space(b, from, to, ws, p),
    ensures
        first_space(b, from, to, ws) == Some(p),
{
    assert(from <= p < to && b[p] == ws && is_char_boundary(b, p));
    let c = choose|c: int| is_first_space(b, from, to, ws, c);
    if c < p {
    } else if p < c {
    }
}

proof fn lemma_last_occurrence_is(b: Seq<u8>, from: int, to: int, ws: u8, p: int)
    requires
        is_last_occurrence(b, from, to, ws, p),
    ensures
        last_occurrence(b, from, to, ws) == Some(p),
{
    assert(from <= p < to && b[p] == ws);
    let c = choose|c: int| is_last_occurrence(b, from, to, ws, c);
    if c < p {
    } else if p < c {
    }
}

/// The boundary that `find_char_boundary_forward` finds is the one `next_boundary` names.
pub proof fn lemma_next_boundary_is(b: Seq<u8>, pos: int, r: int)
    requires
        is_next_boundary(b, pos, r),
    ensures
        next_boundary(b, pos) == r,
{
    let c = choose|c: int| is_next_boundary(b, pos, c);
    if c < r {
    } else if r < c {
    }
}

/// The lowest position in `[from, to)` holding `ws` at a character boundary.
fn first_space_in(input: &str, bytes: &[u8], from: usize, to: usize, ws: u8) -> (r: Option<usize>)
    requires
        bytes@ == bytes_of(input),
        from <= to <= bytes@.len(),
    ensures
        same_position(r, first_space(bytes_of(input), from as int, to as int, ws)),
        r matches Some(p) ==> from <= p < to && boundary(input, p as int),
{
    let window = &bytes[from..to];
    let positions = memchr_positions(ws, window);
    let mut k: usize = 0;
    proof {
        if positions@.len() > 0 {
            assert forall|q: int|
                from <= q < to && q < from + positions@[0] && bytes_of(input)[q] == ws implies !#[trigger] is_char_boundary(bytes_of(input), q) by {
                assert(window@[q - from] == ws);
                assert(positions@.contains((q - from) as usize));
                let kk = choose|kk: int| 0 <= kk < positions@.len() && positions@[kk] == (q - from) as usize;
                if kk > 0 {
                    assert(positions@[0] < positions@[kk]);
                }
            }
        } else {
            assert forall|q: int| from <= q < to && bytes_of(input)[q] == ws implies !#[trigger] is_char_boundary(bytes_of(input), q) by {
                assert(window@[q - from] == ws);
                assert(positions@.contains((q - from) as usize));
            }
        }
    }
    while k < positions.len()
        invariant
            bytes@ == bytes_of(input),
            window@ == bytes@.subrange(from as int, to as int),
            from <= to <= bytes@.len(),
            lists_occurrences(ws, window@, positions@),
            0 <= k <= positions@.len(),
            forall|q: int|
                from <= q < to && q < (if k < positions@.len() { from + positions@[k as int] } else { to as int })
                    && bytes_of(input)[q] == ws ==> !#[trigger] is_char_boundary(bytes_of(input), q),
        decreases positions@.len() - k,
    {
        let global_pos = from + positions[k];
        proof {
            assert(positions@[k as int] < window@.len());
        }
        if input.is_char_boundary(global_pos) {
            proof {
                lemma_first_space_is(bytes_of(input), from as int, to as int, ws, global_pos as int);
            }
            return Some(global_pos);
        }
        proof {
            let next_bound = if k + 1 < positions@.len() { from + positions@[k + 1] } else { to as int };
            assert forall|q: int|
                from <= q < to && q < next_bound && bytes_of(input)[q] == ws implies !#[trigger] is_char_boundary(bytes_of(input), q) by {
                if q >= global_pos {
                    assert(window@[q - from] == ws);
                    assert(positions@.contains((q - from) as usize));
                    let kk = choose|kk: int| 0 <= kk < positions@.len() && positions@[kk] == (q - from) as usize;
                    if kk < k {
                        assert(positions@[kk] < positions@[k as int]);
                    } else if kk > k + 1 {
                        assert(positions@[k + 1] < positions@[kk]);
                    }
                }
            }
        }
        k += 1;
    }
    proof {
        assert forall|q: int| from <= q < to && bytes_of(input)[q] == ws implies !#[trigger] is_char_boundary(bytes_of(input), q) by {
            if positions@.len() > 0 && q < from + positions@[0] {
                assert(window@[q - from] == ws);
                assert(positions@.contains((q - from) as usize));
                let kk = choose|kk: int| 0 <= kk < positions@.len() && positions@[kk] == (q - from) as usize;
                if kk > 0 {
                    assert(positions@[0] < positions@[kk]);
                }
            } else if positions@.len() == 0 {
                assert(window@[q - from] == ws);
                assert(positions@.contains((q - from) as usize));
            }
        }
    }
    None
}

/// The highest position in `[from, to)` holding `ws`.
fn last_occurrence_in(bytes: &[u8], from: usize, to: usize, ws: u8) -> (r: Option<usize>)
    requires
        from <= to <= bytes@.len(),
    ensures
        same_position(r, last_occurrence(bytes@, from as int, to as int, ws)),
        r matches Some(p) ==> from <= p < to,
{
    let window = &bytes[from..to];
    let positions = memchr_positions(ws, window);
    let mut last_pos: Option<usize> = None;
    let mut k: usize = 0;
    while k < positions.len()
        invariant
            window@ == bytes@.subrange(from as int, to as int),
            from <= to <= bytes@.len(),
            lists_occurrences(ws, window@, positions@),
            0 <= k <= positions@.len(),
            k == 0 <==> last_pos is None,
            last_pos matches Some(lp) ==> k > 0 && lp == from + positions@[k - 1],
        decreases positions@.len() - k,
    {
        last_pos = Some(from + positions[k]);
        proof {
            assert(positions@[k as int] < window@.len());
        }
        k += 1;
    }
    proof {
        match last_pos {
            None => {
                assert forall|q: int| from <= q < to implies #[trigger] bytes@[q] != ws by {
                    if bytes@[q] == ws {
                        assert(window@[q - from] == ws);
                        assert(positions@.contains((q - from) as usize));
                    }
                }
            },
            Some(lp) => {
                let n = positions@.len();
                assert(positions@[n - 1] < window@.len());
                assert forall|q: int| lp < q < to implies bytes@[q] != ws by {
                    if bytes@[q] == ws {
                        assert(window@[q - from] == ws);
                        assert(positions@.contains((q - from) as usize));
                        let kk = choose|kk: int| 0 <= kk < positions@.len() && positions@[kk] == (q - from) as usize;
                        if kk < n - 1 {
                            assert(positions@[kk] < positions@[n - 1]);
                        }
                    }
                }
                lemma_last_occurrence_is(bytes@, from as int, to as int, ws, lp as int);
            },
        }
    }
    last_pos
}

/// In valid UTF-8 a character starts right after an ASCII byte (or the text
/// ends there).
proof fn lemma_after_ascii_is_boundary(b: Seq<u8>, q: int)
    requires
        valid_utf8(b),
        0 <= q < b.len(),
        b[q] < 0x80,
    ensures
        is_char_boundary(b, q + 1),
{
    vstd::utf8::is_char_boundary_iff_not_is_continuation_byte(b, q);
    vstd::utf8::is_char_boundary_start_end_of_seq(b);
    if q + 1 < b.len() {
        vstd::utf8::valid_utf8_split(b, q);
        let c = b.subrange(q, b.len() as int);
        assert(c[0] == b[q]);
        assert(vstd::utf8::length_of_first_scalar(c) == 1);
        assert(valid_utf8(vstd::utf8::pop_first_scalar(c)));
        vstd::utf8::is_char_boundary_start_end_of_seq(vstd::utf8::pop_first_scalar(c));
        assert(is_char_boundary(c, 1));
        vstd::utf8::is_char_boundary_iff_not_is_continuation_byte(c, 1);
        assert(c[1] == b[q + 1]);
        vstd::utf8::is_char_boundary_iff_not_is_continuation_byte(b, q + 1);
    }
}

/// Some character boundary lies within three bytes at or after `p`.
pub proof fn lemma_boundary_near(b: Seq<u8>, p: int) -> (q: int)
    requires
        valid_utf8(b),
        0 <= p <= b.len(),
    ensures
        p <= q <= p + 3,
        q <= b.len(),
        is_char_boundary(b, q),
    decreases b.len(),
{
    vstd::utf8::is_char_boundary_start_end_of_seq(b);
    if p == 0 {
        0
    } else {
        let w = vstd::utf8::length_of_first_scalar(b);
        let rest = vstd::utf8::pop_first_scalar(b);
        assert(valid_utf8(rest));
        assert(1 <= w <= 4 && w <= b.len());
        vstd::utf8::is_char_boundary_start_end_of_seq(rest);
        if p <= w {
            assert(is_char_boundary(b, w));
            w
        } else {
            let q1 = lemma_boundary_near(rest, p - w);
            assert(is_char_boundary(b, q1 + w));
            q1 + w
        }
    }
}

/// The first character boundary at or after `p` is at most three bytes on.
pub proof fn lemma_next_boundary_near(b: Seq<u8>, p: int)
    requires
        valid_utf8(b),
        0 <= p <= b.len(),
    ensures
        is_next_boundary(b, p, next_boundary(b, p)),
        next_boundary(b, p) <= p + 3,
{
    lemma_next_boundary_exists(b, p);
    let q = lemma_boundary_near(b, p);
    assert(next_boundary(b, p) <= q);
}

/// The search window's start for `target` in a text with bytes `b`.
pub open spec fn window_from(b: Seq<u8>, target: int, window: int) -> int {
    let t = clamp_to(target, b.len() as int);
    if t >= window { t - window } else { 0 }
}

/// The search window's end (exclusive) for `target`.
pub open spec fn window_to(b: Seq<u8>, target: int, window: int) -> int {
    clamp_to(clamp_to(target, b.len() as int) + window, b.len() as int)
}

/// Some position in the range holds a pair, so one of them is nearest.
proof fn lemma_nearest_pair_exists(b: Seq<u8>, from: int, to: int, t: int, x: u8, y: u8) -> (p: int)
    requires
        has_pair(b, from, to, x, y),
    ensures
        is_nearest_pair(b, from, to, t, x, y, p),
    decreases to - from,
{
    let last = to - 1;
    if has_pair(b, from, last, x, y) {
        let p0 = lemma_nearest_pair_exists(b, from, last, t, x, y);
        if pair_at(b, last, x, y) && !no_farther(p0, last, t) {
            assert forall|q: int| from <= q < to && #[trigger] pair_at(b, q, x, y) implies no_farther(last, q, t) by {
                if q < last {
                    assert(no_farther(p0, q, t));
                }
            }
            last
        } else {
            assert forall|q: int| from <= q < to && #[trigger] pair_at(b, q, x, y) implies no_farther(p0, q, t) by {
                if q == last {
                    assert(no_farther(p0, last, t));
                }
            }
            p0
        }
    } else {
        let q0 = choose|q: int| from <= q < to && #[trigger] pair_at(b, q, x, y);
        assert(q0 == last) by {
            if q0 < last {
                assert(has_pair(b, from, last, x, y));
            }
        }
        assert forall|q: int| from <= q < to && #[trigger] pair_at(b, q, x, y) implies no_farther(last, q, t) by {
            if q < last {
                assert(has_pair(b, from, last, x, y));
            }
        }
        last
    }
}

/// The nearest pair, when there is one, is nearest.
proof fn lemma_nearest_pair_some(b: Seq<u8>, from: int, to: int, t: int, x: u8, y: u8)
    requires
        has_pair(b, from, to, x, y),
    ensures
        nearest_pair(b, from, to, t, x, y) is Some,
        is_nearest_pair(b, from, to, t, x, y, nearest_pair(b, from, to, t, x, y)->0),
{
    let p = lemma_nearest_pair_exists(b, from, to, t, x, y);
    lemma_nearest_pair_is(b, from, to, t, x, y, p);
}

/// Some sentence end of a kind from the `j`-th on lies in `[from, to)`.
pub open spec fn has_sentence_end(b: Seq<u8>, from: int, to: int, j: int) -> bool {
    exists|k: int| j <= k < 6 && #[trigger] has_pair(b, from, to, sentence_pair(k).0, sentence_pair(k).1)
}

/// The sentence phase finds a position exactly when a sentence end lies in
/// the range, and what it finds is one.
proof fn lemma_sentence_phase(b: Seq<u8>, from: int, to: int, t: int, j: int)
    requires
        0 <= j <= 6,
    ensures
        sentence_phase(b, from, to, t, j) is Some <==> has_sentence_end(b, from, to, j),
        sentence_phase(b, from, to, t, j) matches Some(p) ==> from <= p < to && exists|k: int|
            0 <= k < 6 && #[trigger] pair_at(b, p, sentence_pair(k).0, sentence_pair(k).1),
    decreases 6 - j,
{
    if j < 6 {
        lemma_sentence_phase(b, from, to, t, j + 1);
        let (x, y) = sentence_pair(j);
        if has_pair(b, from, to, x, y) {
            lemma_nearest_pair_some(b, from, to, t, x, y);
            let p = nearest_pair(b, from, to, t, x, y)->0;
            assert(pair_at(b, p, sentence_pair(j).0, sentence_pair(j).1));
        } else {
            assert(nearest_pair(b, from, to, t, x, y) is None);
            if has_sentence_end(b, from, to, j) {
                let k = choose|k: int| j <= k < 6 && #[trigger] has_pair(b, from, to, sentence_pair(k).0, sentence_pair(k).1);
                assert(k != j);
                assert(has_sentence_end(b, from, to, j + 1));
            }
        }
    }
}

/// A paragraph break in the search window always wins: the split falls right
/// after the break nearest to the target (the lower one on a tie), and is
/// safe.
pub proof fn lemma_paragraph_break_wins(b: Seq<u8>, target: int, window: int)
    requires
        has_pair(b, window_from(b, target, window), window_to(b, target, window), 10u8, 10u8),
    ensures
        is_nearest_pair(
            b,
            window_from(b, target, window),
            window_to(b, target, window),
            clamp_to(target, b.len() as int),
            10u8,
            10u8,
            split_point_of(b, target, window).0 - 2,
        ),
        split_point_of(b, target, window).1,
{
    lemma_nearest_pair_some(
        b,
        window_from(b, target, window),
        window_to(b, target, window),
        clamp_to(target, b.len() as int),
        10u8,
        10u8,
    );
}

/// A split is safe exactly when a paragraph break or a sentence end (with its
/// following byte) lies in the search window, and a safe split falls right
/// after one.
pub proof fn lemma_safe_split_iff(b: Seq<u8>, target: int, window: int)
    ensures
        split_point_of(b, target, window).1 <==> (has_pair(
            b,
            window_from(b, target, window),
            window_to(b, target, window),
            10u8,
            10u8,
        ) || has_sentence_end(
            b,
            window_from(b, target, window),
            minus_one_saturating(window_to(b, target, window)),
            0,
        )),
        split_point_of(b, target, window).1 ==> {
            let q = split_point_of(b, target, window).0 - 2;
            ||| window_from(b, target, window) <= q < window_to(b, target, window) && pair_at(b, q, 10u8, 10u8)
            ||| window_from(b, target, window) <= q < minus_one_saturating(window_to(b, target, window)) && exists|k: int|
                0 <= k < 6 && #[trigger] pair_at(b, q, sentence_pair(k).0, sentence_pair(k).1)
        },
{
    let lo = window_from(b, target, window);
    let hi = window_to(b, target, window);
    let t = clamp_to(target, b.len() as int);
    lemma_sentence_phase(b, lo, minus_one_saturating(hi), t, 0);
    if has_pair(b, lo, hi, 10u8, 10u8) {
        lemma_nearest_pair_some(b, lo, hi, t, 10u8, 10u8);
    } else {
        assert(nearest_pair(b, lo, hi, t, 10u8, 10u8) is None);
    }
}

/// A whitespace byte: space, newline or tab.
pub open spec fn is_whitespace_byte(x: u8) -> bool {
    x == 32u8 || x == 10u8 || x == 9u8
}

/// Some position in the range holds `ws` at a character boundary, so a lowest
/// one does.
proof fn lemma_first_space_exists(b: Seq<u8>, from: int, to: int, ws: u8) -> (p: int)
    requires
        exists|q: int| from <= q < to && b[q] == ws && #[trigger] is_char_boundary(b, q),
    ensures
        is_first_space(b, from, to, ws, p),
    decreases to - from,
{
    if b[from] == ws && is_char_boundary(b, from) {
        from
    } else {
        let q = choose|q: int| from <= q < to && b[q] == ws && #[trigger] is_char_boundary(b, q);
        assert(from + 1 <= q);
        lemma_first_space_exists(b, from + 1, to, ws)
    }
}

/// Some position in the range holds `ws`, so a highest one does.
proof fn lemma_last_occurrence_exists(b: Seq<u8>, from: int, to: int, ws: u8) -> (p: int)
    requires
        exists|q: int| from <= q < to && #[trigger] b[q] == ws,
    ensures
        is_last_occurrence(b, from, to, ws, p),
    decreases to - from,
{
    if b[to - 1] == ws {
        to - 1
    } else {
        let q = choose|q: int| from <= q < to && #[trigger] b[q] == ws;
        assert(q < to - 1);
        lemma_last_occurrence_exists(b, from, to - 1, ws)
    }
}

/// The place of a whitespace byte in the order in which the kinds are
/// tried: space, then newline, then tab.
pub open spec fn whitespace_rank(x: u8) -> int {
    if x == 32u8 {
        0
    } else if x == 10u8 {
        1
    } else {
        2
    }
}

/// What the forward whitespace search finds is the lowest position of its
/// own byte, a whitespace byte, at a character boundary in the range, and no
/// kind tried before it stands at a character boundary in the range; when it
/// finds nothing, no kind from the `j`-th on does.
proof fn lemma_forward_space_phase(b: Seq<u8>, from: int, to: int, j: int)
    requires
        0 <= j <= 3,
    ensures
        forward_space_phase(b, from, to, j) matches Some(p) ==> is_first_space(b, from, to, b[p], p) && is_whitespace_byte(
            b[p],
        ) && forall|q: int|
            from <= q < to && is_whitespace_byte(#[trigger] b[q]) && j <= whitespace_rank(b[q]) < whitespace_rank(b[p])
                ==> !is_char_boundary(b, q),
        forward_space_phase(b, from, to, j) is None ==> forall|q: int|
            from <= q < to && is_whitespace_byte(#[trigger] b[q]) && j <= whitespace_rank(b[q]) ==> !is_char_boundary(b, q),
    decreases 3 - j,
{
    if j < 3 {
        lemma_forward_space_phase(b, from, to, j + 1);
        let ws = whitespace_byte(j);
        if exists|q: int| from <= q < to && b[q] == ws && #[trigger] is_char_boundary(b, q) {
            let p = lemma_first_space_exists(b, from, to, ws);
            lemma_first_space_is(b, from, to, ws, p);
        }
    }
}

/// What the backward whitespace search finds is the highest position of its
/// own byte, a whitespace byte, in the range, followed by a character
/// boundary.
proof fn lemma_backward_space_phase(b: Seq<u8>, from: int, to: int, j: int)
    requires
        0 <= j <= 3,
    ensures
        backward_space_phase(b, from, to, j) matches Some(p) ==> is_last_occurrence(b, from, to, b[p], p)
            && is_char_boundary(b, p + 1) && is_whitespace_byte(b[p]),
    decreases 3 - j,
{
    if j < 3 {
        lemma_backward_space_phase(b, from, to, j + 1);
        let ws = whitespace_byte(j);
        if exists|q: int| from <= q < to && #[trigger] b[q] == ws {
            let p = lemma_last_occurrence_exists(b, from, to, ws);
            lemma_last_occurrence_is(b, from, to, ws, p);
        }
    }
}

/// An unsafe split takes the whitespace nearest the target: when it falls
/// before the (clamped) target `t`, it follows a whitespace byte that occurs
/// nowhere from the split to `t`; when it falls at or after `t` on a
/// whitespace byte, that byte occurs nowhere from `t` to the split. A split
/// before the target is always after whitespace.
pub proof fn lemma_split_takes_nearest_whitespace(b: Seq<u8>, target: int, window: int)
    requires
        valid_utf8(b),
        0 <= target,
    ensures
        ({
            let (pos, safe) = split_point_of(b, target, window);
            let t = clamp_to(target, b.len() as int);
            &&& !safe && pos < t ==> 1 <= pos && is_whitespace_byte(b[pos - 1]) && forall|q: int|
                pos <= q < t ==> #[trigger] b[q] != b[pos - 1]
            &&& !safe && t <= pos < b.len() && is_whitespace_byte(b[pos]) ==> forall|q: int|
                t <= q < pos ==> #[trigger] b[q] != b[pos]
            &&& !safe && t <= pos < b.len() && is_whitespace_byte(b[pos]) ==> forall|q: int|
                t <= q < window_to(b, target, window) && is_whitespace_byte(#[trigger] b[q]) ==> whitespace_rank(b[pos])
                    <= whitespace_rank(b[q])
            &&& !safe && pos < t ==> forall|q: int| t <= q < window_to(b, target, window) ==> !is_whitespace_byte(#[trigger] b[q])
        }),
{
    let n = b.len() as int;
    let t = clamp_to(target, n);
    let lo = if t >= window { t - window } else { 0 };
    let hi = clamp_to(t + window, n);
    let (pos, safe) = split_point_of(b, target, window);
    assert(hi == window_to(b, target, window));
    if !safe {
        assert(nearest_pair(b, lo, hi, t, 10u8, 10u8) is None);
        assert(sentence_phase(b, lo, minus_one_saturating(hi), t, 0) is None);
        lemma_forward_space_phase(b, t, hi, 0);
        lemma_backward_space_phase(b, lo, t, 0);
        match forward_space_phase(b, t, hi, 0) {
            Some(p) => {
                assert(pos == p);
                let ws = b[p];
                assert forall|q: int| t <= q < pos implies #[trigger] b[q] != b[pos] by {
                    if b[q] == ws {
                        vstd::utf8::is_char_boundary_iff_not_is_continuation_byte(b, q);
                    }
                }
                assert forall|q: int| t <= q < hi && is_whitespace_byte(#[trigger] b[q]) implies whitespace_rank(b[pos])
                    <= whitespace_rank(b[q]) by {
                    vstd::utf8::is_char_boundary_iff_not_is_continuation_byte(b, q);
                }
            },
            None => match backward_space_phase(b, lo, t, 0) {
                Some(p) => {
                    assert(pos == p + 1);
                    assert forall|q: int| t <= q < hi implies !is_whitespace_byte(#[trigger] b[q]) by {
                        if is_whitespace_byte(b[q]) {
                            vstd::utf8::is_char_boundary_iff_not_is_continuation_byte(b, q);
                        }
                    }
                    if pos >= t && pos < n && is_whitespace_byte(b[pos]) {
                        assert(pos == t);
                    }
                },
                None => {
                    lemma_next_boundary_exists(b, t);
                    assert(is_next_boundary(b, t, pos));
                    assert forall|q: int| t <= q < hi implies !is_whitespace_byte(#[trigger] b[q]) by {
                        if is_whitespace_byte(b[q]) {
                            vstd::utf8::is_char_boundary_iff_not_is_continuation_byte(b, q);
                        }
                    }
                    if pos < n && is_whitespace_byte(b[pos]) {
                        assert forall|q: int| t <= q < pos implies #[trigger] b[q] != b[pos] by {
                            vstd::utf8::is_char_boundary_iff_not_is_continuation_byte(b, q);
                        }
                    }
                },
            },
        }
    }
}

/// Find a good split point near the target position using SIMD-accelerated search.
///
/// Prefers safe boundaries (sentence/paragraph ends) which need minimal overlap,
/// falls back to whitespace boundaries.
pub fn find_split_point_safe(input: &str, target: usize, search_window: usize) -> (r: SplitPoint)
    requires
        clamp_to(target as int, bytes_of(input).len() as int) + search_window <= usize::MAX,
        search_window > 0 || clamp_to(target as int, bytes_of(input).len() as int) == 0,
    ensures
        (r.position as int, r.is_safe_boundary) == split_point_of(bytes_of(input), target as int, search_window as int),
        window_from(bytes_of(input), target as int, search_window as int) <= r.position <= bytes_of(input).len(),
        boundary(input, r.position as int),
        !r.is_safe_boundary && r.position < clamp_to(target as int, bytes_of(input).len() as int) ==> 1 <= r.position
            && is_whitespace_byte(bytes_of(input)[r.position - 1]) && forall|q: int|
            r.position <= q < clamp_to(target as int, bytes_of(input).len() as int) ==> #[trigger] bytes_of(input)[q]
                != bytes_of(input)[r.position - 1],
        !r.is_safe_boundary && clamp_to(target as int, bytes_of(input).len() as int) <= r.position < bytes_of(input).len()
            && is_whitespace_byte(bytes_of(input)[r.position as int]) ==> forall|q: int|
            clamp_to(target as int, bytes_of(input).len() as int) <= q < r.position ==> #[trigger] bytes_of(input)[q]
                != bytes_of(input)[r.position as int],
        !r.is_safe_boundary && clamp_to(target as int, bytes_of(input).len() as int) <= r.position < bytes_of(input).len()
            && is_whitespace_byte(bytes_of(input)[r.position as int]) ==> forall|q: int|
            clamp_to(target as int, bytes_of(input).len() as int) <= q < window_to(
                bytes_of(input),
                target as int,
                search_window as int,
            ) && is_whitespace_byte(#[trigger] bytes_of(input)[q]) ==> whitespace_rank(bytes_of(input)[r.position as int])
                <= whitespace_rank(bytes_of(input)[q]),
        !r.is_safe_boundary && r.position < clamp_to(target as int, bytes_of(input).len() as int) ==> forall|q: int|
            clamp_to(target as int, bytes_of(input).len() as int) <= q < window_to(
                bytes_of(input),
                target as int,
                search_window as int,
            ) ==> !is_whitespace_byte(#[trigger] bytes_of(input)[q]),
{
    proof {
        lemma_valid_utf8(input);
        lemma_split_takes_nearest_whitespace(bytes_of(input), target as int, search_window as int);
    }
    let bytes = input.as_bytes();
    let len = bytes.len();
    let t = if target < len { target } else { len };
    let search_start = t.saturating_sub(search_window);
    let sum = t + search_window;
    let search_end = if sum < len { sum } else { len };
    let ghost b = bytes@;
    let ghost lo = search_start as int;
    let ghost hi = search_end as int;
    let ghost hi1 = minus_one_saturating(hi);
    let ghost spec = split_point_of(bytes_of(input), target as int, search_window as int);
    assert(lo == window_from(bytes_of(input), target as int, search_window as int));

    // Phase 1: Look for safe boundaries (paragraph breaks, sentence ends)
    // First priority: double newline (paragraph break) - safest boundary
    if let Some(pos) = find_pattern_near(bytes, t, search_start, search_end, 10u8, 10u8) {
        proof {
            lemma_after_ascii_is_boundary(b, pos + 1);
        }
        return SplitPoint { position: pos + 2, is_safe_boundary: true };
    }

    // Second priority: sentence-ending punctuation followed by whitespace
    let mut j: usize = 0;
    while j < 6
        invariant
            0 <= j <= 6,
            b == bytes@,
            b == bytes_of(input),
            len == bytes@.len(),
            lo == search_start,
            lo == window_from(bytes_of(input), target as int, search_window as int),
            hi == search_end,
            hi1 == minus_one_saturating(search_end as int),
            search_start <= minus_one_saturating(search_end as int),
            search_end <= bytes@.len(),
            spec == split_point_of(bytes_of(input), target as int, search_window as int),
            spec == match sentence_phase(b, lo, hi1, t as int, j as int) {
                Some(p) => (p + 2, true),
                None => match forward_space_phase(b, t as int, hi, 0) {
                    Some(p) => (p, false),
                    None => match backward_space_phase(b, lo, t as int, 0) {
                        Some(p) => (p + 1, false),
                        None => (next_boundary(b, t as int), false),
                    },
                },
            },
        decreases 6 - j,
    {
        let (punct, follow) = sentence_pair_at(j);
        if let Some(pos) = find_punct_boundary_near(bytes, t, search_start, search_end, punct, follow) {
            proof {
                lemma_after_ascii_is_boundary(b, pos + 1);
            }
            return SplitPoint { position: pos + 2, is_safe_boundary: true };
        }
        j += 1;
    }

    // Phase 2: Fall back to any whitespace, searching forward from the target first
    let mut j: usize = 0;
    while j < 3
        invariant
            0 <= j <= 3,
            bytes@ == bytes_of(input),
            b == bytes@,
            len == bytes@.len(),
            lo == search_start,
            lo == window_from(bytes_of(input), target as int, search_window as int),
            hi == search_end,
            search_start <= t <= search_end <= bytes@.len(),
            spec == split_point_of(bytes_of(input), target as int, search_window as int),
            spec == match forward_space_phase(b, t as int, hi, j as int) {
                Some(p) => (p, false),
                None => match backward_space_phase(b, lo, t as int, 0) {
                    Some(p) => (p + 1, false),
                    None => (next_boundary(b, t as int), false),
                },
            },
        decreases 3 - j,
    {
        let ws = whitespace_byte_at(j);
        if let Some(pos) = first_space_in(input, bytes, t, search_end, ws) {
            proof {
                lemma_split_takes_nearest_whitespace(bytes_of(input), target as int, search_window as int);
            }
            return SplitPoint { position: pos, is_safe_boundary: false };
        }
        j += 1;
    }

    // Search backward if no forward whitespace found
    let mut j: usize = 0;
    while j < 3
        invariant
            0 <= j <= 3,
            bytes@ == bytes_of(input),
            b == bytes@,
            lo == search_start,
            lo == window_from(bytes_of(input), target as int, search_window as int),
            len == bytes@.len(),
            search_start <= t <= bytes@.len(),
            spec == split_point_of(bytes_of(input), target as int, search_window as int),
            spec == match backward_space_phase(b, lo, t as int, j as int) {
                Some(p) => (p + 1, false),
                None => (next_boundary(b, t as int), false),
            },
        decreases 3 - j,
    {
        let ws = whitespace_byte_at(j);
        if let Some(pos) = last_occurrence_in(bytes, search_start, t, ws) {
            if input.is_char_boundary(pos + 1) {
                proof {
                    lemma_split_takes_nearest_whitespace(bytes_of(input), target as int, search_window as int);
                }
                return SplitPoint { position: pos + 1, is_safe_boundary: false };
            }
        }
        j += 1;
    }

    // Final fallback: UTF-8 character boundary
    let position = find_char_boundary_forward(input, t);
    proof {
        lemma_next_boundary_is(bytes_of(input), t as int, position as int);
    }
    SplitPoint { position, is_safe_boundary: false }
}

/// The position of the split point alone.
pub fn find_split_point(input: &str, target: usize, search_window: usize) -> (r: usize)
    requires
        clamp_to(target as int, bytes_of(input).len() as int) + search_window <= usize::MAX,
        search_window > 0 || clamp_to(target as int, bytes_of(input).len() as int) == 0,
    ensures
        r == split_point_of(bytes_of(input), target as int, search_window as int).0,
        window_from(bytes_of(input), target as int, search_window as int) <= r <= bytes_of(input).len(),
        boundary(input, r as int),
{
    find_split_point_safe(input, target, search_window).position
}

// =============================================================================
// OVERLAP CALCULATION
// =============================================================================

/// `x` held within `[lo, hi]` the way `x.max(lo).min(hi)` does.
pub open spec fn clamp_between(x: int, lo: int, hi: int) -> int {
    let y = if x >= lo { x } else { lo };
    if y <= hi { y } else { hi }
}

/// Overlap in bytes for a split: `max_token_len + safety_margin` held within
/// [100, 500] at a safe boundary, three times the larger of the two held
/// within [500, 5000] elsewhere.
pub open spec fn overlap_size(max_token_len: int, safety_margin: int, is_safe_boundary: bool) -> int {
    if is_safe_boundary {
        clamp_between(max_token_len + safety_margin, 100, 500)
    } else {
        let m = if max_token_len >= safety_margin { max_token_len } else { safety_margin };
        clamp_between(m * 3, 500, 5000)
    }
}

/// Calculate the overlap size based on max token length and whether we're at a safe boundary.
///
/// For safe boundaries (sentence/paragraph ends), we use minimal overlap since tokenization
/// is guaranteed to be consistent. For other boundaries, we use larger overlap.
pub fn calculate_overlap_size(max_token_len: usize, safety_margin: usize, is_safe_boundary: bool) -> (r: usize)
    requires
        is_safe_boundary ==> max_token_len + safety_margin <= usize::MAX,
        !is_safe_boundary ==> max_token_len * 3 <= usize::MAX && safety_margin * 3 <= usize::MAX,
    ensures
        r == overlap_size(max_token_len as int, safety_margin as int, is_safe_boundary),
{
    if is_safe_boundary {
        let x = max_token_len + safety_margin;
        let y = if x >= 100 { x } else { 100 };
        if y <= 500 { y } else { 500 }
    } else {
        let m = if max_token_len >= safety_margin { max_token_len } else { safety_margin };
        let x = m * 3;
        let y = if x >= 500 { x } else { 500 };
        if y <= 5000 { y } else { 5000 }
    }
}

/// Overlap sizes stay within their bounds, and a split at a safe boundary
/// never takes more overlap than one elsewhere.
pub proof fn lemma_overlap_bounds(max_token_len: int, safety_margin: int)
    ensures
        100 <= overlap_size(max_token_len, safety_margin, true) <= 500,
        500 <= overlap_size(max_token_len, safety_margin, false) <= 5000,
        overlap_size(max_token_len, safety_margin, true) <= overlap_size(max_token_len, safety_margin, false),
{
}

} // verus!
