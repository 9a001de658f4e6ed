//! Zero-copy offset representation for parallel encoding.
//!
//! LazyEncoding wraps an Encoding with deferred offset operations:
//! - `base_offset`: Added to all offsets on materialization (shift is O(1))
//! - `start_idx` / `end_idx`: Virtual range for filtering (no copies until merge)

use vstd::prelude::*;
use crate::encoding::{shift_fits, shift_token, shifted, starts_at_or_after, starts_before, Encoding, Token};

verus! {

/// The starts of the tokens never decrease along the sequence.
pub open spec fn starts_sorted(s: Seq<Token>) -> bool {
    forall|i: int, j: int| 0 <= i <= j < s.len() ==> #[trigger] s[i].offsets.0 <= #[trigger] s[j].offsets.0
}

/// `position - base`, or 0 when `base` is larger.
pub open spec fn adjusted(position: int, base: int) -> int {
    if position >= base { position - base } else { 0 }
}

/// `k` splits `s` into the tokens starting before `pos` and those starting at
/// or after it.
pub open spec fn is_partition_point(s: Seq<Token>, pos: int, k: int) -> bool {
    &&& 0 <= k <= s.len()
    &&& forall|i: int| 0 <= i < k ==> #[trigger] s[i].offsets.0 < pos
    &&& forall|i: int| k <= i < s.len() ==> #[trigger] s[i].offsets.0 >= pos
}

/// Where a binary search over `s[lo..hi]` for the first token starting at or
/// after `pos` ends.
pub open spec fn search_cut(s: Seq<Token>, pos: int, lo: int, hi: int) -> int
    decreases hi - lo,
{
    if lo >= hi {
        lo
    } else {
        let mid = lo + (hi - lo) / 2;
        if s[mid].offsets.0 < pos {
            search_cut(s, pos, mid + 1, hi)
        } else {
            search_cut(s, pos, lo, mid)
        }
    }
}

/// The cut index that binary search finds in `s` for `pos`: with starts in
/// order, the number of tokens starting before `pos`.
pub open spec fn cut_point(s: Seq<Token>, pos: int) -> int {
    search_cut(s, pos, 0, s.len() as int)
}

proof fn lemma_search_cut(s: Seq<Token>, pos: int, lo: int, hi: int)
    requires
        0 <= lo <= hi <= s.len(),
    ensures
        lo <= search_cut(s, pos, lo, hi) <= hi,
        starts_sorted(s) && (forall|i: int| 0 <= i < lo ==> #[trigger] s[i].offsets.0 < pos) && (forall|i: int|
            hi <= i < s.len() ==> #[trigger] s[i].offsets.0 >= pos) ==> is_partition_point(s, pos, search_cut(s, pos, lo, hi)),
    decreases hi - lo,
{
    if lo < hi {
        let mid = lo + (hi - lo) / 2;
        if s[mid].offsets.0 < pos {
            lemma_search_cut(s, pos, mid + 1, hi);
        } else {
            lemma_search_cut(s, pos, lo, mid);
        }
    }
}

/// The cut lies within the sequence, and splits it by `pos` when the starts
/// are in order.
pub proof fn lemma_cut_point(s: Seq<Token>, pos: int)
    ensures
        0 <= cut_point(s, pos) <= s.len(),
        starts_sorted(s) ==> is_partition_point(s, pos, cut_point(s, pos)),
{
    lemma_search_cut(s, pos, 0, s.len() as int);
}

/// Filtering keeps a sequence whole when every token passes.
pub proof fn lemma_filter_keeps_all(s: Seq<Token>, p: spec_fn(Token) -> bool)
    requires
        forall|i: int| 0 <= i < s.len() ==> p(#[trigger] s[i]),
    ensures
        s.filter(p) == s,
    decreases s.len(),
{
    reveal(Seq::filter);
    if s.len() > 0 {
        lemma_filter_keeps_all(s.drop_last(), p);
        assert(s.drop_last().push(s.last()) =~= s);
    }
}

/// Filtering keeps nothing when no token passes.
pub proof fn lemma_filter_drops_all(s: Seq<Token>, p: spec_fn(Token) -> bool)
    requires
        forall|i: int| 0 <= i < s.len() ==> !p(#[trigger] s[i]),
    ensures
        s.filter(p) == Seq::<Token>::empty(),
    decreases s.len(),
{
    reveal(Seq::filter);
    if s.len() > 0 {
        lemma_filter_drops_all(s.drop_last(), p);
    }
}

/// At a partition point, the tokens starting before `pos` are the prefix and
/// those starting at or after it are the rest.
pub proof fn lemma_partition_filters(s: Seq<Token>, pos: int, k: int)
    requires
        is_partition_point(s, pos, k),
    ensures
        s.filter(starts_before(pos)) == s.take(k),
        s.filter(starts_at_or_after(pos)) == s.skip(k),
{
    let a = s.take(k);
    let b = s.skip(k);
    assert(s =~= a + b);
    Seq::filter_distributes_over_add(a, b, starts_before(pos));
    Seq::filter_distributes_over_add(a, b, starts_at_or_after(pos));
    assert forall|i: int| 0 <= i < a.len() implies (starts_before(pos))(#[trigger] a[i]) by {
        assert(a[i] == s[i]);
    }
    assert forall|i: int| 0 <= i < b.len() implies !(starts_before(pos))(#[trigger] b[i]) by {
        assert(b[i] == s[k + i]);
    }
    assert forall|i: int| 0 <= i < a.len() implies !(starts_at_or_after(pos))(#[trigger] a[i]) by {
        assert(a[i] == s[i]);
    }
    assert forall|i: int| 0 <= i < b.len() implies (starts_at_or_after(pos))(#[trigger] b[i]) by {
        assert(b[i] == s[k + i]);
    }
    lemma_filter_keeps_all(a, starts_before(pos));
    lemma_filter_drops_all(b, starts_before(pos));
    lemma_filter_drops_all(a, starts_at_or_after(pos));
    lemma_filter_keeps_all(b, starts_at_or_after(pos));
    assert(a + Seq::<Token>::empty() =~= a);
    assert(Seq::<Token>::empty() + b =~= b);
}

/// A partition point of the unshifted tokens at the adjusted position is a
/// partition point of the shifted tokens at the position itself.
pub proof fn lemma_shifted_partition(kept: Seq<Token>, base: int, position: int, k: int)
    requires
        0 <= base,
        0 <= position,
        shift_fits(kept, base),
        is_partition_point(kept, adjusted(position, base), k),
    ensures
        is_partition_point(shifted(kept, base), position, k),
{
    let t = shifted(kept, base);
    assert forall|i: int| 0 <= i < k implies #[trigger] t[i].offsets.0 < position by {
        assert(kept[i].offsets.0 < adjusted(position, base));
        assert(kept[i].offsets.0 + base <= usize::MAX);
    }
    assert forall|i: int| k <= i < t.len() implies #[trigger] t[i].offsets.0 >= position by {
        assert(kept[i].offsets.0 >= adjusted(position, base));
        assert(kept[i].offsets.0 + base <= usize::MAX);
    }
}

/// Taking a prefix commutes with shifting.
pub proof fn lemma_shifted_take(s: Seq<Token>, d: int, k: int)
    requires
        0 <= k <= s.len(),
    ensures
        shifted(s.take(k), d) == shifted(s, d).take(k),
        shifted(s.skip(k), d) == shifted(s, d).skip(k),
{
    assert(shifted(s.take(k), d) =~= shifted(s, d).take(k));
    assert(shifted(s.skip(k), d) =~= shifted(s, d).skip(k));
}

/// A stretch of tokens keeps their order and the room for a shift.
proof fn lemma_kept_part(s: Seq<Token>, d: int, lo: int, hi: int)
    requires
        0 <= lo <= hi <= s.len(),
    ensures
        starts_sorted(s) ==> starts_sorted(s.subrange(lo, hi)),
        shift_fits(s, d) ==> shift_fits(s.subrange(lo, hi), d),
{
    let t = s.subrange(lo, hi);
    if starts_sorted(s) {
        assert forall|i: int, j: int| 0 <= i <= j < t.len() implies #[trigger] t[i].offsets.0 <= #[trigger] t[j].offsets.0 by {
            assert(t[i] == s[lo + i] && t[j] == s[lo + j]);
        }
    }
    if shift_fits(s, d) {
        assert forall|i: int| 0 <= i < t.len() implies #[trigger] t[i].offsets.1 + d <= usize::MAX && t[i].offsets.0 + d
            <= usize::MAX by {
            assert(t[i] == s[lo + i]);
        }
    }
}

/// With sorted starts, the tokens starting before `p` followed by those
/// starting at or after it are all the tokens, none lost or repeated.
pub proof fn lemma_split_filters_reassemble(s: Seq<Token>, p: int)
    requires
        starts_sorted(s),
    ensures
        s.filter(starts_before(p)) + s.filter(starts_at_or_after(p)) == s,
{
    let k = cut_point(s, p);
    assert(s.take(k) + s.skip(k) =~= s) by {
        lemma_cut_point(s, p);
    }
    assert(s.filter(starts_before(p)) == s.take(k) && s.filter(starts_at_or_after(p)) == s.skip(k)) by {
        lemma_cut_point(s, p);
        lemma_partition_filters(s, p, k);
    }
}

/// With sorted starts, keeping the tokens starting before `p` and then those
/// starting before `q` keeps those starting before the smaller of the two.
pub proof fn lemma_filter_before_twice(s: Seq<Token>, p: int, q: int)
    requires
        starts_sorted(s),
    ensures
        s.filter(starts_before(p)).filter(starts_before(q)) == s.filter(starts_before(if p <= q { p } else { q })),
{
    let m = if p <= q { p } else { q };
    let kp = cut_point(s, p);
    let km = cut_point(s, m);
    lemma_cut_point(s, p);
    lemma_cut_point(s, m);
    lemma_partition_filters(s, p, kp);
    lemma_partition_filters(s, m, km);
    let t = s.take(kp);
    assert(km <= kp) by {
        if kp < km {
            assert(s[kp].offsets.0 >= p);
            assert(s[kp].offsets.0 < m);
        }
    }
    assert(is_partition_point(t, q, km)) by {
        assert forall|i: int| 0 <= i < km implies #[trigger] t[i].offsets.0 < q by {
            assert(t[i] == s[i]);
        }
        assert forall|i: int| km <= i < t.len() implies #[trigger] t[i].offsets.0 >= q by {
            assert(t[i] == s[i]);
            assert(s[i].offsets.0 >= m);
            assert(s[i].offsets.0 < p);
        }
    }
    lemma_partition_filters(t, q, km);
    assert(t.take(km) =~= s.take(km));
}

/// A lazy wrapper around Encoding that defers offset shifting and filtering.
///
/// Instead of immediately modifying the encoding's offsets (O(n) per operation),
/// this stores metadata that's applied only during final materialization.
pub struct LazyEncoding {
    encoding: Encoding,
    /// Offset to add to all positions (applied on materialization)
    base_offset: usize,
    /// Start index of the valid token range (inclusive)
    start_idx: usize,
    /// End index of the valid token range (exclusive)
    end_idx: usize,
}

impl LazyEncoding {
    #[verifier::type_invariant]
    spec fn range_within(self) -> bool {
        self.start_idx <= self.end_idx <= self.encoding@.len()
    }

    /// The wrapped encoding.
    pub closed spec fn encoding(self) -> Encoding {
        self.encoding
    }

    /// The wrapped tokens, before any deferred operation.
    pub open spec fn inner(self) -> Seq<Token> {
        self.encoding()@
    }

    /// The deferred shift.
    pub closed spec fn base(self) -> int {
        self.base_offset as int
    }

    /// First index of the kept range.
    pub closed spec fn start(self) -> int {
        self.start_idx as int
    }

    /// End (exclusive) of the kept range.
    pub closed spec fn end(self) -> int {
        self.end_idx as int
    }

    /// The kept range lies within the wrapped tokens; every exec value is so.
    pub open spec fn well_formed(self) -> bool {
        0 <= self.start() <= self.end() <= self.inner().len() && 0 <= self.base() <= usize::MAX
    }

    /// The kept tokens, not yet shifted.
    pub open spec fn kept(self) -> Seq<Token> {
        self.inner().subrange(self.start(), self.end())
    }

    /// The tokens this lazy encoding stands for: the kept range, shifted.
    pub open spec fn tokens(self) -> Seq<Token> {
        shifted(self.kept(), self.base())
    }

    /// The deferred shift fits every kept token.
    pub open spec fn fits(self) -> bool {
        shift_fits(self.kept(), self.base())
    }

    /// Wrap an encoding in a lazy container.
    pub fn new(encoding: Encoding) -> (r: Self)
        ensures
            r.encoding() == encoding,
            r.well_formed(),
            r.base() == 0,
            r.start() == 0,
            r.end() == encoding@.len(),
            r.tokens() == encoding@,
    {
        let len = encoding.len();
        let r = Self { encoding, base_offset: 0, start_idx: 0, end_idx: len };
        proof {
            lemma_shifted_zero(r.kept());
            assert(r.kept() =~= encoding@);
        }
        r
    }

    /// O(1) offset shift - just update the base offset.
    pub fn shift_offset(&mut self, delta: usize)
        requires
            old(self).base() + delta <= usize::MAX,
        ensures
            final(self).encoding() == old(self).encoding(),
            final(self).well_formed(),
            final(self).start() == old(self).start(),
            final(self).end() == old(self).end(),
            final(self).base() == old(self).base() + delta,
            final(self).fits() ==> final(self).tokens() == shifted(old(self).tokens(), delta as int),
    {
        proof {
            use_type_invariant(&*self);
        }
        let ghost before = *self;
        self.base_offset = self.base_offset + delta;
        proof {
            if self.fits() {
                let k = before.kept();
                assert forall|i: int| 0 <= i < k.len() implies #[trigger] k[i].offsets.1 + before.base() <= usize::MAX
                    && k[i].offsets.0 + before.base() <= usize::MAX by {
                    assert(k[i].offsets.1 + self.base() <= usize::MAX);
                    assert(k[i].offsets.0 + self.base() <= usize::MAX);
                }
                assert(self.tokens() =~= shifted(before.tokens(), delta as int));
            }
        }
    }

    /// Number of tokens in the current virtual range.
    pub fn len(&self) -> (r: usize)
        ensures
            self.well_formed(),
            r == self.kept().len(),
    {
        proof {
            use_type_invariant(self);
        }
        self.end_idx.saturating_sub(self.start_idx)
    }

    /// Check if the virtual range is empty.
    pub fn is_empty(&self) -> (r: bool)
        ensures
            self.well_formed(),
            r == (self.kept().len() == 0),
    {
        proof {
            use_type_invariant(self);
        }
        self.start_idx >= self.end_idx
    }

    /// Get offset at index (applying base_offset).
    pub fn get_offset(&self, idx: usize) -> (r: (usize, usize))
        requires
            idx < self.kept().len(),
            self.kept()[idx as int].offsets.0 + self.base() <= usize::MAX,
            self.kept()[idx as int].offsets.1 + self.base() <= usize::MAX,
        ensures
            r == self.tokens()[idx as int].offsets,
    {
        proof {
            use_type_invariant(self);
        }
        let actual_idx = self.start_idx + idx;
        let (start, end) = self.encoding.token(actual_idx).offsets;
        (start + self.base_offset, end + self.base_offset)
    }

    /// Get the first offset in the virtual range (with base_offset applied).
    pub fn first_offset(&self) -> (r: Option<(usize, usize)>)
        requires
            self.kept().len() > 0 ==> self.kept()[0].offsets.0 + self.base() <= usize::MAX,
            self.kept().len() > 0 ==> self.kept()[0].offsets.1 + self.base() <= usize::MAX,
        ensures
            r == (if self.kept().len() == 0 { None } else { Some(self.tokens()[0].offsets) }),
    {
        if self.is_empty() {
            None
        } else {
            Some(self.get_offset(0))
        }
    }

    /// Get the last offset in the virtual range (with base_offset applied).
    pub fn last_offset(&self) -> (r: Option<(usize, usize)>)
        requires
            self.kept().len() > 0 ==> self.kept().last().offsets.0 + self.base() <= usize::MAX,
            self.kept().len() > 0 ==> self.kept().last().offsets.1 + self.base() <= usize::MAX,
        ensures
            r == (if self.kept().len() == 0 { None } else { Some(self.tokens().last().offsets) }),
    {
        if self.is_empty() {
            None
        } else {
            Some(self.get_offset(self.len() - 1))
        }
    }

    /// Binary search over the kept range for the first token whose (unshifted)
    /// start is at or after `adjusted_pos`.
    fn partition_point(&self, adjusted_pos: usize) -> (r: usize)
        ensures
            r == cut_point(self.kept(), adjusted_pos as int),
            r <= self.kept().len(),
            starts_sorted(self.kept()) ==> is_partition_point(self.kept(), adjusted_pos as int, r as int),
    {
        proof {
            use_type_invariant(self);
        }
        let ghost s = self.kept();
        let mut lo: usize = 0;
        let mut hi: usize = self.end_idx - self.start_idx;
        while lo < hi
            invariant
                s == self.kept(),
                self.start() <= self.end() <= self.inner().len(),
                0 <= lo <= hi <= s.len(),
                search_cut(s, adjusted_pos as int, lo as int, hi as int) == cut_point(s, adjusted_pos as int),
                starts_sorted(s) ==> forall|i: int| 0 <= i < lo ==> #[trigger] s[i].offsets.0 < adjusted_pos,
                starts_sorted(s) ==> forall|i: int| hi <= i < s.len() ==> #[trigger] s[i].offsets.0 >= adjusted_pos,
            decreases hi - lo,
        {
            let mid = lo + (hi - lo) / 2;
            let t = self.encoding.token(self.start_idx + mid);
            assert(*t == s[mid as int]);
            if t.offsets.0 < adjusted_pos {
                lo = mid + 1;
            } else {
                hi = mid;
            }
        }
        proof {
            lemma_cut_point(s, adjusted_pos as int);
        }
        lo
    }

    /// Count tokens starting before position (O(log n) binary search).
    pub fn count_starting_before(&self, position: usize) -> (r: usize)
        ensures
            self.well_formed(),
            r == cut_point(self.kept(), adjusted(position as int, self.base())),
            r <= self.kept().len(),
            starts_sorted(self.kept()) ==> is_partition_point(
                self.kept(),
                adjusted(position as int, self.base()),
                r as int,
            ),
            starts_sorted(self.kept()) && self.fits() ==> r == self.tokens().filter(starts_before(position as int)).len(),
    {
        proof {
            use_type_invariant(self);
        }
        let adjusted_pos = position.saturating_sub(self.base_offset);
        let r = self.partition_point(adjusted_pos);
        proof {
            if starts_sorted(self.kept()) && self.fits() {
                lemma_shifted_partition(self.kept(), self.base(), position as int, r as int);
                lemma_partition_filters(self.tokens(), position as int, r as int);
            }
        }
        r
    }

    /// Count tokens starting at or after position (O(log n) binary search).
    pub fn count_starting_at_or_after(&self, position: usize) -> (r: usize)
        ensures
            self.well_formed(),
            r == self.kept().len() - cut_point(self.kept(), adjusted(position as int, self.base())),
            r <= self.kept().len(),
            starts_sorted(self.kept()) ==> is_partition_point(
                self.kept(),
                adjusted(position as int, self.base()),
                self.kept().len() - r,
            ),
            starts_sorted(self.kept()) && self.fits() ==> r == self.tokens().filter(starts_at_or_after(position as int)).len(),
            starts_sorted(self.kept()) && self.fits() ==> r + self.tokens().filter(starts_before(position as int)).len()
                == self.kept().len(),
    {
        let before = self.count_starting_before(position);
        proof {
            if starts_sorted(self.kept()) && self.fits() {
                lemma_shifted_partition(self.kept(), self.base(), position as int, before as int);
                lemma_partition_filters(self.tokens(), position as int, before as int);
            }
        }
        self.len() - before
    }

    /// Filter to keep only tokens starting before position (O(log n)).
    /// Uses binary search to find the cut point, no data copying.
    pub fn filter_starting_before(&mut self, position: usize)
        ensures
            final(self).encoding() == old(self).encoding(),
            final(self).well_formed(),
            final(self).base() == old(self).base(),
            final(self).start() == old(self).start(),
            final(self).end() == old(self).start() + cut_point(old(self).kept(), adjusted(position as int, old(self).base())),
            final(self).end() <= old(self).end(),
            starts_sorted(old(self).kept()) ==> is_partition_point(
                old(self).kept(),
                adjusted(position as int, old(self).base()),
                final(self).end() - final(self).start(),
            ),
            starts_sorted(old(self).kept()) && old(self).fits() ==> final(self).tokens() == old(self).tokens().filter(
                starts_before(position as int),
            ),
            starts_sorted(old(self).kept()) ==> starts_sorted(final(self).kept()),
            old(self).fits() ==> final(self).fits(),
    {
        proof {
            use_type_invariant(&*self);
        }
        let ghost before = *self;
        let adjusted_pos = position.saturating_sub(self.base_offset);
        let cut_idx = self.partition_point(adjusted_pos);
        self.end_idx = self.start_idx + cut_idx;
        proof {
            if starts_sorted(before.kept()) && before.fits() {
                lemma_shifted_partition(before.kept(), before.base(), position as int, cut_idx as int);
                lemma_partition_filters(before.tokens(), position as int, cut_idx as int);
                assert(self.kept() =~= before.kept().take(cut_idx as int));
                lemma_shifted_take(before.kept(), before.base(), cut_idx as int);
            }
            assert(self.kept() =~= before.kept().take(cut_idx as int));
            lemma_kept_part(before.kept(), before.base(), 0, cut_idx as int);
        }
    }

    /// Filter to keep only tokens starting at or after position (O(log n)).
    /// Uses binary search to find the cut point, no data copying.
    pub fn filter_starting_at_or_after(&mut self, position: usize)
        ensures
            final(self).encoding() == old(self).encoding(),
            final(self).well_formed(),
            final(self).base() == old(self).base(),
            final(self).end() == old(self).end(),
            final(self).start() == old(self).start() + cut_point(old(self).kept(), adjusted(position as int, old(self).base())),
            old(self).start() <= final(self).start(),
            starts_sorted(old(self).kept()) ==> is_partition_point(
                old(self).kept(),
                adjusted(position as int, old(self).base()),
                final(self).start() - old(self).start(),
            ),
            starts_sorted(old(self).kept()) && old(self).fits() ==> final(self).tokens() == old(self).tokens().filter(
                starts_at_or_after(position as int),
            ),
            starts_sorted(old(self).kept()) ==> starts_sorted(final(self).kept()),
            old(self).fits() ==> final(self).fits(),
    {
        proof {
            use_type_invariant(&*self);
        }
        let ghost before = *self;
        let adjusted_pos = position.saturating_sub(self.base_offset);
        let cut_idx = self.partition_point(adjusted_pos);
        self.start_idx = self.start_idx + cut_idx;
        proof {
            if starts_sorted(before.kept()) && before.fits() {
                lemma_shifted_partition(before.kept(), before.base(), position as int, cut_idx as int);
                lemma_partition_filters(before.tokens(), position as int, cut_idx as int);
                assert(self.kept() =~= before.kept().skip(cut_idx as int));
                lemma_shifted_take(before.kept(), before.base(), cut_idx as int);
            }
            assert(self.kept() =~= before.kept().subrange(cut_idx as int, before.kept().len() as int));
            lemma_kept_part(before.kept(), before.base(), cut_idx as int, before.kept().len() as int);
        }
    }

    /// Materialize this lazy encoding into a concrete Encoding.
    /// This applies the base offset and extracts the valid range.
    pub fn materialize(self) -> (r: Encoding)
        requires
            self.fits(),
        ensures
            r@ == self.tokens(),
    {
        proof {
            use_type_invariant(&self);
        }
        let ghost kept = self.kept();
        // Fast path: no modifications needed
        if self.base_offset == 0 && self.start_idx == 0 && self.end_idx == self.encoding.len() {
            proof {
                assert(kept =~= self.inner());
                lemma_shifted_zero(kept);
            }
            return self.encoding;
        }
        let start = self.start_idx;
        let end = self.end_idx;
        let base = self.base_offset;
        let mut all = self.encoding.into_tokens();
        all.truncate(end);
        let range = all.split_off(start);
        assert(range@ =~= kept);
        let mut result = Encoding::from_tokens(range);
        result.shift_all_offsets(base);
        result
    }

    /// Merge two lazy encodings by materializing and combining.
    pub fn merge_materialized(self, other: LazyEncoding) -> (r: Encoding)
        requires
            self.fits(),
            other.fits(),
        ensures
            r@ == self.tokens() + other.tokens(),
    {
        let mut left = self.materialize();
        let right = other.materialize();
        left.merge_with(right, false);
        proof {
            lemma_shifted_zero(other.tokens());
        }
        left
    }
}

/// Shifting by nothing changes nothing.
pub proof fn lemma_shifted_zero(s: Seq<Token>)
    ensures
        shifted(s, 0) == s,
{
    assert(shifted(s, 0) =~= s);
}

/// Shifting sorted tokens without overflow keeps them sorted.
pub proof fn lemma_tokens_sorted(l: LazyEncoding)
    requires
        l.well_formed(),
        l.fits(),
        starts_sorted(l.kept()),
    ensures
        starts_sorted(l.tokens()),
{
    let k = l.kept();
    let t = l.tokens();
    assert forall|i: int, j: int| 0 <= i <= j < t.len() implies #[trigger] t[i].offsets.0 <= #[trigger] t[j].offsets.0 by {
        assert(k[i].offsets.0 <= k[j].offsets.0);
        assert(k[i].offsets.0 + l.base() <= usize::MAX);
        assert(k[j].offsets.0 + l.base() <= usize::MAX);
    }
}

/// Filtering a lazy encoding by "starts before" twice keeps what filtering it
/// once at the smaller of the two positions keeps: for a well-formed lazy
/// encoding whose kept tokens have their starts in order and whose shift
/// fits, filtering its tokens before `p` and then before `q` gives its tokens
/// before the smaller of `p` and `q`.
pub proof fn lemma_lazy_filter_before_twice(l: LazyEncoding, p: int, q: int)
    requires
        l.well_formed(),
        l.fits(),
        starts_sorted(l.kept()),
    ensures
        l.tokens().filter(starts_before(p)).filter(starts_before(q)) == l.tokens().filter(
            starts_before(if p <= q { p } else { q }),
        ),
{
    lemma_tokens_sorted(l);
    lemma_filter_before_twice(l.tokens(), p, q);
}

} // verus!
