//! The watermark set itself: a watermark below which every value is known to
//! have been inserted, and a window of 64-bit buckets that records the values
//! at or above the watermark.

use std::collections::VecDeque;
use vstd::prelude::*;

use crate::bits::lemma_nth_bit_or;
use crate::bits::lemma_popcount_bounds;
use crate::bits::lemma_popcount_full;
use crate::bits::lemma_popcount_or;
use crate::bits::lemma_popcount_zero;
use crate::bits::nth_bit;
use crate::bits::popcount;

verus! {

use vstd::arithmetic::div_mod::lemma_fundamental_div_mod;
use vstd::arithmetic::div_mod::lemma_fundamental_div_mod_converse;
use vstd::arithmetic::div_mod::lemma_mod_bound;
use vstd::arithmetic::div_mod::lemma_div_pos_is_pos;

/// A fatal failure of `insert`; the set cannot recover once one is reported.
#[derive(Clone, Copy, Debug, PartialEq, Eq, Structural)]
pub enum WatermarkError {
    /// Absorbing a full front bucket would push the watermark past `u64::MAX`.
    WatermarkOverflow,
    /// The gap between the inserted element and the watermark does not fit the
    /// machine-width integer used to index the window.
    AddressingOverflow,
}

/// A watermarking set over `u64` values.
///
/// Every value strictly below `watermark` counts as inserted; a value at or
/// above it counts as inserted exactly when its bit in `recently_added` is
/// set. Bucket `i` of the window covers the 64 values starting at
/// `watermark + 64 * i`, lowest value in bit 0.
pub struct WatermarkSet {
    pub watermark: u64,
    pub recently_added: VecDeque<u64>,
}

impl WatermarkSet {
    /// The window of buckets, as a sequence.
    pub open spec fn window(self) -> Seq<u64> {
        self.recently_added@
    }

    /// Every set bit addresses a value representable as a `u64`.
    pub open spec fn bits_in_range(self) -> bool {
        forall|i: int, j: u64|
            0 <= i < self.window().len() && j < 64 && #[trigger] nth_bit(self.window()[i], j)
                ==> self.watermark + 64 * i + j <= u64::MAX
    }

    /// Well-formedness: the front bucket, if present, is not fully saturated
    /// (a full front bucket is always absorbed into the watermark at once),
    /// and no set bit addresses a value beyond `u64::MAX`.
    pub open spec fn wf(self) -> bool {
        &&& (self.window().len() > 0 ==> self.window()[0] != u64::MAX)
        &&& self.bits_in_range()
    }

    /// What the set holds: `x` is below the watermark, or its bit is set in
    /// the window.
    pub open spec fn contains_spec(self, x: u64) -> bool {
        if x < self.watermark {
            true
        } else {
            let d = x - self.watermark;
            &&& d / 64 < self.window().len()
            &&& nth_bit(self.window()[d / 64], (d % 64) as u64)
        }
    }

    /// Number of values the set holds: everything submerged below the
    /// watermark plus every set bit of the window.
    pub open spec fn count_spec(self) -> int {
        self.watermark + window_count(self.window(), self.window().len() as int)
    }

    /// The gap between `elem` and the watermark fits the machine-width integer
    /// used to index the window. When it does not, `insert` reports
    /// `AddressingOverflow`.
    pub open spec fn gap_fits(self, elem: u64) -> bool {
        elem < self.watermark || elem - self.watermark <= usize::MAX as int
    }

    /// The window as it stands right after `elem`'s bit is set: grown with
    /// zero buckets up to `elem`'s bucket if needed, with the bit for `elem`
    /// set in that bucket.
    pub open spec fn marked_window(self, elem: u64) -> Seq<u64>
        recommends
            self.watermark <= elem,
    {
        let d = elem - self.watermark;
        let b = d / 64;
        let grown = if b < self.window().len() {
            self.window()
        } else {
            self.window() + Seq::new((b + 1 - self.window().len()) as nat, |k: int| 0u64)
        };
        grown.update(b, grown[b] | (1u64 << ((d % 64) as u64)))
    }

    /// Absorbing every saturated front bucket exposed by inserting `elem`
    /// keeps the watermark within `u64::MAX`. When this fails, `insert`
    /// reports `WatermarkOverflow`.
    pub open spec fn advance_fits(self, elem: u64) -> bool {
        if elem < self.watermark {
            true
        } else {
            self.watermark + 64 * saturated_prefix(self.marked_window(elem)) <= u64::MAX
        }
    }

    /// Create a set with the given initial watermark and an empty window:
    /// every value strictly below `watermark` counts as already inserted,
    /// nothing is tracked above it.
    ///
    /// ```
    /// let wm = watermark::WatermarkSet::new(1385);
    /// assert!(wm.contains(1384));
    /// assert_eq!(wm.contains(1385), false);
    /// assert_eq!(wm.contains(1386), false);
    /// ```
    pub fn new(watermark: u64) -> (r: WatermarkSet)
        ensures
            r.watermark == watermark,
            r.window().len() == 0,
            r.wf(),
            forall|x: u64| r.contains_spec(x) <==> x < watermark,
            r.count_spec() == watermark,
    {
        WatermarkSet { watermark, recently_added: VecDeque::new() }
    }

    /// Check whether `elem` has been inserted. A value below the watermark is
    /// reported present unconditionally: the watermark only ever advances
    /// across fully populated ranges, so every value below it was genuinely
    /// inserted.
    pub fn contains(&self, elem: u64) -> (r: bool)
        ensures
            r == self.contains_spec(elem),
    {
        // Anything below the waterline has been seen.
        if self.watermark > elem {
            return true;
        }
        let diff: u64 = elem - self.watermark;
        let bucket: u64 = diff / 64;
        let offset: u64 = diff % 64;
        // No bucket for it yet: never observed.
        if bucket >= self.recently_added.len() as u64 {
            return false;
        }
        let b: u64 = self.recently_added[bucket as usize];
        (b >> offset) & 1 == 1
    }

    /// Insert `elem` into the set.
    ///
    /// A value below the watermark is already known, so nothing changes.
    /// Otherwise the bit standing for `elem` is set, growing the window with
    /// zero buckets if `elem` lies beyond it, and then every fully saturated
    /// bucket at the front of the window is absorbed into the watermark, 64
    /// values at a time.
    ///
    /// Both failures are fatal: `AddressingOverflow` when the gap between
    /// `elem` and the watermark does not fit the machine-width integer used
    /// to index the window (the set is then unchanged), and
    /// `WatermarkOverflow` when absorbing a saturated bucket would push the
    /// watermark past `u64::MAX` (the set then still tracks every inserted
    /// value, but its front bucket is left saturated).
    #[verifier::loop_isolation(false)]
    pub fn insert(&mut self, elem: u64) -> (r: Result<(), WatermarkError>)
        requires
            old(self).wf(),
        ensures
            final(self).watermark >= old(self).watermark,
            r is Ok <==> old(self).gap_fits(elem) && old(self).advance_fits(elem),
            (r == Err::<(), WatermarkError>(WatermarkError::AddressingOverflow)
                <==> !old(self).gap_fits(elem)),
            (r == Err::<(), WatermarkError>(WatermarkError::WatermarkOverflow)
                <==> old(self).gap_fits(elem) && !old(self).advance_fits(elem)),
            r is Ok ==> final(self).wf(),
            old(self).gap_fits(elem) ==> forall|x: u64|
                final(self).contains_spec(x) <==> old(self).contains_spec(x) || x == elem,
            old(self).gap_fits(elem) ==> final(self).count_spec() == old(self).count_spec()
                + (if old(self).contains_spec(elem) {
                0int
            } else {
                1int
            }),
            !old(self).gap_fits(elem) ==> final(self).watermark == old(self).watermark
                && final(self).window() == old(self).window(),
            old(self).gap_fits(elem) && old(self).contains_spec(elem) ==> r is Ok
                && final(self).watermark == old(self).watermark
                && final(self).window() == old(self).window(),
            elem < old(self).watermark ==> final(self).watermark == old(self).watermark
                && final(self).window() == old(self).window(),
            old(self).watermark <= elem && old(self).gap_fits(elem) && r is Ok
                ==> final(self).watermark == old(self).watermark
                    + 64 * saturated_prefix(old(self).marked_window(elem))
                && final(self).window() == old(self).marked_window(elem).skip(
                saturated_prefix(old(self).marked_window(elem)),
            ),
    {
        // Already below the watermark: nothing to do.
        if self.watermark > elem {
            return Ok(());
        }
        // The gap must fit the machine-width integer that indexes the window.
        if elem - self.watermark > usize::MAX as u64 {
            return Err(WatermarkError::AddressingOverflow);
        }
        let ghost w0 = self.window();
        let ghost d = elem - self.watermark;
        let (bucket, offset) = self.bucket_and_offset(elem);
        proof {
            lemma_mod_bound(d, 64);
            lemma_div_pos_is_pos(d, 64);
        }
        // Grow the window with zero buckets until index `bucket` exists.
        while self.recently_added.len() <= bucket
            invariant
                self.watermark == old(self).watermark,
                self.window().len() >= w0.len(),
                forall|i: int| 0 <= i < w0.len() ==> self.window()[i] == w0[i],
                forall|i: int| w0.len() <= i < self.window().len() ==> self.window()[i] == 0u64,
                w0.len() <= bucket ==> self.window().len() <= bucket + 1,
                w0.len() > bucket ==> self.window() == w0,
            decreases bucket + 1 - self.recently_added.len(),
        {
            self.recently_added.push_back(0u64);
        }
        // Flip the bit that stands for `elem`.
        let updated: u64 = self.recently_added[bucket] | (1u64 << (offset as u64));
        dq_set(&mut self.recently_added, bucket, updated);
        proof {
            if w0.len() <= bucket {
                assert(self.window() =~= w0 + Seq::new((d / 64 + 1 - w0.len()) as nat, |k: int| 0u64
                ).update(d / 64 - w0.len(), (0u64 | (1u64 << ((d % 64) as u64)))));
            }
            assert(self.window() =~= old(self).marked_window(elem));
            lemma_mark_step(*old(self), *self, elem);
        }
        let ghost s1 = *self;
        let ghost mut popped: int = 0;
        proof {
            lemma_saturated_prefix_bounds(s1.window());
            assert(self.window() =~= s1.window().skip(0));
        }
        // Raise the water as far as it goes: absorb every saturated front
        // bucket, 64 values at a time.
        while self.recently_added.len() > 0 && self.recently_added[0] == u64::MAX
            invariant
                0 <= popped <= saturated_prefix(s1.window()),
                self.watermark == s1.watermark + 64 * popped,
                self.window() == s1.window().skip(popped),
                popped + saturated_prefix(self.window()) == saturated_prefix(s1.window()),
                forall|x: u64| self.contains_spec(x) <==> s1.contains_spec(x),
                self.count_spec() == s1.count_spec(),
                self.bits_in_range(),
            decreases self.recently_added.len(),
        {
            proof {
                lemma_saturated_prefix_bounds(self.window().skip(1));
            }
            // Absorbing one more bucket must not push the watermark past the
            // largest representable value.
            if self.watermark > u64::MAX - 64 {
                return Err(WatermarkError::WatermarkOverflow);
            }
            let ghost prev = *self;
            self.recently_added.pop_front();
            self.watermark = self.watermark + 64;
            proof {
                popped = popped + 1;
                lemma_pop_step(prev, *self);
                assert(s1.window().skip(popped - 1).skip(1) =~= s1.window().skip(popped));
            }
        }
        Ok(())
    }

    /// How many distinct values have been inserted: everything submerged
    /// below the watermark plus every set bit of the window.
    #[verifier::loop_isolation(false)]
    pub fn size(&self) -> (r: usize)
        requires
            self.count_spec() <= usize::MAX as int,
        ensures
            r == self.count_spec(),
    {
        proof {
            lemma_window_count_bounds(self.window(), self.window().len() as int);
        }
        // Count anything that is submerged in the watermark,
        let mut size: usize = self.watermark as usize;
        let mut i: usize = 0;
        while i < self.recently_added.len()
            invariant
                i <= self.window().len(),
                size == self.watermark + window_count(self.window(), i as int),
            decreases self.window().len() - i,
        {
            proof {
                lemma_window_count_mono(self.window(), i + 1, self.window().len() as int);
            }
            // plus any bits set above the watermark.
            let ones: u64 = crate::bits::count_set_bits(self.recently_added[i]);
            size = size + (ones as usize);
            i = i + 1;
        }
        size
    }

    /// Which bucket of the window `elem` falls in, and which bit of that
    /// bucket stands for it.
    fn bucket_and_offset(&self, elem: u64) -> (r: (usize, usize))
        requires
            self.watermark <= elem,
            self.gap_fits(elem),
        ensures
            r.0 == (elem - self.watermark) / 64,
            r.1 == (elem - self.watermark) % 64,
    {
        let diff: usize = (elem - self.watermark) as usize;
        let bucket: usize = diff / 64;
        let offset: usize = diff % 64;
        (bucket, offset)
    }
}

impl Default for WatermarkSet {
    /// An empty set: watermark zero, nothing tracked.
    fn default() -> (r: WatermarkSet)
        ensures
            r.watermark == 0,
            r.window().len() == 0,
            r.wf(),
            forall|x: u64| !r.contains_spec(x),
            r.count_spec() == 0,
    {
        WatermarkSet::new(0)
    }
}

/// Relies on `VecDeque`'s `IndexMut` implementation: assigning through
/// `v[i]` replaces the element at index `i` and nothing else.
#[verifier::external_body]
fn dq_set(v: &mut VecDeque<u64>, i: usize, value: u64)
    requires
        i < old(v)@.len(),
    ensures
        final(v)@ == old(v)@.update(i as int, value),
{
    v[i] = value;
}

/// Number of set bits across the first `n` buckets of `w`.
pub open spec fn window_count(w: Seq<u64>, n: int) -> int
    decreases n,
{
    if n <= 0 {
        0
    } else {
        window_count(w, n - 1) + popcount(w[n - 1])
    }
}

/// How many buckets at the front of `w` are fully saturated.
pub open spec fn saturated_prefix(w: Seq<u64>) -> int
    decreases w.len(),
{
    if w.len() == 0 || w[0] != u64::MAX {
        0
    } else {
        1 + saturated_prefix(w.skip(1))
    }
}

/// Presence below the waterline: every value strictly below the watermark is
/// held by the set. The watermark only ever advances across fully populated
/// ranges, so such a value was genuinely inserted, never merely assumed.
pub proof fn lemma_present_below_watermark(s: WatermarkSet, x: u64)
    requires
        x < s.watermark,
    ensures
        s.contains_spec(x),
{
}

/// Absence outside the window: a value at or above the watermark whose
/// bucket lies beyond the window is not held by the set.
pub proof fn lemma_absent_outside_window(s: WatermarkSet, x: u64)
    requires
        s.watermark <= x,
        x - s.watermark >= 64 * s.window().len(),
    ensures
        !s.contains_spec(x),
{
    let d = x - s.watermark;
    lemma_fundamental_div_mod(d, 64);
    lemma_mod_bound(d, 64);
}

/// A saturated prefix is never negative and never longer than the window.
pub proof fn lemma_saturated_prefix_bounds(w: Seq<u64>)
    ensures
        0 <= saturated_prefix(w) <= w.len(),
    decreases w.len(),
{
    if w.len() > 0 && w[0] == u64::MAX {
        lemma_saturated_prefix_bounds(w.skip(1));
    }
}

/// A window never holds a negative number of set bits, and at most 64 per
/// bucket.
pub proof fn lemma_window_count_bounds(w: Seq<u64>, n: int)
    requires
        0 <= n,
    ensures
        0 <= window_count(w, n) <= 64 * n,
    decreases n,
{
    if n > 0 {
        lemma_window_count_bounds(w, n - 1);
        lemma_popcount_bounds(w[n - 1]);
    }
}

/// Counting more buckets never counts fewer set bits.
proof fn lemma_window_count_mono(w: Seq<u64>, m: int, n: int)
    requires
        0 <= m <= n,
    ensures
        window_count(w, m) <= window_count(w, n),
    decreases n,
{
    if n > m {
        lemma_window_count_mono(w, m, n - 1);
        lemma_popcount_bounds(w[n - 1]);
    }
}

/// Windows that agree bucket for bucket hold the same number of set bits.
proof fn lemma_window_count_agree(w1: Seq<u64>, w2: Seq<u64>, n: int)
    requires
        forall|i: int| 0 <= i < n ==> w1[i] == w2[i],
    ensures
        window_count(w1, n) == window_count(w2, n),
    decreases n,
{
    if n > 0 {
        lemma_window_count_agree(w1, w2, n - 1);
    }
}

/// Splitting off the front bucket splits the bit count.
proof fn lemma_window_count_skip1(w: Seq<u64>, n: int)
    requires
        1 <= n <= w.len(),
    ensures
        window_count(w, n) == popcount(w[0]) + window_count(w.skip(1), n - 1),
    decreases n,
{
    if n > 1 {
        lemma_window_count_skip1(w, n - 1);
        assert(w.skip(1)[n - 2] == w[n - 1]);
    } else {
        assert(window_count(w, 0) == 0);
        assert(window_count(w.skip(1), 0) == 0);
    }
}

/// Buckets known to be zero past `lo` add nothing to the bit count.
proof fn lemma_window_count_zero_tail(w: Seq<u64>, lo: int, n: int)
    requires
        0 <= lo <= n,
        forall|i: int| lo <= i < n ==> w[i] == 0u64,
    ensures
        window_count(w, n) == window_count(w, lo),
    decreases n,
{
    if n > lo {
        lemma_window_count_zero_tail(w, lo, n - 1);
        lemma_popcount_zero();
    }
}

/// Replacing one bucket changes the bit count by the difference of the two
/// buckets' bit counts.
proof fn lemma_window_count_update(w: Seq<u64>, b: int, v: u64, n: int)
    requires
        0 <= b < n <= w.len(),
    ensures
        window_count(w.update(b, v), n) == window_count(w, n) - popcount(w[b]) + popcount(v),
    decreases n,
{
    let wu = w.update(b, v);
    if n - 1 == b {
        lemma_window_count_agree(wu, w, n - 1);
    } else {
        lemma_window_count_update(w, b, v, n - 1);
        assert(wu[n - 1] == w[n - 1]);
    }
}

/// Setting the bit for `elem` adds exactly `elem` to the tracked values,
/// raises the bit count by one if `elem` was absent, and keeps every set bit
/// addressable.
proof fn lemma_mark_step(pre: WatermarkSet, post: WatermarkSet, elem: u64)
    requires
        pre.watermark <= elem,
        post.watermark == pre.watermark,
        post.window() == pre.marked_window(elem),
        pre.bits_in_range(),
    ensures
        forall|x: u64| post.contains_spec(x) <==> pre.contains_spec(x) || x == elem,
        post.count_spec() == pre.count_spec() + if pre.contains_spec(elem) {
            0int
        } else {
            1int
        },
        post.bits_in_range(),
        post.window().len() >= pre.window().len(),
        (elem - pre.watermark) / 64 < post.window().len(),
        pre.contains_spec(elem) ==> post.window() == pre.window(),
{
    let wm = pre.watermark as int;
    let d = elem - pre.watermark;
    let b = d / 64;
    let j = d % 64;
    lemma_fundamental_div_mod(d, 64);
    lemma_mod_bound(d, 64);
    lemma_div_pos_is_pos(d, 64);
    let w = pre.window();
    let grown: Seq<u64> = if b < w.len() {
        w
    } else {
        w + Seq::new((b + 1 - w.len()) as nat, |k: int| 0u64)
    };
    let gb = grown[b];
    let wpost = post.window();
    assert(wpost == grown.update(b, gb | (1u64 << (j as u64))));
    assert(wpost.len() == grown.len());
    assert(b < grown.len());
    // Membership: exactly `elem` is added.
    assert forall|x: u64| post.contains_spec(x) <==> pre.contains_spec(x) || x == elem by {
        if x >= pre.watermark {
            let dx = x - wm;
            let bx = dx / 64;
            let jx = dx % 64;
            lemma_fundamental_div_mod(dx, 64);
            lemma_mod_bound(dx, 64);
            lemma_div_pos_is_pos(dx, 64);
            if bx == b {
                lemma_nth_bit_or(gb, j as u64, jx as u64);
                if b >= w.len() {
                    lemma_popcount_zero();
                }
            } else {
                if w.len() <= bx < wpost.len() {
                    lemma_popcount_zero();
                }
            }
        }
    }
    // Counting: one new bit when `elem` was absent, none otherwise.
    lemma_window_count_zero_tail(grown, w.len() as int, grown.len() as int);
    lemma_window_count_agree(grown, w, w.len() as int);
    lemma_window_count_update(grown, b, gb | (1u64 << (j as u64)), grown.len() as int);
    lemma_popcount_or(gb, j as u64);
    if b >= w.len() {
        lemma_popcount_zero();
    }
    // A bit that is already set makes the whole marking a no-op.
    if pre.contains_spec(elem) {
        crate::bits::lemma_or_set_bit_noop(gb, j as u64);
        assert(wpost =~= w);
    }
    // Addressability of every set bit.
    assert forall|i: int, jj: u64|
        0 <= i < wpost.len() && jj < 64 && #[trigger] nth_bit(wpost[i], jj) implies post.watermark
        + 64 * i + jj <= u64::MAX by {
        if i == b {
            lemma_nth_bit_or(gb, j as u64, jj);
            if b >= w.len() {
                lemma_popcount_zero();
            }
        } else {
            if w.len() <= i {
                lemma_popcount_zero();
            }
        }
    }
}

/// Absorbing a saturated front bucket into the watermark changes neither the
/// tracked values nor their number, and keeps every set bit addressable.
proof fn lemma_pop_step(pre: WatermarkSet, post: WatermarkSet)
    requires
        pre.window().len() > 0,
        pre.window()[0] == u64::MAX,
        pre.watermark + 64 <= u64::MAX,
        post.watermark == pre.watermark + 64,
        post.window() == pre.window().skip(1),
        pre.bits_in_range(),
    ensures
        forall|x: u64| post.contains_spec(x) <==> pre.contains_spec(x),
        post.count_spec() == pre.count_spec(),
        post.bits_in_range(),
{
    let wm = pre.watermark as int;
    lemma_popcount_full();
    assert forall|x: u64| post.contains_spec(x) <==> pre.contains_spec(x) by {
        if x >= pre.watermark {
            let dpre = x - wm;
            if dpre < 64 {
                lemma_fundamental_div_mod_converse(dpre, 64, 0, dpre);
            } else {
                let dpost = dpre - 64;
                lemma_fundamental_div_mod(dpost, 64);
                lemma_mod_bound(dpost, 64);
                lemma_div_pos_is_pos(dpost, 64);
                lemma_fundamental_div_mod_converse(dpre, 64, dpost / 64 + 1, dpost % 64);
            }
        }
    }
    lemma_window_count_skip1(pre.window(), pre.window().len() as int);
    assert forall|i: int, jj: u64|
        0 <= i < post.window().len() && jj < 64 && #[trigger] nth_bit(post.window()[i], jj)
        implies post.watermark + 64 * i + jj <= u64::MAX by {
        assert(post.window()[i] == pre.window()[i + 1]);
        assert(nth_bit(pre.window()[i + 1], jj));
    }
}

} // verus!
