//! Exact counting: the number a watermark set reports is the cardinality of
//! the set of values it holds, so duplicates are never counted twice and
//! submerged values are each counted exactly once.

use vstd::prelude::*;

use crate::bits::count_low_bits;
use crate::bits::nth_bit;
use crate::set::window_count;
use crate::set::WatermarkSet;

verus! {

use vstd::arithmetic::div_mod::lemma_div_pos_is_pos;
use vstd::arithmetic::div_mod::lemma_fundamental_div_mod;
use vstd::arithmetic::div_mod::lemma_fundamental_div_mod_converse;
use vstd::arithmetic::div_mod::lemma_mod_bound;
use vstd::set_lib::lemma_int_range;
use vstd::set_lib::lemma_set_disjoint_lens;
use vstd::set_lib::set_int_range;

impl WatermarkSet {
    /// The values the set holds, as a set of integers: everything strictly
    /// below the watermark together with every value whose bit is set in the
    /// window.
    pub open spec fn content(self) -> Set<int> {
        Set::new(|x: int| 0 <= x <= u64::MAX && self.contains_spec(x as u64))
    }
}

/// The values covered by the set bits among the lowest `m` bits of bucket
/// `b`, placed at `base`.
spec fn bucket_positions(b: u64, base: int, m: int) -> Set<int> {
    Set::new(|x: int| base <= x < base + m && nth_bit(b, (x - base) as u64))
}

proof fn lemma_bucket_positions_card(b: u64, base: int, m: int)
    requires
        0 <= m <= 64,
    ensures
        bucket_positions(b, base, m).finite(),
        bucket_positions(b, base, m).len() == count_low_bits(b, m),
    decreases m,
{
    if m == 0 {
        assert(bucket_positions(b, base, 0) =~= Set::<int>::empty());
    } else {
        lemma_bucket_positions_card(b, base, m - 1);
        if nth_bit(b, (m - 1) as u64) {
            assert(bucket_positions(b, base, m) =~= bucket_positions(b, base, m - 1).insert(
                base + m - 1,
            ));
        } else {
            assert(bucket_positions(b, base, m) =~= bucket_positions(b, base, m - 1));
        }
    }
}

/// The values covered by the set bits of the first `n` buckets of `w`, with
/// bucket 0 starting at `wm`.
spec fn window_positions(wm: int, w: Seq<u64>, n: int) -> Set<int> {
    Set::new(
        |x: int| wm <= x < wm + 64 * n && nth_bit(w[(x - wm) / 64], ((x - wm) % 64) as u64),
    )
}

proof fn lemma_window_positions_card(wm: int, w: Seq<u64>, n: int)
    requires
        0 <= n <= w.len(),
    ensures
        window_positions(wm, w, n).finite(),
        window_positions(wm, w, n).len() == window_count(w, n),
    decreases n,
{
    if n == 0 {
        assert(window_positions(wm, w, 0) =~= Set::<int>::empty());
    } else {
        let base = wm + 64 * (n - 1);
        let prefix = window_positions(wm, w, n - 1);
        let top = bucket_positions(w[n - 1], base, 64);
        lemma_window_positions_card(wm, w, n - 1);
        lemma_bucket_positions_card(w[n - 1], base, 64);
        assert forall|x: int|
            window_positions(wm, w, n).contains(x) == (prefix + top).contains(x) by {
            if wm <= x < wm + 64 * n {
                let d = x - wm;
                lemma_fundamental_div_mod(d, 64);
                lemma_mod_bound(d, 64);
                lemma_div_pos_is_pos(d, 64);
                if base <= x {
                    lemma_fundamental_div_mod_converse(d, 64, n - 1, d - 64 * (n - 1));
                }
            }
        }
        assert(window_positions(wm, w, n) =~= prefix + top);
        assert(prefix.disjoint(top));
        lemma_set_disjoint_lens(prefix, top);
    }
}

/// Exact counting: a well-formed watermark set holds exactly `count_spec`
/// many distinct values, however they arrived. `size` reports this number,
/// so duplicates never inflate it.
pub proof fn lemma_count_is_exact(s: WatermarkSet)
    requires
        s.wf(),
    ensures
        s.content().finite(),
        s.content().len() == s.count_spec(),
{
    let wm = s.watermark as int;
    let w = s.window();
    let n = w.len() as int;
    let low = set_int_range(0, wm);
    let high = window_positions(wm, w, n);
    lemma_int_range(0, wm);
    lemma_window_positions_card(wm, w, n);
    assert forall|x: int| s.content().contains(x) == (low + high).contains(x) by {
        if wm <= x < wm + 64 * n {
            let d = x - wm;
            lemma_fundamental_div_mod(d, 64);
            lemma_mod_bound(d, 64);
            lemma_div_pos_is_pos(d, 64);
            if high.contains(x) {
                // Every set bit addresses a representable value.
                assert(nth_bit(w[d / 64], (d % 64) as u64));
                assert(s.watermark + 64 * (d / 64) + ((d % 64) as u64) <= u64::MAX);
            }
        }
    }
    assert(s.content() =~= low + high);
    assert(low.disjoint(high));
    lemma_set_disjoint_lens(low, high);
}

} // verus!
