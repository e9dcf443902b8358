//! The quiet statistics: how long each ball stays undrawn.

use vstd::prelude::*;
use std::cmp::Ordering;
use std::collections::HashMap;
use indexmap::IndexMap;
use crate::ticket::{LotteryTicket, holds};
use crate::algos::spine_sort::all_balls;

verus! {

broadcast use vstd::std_specs::hash::group_hash_axioms;

/// Per-ball statistics of a window.
#[derive(Debug)]
pub struct QuietStats {
    /// How often the ball was drawn.
    pub resets: u32,
    /// Sum of the miss counts seen at each draw of the ball.
    pub average: u32,
    /// For each quiet-period length, how often the ball was drawn after it.
    pub quiet_count: HashMap<u8, u32>,
    /// Draws since the ball was last drawn.
    pub quiet_counter: u32,
    /// Draws that missed the ball since it was first seen.
    pub miss_count: u32,
}

/// `(resets, average, quiet_count, quiet_counter, miss_count)`.
pub type QuietView = (u32, u32, Map<u8, u32>, u32, u32);

impl View for QuietStats {
    type V = QuietView;

    open spec fn view(&self) -> QuietView {
        (self.resets, self.average, self.quiet_count@, self.quiet_counter, self.miss_count)
    }
}

impl QuietStats {
    /// Statistics of a ball not seen yet.
    pub fn new() -> (r: Self)
        ensures
            r@ == (0u32, 0u32, Map::<u8, u32>::empty(), 0u32, 0u32),
    {
        QuietStats {
            resets: 0,
            average: 0,
            quiet_count: HashMap::new(),
            quiet_counter: 0,
            miss_count: 0,
        }
    }
}

/// The ordered map type of the `indexmap` crate.
#[verifier::external_type_specification]
#[verifier::external_body]
#[verifier::reject_recursive_types(K)]
#[verifier::reject_recursive_types(V)]
#[verifier::reject_recursive_types(S)]
pub struct ExIndexMap<K, V, S>(IndexMap<K, V, S>);

/// The entries of an ordered statistics map, in the map's order, each with
/// the view of its statistics.
pub uninterp spec fn quiet_entries(m: IndexMap<u8, QuietStats>) -> Seq<(u8, QuietView)>;

/// Statistics of each ball seen, in order of first sighting, and whether
/// every counter stayed within its type.
pub type QuietTally = (Seq<(u8, QuietView)>, bool);

/// Index of the entry of ball `num`, or -1.
pub open spec fn stat_pos(s: Seq<(u8, QuietView)>, num: u8) -> int
    decreases s.len(),
{
    if s.len() == 0 {
        -1
    } else {
        let p = stat_pos(s.drop_last(), num);
        if p >= 0 {
            p
        } else if s.last().0 == num {
            s.len() - 1
        } else {
            -1
        }
    }
}

/// The statistics of a ball after it is drawn.
pub open spec fn drawn(v: QuietView) -> QuietView {
    let qc = v.3 as u8;
    let m = v.2;
    (
        (v.0 + 1) as u32,
        (v.1 + v.4) as u32,
        m.insert(qc, if m.contains_key(qc) { (m[qc] + 1) as u32 } else { 1u32 }),
        0u32,
        v.4,
    )
}

/// Drawing the ball keeps every counter within its type.
pub open spec fn drawn_fits(v: QuietView) -> bool {
    &&& v.0 < u32::MAX
    &&& v.1 + v.4 <= u32::MAX
    &&& v.3 <= u8::MAX
    &&& v.2.contains_key(v.3 as u8) ==> v.2[v.3 as u8] < u32::MAX
}

/// Records one draw of `num`.
pub open spec fn hit(st: QuietTally, num: u8) -> QuietTally {
    let p = stat_pos(st.0, num);
    let s1 = if p >= 0 { st.0 } else { st.0.push((num, (0u32, 0u32, Map::<u8, u32>::empty(), 0u32, 0u32))) };
    let p1 = if p >= 0 { p } else { st.0.len() as int };
    (s1.update(p1, (num, drawn(s1[p1].1))), st.1 && drawn_fits(s1[p1].1))
}

/// Records the draws of every ball of `nums`, in order.
pub open spec fn hit_all(st: QuietTally, nums: Seq<u8>) -> QuietTally
    decreases nums.len(),
{
    if nums.len() == 0 {
        st
    } else {
        hit(hit_all(st, nums.drop_last()), nums.last())
    }
}

/// The statistics of a ball after a draw that missed it.
pub open spec fn missed(v: QuietView) -> QuietView {
    (v.0, v.1, v.2, (v.3 + 1) as u32, (v.4 + 1) as u32)
}

/// Counts a miss for every ball seen so far that is not among `nums`.
pub open spec fn miss_all(st: QuietTally, nums: Seq<u8>) -> QuietTally {
    (
        Seq::new(st.0.len(), |i: int| if nums.contains(st.0[i].0) { st.0[i] } else { (st.0[i].0, missed(st.0[i].1)) }),
        st.1 && forall|i: int| 0 <= i < st.0.len() && !nums.contains(st.0[i].0) ==> (#[trigger] st.0[i]).1.3 < u32::MAX && st.0[i].1.4 < u32::MAX,
    )
}

/// The statistics of every ball of the window, in order of first sighting.
pub open spec fn quiet_tally(window: Seq<LotteryTicket>) -> QuietTally
    decreases window.len(),
{
    if window.len() == 0 {
        (Seq::empty(), true)
    } else {
        let nums = window.last().numbers@;
        miss_all(hit_all(quiet_tally(window.drop_last()), nums), nums)
    }
}

/// Every counter of the window's statistics stays within its type.
pub open spec fn quiet_fits(window: Seq<LotteryTicket>) -> bool {
    quiet_tally(window).1
}

proof fn lemma_stat_pos(s: Seq<(u8, QuietView)>, num: u8)
    ensures
        -1 <= stat_pos(s, num) < s.len(),
        stat_pos(s, num) == -1 ==> forall|k: int| 0 <= k < s.len() ==> (#[trigger] s[k]).0 != num,
        stat_pos(s, num) >= 0 ==> s[stat_pos(s, num)].0 == num
            && forall|k: int| 0 <= k < stat_pos(s, num) ==> (#[trigger] s[k]).0 != num,
    decreases s.len(),
{
    if s.len() > 0 {
        lemma_stat_pos(s.drop_last(), num);
        assert forall|k: int| 0 <= k < s.len() - 1 implies #[trigger] s[k] == s.drop_last()[k] by {}
    }
}

proof fn lemma_not_ok_hit_all(st: QuietTally, nums: Seq<u8>)
    requires
        !st.1,
    ensures
        !hit_all(st, nums).1,
    decreases nums.len(),
{
    if nums.len() > 0 {
        lemma_not_ok_hit_all(st, nums.drop_last());
    }
}

proof fn lemma_not_ok_window(w: Seq<LotteryTicket>, t: int)
    requires
        0 <= t <= w.len(),
        !quiet_tally(w.take(t)).1,
    ensures
        !quiet_tally(w).1,
    decreases w.len() - t,
{
    if t < w.len() {
        assert(w.take(t + 1).drop_last() =~= w.take(t));
        let nums = w[t].numbers@;
        lemma_not_ok_hit_all(quiet_tally(w.take(t)), nums);
        lemma_not_ok_window(w, t + 1);
    } else {
        assert(w.take(t) =~= w);
    }
}

proof fn lemma_hit_all_extend(st: QuietTally, nums: Seq<u8>, j: int)
    requires
        0 <= j <= nums.len(),
        !hit_all(st, nums.take(j)).1,
    ensures
        !hit_all(st, nums).1,
    decreases nums.len() - j,
{
    if j < nums.len() {
        assert(nums.take(j + 1).drop_last() =~= nums.take(j));
        lemma_hit_all_extend(st, nums, j + 1);
    } else {
        assert(nums.take(j) =~= nums);
    }
}

/// Sum of the draw counts of the statistics.
pub open spec fn resets_total(s: Seq<(u8, QuietView)>) -> int
    decreases s.len(),
{
    if s.len() == 0 {
        0
    } else {
        resets_total(s.drop_last()) + s.last().1.0
    }
}

proof fn lemma_resets_update(s: Seq<(u8, QuietView)>, p: int, x: (u8, QuietView))
    requires
        0 <= p < s.len(),
    ensures
        resets_total(s.update(p, x)) == resets_total(s) - s[p].1.0 + x.1.0,
    decreases s.len(),
{
    if p < s.len() - 1 {
        lemma_resets_update(s.drop_last(), p, x);
        assert(s.update(p, x).drop_last() =~= s.drop_last().update(p, x));
    } else {
        assert(s.update(p, x).drop_last() =~= s.drop_last());
    }
}

proof fn lemma_resets_same(a: Seq<(u8, QuietView)>, b: Seq<(u8, QuietView)>)
    requires
        a.len() == b.len(),
        forall|i: int| 0 <= i < a.len() ==> (#[trigger] a[i]).1.0 == b[i].1.0,
    ensures
        resets_total(a) == resets_total(b),
    decreases a.len(),
{
    if a.len() > 0 {
        lemma_resets_same(a.drop_last(), b.drop_last());
    }
}

proof fn lemma_resets_hit_all(st: QuietTally, nums: Seq<u8>)
    requires
        hit_all(st, nums).1,
    ensures
        st.1,
        resets_total(hit_all(st, nums).0) == resets_total(st.0) + nums.len(),
    decreases nums.len(),
{
    if !st.1 {
        lemma_not_ok_hit_all(st, nums);
    }
    if nums.len() > 0 {
        let prev = hit_all(st, nums.drop_last());
        if !prev.1 {
            assert(!hit(prev, nums.last()).1);
        }
        lemma_resets_hit_all(st, nums.drop_last());
        let num = nums.last();
        let p = stat_pos(prev.0, num);
        let s1 = if p >= 0 { prev.0 } else { prev.0.push((num, (0u32, 0u32, Map::<u8, u32>::empty(), 0u32, 0u32))) };
        let p1 = if p >= 0 { p } else { prev.0.len() as int };
        lemma_stat_pos(prev.0, num);
        if p < 0 {
            assert(s1.drop_last() =~= prev.0);
            assert(resets_total(s1) == resets_total(prev.0));
        }
        lemma_resets_update(s1, p1, (num, drawn(s1[p1].1)));
    }
}

/// Every drawn ball is counted once: the draw counts of a window's
/// statistics add up to the number of balls drawn in the window.
pub proof fn lemma_quiet_counts_every_ball(window: Seq<LotteryTicket>)
    requires
        quiet_fits(window),
    ensures
        resets_total(quiet_tally(window).0) == all_balls(window).len(),
    decreases window.len(),
{
    if window.len() > 0 {
        let nums = window.last().numbers@;
        let prev = quiet_tally(window.drop_last());
        let h = hit_all(prev, nums);
        if !h.1 {
            assert(!miss_all(h, nums).1);
        }
        lemma_resets_hit_all(prev, nums);
        lemma_quiet_counts_every_ball(window.drop_last());
        let m = miss_all(h, nums);
        lemma_resets_same(m.0, h.0);
    }
}

/// Ball `b` is drawn in some ticket of the window.
pub open spec fn seen_in(w: Seq<LotteryTicket>, b: u8) -> bool {
    exists|i: int| 0 <= i < w.len() && #[trigger] w[i].numbers@.contains(b)
}

/// How often `b` occurs in `nums`.
pub open spec fn occurrences(nums: Seq<u8>, b: u8) -> nat {
    nums.filter(|x: u8| x == b).len()
}

/// How often `b` is drawn in the window (each occurrence counts).
pub open spec fn draws_of(w: Seq<LotteryTicket>, b: u8) -> nat
    decreases w.len(),
{
    if w.len() == 0 {
        0
    } else {
        draws_of(w.drop_last(), b) + occurrences(w.last().numbers@, b)
    }
}

/// The tickets of the window that miss `b` and come after a ticket that
/// holds it.
pub open spec fn misses_of(w: Seq<LotteryTicket>, b: u8) -> nat
    decreases w.len(),
{
    if w.len() == 0 {
        0
    } else {
        misses_of(w.drop_last(), b) + if seen_in(w.drop_last(), b) && !w.last().numbers@.contains(b) {
            1nat
        } else {
            0nat
        }
    }
}

/// The tickets at the end of the window that miss `b`, counted only once
/// `b` has been drawn (0 when the last ticket holds `b`).
pub open spec fn quiet_run(w: Seq<LotteryTicket>, b: u8) -> nat
    decreases w.len(),
{
    if w.len() == 0 {
        0
    } else if w.last().numbers@.contains(b) {
        0
    } else if seen_in(w.drop_last(), b) {
        quiet_run(w.drop_last(), b) + 1
    } else {
        0
    }
}

/// The sum, over every draw of `b` in the window, of the tickets missing `b`
/// since its first draw and before that draw.
pub open spec fn miss_sum(w: Seq<LotteryTicket>, b: u8) -> nat
    decreases w.len(),
{
    if w.len() == 0 {
        0
    } else {
        miss_sum(w.drop_last(), b) + occurrences(w.last().numbers@, b) * misses_of(w.drop_last(), b)
    }
}

/// The statistics of `b` in `s`, all zero when `b` has no entry.
pub open spec fn entry_or_zero(s: Seq<(u8, QuietView)>, b: u8) -> QuietView {
    if stat_pos(s, b) >= 0 {
        s[stat_pos(s, b)].1
    } else {
        (0u32, 0u32, Map::<u8, u32>::empty(), 0u32, 0u32)
    }
}

proof fn lemma_stat_pos_same_keys(s: Seq<(u8, QuietView)>, t: Seq<(u8, QuietView)>, b: u8)
    requires
        s.len() == t.len(),
        forall|i: int| 0 <= i < s.len() ==> (#[trigger] s[i]).0 == t[i].0,
    ensures
        stat_pos(s, b) == stat_pos(t, b),
    decreases s.len(),
{
    if s.len() > 0 {
        assert forall|i: int| 0 <= i < s.drop_last().len() implies (#[trigger] s.drop_last()[i]).0 == t.drop_last()[i].0 by {
            assert(s.drop_last()[i] == s[i] && t.drop_last()[i] == t[i]);
        }
        lemma_stat_pos_same_keys(s.drop_last(), t.drop_last(), b);
        assert(s.last().0 == t.last().0);
    }
}

proof fn lemma_hit_entry(st: QuietTally, num: u8, b: u8)
    requires
        hit(st, num).1,
    ensures
        st.1,
        stat_pos(hit(st, num).0, b) >= 0 <==> stat_pos(st.0, b) >= 0 || b == num,
        b == num ==> ({
            let o = entry_or_zero(st.0, b);
            let n = entry_or_zero(hit(st, num).0, b);
            &&& n.0 == o.0 + 1
            &&& n.1 == o.1 + o.4
            &&& n.3 == 0
            &&& n.4 == o.4
        }),
        b != num ==> entry_or_zero(hit(st, num).0, b) == entry_or_zero(st.0, b),
{
    let p = stat_pos(st.0, num);
    lemma_stat_pos(st.0, num);
    lemma_stat_pos(st.0, b);
    let z = (0u32, 0u32, Map::<u8, u32>::empty(), 0u32, 0u32);
    let s1 = if p >= 0 { st.0 } else { st.0.push((num, z)) };
    let p1 = if p >= 0 { p } else { st.0.len() as int };
    if p < 0 {
        assert(s1.drop_last() =~= st.0);
    }
    assert(s1[p1].0 == num);
    assert(s1[p1].1 == entry_or_zero(st.0, num));
    let x = (num, drawn(s1[p1].1));
    let nw = s1.update(p1, x);
    assert(nw == hit(st, num).0);
    lemma_stat_pos_same_keys(s1, nw, b);
    lemma_stat_pos(s1, b);
    if b == num {
        lemma_stat_pos(s1, num);
        assert(stat_pos(s1, num) == p1);
    } else {
        assert(stat_pos(s1, b) == stat_pos(st.0, b));
        if stat_pos(st.0, b) >= 0 {
            assert(nw[stat_pos(st.0, b)] == s1[stat_pos(st.0, b)]);
        }
    }
}

proof fn lemma_occurrences_step(nums: Seq<u8>, b: u8)
    requires
        nums.len() > 0,
    ensures
        occurrences(nums, b) == occurrences(nums.drop_last(), b) + if nums.last() == b { 1nat } else { 0nat },
{
    reveal_with_fuel(Seq::filter, 1);
}

proof fn lemma_hit_all_entry(st: QuietTally, nums: Seq<u8>, b: u8)
    requires
        hit_all(st, nums).1,
    ensures
        st.1,
        stat_pos(hit_all(st, nums).0, b) >= 0 <==> stat_pos(st.0, b) >= 0 || nums.contains(b),
        ({
            let o = entry_or_zero(st.0, b);
            let n = entry_or_zero(hit_all(st, nums).0, b);
            &&& n.0 == o.0 + occurrences(nums, b)
            &&& n.1 == o.1 + occurrences(nums, b) * o.4
            &&& n.3 == if nums.contains(b) { 0 } else { o.3 as int }
            &&& n.4 == o.4
        }),
    decreases nums.len(),
{
    if nums.len() == 0 {
        assert(nums.filter(|x: u8| x == b) =~= Seq::<u8>::empty()) by {
            reveal_with_fuel(Seq::filter, 1);
        }
        assert(occurrences(nums, b) == 0);
        let o = entry_or_zero(st.0, b);
        assert(occurrences(nums, b) * o.4 == 0);
        assert(!nums.contains(b));
    } else {
        let prev = hit_all(st, nums.drop_last());
        lemma_hit_entry(prev, nums.last(), b);
        lemma_hit_all_entry(st, nums.drop_last(), b);
        lemma_occurrences_step(nums, b);
        let o = entry_or_zero(st.0, b);
        let o2 = entry_or_zero(prev.0, b);
        let n = entry_or_zero(hit_all(st, nums).0, b);
        let k = occurrences(nums.drop_last(), b);
        let m = o.4 as int;
        assert(hit_all(st, nums) == hit(prev, nums.last()));
        assert(o2.1 == o.1 + k * m);
        assert(o2.4 == o.4);
        if nums.last() == b {
            assert(occurrences(nums, b) == k + 1);
            assert((k + 1) * m == k * m + m) by (nonlinear_arith);
            assert(n.1 == o2.1 + o2.4);
            assert(n.1 == o.1 + occurrences(nums, b) * o.4);
        } else {
            assert(occurrences(nums, b) == k);
            assert(n == o2);
        }
        assert(nums.contains(b) <==> nums.drop_last().contains(b) || nums.last() == b) by {
            if nums.contains(b) {
                let i = choose|i: int| 0 <= i < nums.len() && nums[i] == b;
                if i < nums.len() - 1 {
                    assert(nums.drop_last()[i] == b);
                }
            }
            if nums.drop_last().contains(b) {
                let i = choose|i: int| 0 <= i < nums.drop_last().len() && nums.drop_last()[i] == b;
                assert(nums[i] == b);
            }
        }
    }
}

proof fn lemma_miss_all_entry(st: QuietTally, nums: Seq<u8>, b: u8)
    requires
        miss_all(st, nums).1,
    ensures
        st.1,
        stat_pos(miss_all(st, nums).0, b) == stat_pos(st.0, b),
        ({
            let o = entry_or_zero(st.0, b);
            let n = entry_or_zero(miss_all(st, nums).0, b);
            &&& n.0 == o.0
            &&& n.1 == o.1
            &&& n.3 == if stat_pos(st.0, b) >= 0 && !nums.contains(b) { o.3 + 1 } else { o.3 as int }
            &&& n.4 == if stat_pos(st.0, b) >= 0 && !nums.contains(b) { o.4 + 1 } else { o.4 as int }
        }),
{
    let nw = miss_all(st, nums).0;
    lemma_stat_pos_same_keys(st.0, nw, b);
    lemma_stat_pos(st.0, b);
    let p = stat_pos(st.0, b);
    if p >= 0 {
        assert(st.0[p].0 == b);
        if !nums.contains(b) {
            assert(st.0[p].1.4 < u32::MAX);
            assert(st.0[p].1.3 < u32::MAX);
        }
    }
}

proof fn lemma_seen_step(w: Seq<LotteryTicket>, b: u8)
    requires
        w.len() > 0,
    ensures
        seen_in(w, b) <==> seen_in(w.drop_last(), b) || w.last().numbers@.contains(b),
{
    if seen_in(w, b) {
        let i = choose|i: int| 0 <= i < w.len() && #[trigger] w[i].numbers@.contains(b);
        if i < w.len() - 1 {
            assert(w.drop_last()[i] == w[i]);
        }
    }
    if seen_in(w.drop_last(), b) {
        let i = choose|i: int| 0 <= i < w.drop_last().len() && #[trigger] w.drop_last()[i].numbers@.contains(b);
        assert(w[i] == w.drop_last()[i]);
    }
}

proof fn lemma_unseen_zero(w: Seq<LotteryTicket>, b: u8)
    requires
        !seen_in(w, b),
    ensures
        draws_of(w, b) == 0,
        misses_of(w, b) == 0,
        miss_sum(w, b) == 0,
        quiet_run(w, b) == 0,
    decreases w.len(),
{
    if w.len() > 0 {
        lemma_seen_step(w, b);
        lemma_unseen_zero(w.drop_last(), b);
        let nums = w.last().numbers@;
        assert(!nums.contains(b));
        assert forall|i: int| 0 <= i < nums.len() implies nums[i] != b by {
            if nums[i] == b {
                assert(nums.contains(b));
            }
        }
        lemma_no_occurrence(nums, b);
        assert(occurrences(nums, b) == 0);
        assert(occurrences(nums, b) * misses_of(w.drop_last(), b) == 0);
    }
}

proof fn lemma_no_occurrence(nums: Seq<u8>, b: u8)
    requires
        forall|i: int| 0 <= i < nums.len() ==> nums[i] != b,
    ensures
        occurrences(nums, b) == 0,
    decreases nums.len(),
{
    if nums.len() > 0 {
        assert forall|i: int| 0 <= i < nums.drop_last().len() implies nums.drop_last()[i] != b by {
            assert(nums.drop_last()[i] == nums[i]);
        }
        lemma_no_occurrence(nums.drop_last(), b);
        lemma_occurrences_step(nums, b);
    } else {
        assert(nums.filter(|x: u8| x == b) =~= Seq::<u8>::empty()) by {
            reveal_with_fuel(Seq::filter, 1);
        }
    }
}

/// What the statistics of a ball hold: it has an entry exactly when it is
/// drawn in the window, and then its draw count is how often it is drawn,
/// its miss count is the number of tickets that miss it after its first
/// draw, its quiet counter is the number of tickets since its last draw,
/// and its average is the sum, over each of its draws, of the tickets that
/// missed it since its first draw and before that draw.
pub proof fn lemma_quiet_stats_meaning(window: Seq<LotteryTicket>, b: u8)
    requires
        quiet_fits(window),
    ensures
        stat_pos(quiet_tally(window).0, b) >= 0 <==> seen_in(window, b),
        ({
            let v = entry_or_zero(quiet_tally(window).0, b);
            &&& v.0 == draws_of(window, b)
            &&& v.1 == miss_sum(window, b)
            &&& v.3 == quiet_run(window, b)
            &&& v.4 == misses_of(window, b)
        }),
    decreases window.len(),
{
    if window.len() == 0 {
        assert(!seen_in(window, b));
    } else {
        let w0 = window.drop_last();
        let nums = window.last().numbers@;
        let prev = quiet_tally(w0);
        let h = hit_all(prev, nums);
        lemma_miss_all_entry(h, nums, b);
        lemma_hit_all_entry(prev, nums, b);
        assert(quiet_fits(w0));
        lemma_quiet_stats_meaning(w0, b);
        lemma_seen_step(window, b);
        if !seen_in(w0, b) {
            lemma_unseen_zero(w0, b);
        }
        if !nums.contains(b) {
            lemma_no_occurrence(nums, b);
        }
        let o = entry_or_zero(prev.0, b);
        assert(occurrences(nums, b) * misses_of(w0, b) == occurrences(nums, b) * o.4);
    }
}

/// No ball has two entries.
pub open spec fn keys_unique(s: Seq<(u8, QuietView)>) -> bool {
    forall|i: int, j: int| 0 <= i < j < s.len() ==> (#[trigger] s[i]).0 != (#[trigger] s[j]).0
}

/// Draw counts never increase along `s`.
pub open spec fn sorted_by_resets(s: Seq<(u8, QuietView)>) -> bool {
    forall|i: int, j: int| 0 <= i < j < s.len() ==> (#[trigger] s[i]).1.0 >= (#[trigger] s[j]).1.0
}

/// The entries of `s` drawn exactly `k` times, in order.
pub open spec fn with_resets(s: Seq<(u8, QuietView)>, k: u32) -> Seq<(u8, QuietView)> {
    s.filter(|e: (u8, QuietView)| e.1.0 == k)
}

/// `r` is `s` stably sorted by draw count, most drawn first: the same
/// entries, in non-increasing draw count, entries with equal counts kept in
/// their order in `s`.
pub open spec fn stably_sorted_from(r: Seq<(u8, QuietView)>, s: Seq<(u8, QuietView)>) -> bool {
    &&& r.to_multiset() == s.to_multiset()
    &&& sorted_by_resets(r)
    &&& forall|k: u32| #[trigger] with_resets(r, k) == with_resets(s, k)
}

/// Orders statistics by draw count, most drawn first.
pub fn resets_order(a: &QuietStats, b: &QuietStats) -> (r: Ordering)
    ensures
        (r == Ordering::Less) == (a.resets > b.resets),
        (r == Ordering::Equal) == (a.resets == b.resets),
        (r == Ordering::Greater) == (a.resets < b.resets),
{
    if b.resets < a.resets {
        Ordering::Less
    } else if b.resets == a.resets {
        Ordering::Equal
    } else {
        Ordering::Greater
    }
}

/// `IndexMap::new`: an empty map.
#[verifier::external_body]
fn stats_map_new() -> (r: IndexMap<u8, QuietStats>)
    ensures
        quiet_entries(r) == Seq::<(u8, QuietView)>::empty(),
{
    IndexMap::new()
}

/// `IndexMap::len`: the number of entries.
#[verifier::external_body]
fn stats_map_len(m: &IndexMap<u8, QuietStats>) -> (r: usize)
    ensures
        r == quiet_entries(*m).len(),
{
    m.len()
}

/// `IndexMap::get_index`: the ball of the entry at `i`.
#[verifier::external_body]
fn stats_key_at(m: &IndexMap<u8, QuietStats>, i: usize) -> (r: u8)
    requires
        i < quiet_entries(*m).len(),
    ensures
        r == quiet_entries(*m)[i as int].0,
{
    *m.get_index(i).unwrap().0
}

/// `IndexMap::insert`: a ball already present keeps its place and gets the
/// new statistics, its old statistics are returned; a new ball is appended.
#[verifier::external_body]
fn stats_insert(m: &mut IndexMap<u8, QuietStats>, k: u8, v: QuietStats) -> (r: Option<QuietStats>)
    ensures
        stat_pos(quiet_entries(*old(m)), k) >= 0 ==> quiet_entries(*final(m)) == quiet_entries(*old(m)).update(
            stat_pos(quiet_entries(*old(m)), k),
            (k, v@),
        ),
        stat_pos(quiet_entries(*old(m)), k) >= 0 ==> (r matches Some(o) && o@ == quiet_entries(*old(m))[stat_pos(
            quiet_entries(*old(m)),
            k,
        )].1),
        stat_pos(quiet_entries(*old(m)), k) < 0 ==> quiet_entries(*final(m)) == quiet_entries(*old(m)).push((k, v@)),
        stat_pos(quiet_entries(*old(m)), k) < 0 ==> r is None,
{
    m.insert(k, v)
}

/// `IndexMap::sort_by` with `resets_order`: a stable sort by draw count,
/// most drawn first.
#[verifier::external_body]
fn stats_sort(m: &mut IndexMap<u8, QuietStats>)
    ensures
        stably_sorted_from(quiet_entries(*final(m)), quiet_entries(*old(m))),
{
    m.sort_by(|_, a, _, b| resets_order(a, b))
}

proof fn lemma_hit_unique(st: QuietTally, num: u8)
    requires
        keys_unique(st.0),
    ensures
        keys_unique(hit(st, num).0),
{
    lemma_stat_pos(st.0, num);
    let p = stat_pos(st.0, num);
    let s1 = if p >= 0 { st.0 } else { st.0.push((num, (0u32, 0u32, Map::<u8, u32>::empty(), 0u32, 0u32))) };
    let p1 = if p >= 0 { p } else { st.0.len() as int };
    assert(keys_unique(s1)) by {
        if p < 0 {
            assert forall|i: int, j: int| 0 <= i < j < s1.len() implies (#[trigger] s1[i]).0 != (#[trigger] s1[j]).0 by {
                if j == st.0.len() {
                    assert(s1[i] == st.0[i]);
                } else {
                    assert(s1[i] == st.0[i] && s1[j] == st.0[j]);
                }
            }
        }
    }
    let r = s1.update(p1, (num, drawn(s1[p1].1)));
    assert forall|i: int, j: int| 0 <= i < j < r.len() implies (#[trigger] r[i]).0 != (#[trigger] r[j]).0 by {
        assert(r[i].0 == s1[i].0 && r[j].0 == s1[j].0);
    }
}

proof fn lemma_hit_all_unique(st: QuietTally, nums: Seq<u8>)
    requires
        keys_unique(st.0),
    ensures
        keys_unique(hit_all(st, nums).0),
    decreases nums.len(),
{
    if nums.len() > 0 {
        lemma_hit_all_unique(st, nums.drop_last());
        lemma_hit_unique(hit_all(st, nums.drop_last()), nums.last());
    }
}

proof fn lemma_unique_pos(s: Seq<(u8, QuietView)>, i: int)
    requires
        keys_unique(s),
        0 <= i < s.len(),
    ensures
        stat_pos(s, s[i].0) == i,
{
    lemma_stat_pos(s, s[i].0);
}

/// Records one draw of `num` in the statistics map.
fn record_hit(m: &mut IndexMap<u8, QuietStats>, num: u8) -> (ok: bool)
    ensures
        ok == hit((quiet_entries(*old(m)), true), num).1,
        ok ==> quiet_entries(*final(m)) == hit((quiet_entries(*old(m)), true), num).0,
{
    let ghost s0 = quiet_entries(*m);
    proof { lemma_stat_pos(s0, num); }
    let mut st = match stats_insert(m, num, QuietStats::new()) {
        Some(o) => o,
        None => QuietStats::new(),
    };
    let ghost p1 = if stat_pos(s0, num) >= 0 { stat_pos(s0, num) } else { s0.len() as int };
    let ghost s1 = if stat_pos(s0, num) >= 0 { s0 } else { s0.push((num, (0u32, 0u32, Map::<u8, u32>::empty(), 0u32, 0u32))) };
    assert(st@ == s1[p1].1);
    proof {
        let cur = quiet_entries(*m);
        lemma_stat_pos(cur, num);
        assert(cur[p1].0 == num);
        assert forall|k: int| 0 <= k < p1 implies (#[trigger] cur[k]).0 != num by {
            assert(cur[k] == s0[k]);
        }
        let sp = stat_pos(cur, num);
        if sp != p1 {
            if sp < p1 {
                assert(cur[sp].0 != num);
            } else {
                assert(cur[p1].0 != num);
            }
        }
        assert(stat_pos(cur, num) == p1);
    }
    if st.resets == u32::MAX || st.miss_count > u32::MAX - st.average || st.quiet_counter > 255 {
        return false;
    }
    let qc = st.quiet_counter as u8;
    let new_count: u32 = match st.quiet_count.get(&qc) {
        Some(c) => {
            if *c == u32::MAX {
                return false;
            }
            *c + 1
        },
        None => 1,
    };
    st.resets = st.resets + 1;
    st.average = st.average + st.miss_count;
    st.quiet_count.insert(qc, new_count);
    st.quiet_counter = 0;
    let _ = stats_insert(m, num, st);
    proof {
        assert(quiet_entries(*m) =~= s1.update(p1, (num, drawn(s1[p1].1))));
    }
    true
}

/// Counts a miss for every recorded ball that is not among `nums`.
fn record_misses(m: &mut IndexMap<u8, QuietStats>, nums: &Vec<u8>) -> (ok: bool)
    requires
        keys_unique(quiet_entries(*old(m))),
    ensures
        ok == miss_all((quiet_entries(*old(m)), true), nums@).1,
        ok ==> quiet_entries(*final(m)) == miss_all((quiet_entries(*old(m)), true), nums@).0,
{
    let ghost s0 = quiet_entries(*m);
    let ghost target = miss_all((s0, true), nums@);
    let n = stats_map_len(m);
    let mut i: usize = 0;
    while i < n
        invariant
            i <= n,
            n == s0.len(),
            s0 == quiet_entries(*old(m)),
            keys_unique(s0),
            target == miss_all((s0, true), nums@),
            quiet_entries(*m).len() == s0.len(),
            forall|k: int| 0 <= k < s0.len() ==> (#[trigger] quiet_entries(*m)[k]).0 == s0[k].0,
            forall|k: int| 0 <= k < i ==> quiet_entries(*m)[k] == (#[trigger] target.0[k]),
            forall|k: int| i <= k < s0.len() ==> quiet_entries(*m)[k] == (#[trigger] s0[k]),
            forall|k: int| 0 <= k < i && !nums@.contains(s0[k].0) ==> (#[trigger] s0[k]).1.3 < u32::MAX && s0[k].1.4 < u32::MAX,
        decreases n - i,
    {
        let ghost cur = quiet_entries(*m);
        assert(cur[i as int] == s0[i as int]);
        let key = stats_key_at(m, i);
        let present = holds(nums, key);
        if !present {
            proof {
                assert(keys_unique(cur)) by {
                    assert forall|a: int, b: int| 0 <= a < b < cur.len() implies (#[trigger] cur[a]).0 != (#[trigger] cur[b]).0 by {
                        assert(cur[a].0 == s0[a].0 && cur[b].0 == s0[b].0);
                    }
                }
                lemma_unique_pos(cur, i as int);
            }
            let mut st = match stats_insert(m, key, QuietStats::new()) {
                Some(o) => o,
                None => QuietStats::new(),
            };
            assert(st@ == s0[i as int].1);
            proof {
                let c2 = quiet_entries(*m);
                assert(keys_unique(c2)) by {
                    assert forall|a: int, b: int| 0 <= a < b < c2.len() implies (#[trigger] c2[a]).0 != (#[trigger] c2[b]).0 by {
                        assert(c2[a].0 == s0[a].0 && c2[b].0 == s0[b].0);
                    }
                }
                lemma_unique_pos(c2, i as int);
            }
            if st.quiet_counter == u32::MAX || st.miss_count == u32::MAX {
                assert(s0[i as int].1.3 == st.quiet_counter);
                assert(s0[i as int].1.4 == st.miss_count);
                assert(!nums@.contains(s0[i as int].0));
                assert(!target.1);
                return false;
            }
            st.miss_count = st.miss_count + 1;
            st.quiet_counter = st.quiet_counter + 1;
            let _ = stats_insert(m, key, st);
            assert(quiet_entries(*m) == cur.update(i as int, (key, missed(s0[i as int].1))));
        }
        assert(quiet_entries(*m)[i as int] == target.0[i as int]);
        i = i + 1;
    }
    proof {
        assert(quiet_entries(*m) =~= target.0);
        assert forall|k: int| 0 <= k < s0.len() && !nums@.contains(s0[k].0) implies (#[trigger] s0[k]).1.3 < u32::MAX && s0[k].1.4 < u32::MAX by {}
        assert(target.1);
    }
    true
}

/// The statistics of the window in an ordered map, most drawn ball first
/// (balls drawn equally often in order of first sighting); `None` when a
/// counter leaves its type.
pub fn quiet_stats(window: &[LotteryTicket]) -> (r: Option<IndexMap<u8, QuietStats>>)
    ensures
        r is Some <==> quiet_fits(window@),
        r matches Some(m) ==> stably_sorted_from(quiet_entries(m), quiet_tally(window@).0),
{
    let mut m = stats_map_new();
    let mut t: usize = 0;
    while t < window.len()
        invariant
            t <= window.len(),
            quiet_tally(window@.take(t as int)) == (quiet_entries(m), true),
            keys_unique(quiet_entries(m)),
        decreases window.len() - t,
    {
        assert(window@.take(t + 1).drop_last() =~= window@.take(t as int));
        let nums = &window[t].numbers;
        let ghost base = quiet_tally(window@.take(t as int));
        let mut i: usize = 0;
        while i < nums.len()
            invariant
                i <= nums.len(),
                t < window.len(),
                nums@ == window@[t as int].numbers@,
                base == quiet_tally(window@.take(t as int)),
                keys_unique(base.0),
                hit_all(base, nums@.take(i as int)) == (quiet_entries(m), true),
            decreases nums.len() - i,
        {
            assert(nums@.take(i + 1).drop_last() =~= nums@.take(i as int));
            let ok = record_hit(&mut m, nums[i]);
            if !ok {
                proof {
                    lemma_hit_all_extend(base, nums@, i + 1);
                    assert(window@.take(t + 1).drop_last() =~= window@.take(t as int));
                    assert(window@.take(t + 1).last() == window@[t as int]);
                    lemma_not_ok_window(window@, t + 1);
                }
                return None;
            }
            i = i + 1;
        }
        assert(nums@.take(i as int) =~= nums@);
        proof { lemma_hit_all_unique(base, nums@); }
        let ghost before_miss = quiet_entries(m);
        let ok = record_misses(&mut m, nums);
        if !ok {
            proof {
                assert(window@.take(t + 1).last() == window@[t as int]);
                lemma_not_ok_window(window@, t + 1);
            }
            return None;
        }
        proof {
            let a = quiet_entries(m);
            assert forall|x: int, y: int| 0 <= x < y < a.len() implies (#[trigger] a[x]).0 != (#[trigger] a[y]).0 by {
                assert(a[x].0 == before_miss[x].0 && a[y].0 == before_miss[y].0);
            }
        }
        t = t + 1;
    }
    assert(window@.take(window@.len() as int) =~= window@);
    stats_sort(&mut m);
    Some(m)
}

/// The quiet prediction: it gathers the window's statistics and predicts no
/// ball.
pub fn quiet(window: &[LotteryTicket], _length: u8) -> (r: Vec<u8>)
    requires
        quiet_fits(window@),
    ensures
        r@ == Seq::<u8>::empty(),
{
    let _stats = quiet_stats(window);
    Vec::new()
}

} // verus!
