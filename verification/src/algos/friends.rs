//! The friends prediction: balls that are drawn together most often.

use vstd::prelude::*;
use std::collections::HashMap;
use crate::ticket::{LotteryTicket, holds};

verus! {

broadcast use vstd::std_specs::hash::group_hash_axioms;

/// A tally of ordered ball pairs: `(first, second, times seen)`, in order
/// of first sighting, and whether every tally stayed within `u32`.
pub type PairTally = (Seq<(u8, u8, u32)>, bool);

/// Index of the entry for the pair `(a, b)`, or -1 when there is none.
pub open spec fn pair_pos(c: Seq<(u8, u8, u32)>, a: u8, b: u8) -> int
    decreases c.len(),
{
    if c.len() == 0 {
        -1
    } else {
        let p = pair_pos(c.drop_last(), a, b);
        if p >= 0 {
            p
        } else if c.last().0 == a && c.last().1 == b {
            c.len() - 1
        } else {
            -1
        }
    }
}

/// Counts one sighting of the pair `(a, b)`.
pub open spec fn add_pair(st: PairTally, a: u8, b: u8) -> PairTally {
    let c = st.0;
    let p = pair_pos(c, a, b);
    if p >= 0 {
        if c[p].2 == u32::MAX {
            (c, false)
        } else {
            (c.update(p, (a, b, (c[p].2 + 1) as u32)), st.1)
        }
    } else {
        (c.push((a, b, 1u32)), st.1)
    }
}

/// Counts the pairs `(a, n)` for every `n` of `nums`.
pub open spec fn count_row(st: PairTally, a: u8, nums: Seq<u8>) -> PairTally
    decreases nums.len(),
{
    if nums.len() == 0 {
        st
    } else {
        add_pair(count_row(st, a, nums.drop_last()), a, nums.last())
    }
}

/// Counts the pairs `(r, n)` for every `r` of `rows` and `n` of `nums`.
pub open spec fn count_ticket(st: PairTally, rows: Seq<u8>, nums: Seq<u8>) -> PairTally
    decreases rows.len(),
{
    if rows.len() == 0 {
        st
    } else {
        count_row(count_ticket(st, rows.drop_last(), nums), rows.last(), nums)
    }
}

/// Tally of every ordered pair of balls drawn on the same ticket of the
/// window (a ball paired with itself included).
pub open spec fn pair_counts(window: Seq<LotteryTicket>) -> PairTally
    decreases window.len(),
{
    if window.len() == 0 {
        (Seq::empty(), true)
    } else {
        let nums = window.last().numbers@;
        count_ticket(pair_counts(window.drop_last()), nums, nums)
    }
}

/// Position of the first entry of `s` seen fewer than `k` times (the
/// length of `s` when there is none).
pub open spec fn first_smaller(s: Seq<(u8, u8, u32)>, k: u32) -> int
    decreases s.len(),
{
    if s.len() == 0 {
        0
    } else {
        let p = first_smaller(s.drop_last(), k);
        if p < s.len() - 1 {
            p
        } else if s.last().2 < k {
            s.len() - 1
        } else {
            s.len() as int
        }
    }
}

/// Inserts `x` after every entry seen at least as often.
pub open spec fn insert_desc(s: Seq<(u8, u8, u32)>, x: (u8, u8, u32)) -> Seq<(u8, u8, u32)> {
    s.insert(first_smaller(s, x.2), x)
}

/// Stable sort by tally, most frequent first.
pub open spec fn sort_desc(s: Seq<(u8, u8, u32)>) -> Seq<(u8, u8, u32)>
    decreases s.len(),
{
    if s.len() == 0 {
        s
    } else {
        insert_desc(sort_desc(s.drop_last()), s.last())
    }
}

/// One step of the selection: `(chosen balls, finished)`.
pub open spec fn pick_step(st: (Seq<u8>, bool), pair: (u8, u8, u32), size: u8) -> (Seq<u8>, bool) {
    let out = st.0;
    if st.1 || pair.0 == pair.1 {
        st
    } else if out.len() >= size + 1 {
        (out.take(size + 1), true)
    } else {
        let o1 = if out.contains(pair.0) { out } else { out.push(pair.0) };
        let o2 = if o1.contains(pair.1) { o1 } else { o1.push(pair.1) };
        (o2, false)
    }
}

/// Walks the sorted pairs, collecting the balls of pairs of two distinct
/// balls until more than `size` balls are collected.
pub open spec fn pick(sorted: Seq<(u8, u8, u32)>, size: u8) -> (Seq<u8>, bool)
    decreases sorted.len(),
{
    if sorted.len() == 0 {
        (Seq::empty(), false)
    } else {
        pick_step(pick(sorted.drop_last(), size), sorted.last(), size)
    }
}

/// The friends prediction of a window.
pub open spec fn spec_friends(window: Seq<LotteryTicket>, size: u8) -> Seq<u8> {
    pick(sort_desc(pair_counts(window).0), size).0
}

/// Every pair tally of the window fits a `u32`.
pub open spec fn friends_fits(window: Seq<LotteryTicket>) -> bool {
    pair_counts(window).1
}

proof fn lemma_pair_pos(c: Seq<(u8, u8, u32)>, a: u8, b: u8)
    ensures
        -1 <= pair_pos(c, a, b) < c.len(),
        pair_pos(c, a, b) == -1 ==> forall|k: int| 0 <= k < c.len() ==> !((#[trigger] c[k]).0 == a && c[k].1 == b),
        pair_pos(c, a, b) >= 0 ==> c[pair_pos(c, a, b)].0 == a && c[pair_pos(c, a, b)].1 == b
            && forall|k: int| 0 <= k < pair_pos(c, a, b) ==> !((#[trigger] c[k]).0 == a && c[k].1 == b),
    decreases c.len(),
{
    if c.len() > 0 {
        lemma_pair_pos(c.drop_last(), a, b);
        assert forall|k: int| 0 <= k < c.len() - 1 implies #[trigger] c[k] == c.drop_last()[k] by {}
    }
}

proof fn lemma_first_smaller(s: Seq<(u8, u8, u32)>, k: u32)
    ensures
        0 <= first_smaller(s, k) <= s.len(),
        first_smaller(s, k) < s.len() ==> s[first_smaller(s, k)].2 < k,
        forall|i: int| 0 <= i < first_smaller(s, k) ==> (#[trigger] s[i]).2 >= k,
    decreases s.len(),
{
    if s.len() > 0 {
        lemma_first_smaller(s.drop_last(), k);
        assert forall|i: int| 0 <= i < s.len() - 1 implies #[trigger] s[i] == s.drop_last()[i] by {}
    }
}

/// The key under which the pair `(a, b)` is counted.
pub open spec fn pair_key(a: u8, b: u8) -> u16 {
    (a * 256 + b) as u16
}

proof fn lemma_pair_key(a: u8, b: u8, a2: u8, b2: u8)
    ensures
        pair_key(a, b) == a * 256 + b,
        pair_key(a, b) == pair_key(a2, b2) ==> a == a2 && b == b2,
{
    assert(a * 256 + b <= 65535);
    assert(a2 * 256 + b2 <= 65535);
}

/// The tally, in order of first sighting, held as the pairs in that order
/// and a map from each pair's key to its count.
pub open spec fn tally_of(order: Seq<(u8, u8)>, counts: Map<u16, u32>) -> Seq<(u8, u8, u32)> {
    Seq::new(order.len(), |i: int| (order[i].0, order[i].1, counts[pair_key(order[i].0, order[i].1)]))
}

/// The map counts exactly the pairs of the order, and no pair is listed
/// twice.
pub open spec fn tally_wf(order: Seq<(u8, u8)>, counts: Map<u16, u32>) -> bool {
    &&& forall|a: u8, b: u8|
        #[trigger] counts.contains_key(pair_key(a, b)) <==> pair_pos(tally_of(order, counts), a, b) >= 0
    &&& forall|i: int, j: int| 0 <= i < j < order.len() ==> #[trigger] order[i] != #[trigger] order[j]
}

/// Counts one sighting of `(a, b)`; `false` when the count would overflow.
fn tally_pair(counts: &mut HashMap<u16, u32>, order: &mut Vec<(u8, u8)>, a: u8, b: u8) -> (ok: bool)
    requires
        tally_wf(old(order)@, old(counts)@),
    ensures
        ok == add_pair((tally_of(old(order)@, old(counts)@), true), a, b).1,
        ok ==> tally_of(final(order)@, final(counts)@) == add_pair((tally_of(old(order)@, old(counts)@), true), a, b).0,
        ok ==> tally_wf(final(order)@, final(counts)@),
{
    let ghost c = tally_of(order@, counts@);
    let ghost o0 = order@;
    let ghost m0 = counts@;
    proof {
        lemma_pair_pos(c, a, b);
        lemma_pair_key(a, b, a, b);
    }
    let k: u16 = (a as u16) * 256 + (b as u16);
    assert(k == pair_key(a, b));
    match counts.get(&k) {
        Some(v) => {
            let v = *v;
            let ghost p = pair_pos(c, a, b);
            assert(o0[p] == (a, b));
            assert(v == c[p].2);
            if v == u32::MAX {
                return false;
            }
            counts.insert(k, v + 1);
            proof {
                let c2 = tally_of(order@, counts@);
                assert forall|i: int| 0 <= i < c2.len() implies #[trigger] c2[i] == c.update(p, (a, b, (v + 1) as u32))[i] by {
                    if i != p {
                        assert(o0[i] != o0[p]) by {
                            if i < p {
                                assert(o0[i] != o0[p]);
                            } else {
                                assert(o0[p] != o0[i]);
                            }
                        }
                        lemma_pair_key(o0[i].0, o0[i].1, a, b);
                    }
                }
                assert(c2 =~= c.update(p, (a, b, (v + 1) as u32)));
                assert forall|a2: u8, b2: u8| #[trigger] counts@.contains_key(pair_key(a2, b2)) <==> pair_pos(c2, a2, b2) >= 0 by {
                    lemma_pair_key(a2, b2, a, b);
                    lemma_pair_pos_update_at(c, p, (v + 1) as u32, a2, b2);
                    assert(m0.contains_key(pair_key(a2, b2)) <==> pair_pos(c, a2, b2) >= 0);
                }
            }
            true
        },
        None => {
            counts.insert(k, 1);
            order.push((a, b));
            proof {
                let c2 = tally_of(order@, counts@);
                assert forall|i: int| 0 <= i < c2.len() implies #[trigger] c2[i] == c.push((a, b, 1u32))[i] by {
                    if i < o0.len() {
                        assert(order@[i] == o0[i]);
                        assert(!(c[i].0 == a && c[i].1 == b));
                        lemma_pair_key(o0[i].0, o0[i].1, a, b);
                    }
                }
                assert(c2 =~= c.push((a, b, 1u32)));
                assert(c2.drop_last() =~= c);
                assert forall|a2: u8, b2: u8| #[trigger] counts@.contains_key(pair_key(a2, b2)) <==> pair_pos(c2, a2, b2) >= 0 by {
                    lemma_pair_key(a2, b2, a, b);
                    assert(m0.contains_key(pair_key(a2, b2)) <==> pair_pos(c, a2, b2) >= 0);
                }
                assert forall|i: int, j: int| 0 <= i < j < order@.len() implies #[trigger] order@[i] != #[trigger] order@[j] by {
                    if j == o0.len() {
                        assert(order@[i] == o0[i]);
                        assert(!(c[i].0 == a && c[i].1 == b));
                    } else {
                        assert(order@[i] == o0[i] && order@[j] == o0[j]);
                    }
                }
            }
            true
        },
    }
}

proof fn lemma_pair_pos_update_at(c: Seq<(u8, u8, u32)>, p: int, n: u32, a: u8, b: u8)
    requires
        0 <= p < c.len(),
    ensures
        pair_pos(c.update(p, (c[p].0, c[p].1, n)), a, b) == pair_pos(c, a, b),
    decreases c.len(),
{
    let u = c.update(p, (c[p].0, c[p].1, n));
    if p < c.len() - 1 {
        assert(u.drop_last() =~= c.drop_last().update(p, (c[p].0, c[p].1, n)));
        assert(c.drop_last()[p] == c[p]);
        lemma_pair_pos_update_at(c.drop_last(), p, n, a, b);
    } else {
        assert(u.drop_last() =~= c.drop_last());
    }
}

proof fn lemma_not_ok_sticks_row(st: PairTally, a: u8, nums: Seq<u8>)
    requires
        !st.1,
    ensures
        !count_row(st, a, nums).1,
    decreases nums.len(),
{
    if nums.len() > 0 {
        lemma_not_ok_sticks_row(st, a, nums.drop_last());
    }
}

proof fn lemma_not_ok_sticks_ticket(st: PairTally, rows: Seq<u8>, nums: Seq<u8>)
    requires
        !st.1,
    ensures
        !count_ticket(st, rows, nums).1,
    decreases rows.len(),
{
    if rows.len() > 0 {
        lemma_not_ok_sticks_ticket(st, rows.drop_last(), nums);
        lemma_not_ok_sticks_row(count_ticket(st, rows.drop_last(), nums), rows.last(), nums);
    }
}

proof fn lemma_not_ok_sticks_window(w: Seq<LotteryTicket>, t: int)
    requires
        0 <= t <= w.len(),
        !pair_counts(w.take(t)).1,
    ensures
        !pair_counts(w).1,
    decreases w.len() - t,
{
    if t < w.len() {
        assert(w.take(t + 1).drop_last() =~= w.take(t));
        let nums = w[t].numbers@;
        lemma_not_ok_sticks_ticket(pair_counts(w.take(t)), nums, nums);
        lemma_not_ok_sticks_window(w, t + 1);
    } else {
        assert(w.take(t) =~= w);
    }
}

/// Tallies every ordered pair of balls drawn on a same ticket; `None` when a
/// tally overflows.
fn count_pairs(window: &[LotteryTicket]) -> (r: Option<Vec<(u8, u8, u32)>>)
    ensures
        r is Some <==> pair_counts(window@).1,
        r matches Some(c) ==> c@ == pair_counts(window@).0,
{
    let mut counts: HashMap<u16, u32> = HashMap::new();
    let mut order: Vec<(u8, u8)> = Vec::new();
    assert(tally_of(order@, counts@) =~= Seq::<(u8, u8, u32)>::empty());
    let mut t: usize = 0;
    while t < window.len()
        invariant
            t <= window.len(),
            tally_wf(order@, counts@),
            pair_counts(window@.take(t as int)) == (tally_of(order@, counts@), true),
        decreases window.len() - t,
    {
        assert(window@.take(t + 1).drop_last() =~= window@.take(t as int));
        let nums = &window[t].numbers;
        let ghost base = pair_counts(window@.take(t as int));
        let mut i: usize = 0;
        while i < nums.len()
            invariant
                i <= nums.len(),
                t < window.len(),
                nums@ == window@[t as int].numbers@,
                base == pair_counts(window@.take(t as int)),
                tally_wf(order@, counts@),
                count_ticket(base, nums@.take(i as int), nums@) == (tally_of(order@, counts@), true),
            decreases nums.len() - i,
        {
            let a = nums[i];
            let ghost row_base = count_ticket(base, nums@.take(i as int), nums@);
            let mut j: usize = 0;
            while j < nums.len()
                invariant
                    j <= nums.len(),
                    i < nums.len(),
                    t < window.len(),
                    a == nums@[i as int],
                    nums@ == window@[t as int].numbers@,
                    base == pair_counts(window@.take(t as int)),
                    row_base == count_ticket(base, nums@.take(i as int), nums@),
                    tally_wf(order@, counts@),
                    count_row(row_base, a, nums@.take(j as int)) == (tally_of(order@, counts@), true),
                decreases nums.len() - j,
            {
                assert(nums@.take(j + 1).drop_last() =~= nums@.take(j as int));
                let ok = tally_pair(&mut counts, &mut order, a, nums[j]);
                if !ok {
                    proof {
                        let ghost r = count_row(row_base, a, nums@.take(j + 1));
                        assert(!r.1);
                        assert(nums@.take(i + 1).drop_last() =~= nums@.take(i as int));
                        assert(nums@.take(j + 1) =~= nums@.take(j + 1));
                        lemma_not_ok_row_extend(row_base, a, nums@, j + 1);
                        lemma_not_ok_sticks_ticket_rest(base, nums@, i as int);
                        assert(window@.take(t + 1).drop_last() =~= window@.take(t as int));
                        assert(window@.take(t + 1).last() == window@[t as int]);
                        lemma_not_ok_sticks_window(window@, t + 1);
                    }
                    return None;
                }
                j = j + 1;
            }
            proof {
                assert(nums@.take(j as int) =~= nums@);
                assert(nums@.take(i + 1).drop_last() =~= nums@.take(i as int));
            }
            i = i + 1;
        }
        proof {
            assert(nums@.take(i as int) =~= nums@);
        }
        t = t + 1;
    }
    assert(window@.take(window@.len() as int) =~= window@);
    Some(tally_list(&counts, &order))
}

/// The tally as a list of `(first, second, count)` in order of first
/// sighting.
fn tally_list(counts: &HashMap<u16, u32>, order: &Vec<(u8, u8)>) -> (r: Vec<(u8, u8, u32)>)
    requires
        tally_wf(order@, counts@),
    ensures
        r@ == tally_of(order@, counts@),
{
    let ghost c = tally_of(order@, counts@);
    let mut r: Vec<(u8, u8, u32)> = Vec::new();
    let mut i: usize = 0;
    while i < order.len()
        invariant
            i <= order@.len(),
            c == tally_of(order@, counts@),
            tally_wf(order@, counts@),
            r@ == c.take(i as int),
        decreases order.len() - i,
    {
        let (a, b) = order[i];
        proof {
            lemma_pair_key(a, b, a, b);
            lemma_pair_pos(c, a, b);
            assert(c[i as int].0 == a && c[i as int].1 == b);
            assert(counts@.contains_key(pair_key(a, b)));
        }
        let k: u16 = (a as u16) * 256 + (b as u16);
        let v = *counts.get(&k).unwrap();
        r.push((a, b, v));
        i = i + 1;
        assert(r@ =~= c.take(i as int));
    }
    assert(c.take(i as int) =~= c);
    r
}

proof fn lemma_not_ok_row_extend(st: PairTally, a: u8, nums: Seq<u8>, j: int)
    requires
        0 <= j <= nums.len(),
        !count_row(st, a, nums.take(j)).1,
    ensures
        !count_row(st, a, nums).1,
    decreases nums.len() - j,
{
    if j < nums.len() {
        assert(nums.take(j + 1).drop_last() =~= nums.take(j));
        lemma_not_ok_row_extend(st, a, nums, j + 1);
    } else {
        assert(nums.take(j) =~= nums);
    }
}

proof fn lemma_not_ok_sticks_ticket_rest(base: PairTally, nums: Seq<u8>, i: int)
    requires
        0 <= i < nums.len(),
        !count_row(count_ticket(base, nums.take(i), nums), nums[i], nums).1,
    ensures
        !count_ticket(base, nums, nums).1,
    decreases nums.len() - i,
{
    assert(nums.take(i + 1).drop_last() =~= nums.take(i));
    if i + 1 < nums.len() {
        lemma_not_ok_sticks_row(count_ticket(base, nums.take(i + 1), nums), nums[i + 1], nums);
        lemma_not_ok_sticks_ticket_rest(base, nums, i + 1);
    } else {
        assert(nums.take(i + 1) =~= nums);
    }
}

/// Stable sort by tally, most frequent first.
fn sort_by_count(c: &Vec<(u8, u8, u32)>) -> (r: Vec<(u8, u8, u32)>)
    ensures
        r@ == sort_desc(c@),
{
    let mut out: Vec<(u8, u8, u32)> = Vec::new();
    let mut i: usize = 0;
    while i < c.len()
        invariant
            i <= c.len(),
            out@ == sort_desc(c@.take(i as int)),
        decreases c.len() - i,
    {
        let x = c[i];
        proof { lemma_first_smaller(out@, x.2); }
        let mut p: usize = 0;
        while p < out.len() && out[p].2 >= x.2
            invariant
                p <= out.len(),
                out@ == sort_desc(c@.take(i as int)),
                p <= first_smaller(out@, x.2),
                0 <= first_smaller(out@, x.2) <= out@.len(),
                first_smaller(out@, x.2) < out@.len() ==> out@[first_smaller(out@, x.2)].2 < x.2,
            decreases out.len() - p,
        {
            p = p + 1;
        }
        out.insert(p, x);
        proof {
            assert(c@.take(i + 1).drop_last() =~= c@.take(i as int));
        }
        i = i + 1;
    }
    assert(c@.take(c@.len() as int) =~= c@);
    out
}

proof fn lemma_pick_done(sorted: Seq<(u8, u8, u32)>, i: int, size: u8)
    requires
        0 <= i <= sorted.len(),
        pick(sorted.take(i), size).1,
    ensures
        pick(sorted, size) == pick(sorted.take(i), size),
    decreases sorted.len() - i,
{
    if i < sorted.len() {
        assert(sorted.take(i + 1).drop_last() =~= sorted.take(i));
        lemma_pick_done(sorted, i + 1, size);
    } else {
        assert(sorted.take(i) =~= sorted);
    }
}

/// Collects the balls of the most frequent pairs of two distinct balls.
fn pick_balls(sorted: &Vec<(u8, u8, u32)>, size: u8) -> (r: Vec<u8>)
    ensures
        r@ == pick(sorted@, size).0,
{
    let mut output_vec: Vec<u8> = Vec::new();
    let limit = size as usize + 1;
    let mut i: usize = 0;
    while i < sorted.len()
        invariant
            i <= sorted.len(),
            limit == size + 1,
            pick(sorted@.take(i as int), size) == (output_vec@, false),
        decreases sorted.len() - i,
    {
        let pair = sorted[i];
        assert(sorted@.take(i + 1).drop_last() =~= sorted@.take(i as int));
        if pair.0 != pair.1 {
            if output_vec.len() >= limit {
                output_vec.truncate(limit);
                proof {
                    lemma_pick_done(sorted@, i + 1, size);
                }
                return output_vec;
            } else {
                if !holds(&output_vec, pair.0) {
                    output_vec.push(pair.0);
                }
                if !holds(&output_vec, pair.1) {
                    output_vec.push(pair.1);
                }
            }
        }
        i = i + 1;
    }
    assert(sorted@.take(sorted@.len() as int) =~= sorted@);
    output_vec
}

proof fn lemma_pick_distinct(sorted: Seq<(u8, u8, u32)>, size: u8)
    ensures
        pick(sorted, size).0.no_duplicates(),
        pick(sorted, size).0.len() <= size + 2,
        pick(sorted, size).1 ==> pick(sorted, size).0.len() == size + 1,
    decreases sorted.len(),
{
    if sorted.len() > 0 {
        lemma_pick_distinct(sorted.drop_last(), size);
        let st = pick(sorted.drop_last(), size);
        let pair = sorted.last();
        let out = st.0;
        if !st.1 && pair.0 != pair.1 {
            if out.len() >= size + 1 {
                let t = out.take(size + 1);
                assert forall|i: int, j: int| 0 <= i < t.len() && 0 <= j < t.len() && i != j implies t[i] != t[j] by {
                    assert(t[i] == out[i] && t[j] == out[j]);
                }
            } else {
                let o1 = if out.contains(pair.0) { out } else { out.push(pair.0) };
                assert(o1.no_duplicates()) by {
                    if !out.contains(pair.0) {
                        assert forall|i: int, j: int| 0 <= i < o1.len() && 0 <= j < o1.len() && i != j implies o1[i] != o1[j] by {
                            if i == out.len() {
                                assert(o1[j] == out[j]);
                                assert(o1[i] == pair.0);
                            } else if j == out.len() {
                                assert(o1[i] == out[i]);
                            } else {
                                assert(o1[i] == out[i] && o1[j] == out[j]);
                            }
                        }
                    }
                }
                let o2 = if o1.contains(pair.1) { o1 } else { o1.push(pair.1) };
                assert(o2.no_duplicates()) by {
                    if !o1.contains(pair.1) {
                        assert forall|i: int, j: int| 0 <= i < o2.len() && 0 <= j < o2.len() && i != j implies o2[i] != o2[j] by {
                            if i == o1.len() {
                                assert(o2[j] == o1[j]);
                            } else if j == o1.len() {
                                assert(o2[i] == o1[i]);
                            } else {
                                assert(o2[i] == o1[i] && o2[j] == o1[j]);
                            }
                        }
                    }
                }
            }
        }
    }
}

/// The friends prediction never repeats a ball and holds at most
/// `size + 2` balls (exactly `size + 1` once the walk stopped early).
pub proof fn lemma_friends_distinct(window: Seq<LotteryTicket>, size: u8)
    ensures
        spec_friends(window, size).no_duplicates(),
        spec_friends(window, size).len() <= size + 2,
{
    lemma_pick_distinct(sort_desc(pair_counts(window).0), size);
}

/// Given the pair tallies in some order, sorts them by tally (most frequent
/// first, ties kept in the given order) and collects the balls of the pairs
/// of two distinct balls until more than `size` are collected, keeping
/// `size + 1` of them.
pub fn pick_friends(pairs: &Vec<(u8, u8, u32)>, size: u8) -> (r: Vec<u8>)
    ensures
        r@ == pick(sort_desc(pairs@), size).0,
{
    let sorted = sort_by_count(pairs);
    pick_balls(&sorted, size)
}

/// The friends prediction; `None` when a pair tally overflows.
pub fn try_friends(window: &[LotteryTicket], size: u8) -> (r: Option<Vec<u8>>)
    ensures
        r is Some <==> friends_fits(window@),
        r matches Some(v) ==> v@ == spec_friends(window@, size),
{
    match count_pairs(window) {
        None => None,
        Some(c) => Some(pick_friends(&c, size)),
    }
}

/// Tallies how often each ordered pair of balls is drawn on a same ticket,
/// orders the pairs by tally (most frequent first, ties in order of first
/// sighting) and collects the balls of the pairs of two distinct balls until
/// more than `size` are collected, keeping `size + 1` of them.
pub fn friends(window: &[LotteryTicket], size: u8) -> (r: Vec<u8>)
    requires
        friends_fits(window@),
    ensures
        r@ == spec_friends(window@, size),
{
    try_friends(window, size).unwrap()
}

} // verus!
