//! The calculator's search for the best history window.

use vstd::prelude::*;
use crate::ticket::{Date, LotteryTicket, holds};
use crate::algos::{Algo, algo_fits, spec_predict, try_predict};

verus! {

/// Scans the history for the first record dated `d`: whether one was met,
/// and the index of the last record after it that is dated otherwise.
pub open spec fn scan_after(s: Seq<LotteryTicket>, d: Date) -> (bool, Option<int>)
    decreases s.len(),
{
    if s.len() == 0 {
        (false, None)
    } else {
        let r = scan_after(s.drop_last(), d);
        if s.last().date == d {
            (true, r.1)
        } else if r.0 {
            (true, Some(s.len() - 1))
        } else {
            r
        }
    }
}

/// The balls of the record `scan_after` ends on, none when there is none.
pub open spec fn next_numbers(s: Seq<LotteryTicket>, d: Date) -> Seq<u8> {
    match scan_after(s, d).1 {
        Some(i) => s[i].numbers@,
        None => Seq::empty(),
    }
}

/// How many balls of `next` occur in `pred`.
pub open spec fn hit_count(next: Seq<u8>, pred: Seq<u8>) -> nat
    decreases next.len(),
{
    if next.len() == 0 {
        0
    } else {
        hit_count(next.drop_last(), pred) + if pred.contains(next.last()) { 1nat } else { 0nat }
    }
}

/// Number of windows of `w` records in the whole history.
pub open spec fn calc_window_count(numbers: Seq<LotteryTicket>, w: int) -> int {
    numbers.len() - w + 1
}

/// Scores one window: `num_balls` for each ball of the record found after
/// the window's last date that the prediction holds.
pub open spec fn calc_step(st: (int, bool), numbers: Seq<LotteryTicket>, win: Seq<LotteryTicket>, size: u8, algo: Algo, num_balls: int) -> (int, bool) {
    if !st.1 {
        st
    } else if !algo_fits(algo, win) {
        (st.0, false)
    } else {
        let pred = spec_predict(algo, win, size);
        let t = st.0 + num_balls * hit_count(next_numbers(numbers, win[win.len() - 1].date), pred);
        if t <= usize::MAX { (t, true) } else { (st.0, false) }
    }
}

/// The matching total after the first `n` windows of `w` records, and
/// whether every step stayed defined.
pub open spec fn calc_tally(numbers: Seq<LotteryTicket>, n: int, w: int, size: u8, algo: Algo, num_balls: int) -> (int, bool)
    decreases n,
{
    if n <= 0 {
        (0, true)
    } else {
        calc_step(calc_tally(numbers, n - 1, w, size, algo, num_balls), numbers, numbers.subrange(n - 1, n - 1 + w), size, algo, num_balls)
    }
}

/// The matching total of windows of `w` records.
pub open spec fn calc_total(numbers: Seq<LotteryTicket>, w: int, size: u8, algo: Algo, num_balls: int) -> (int, bool) {
    calc_tally(numbers, calc_window_count(numbers, w), w, size, algo, num_balls)
}

/// Every window size `1..m` is scored without an undefined step.
pub open spec fn calc_defined(numbers: Seq<LotteryTicket>, m: int, size: u8, algo: Algo, num_balls: int) -> bool {
    forall|w: int| 1 <= w < m ==> (#[trigger] calc_total(numbers, w, size, algo, num_balls)).1
}

/// The first window size of `1..m` with the highest positive total, and
/// that total; `(1, 0)` when no total is positive.
pub open spec fn calc_best(numbers: Seq<LotteryTicket>, m: int, size: u8, algo: Algo, num_balls: int) -> (int, int)
    decreases m,
{
    if m <= 1 {
        (1, 0)
    } else {
        let b = calc_best(numbers, m - 1, size, algo, num_balls);
        let t = calc_total(numbers, m - 1, size, algo, num_balls).0;
        if t > b.1 { (m - 1, t) } else { b }
    }
}

proof fn lemma_calc_not_ok(numbers: Seq<LotteryTicket>, n0: int, n: int, w: int, size: u8, algo: Algo, num_balls: int)
    requires
        0 <= n0 <= n,
        !calc_tally(numbers, n0, w, size, algo, num_balls).1,
    ensures
        !calc_tally(numbers, n, w, size, algo, num_balls).1,
    decreases n - n0,
{
    if n0 < n {
        lemma_calc_not_ok(numbers, n0, n - 1, w, size, algo, num_balls);
    }
}

proof fn lemma_calc_best_range(numbers: Seq<LotteryTicket>, m: int, size: u8, algo: Algo, num_balls: int)
    ensures
        1 <= calc_best(numbers, m, size, algo, num_balls).0,
        m >= 2 ==> calc_best(numbers, m, size, algo, num_balls).0 < m,
    decreases m,
{
    if m > 1 {
        lemma_calc_best_range(numbers, m - 1, size, algo, num_balls);
    }
}

proof fn lemma_scan_after(s: Seq<LotteryTicket>, d: Date)
    ensures
        scan_after(s, d).1 matches Some(j) ==> 0 <= j < s.len(),
    decreases s.len(),
{
    if s.len() > 0 {
        lemma_scan_after(s.drop_last(), d);
    }
}

/// The calculator picks the best window size: no tried size totals more
/// than the chosen one, and every smaller size totals strictly less; when
/// no total is positive the size is 1.
pub proof fn lemma_calc_best_is_first_max(numbers: Seq<LotteryTicket>, m: int, size: u8, algo: Algo, num_balls: int)
    ensures
        ({
            let b = calc_best(numbers, m, size, algo, num_balls);
            &&& b.1 >= 0
            &&& forall|w: int| 1 <= w < m ==> (#[trigger] calc_total(numbers, w, size, algo, num_balls)).0 <= b.1
            &&& b.1 == 0 ==> b.0 == 1
            &&& b.1 > 0 ==> {
                &&& 1 <= b.0 < m
                &&& calc_total(numbers, b.0, size, algo, num_balls).0 == b.1
                &&& forall|w: int| 1 <= w < b.0 ==> (#[trigger] calc_total(numbers, w, size, algo, num_balls)).0 < b.1
            }
        }),
    decreases m,
{
    if m > 1 {
        lemma_calc_best_is_first_max(numbers, m - 1, size, algo, num_balls);
    }
}

/// The record a window is scored against: a record dated `d` exists exactly
/// when the scan reports one met; the index found is the last record of the
/// history dated otherwise than `d`, provided a record dated `d` comes
/// before it; there is none exactly when every record after a record dated
/// `d` is dated `d` too.
pub proof fn lemma_scan_after_finds_last(s: Seq<LotteryTicket>, d: Date)
    ensures
        scan_after(s, d).0 <==> exists|i: int| 0 <= i < s.len() && #[trigger] s[i].date == d,
        match scan_after(s, d).1 {
            Some(j) => {
                &&& 0 <= j < s.len()
                &&& s[j].date != d
                &&& exists|i: int| 0 <= i < j && #[trigger] s[i].date == d
                &&& forall|k: int| j < k < s.len() ==> #[trigger] s[k].date == d
            },
            None => forall|i: int, k: int| 0 <= i < k < s.len() && #[trigger] s[i].date == d ==> #[trigger] s[k].date == d,
        },
    decreases s.len(),
{
    if s.len() > 0 {
        let p = s.drop_last();
        let l = s.len() - 1;
        lemma_scan_after_finds_last(p, d);
        assert forall|i: int| 0 <= i < l implies #[trigger] p[i] == s[i] by {}
        let r = scan_after(p, d);
        if s.last().date == d {
            assert(s[l].date == d);
            match r.1 {
                Some(j) => {
                    let i = choose|i: int| 0 <= i < j && #[trigger] p[i].date == d;
                    assert(s[i].date == d);
                    assert forall|k: int| j < k < s.len() implies #[trigger] s[k].date == d by {
                        if k < l {
                            assert(p[k].date == d);
                        }
                    }
                },
                None => {
                    assert forall|i: int, k: int| 0 <= i < k < s.len() && #[trigger] s[i].date == d implies #[trigger] s[k].date == d by {
                        if k < l {
                            assert(p[i].date == d);
                            assert(p[k].date == d);
                        }
                    }
                },
            }
        } else if r.0 {
            let i = choose|i: int| 0 <= i < p.len() && #[trigger] p[i].date == d;
            assert(s[i].date == d);
        } else {
            if r.1 is Some {
                let j = r.1->0;
                let i = choose|i: int| 0 <= i < j && #[trigger] p[i].date == d;
                assert(p[i].date == d);
                assert(false);
            }
            assert forall|i: int| 0 <= i < s.len() implies #[trigger] s[i].date != d by {
                if i < l {
                    assert(p[i] == s[i]);
                    if p[i].date == d {
                        assert(exists|i2: int| 0 <= i2 < p.len() && #[trigger] p[i2].date == d);
                    }
                }
            }
        }
    }
}

/// The balls a window is scored against: those of the last record of the
/// history dated otherwise than `d` when a record dated `d` comes before
/// it; none when every record after a record dated `d` is dated `d` too.
pub proof fn lemma_next_numbers_of_last_other(s: Seq<LotteryTicket>, d: Date)
    ensures
        forall|j: int|
            0 <= j < s.len() && s[j].date != d && (exists|i: int| 0 <= i < j && #[trigger] s[i].date == d) && (forall|k: int|
                j < k < s.len() ==> #[trigger] s[k].date == d) ==> next_numbers(s, d) == #[trigger] s[j].numbers@,
        (forall|i: int, k: int| 0 <= i < k < s.len() && #[trigger] s[i].date == d ==> #[trigger] s[k].date == d)
            ==> next_numbers(s, d) == Seq::<u8>::empty(),
{
    lemma_scan_after_finds_last(s, d);
    match scan_after(s, d).1 {
        Some(j0) => {
            assert forall|j: int|
                0 <= j < s.len() && s[j].date != d && (exists|i: int| 0 <= i < j && #[trigger] s[i].date == d) && (forall|k: int|
                    j < k < s.len() ==> #[trigger] s[k].date == d) implies next_numbers(s, d) == #[trigger] s[j].numbers@ by {
                if j < j0 {
                    assert(s[j0].date != d);
                } else if j > j0 {
                    assert(s[j].date == d);
                }
            }
            if forall|i: int, k: int| 0 <= i < k < s.len() && #[trigger] s[i].date == d ==> #[trigger] s[k].date == d {
                let i = choose|i: int| 0 <= i < j0 && #[trigger] s[i].date == d;
                assert(s[j0].date == d);
            }
        },
        None => {
            assert forall|j: int|
                0 <= j < s.len() && s[j].date != d && (exists|i: int| 0 <= i < j && #[trigger] s[i].date == d) && (forall|k: int|
                    j < k < s.len() ==> #[trigger] s[k].date == d) implies next_numbers(s, d) == #[trigger] s[j].numbers@ by {
                let i = choose|i: int| 0 <= i < j && #[trigger] s[i].date == d;
                assert(s[j].date == d);
            }
        },
    }
}

/// The index `scan_after` ends on.
fn find_next(numbers: &[LotteryTicket], d: Date) -> (r: Option<usize>)
    ensures
        r == (match scan_after(numbers@, d).1 {
            Some(i) => Some(i as usize),
            None => None::<usize>,
        }),
        r matches Some(i) ==> i < numbers@.len(),
{
    let mut found = false;
    let mut next: Option<usize> = None;
    let mut i: usize = 0;
    while i < numbers.len()
        invariant
            i <= numbers.len(),
            (found, match next { Some(j) => Some(j as int), None => None::<int> }) == scan_after(numbers@.take(i as int), d),
            next matches Some(j) ==> j < i,
        decreases numbers.len() - i,
    {
        assert(numbers@.take(i + 1).drop_last() =~= numbers@.take(i as int));
        if numbers[i].date == d {
            found = true;
        } else if found {
            next = Some(i);
        }
        i = i + 1;
    }
    assert(numbers@.take(numbers.len() as int) =~= numbers@);
    next
}

/// How many balls of `next` occur in `pred`.
fn count_hits(next: &Vec<u8>, pred: &Vec<u8>) -> (r: usize)
    ensures
        r == hit_count(next@, pred@),
{
    let mut c: usize = 0;
    let mut i: usize = 0;
    while i < next.len()
        invariant
            i <= next.len(),
            c == hit_count(next@.take(i as int), pred@),
            c <= i,
        decreases next.len() - i,
    {
        assert(next@.take(i + 1).drop_last() =~= next@.take(i as int));
        if holds(pred, next[i]) {
            c = c + 1;
        }
        i = i + 1;
    }
    assert(next@.take(next.len() as int) =~= next@);
    c
}

/// The matching total of windows of `w` records over the whole history;
/// `None` exactly when a step is undefined.
fn window_total(numbers: &[LotteryTicket], w: usize, ticket_size: u8, algo: Algo, num_balls: usize) -> (r: Option<usize>)
    requires
        1 <= w <= numbers@.len(),
    ensures
        r is Some <==> calc_total(numbers@, w as int, ticket_size, algo, num_balls as int).1,
        r matches Some(v) ==> v == calc_total(numbers@, w as int, ticket_size, algo, num_balls as int).0,
{
    let ghost nums = numbers@;
    let count = numbers.len() - w + 1;
    let mut matching: usize = 0;
    let mut s: usize = 0;
    while s < count
        invariant
            s <= count,
            count == calc_window_count(nums, w as int),
            nums == numbers@,
            1 <= w <= numbers@.len(),
            calc_tally(nums, s as int, w as int, ticket_size, algo, num_balls as int) == (matching as int, true),
        decreases count - s,
    {
        let window = &numbers[s..s + w];
        let ghost prev = calc_tally(nums, s as int, w as int, ticket_size, algo, num_balls as int);
        assert(calc_tally(nums, s + 1, w as int, ticket_size, algo, num_balls as int) == calc_step(prev, nums, window@, ticket_size, algo, num_balls as int));
        let predicted = match try_predict(algo, window, ticket_size) {
            None => {
                proof { lemma_calc_not_ok(nums, s + 1, count as int, w as int, ticket_size, algo, num_balls as int); }
                return None;
            },
            Some(p) => p,
        };
        let next = find_next(numbers, window[w - 1].date);
        let hits = match next {
            Some(i) => count_hits(&numbers[i].numbers, &predicted),
            None => 0,
        };
        proof { lemma_scan_after(nums, window@[w - 1].date); }
        let ghost h = hit_count(next_numbers(nums, window@[w - 1].date), predicted@);
        proof {
            if next is None {
                assert(next_numbers(nums, window@[w - 1].date) =~= Seq::<u8>::empty());
            }
        }
        assert(hits == h);
        let add = match num_balls.checked_mul(hits) {
            None => {
                assert(num_balls * h >= 0) by (nonlinear_arith) requires num_balls >= 0, h >= 0;
                proof { lemma_calc_not_ok(nums, s + 1, count as int, w as int, ticket_size, algo, num_balls as int); }
                return None;
            },
            Some(a) => a,
        };
        matching = match matching.checked_add(add) {
            None => {
                proof { lemma_calc_not_ok(nums, s + 1, count as int, w as int, ticket_size, algo, num_balls as int); }
                return None;
            },
            Some(m) => m,
        };
        s = s + 1;
    }
    Some(matching)
}

/// The first window size with the highest positive total among `results`
/// (pairs of window size and total, in the given order), starting from
/// `(1, 0)`.
pub open spec fn best_of(results: Seq<(u32, usize)>) -> (u32, usize)
    decreases results.len(),
{
    if results.len() == 0 {
        (1, 0)
    } else {
        let b = best_of(results.drop_last());
        if results.last().1 > b.1 { results.last() } else { b }
    }
}

/// Picks, among window sizes and their totals in the given order, the first
/// with the highest positive total; `(1, 0)` when none is positive.
pub fn best_window(results: &Vec<(u32, usize)>) -> (r: (u32, usize))
    ensures
        r == best_of(results@),
{
    let mut most_numbers: (u32, usize) = (1, 0);
    let mut i: usize = 0;
    while i < results.len()
        invariant
            i <= results.len(),
            most_numbers == best_of(results@.take(i as int)),
        decreases results.len() - i,
    {
        assert(results@.take(i + 1).drop_last() =~= results@.take(i as int));
        if results[i].1 > most_numbers.1 {
            most_numbers = results[i];
        }
        i = i + 1;
    }
    assert(results@.take(results.len() as int) =~= results@);
    most_numbers
}

/// Scores every window size `1..len - 2` over the whole history (each
/// window scores the ticket size for every ball, of the last record after
/// the window's last date, that its prediction holds), keeps the first size
/// with the highest positive total (1 when none is positive) and predicts
/// from the last window of that size. `None` exactly when a step is
/// undefined.
pub fn optimize(numbers: &[LotteryTicket], ticket_size: u8, algo: Algo) -> (r: Option<Vec<u8>>)
    requires
        2 <= numbers@.len() <= u32::MAX,
    ensures
        ({
            let nb = numbers@[0].numbers@.len() as int;
            let m = numbers@.len() - 2;
            let best = calc_best(numbers@, m, ticket_size, algo, nb).0;
            let last = numbers@.subrange(numbers@.len() - best, numbers@.len() as int);
            &&& r is Some <==> calc_defined(numbers@, m, ticket_size, algo, nb) && algo_fits(algo, last)
            &&& r matches Some(v) ==> v@ == spec_predict(algo, last, ticket_size)
        }),
{
    let ghost nums = numbers@;
    let num_balls = numbers[0].numbers.len();
    let limit = numbers.len() - 2;
    let mut results: Vec<(u32, usize)> = Vec::new();
    let mut w: usize = 1;
    while w < limit
        invariant
            1 <= w,
            w <= limit || limit == 0,
            limit == 0 ==> w == 1,
            limit == nums.len() - 2,
            nums == numbers@,
            2 <= numbers@.len() <= u32::MAX,
            num_balls == nums[0].numbers@.len(),
            results@.len() == w - 1,
            calc_defined(nums, w as int, ticket_size, algo, num_balls as int),
            best_of(results@) == ((calc_best(nums, w as int, ticket_size, algo, num_balls as int).0) as u32,
                (calc_best(nums, w as int, ticket_size, algo, num_balls as int).1) as usize),
            calc_best(nums, w as int, ticket_size, algo, num_balls as int).1 <= usize::MAX,
            1 <= calc_best(nums, w as int, ticket_size, algo, num_balls as int).0 <= w,
        decreases limit - w,
    {
        match window_total(numbers, w, ticket_size, algo, num_balls) {
            None => {
                return None;
            },
            Some(t) => {
                let ghost prev = results@;
                proof {
                    lemma_calc_best_is_first_max(nums, w as int, ticket_size, algo, num_balls as int);
                    lemma_calc_best_is_first_max(nums, w + 1, ticket_size, algo, num_balls as int);
                }
                results.push((w as u32, t));
                assert(results@.drop_last() =~= prev);
                assert(results@.last() == (w as u32, t));
            },
        }
        w = w + 1;
    }
    let best = best_window(&results);
    proof {
        lemma_calc_best_range(nums, limit as int, ticket_size, algo, num_balls as int);
    }
    let best_w = best.0 as usize;
    assert(best_w == calc_best(nums, limit as int, ticket_size, algo, num_balls as int).0) by {
        if limit == 0 {
            assert(w == 1);
        } else {
            assert(w == limit);
        }
    }
    let window = &numbers[numbers.len() - best_w..numbers.len()];
    try_predict(algo, window, ticket_size)
}

} // verus!
