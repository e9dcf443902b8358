//! Back-testing of a prediction algorithm over the draw history.

use vstd::prelude::*;
use std::collections::HashMap;
use crate::algos::{Algo, algo_fits, spec_predict, try_predict};
use crate::filters::{Filter, spec_filters, apply_filters, all_len, has_bell};
use crate::combine::{combinations_of, selections_of};
use crate::ticket::{views, Date, LotteryTicket, date_lt, date_less, dates_sorted, same_ticket, tickets_equal, holds};

verus! {

broadcast use vstd::std_specs::hash::group_hash_axioms;

/// The binary search over `items[low..high]` for a record dated `k`.
pub open spec fn spec_bsearch(items: Seq<LotteryTicket>, k: Date, low: int, high: int) -> Option<int>
    decreases high - low,
{
    if low < high && 0 <= low && high <= items.len() {
        let middle = low + (high - low) / 2;
        if items[middle].date == k {
            Some(middle)
        } else if date_lt(k, items[middle].date) {
            spec_bsearch(items, k, low, middle)
        } else {
            spec_bsearch(items, k, middle + 1, high)
        }
    } else {
        None
    }
}

proof fn lemma_bsearch(items: Seq<LotteryTicket>, k: Date, low: int, high: int)
    requires
        0 <= low,
        high <= items.len(),
    ensures
        spec_bsearch(items, k, low, high) matches Some(i) ==> low <= i < high && items[i].date == k,
        dates_sorted(items) && spec_bsearch(items, k, low, high) is None ==> forall|j: int|
            low <= j < high ==> (#[trigger] items[j]).date != k,
    decreases high - low,
{
    if low < high {
        let middle = low + (high - low) / 2;
        if items[middle].date == k {
        } else if date_lt(k, items[middle].date) {
            lemma_bsearch(items, k, low, middle);
            if dates_sorted(items) {
                assert forall|j: int| middle <= j < high implies (#[trigger] items[j]).date != k by {
                    if j > middle {
                        assert(!date_lt(items[j].date, items[middle].date));
                    }
                }
            }
        } else {
            lemma_bsearch(items, k, middle + 1, high);
            if dates_sorted(items) {
                assert forall|j: int| low <= j <= middle implies (#[trigger] items[j]).date != k by {
                    if j < middle {
                        assert(!date_lt(items[middle].date, items[j].date));
                    }
                }
            }
        }
    }
}

/// Binary search for the record dated `k` in a history ordered by date.
pub fn find_tommorows_ticket(k: Date, items: &[LotteryTicket]) -> (r: Option<usize>)
    ensures
        r == (match spec_bsearch(items@, k, 0, items@.len() as int) {
            Some(i) => Some(i as usize),
            None => None::<usize>,
        }),
        r matches Some(i) ==> i < items@.len() && items@[i as int].date == k,
        dates_sorted(items@) ==> (r is None <==> forall|j: int| 0 <= j < items@.len() ==> (#[trigger] items@[j]).date != k),
{
    proof { lemma_bsearch(items@, k, 0, items@.len() as int); }
    let mut low: usize = 0;
    let mut high: usize = items.len();
    while low < high
        invariant
            low <= high <= items@.len(),
            spec_bsearch(items@, k, 0, items@.len() as int) == spec_bsearch(items@, k, low as int, high as int),
        decreases high - low,
    {
        let middle = low + (high - low) / 2;
        if items[middle].date == k {
            return Some(middle);
        } else if date_less(&k, &items[middle].date) {
            high = middle;
        } else {
            low = middle + 1;
        }
    }
    None
}

/// Index of the first record equal to `t`, or -1.
pub open spec fn first_pos(s: Seq<LotteryTicket>, t: LotteryTicket) -> int
    decreases s.len(),
{
    if s.len() == 0 {
        -1
    } else {
        let p = first_pos(s.drop_last(), t);
        if p >= 0 {
            p
        } else if same_ticket(s.last(), t) {
            s.len() - 1
        } else {
            -1
        }
    }
}

proof fn lemma_first_pos(s: Seq<LotteryTicket>, t: LotteryTicket)
    ensures
        -1 <= first_pos(s, t) < s.len(),
        first_pos(s, t) == -1 ==> forall|k: int| 0 <= k < s.len() ==> !same_ticket(#[trigger] s[k], t),
        first_pos(s, t) >= 0 ==> same_ticket(s[first_pos(s, t)], t) && forall|k: int|
            0 <= k < first_pos(s, t) ==> !same_ticket(#[trigger] s[k], t),
    decreases s.len(),
{
    if s.len() > 0 {
        lemma_first_pos(s.drop_last(), t);
        assert forall|k: int| 0 <= k < s.len() - 1 implies #[trigger] s[k] == s.drop_last()[k] by {}
    }
}

/// Index of the first record of `s` equal to `t`.
fn position(s: &[LotteryTicket], t: &LotteryTicket) -> (r: Option<usize>)
    ensures
        match r {
            Some(p) => p == first_pos(s@, *t),
            None => first_pos(s@, *t) == -1,
        },
{
    proof { lemma_first_pos(s@, *t); }
    let mut k: usize = 0;
    while k < s.len()
        invariant
            k <= s.len(),
            forall|j: int| 0 <= j < k ==> !same_ticket(#[trigger] s@[j], *t),
            -1 <= first_pos(s@, *t) < s@.len(),
            first_pos(s@, *t) == -1 ==> forall|j: int| 0 <= j < s@.len() ==> !same_ticket(#[trigger] s@[j], *t),
            first_pos(s@, *t) >= 0 ==> same_ticket(s@[first_pos(s@, *t)], *t) && forall|j: int|
                0 <= j < first_pos(s@, *t) ==> !same_ticket(#[trigger] s@[j], *t),
        decreases s.len() - k,
    {
        if tickets_equal(&s[k], t) {
            return Some(k);
        }
        k = k + 1;
    }
    None
}

/// Sum of the balls of `t` that were drawn in `next`.
pub open spec fn match_weight(t: Seq<u8>, next: Seq<u8>) -> nat
    decreases t.len(),
{
    if t.len() == 0 {
        0
    } else {
        match_weight(t.drop_last(), next) + if next.contains(t.last()) { t.last() as nat } else { 0nat }
    }
}

/// How often `x` occurs in `s`.
pub open spec fn count_in(s: Seq<u8>, x: u8) -> nat
    decreases s.len(),
{
    if s.len() == 0 {
        0
    } else {
        count_in(s.drop_last(), x) + if s.last() == x { 1nat } else { 0nat }
    }
}

/// Number of balls of `t` matched in `next`, each counted once per
/// occurrence in `next`.
pub open spec fn correct_balls(t: Seq<u8>, next: Seq<u8>) -> nat
    decreases t.len(),
{
    if t.len() == 0 {
        0
    } else {
        correct_balls(t.drop_last(), next) + count_in(next, t.last())
    }
}

/// Sum of the match weights of every candidate ticket.
pub open spec fn total_match(preds: Seq<Seq<u8>>, next: Seq<u8>) -> nat
    decreases preds.len(),
{
    if preds.len() == 0 {
        0
    } else {
        total_match(preds.drop_last(), next) + match_weight(preds.last(), next)
    }
}

/// Number of candidate tickets with exactly `k` correct balls.
pub open spec fn tally(preds: Seq<Seq<u8>>, next: Seq<u8>, k: int) -> nat
    decreases preds.len(),
{
    if preds.len() == 0 {
        0
    } else {
        tally(preds.drop_last(), next, k) + if correct_balls(preds.last(), next) == k { 1nat } else { 0nat }
    }
}

/// Every candidate ticket has at most `u8::MAX` correct balls.
pub open spec fn correct_fit(preds: Seq<Seq<u8>>, next: Seq<u8>) -> bool {
    forall|i: int| 0 <= i < preds.len() ==> correct_balls(#[trigger] preds[i], next) <= u8::MAX
}

/// Distance between the first occurrences of the window's first and last
/// records in the history.
pub open spec fn window_weight(tickets: Seq<LotteryTicket>, window: Seq<LotteryTicket>) -> int {
    let a = first_pos(tickets, window[0]);
    let b = first_pos(tickets, window[window.len() - 1]);
    if a >= b { a - b } else { b - a }
}

/// The ball counter after tallying the candidates' correct balls.
pub open spec fn counted(m: Map<u8, u32>, preds: Seq<Seq<u8>>, next: Seq<u8>) -> Map<u8, u32> {
    Map::new(|k: u8| m.contains_key(k), |k: u8| (m[k] + tally(preds, next, k as int)) as u32)
}

/// Scoring the candidates keeps every accumulator within its type.
pub open spec fn weights_fit(w: u32, m: Map<u8, u32>, preds: Seq<Seq<u8>>, next: Seq<u8>, weight: int) -> bool {
    &&& w + weight * total_match(preds, next) <= u32::MAX
    &&& correct_fit(preds, next)
    &&& forall|k: u8| m.contains_key(k) ==> m[k] + tally(preds, next, k as int) <= u32::MAX
}

proof fn lemma_match_weight_prefix(t: Seq<u8>, next: Seq<u8>, n: int)
    requires
        0 <= n <= t.len(),
    ensures
        match_weight(t.take(n), next) <= match_weight(t, next),
        correct_balls(t.take(n), next) <= correct_balls(t, next),
    decreases t.len(),
{
    if n < t.len() {
        assert(t.drop_last().take(n) =~= t.take(n));
        lemma_match_weight_prefix(t.drop_last(), next, n);
    } else {
        assert(t.take(n) =~= t);
    }
}

proof fn lemma_total_prefix(p: Seq<Seq<u8>>, next: Seq<u8>, n: int, k: int)
    requires
        0 <= n <= p.len(),
    ensures
        total_match(p.take(n), next) <= total_match(p, next),
        tally(p.take(n), next, k) <= tally(p, next, k),
    decreases p.len(),
{
    if n < p.len() {
        assert(p.drop_last().take(n) =~= p.take(n));
        lemma_total_prefix(p.drop_last(), next, n, k);
    } else {
        assert(p.take(n) =~= p);
    }
}

proof fn lemma_mul_mono(a: int, b: int, c: int)
    requires
        0 <= a,
        0 <= b <= c,
    ensures
        a * b <= a * c,
{
    assert(a * b <= a * c) by (nonlinear_arith)
        requires
            0 <= a,
            b <= c;
}

/// How often `x` occurs in `s`.
fn occurrences(s: &Vec<u8>, x: u8) -> (r: usize)
    ensures
        r == count_in(s@, x),
{
    let mut c: usize = 0;
    let mut i: usize = 0;
    while i < s.len()
        invariant
            i <= s.len(),
            c == count_in(s@.take(i as int), x),
            c <= i,
        decreases s.len() - i,
    {
        assert(s@.take(i + 1).drop_last() =~= s@.take(i as int));
        if s[i] == x {
            c = c + 1;
        }
        i = i + 1;
    }
    assert(s@.take(s.len() as int) =~= s@);
    c
}

/// The weighted match sum of one candidate; `None` when it leaves `u32`.
fn ticket_gain(t: &Vec<u8>, next: &Vec<u8>, weight: u32) -> (r: Option<u32>)
    ensures
        r is Some <==> weight * match_weight(t@, next@) <= u32::MAX,
        r matches Some(v) ==> v == weight * match_weight(t@, next@),
{
    let mut gain: u32 = 0;
    let mut j: usize = 0;
    assert(match_weight(t@.take(0), next@) == 0);
    assert(weight * 0 == 0);
    while j < t.len()
        invariant
            j <= t.len(),
            gain == weight * match_weight(t@.take(j as int), next@),
        decreases t.len() - j,
    {
        let num = t[j];
        proof {
            assert(t@.take(j + 1).drop_last() =~= t@.take(j as int));
            lemma_match_weight_prefix(t@, next@, j + 1);
            lemma_mul_mono(weight as int, match_weight(t@.take(j + 1), next@) as int, match_weight(t@, next@) as int);
            assert(weight * match_weight(t@.take(j + 1), next@) == gain + weight * (if next@.contains(num) { num as int } else { 0 })) by (nonlinear_arith)
                requires
                    gain == weight * match_weight(t@.take(j as int), next@),
                    match_weight(t@.take(j + 1), next@) == match_weight(t@.take(j as int), next@) + (if next@.contains(num) { num as int } else { 0 });
        }
        if holds(next, num) {
            let prod = (num as u32).checked_mul(weight);
            match prod {
                None => {
                    assert(weight * num > u32::MAX) by (nonlinear_arith)
                        requires
                            num * weight > u32::MAX;
                    assert(weight * num >= 0) by (nonlinear_arith) requires weight >= 0, num >= 0;
                    assert(gain >= 0);
                    return None;
                },
                Some(p) => {
                    assert(p == weight * num) by (nonlinear_arith) requires p == num * weight;
                    match gain.checked_add(p) {
                        None => {
                            return None;
                        },
                        Some(g) => {
                            gain = g;
                        },
                    }
                },
            }
        }
        j = j + 1;
    }
    assert(t@.take(t.len() as int) =~= t@);
    Some(gain)
}

/// The number of correct balls of one candidate; `None` above `u8::MAX`.
fn correct_count(t: &Vec<u8>, next: &Vec<u8>) -> (r: Option<u8>)
    ensures
        r is Some <==> correct_balls(t@, next@) <= u8::MAX,
        r matches Some(v) ==> v == correct_balls(t@, next@),
{
    let mut correct: u8 = 0;
    let mut j: usize = 0;
    while j < t.len()
        invariant
            j <= t.len(),
            correct == correct_balls(t@.take(j as int), next@),
        decreases t.len() - j,
    {
        proof {
            assert(t@.take(j + 1).drop_last() =~= t@.take(j as int));
            lemma_match_weight_prefix(t@, next@, j + 1);
        }
        let c = occurrences(next, t[j]);
        if c > 255 || correct as usize + c > 255 {
            return None;
        }
        correct = correct + c as u8;
        j = j + 1;
    }
    assert(t@.take(t.len() as int) =~= t@);
    Some(correct)
}

/// The weighted match sum and the number of correct balls of one candidate;
/// `None` when either leaves its type.
fn ticket_score(t: &Vec<u8>, next: &Vec<u8>, weight: u32) -> (r: Option<(u32, u8)>)
    ensures
        r is Some <==> weight * match_weight(t@, next@) <= u32::MAX && correct_balls(t@, next@) <= u8::MAX,
        r matches Some(v) ==> v.0 == weight * match_weight(t@, next@) && v.1 == correct_balls(t@, next@),
{
    let g = ticket_gain(t, next, weight);
    let c = correct_count(t, next);
    match (g, c) {
        (Some(g), Some(c)) => Some((g, c)),
        _ => None,
    }
}

/// The window's weight: how far apart its first and last records stand in
/// the history.
fn weight_of(lottery_tickets: &[LotteryTicket], window: &[LotteryTicket]) -> (w: u32)
    requires
        window@.len() > 0,
        lottery_tickets@.len() <= i32::MAX,
        first_pos(lottery_tickets@, window@[0]) >= 0,
        first_pos(lottery_tickets@, window@[window@.len() - 1]) >= 0,
    ensures
        w == window_weight(lottery_tickets@, window@),
{
    let first = position(lottery_tickets, &window[0]).unwrap();
    let last = position(lottery_tickets, &window[window.len() - 1]).unwrap();
    proof {
        lemma_first_pos(lottery_tickets@, window@[0]);
        lemma_first_pos(lottery_tickets@, window@[window@.len() - 1]);
    }
    let diff: usize = if first >= last { first - last } else { last - first };
    assert(diff <= i32::MAX);
    diff as u32
}

/// Scores the candidate tickets of a window against the record at
/// `next_ticket_index`: adds to `weighted_matches` the window weight times
/// the sum of the candidates' balls drawn in that record, and counts in
/// `ball_counter` each candidate under its number of correct balls (only
/// numbers already present as keys are counted). Returns `false`, leaving
/// the totals unspecified, exactly when an accumulator would leave its type.
pub fn apply_weights(
    lottery_tickets: &[LotteryTicket],
    window: &[LotteryTicket],
    predicted_tickets: &Vec<Vec<u8>>,
    next_ticket_index: usize,
    weighted_matches: &mut u32,
    ball_counter: &mut HashMap<u8, u32>,
) -> (ok: bool)
    requires
        window@.len() > 0,
        lottery_tickets@.len() <= i32::MAX,
        first_pos(lottery_tickets@, window@[0]) >= 0,
        first_pos(lottery_tickets@, window@[window@.len() - 1]) >= 0,
        next_ticket_index < lottery_tickets@.len(),
    ensures
        ok == weights_fit(
            *old(weighted_matches),
            old(ball_counter)@,
            views(predicted_tickets@),
            lottery_tickets@[next_ticket_index as int].numbers@,
            window_weight(lottery_tickets@, window@),
        ),
        ok ==> *final(weighted_matches) == *old(weighted_matches) + window_weight(lottery_tickets@, window@)
            * total_match(views(predicted_tickets@), lottery_tickets@[next_ticket_index as int].numbers@),
        ok ==> final(ball_counter)@ == counted(
            old(ball_counter)@,
            views(predicted_tickets@),
            lottery_tickets@[next_ticket_index as int].numbers@,
        ),
{
    let weight = weight_of(lottery_tickets, window);
    let ghost wt = window_weight(lottery_tickets@, window@);
    let next = &lottery_tickets[next_ticket_index].numbers;
    let ghost preds = views(predicted_tickets@);
    let ghost w0 = *weighted_matches;
    let ghost m0 = ball_counter@;
    let mut i: usize = 0;
    assert(total_match(preds.take(0), next@) == 0);
    assert(wt * 0 == 0);
    assert(ball_counter@ =~= counted(m0, preds.take(0), next@));
    while i < predicted_tickets.len()
        invariant
            i <= predicted_tickets@.len(),
            preds == views(predicted_tickets@),
            weight == wt,
            wt == window_weight(lottery_tickets@, window@),
            wt >= 0,
            next@ == lottery_tickets@[next_ticket_index as int].numbers@,
            w0 == *old(weighted_matches),
            m0 == old(ball_counter)@,
            *weighted_matches == w0 + wt * total_match(preds.take(i as int), next@),
            ball_counter@ == counted(m0, preds.take(i as int), next@),
            forall|k: u8| m0.contains_key(k) ==> m0[k] + tally(preds.take(i as int), next@, k as int) <= u32::MAX,
            correct_fit(preds.take(i as int), next@),
        decreases predicted_tickets@.len() - i,
    {
        let ghost pi = preds.take(i + 1);
        proof {
            assert(pi.drop_last() =~= preds.take(i as int));
            assert(pi.last() == predicted_tickets@[i as int]@);
            lemma_total_prefix(preds, next@, i + 1, 0);
            lemma_mul_mono(wt, total_match(pi, next@) as int, total_match(preds, next@) as int);
            assert(wt * total_match(pi, next@) == wt * total_match(preds.take(i as int), next@) + wt * match_weight(pi.last(), next@)) by (nonlinear_arith)
                requires
                    total_match(pi, next@) == total_match(preds.take(i as int), next@) + match_weight(pi.last(), next@);
            assert(wt * match_weight(pi.last(), next@) >= 0) by (nonlinear_arith)
                requires
                    wt >= 0;
            assert(wt * total_match(preds.take(i as int), next@) >= 0) by (nonlinear_arith)
                requires
                    wt >= 0;
            assert(preds[i as int] == pi.last());
        }
        let score = ticket_score(&predicted_tickets[i], next, weight);
        match score {
            None => {
                proof {
                    if correct_balls(preds[i as int], next@) > u8::MAX {
                        assert(!correct_fit(preds, next@));
                    } else {
                        assert(wt * match_weight(pi.last(), next@) > u32::MAX);
                        assert(w0 + wt * total_match(preds, next@) > u32::MAX);
                    }
                    assert(!weights_fit(w0, m0, preds, next@, wt));
                }
                return false;
            },
            Some((gain, correct)) => {
                match weighted_matches.checked_add(gain) {
                    None => {
                        assert(w0 + wt * total_match(pi, next@) > u32::MAX);
                        assert(w0 + wt * total_match(preds, next@) > u32::MAX);
                        assert(!weights_fit(w0, m0, preds, next@, wt));
                        return false;
                    },
                    Some(nw) => {
                        *weighted_matches = nw;
                    },
                }
                proof {
                    lemma_total_prefix(preds, next@, i + 1, correct as int);
                }
                match ball_counter.get(&correct) {
                    Some(c) => {
                        let c = *c;
                        if c == u32::MAX {
                            assert(m0.contains_key(correct));
                            assert(tally(pi, next@, correct as int) == tally(preds.take(i as int), next@, correct as int) + 1);
                            assert(m0[correct] + tally(preds, next@, correct as int) > u32::MAX);
                            return false;
                        }
                        ball_counter.insert(correct, c + 1);
                        proof {
                            assert forall|k: u8| #[trigger] m0.contains_key(k) && k != correct implies tally(pi, next@, k as int) == tally(preds.take(i as int), next@, k as int) by {}
                            assert(ball_counter@ =~= counted(m0, pi, next@));
                            assert forall|k: u8| m0.contains_key(k) implies m0[k] + tally(pi, next@, k as int) <= u32::MAX by {
                                if k != correct {
                                    assert(tally(pi, next@, k as int) == tally(preds.take(i as int), next@, k as int));
                                }
                            }
                        }
                    },
                    None => {
                        proof {
                            assert forall|k: u8| #[trigger] m0.contains_key(k) implies tally(pi, next@, k as int) == tally(preds.take(i as int), next@, k as int) by {}
                            assert(ball_counter@ =~= counted(m0, pi, next@));
                        }
                    },
                }
            },
        }
        proof {
            assert forall|j: int| 0 <= j < pi.len() implies correct_balls(#[trigger] pi[j], next@) <= u8::MAX by {
                if j < i {
                    assert(pi[j] == preds.take(i as int)[j]);
                }
            }
        }
        i = i + 1;
    }
    proof {
        assert(preds.take(i as int) =~= preds);
    }
    true
}

/// Adds to `weighted_matches` the window weight times the sum of the
/// candidates' balls drawn in the record at `next_ticket_index`. Returns
/// `false`, leaving the total unspecified, exactly when it would leave `u32`.
pub fn add_gains(
    lottery_tickets: &[LotteryTicket],
    window: &[LotteryTicket],
    predicted_tickets: &Vec<Vec<u8>>,
    next_ticket_index: usize,
    weighted_matches: &mut u32,
) -> (ok: bool)
    requires
        window@.len() > 0,
        lottery_tickets@.len() <= i32::MAX,
        first_pos(lottery_tickets@, window@[0]) >= 0,
        first_pos(lottery_tickets@, window@[window@.len() - 1]) >= 0,
        next_ticket_index < lottery_tickets@.len(),
    ensures
        ok == (*old(weighted_matches) + window_weight(lottery_tickets@, window@) * total_match(
            views(predicted_tickets@),
            lottery_tickets@[next_ticket_index as int].numbers@,
        ) <= u32::MAX),
        ok ==> *final(weighted_matches) == *old(weighted_matches) + window_weight(lottery_tickets@, window@)
            * total_match(views(predicted_tickets@), lottery_tickets@[next_ticket_index as int].numbers@),
{
    let weight = weight_of(lottery_tickets, window);
    let ghost wt = window_weight(lottery_tickets@, window@);
    let next = &lottery_tickets[next_ticket_index].numbers;
    let ghost preds = views(predicted_tickets@);
    let ghost w0 = *weighted_matches;
    let mut i: usize = 0;
    assert(total_match(preds.take(0), next@) == 0);
    assert(wt * 0 == 0);
    while i < predicted_tickets.len()
        invariant
            i <= predicted_tickets@.len(),
            preds == views(predicted_tickets@),
            weight == wt,
            wt == window_weight(lottery_tickets@, window@),
            wt >= 0,
            next@ == lottery_tickets@[next_ticket_index as int].numbers@,
            w0 == *old(weighted_matches),
            *weighted_matches == w0 + wt * total_match(preds.take(i as int), next@),
        decreases predicted_tickets@.len() - i,
    {
        let ghost pi = preds.take(i + 1);
        proof {
            assert(pi.drop_last() =~= preds.take(i as int));
            assert(pi.last() == predicted_tickets@[i as int]@);
            lemma_total_prefix(preds, next@, i + 1, 0);
            lemma_mul_mono(wt, total_match(pi, next@) as int, total_match(preds, next@) as int);
            assert(wt * total_match(pi, next@) == wt * total_match(preds.take(i as int), next@) + wt * match_weight(pi.last(), next@)) by (nonlinear_arith)
                requires
                    total_match(pi, next@) == total_match(preds.take(i as int), next@) + match_weight(pi.last(), next@);
            assert(wt * match_weight(pi.last(), next@) >= 0) by (nonlinear_arith)
                requires
                    wt >= 0;
            assert(wt * total_match(preds.take(i as int), next@) >= 0) by (nonlinear_arith)
                requires
                    wt >= 0;
        }
        match ticket_gain(&predicted_tickets[i], next, weight) {
            None => {
                assert(w0 + wt * total_match(preds, next@) > u32::MAX);
                return false;
            },
            Some(gain) => {
                match weighted_matches.checked_add(gain) {
                    None => {
                        assert(w0 + wt * total_match(preds, next@) > u32::MAX);
                        return false;
                    },
                    Some(nw) => {
                        *weighted_matches = nw;
                    },
                }
            },
        }
        i = i + 1;
    }
    assert(preds.take(i as int) =~= preds);
    true
}

/// The candidate tickets built from a prediction of at least `size` balls:
/// the prediction itself when it has exactly `size` balls, else its
/// selections of `size` balls.
pub open spec fn candidates(pred: Seq<u8>, size: u8) -> Seq<Seq<u8>> {
    if pred.len() == size { seq![pred] } else { combinations_of(pred, size as nat) }
}

/// What the back-test accumulates: the weighted matches, the counter of
/// candidates by number of correct balls, and whether every step stayed
/// defined (counters within their types, the window's date found).
pub type StatsTally = (u32, Map<u8, u32>, bool);

/// The `w` records starting at `start`.
pub open spec fn window_of(tickets: Seq<LotteryTicket>, start: int, w: int) -> Seq<LotteryTicket> {
    tickets.subrange(start, start + w)
}

/// Number of windows of `w` records among all records but the last.
pub open spec fn window_count(tickets: Seq<LotteryTicket>, w: int) -> int {
    tickets.len() - w
}

/// The counter before any window: one zero entry per ball count `1..=size`.
pub open spec fn initial_counter(size: u8) -> Map<u8, u32> {
    Map::new(|k: u8| 1 <= k <= size, |k: u8| 0u32)
}

/// Scores one window: predicts, builds and filters the candidates, finds
/// the record dated like the window's last record and scores the candidates
/// against it. Predictions with fewer than `size` balls are skipped. With
/// `size == 0` only an empty prediction can be scored (as the one empty
/// candidate), and not through the bell-curve filter, whose bands need a
/// positive size.
pub open spec fn score_step(
    st: StatsTally,
    tickets: Seq<LotteryTicket>,
    win: Seq<LotteryTicket>,
    size: u8,
    algo: Algo,
    filters: Seq<Filter>,
) -> StatsTally {
    if !st.2 {
        st
    } else if !algo_fits(algo, win) {
        (st.0, st.1, false)
    } else {
        let pred = spec_predict(algo, win, size);
        if pred.len() < size {
            st
        } else if size == 0 && (pred.len() > 0 || filters.contains(Filter::BellCurve)) {
            (st.0, st.1, false)
        } else {
            let cands = spec_filters(filters, candidates(pred, size), size);
            match spec_bsearch(tickets, win.last().date, 0, tickets.len() as int) {
                None => (st.0, st.1, false),
                Some(i) => {
                    let next = tickets[i].numbers@;
                    let wt = window_weight(tickets, win);
                    if weights_fit(st.0, st.1, cands, next, wt) {
                        ((st.0 + wt * total_match(cands, next)) as u32, counted(st.1, cands, next), true)
                    } else {
                        (st.0, st.1, false)
                    }
                },
            }
        }
    }
}

/// The tallies after scoring the first `n` windows of `w` records.
pub open spec fn stats_tally(
    tickets: Seq<LotteryTicket>,
    n: int,
    w: int,
    size: u8,
    algo: Algo,
    filters: Seq<Filter>,
) -> StatsTally
    decreases n,
{
    if n <= 0 {
        (0u32, initial_counter(size), true)
    } else {
        score_step(stats_tally(tickets, n - 1, w, size, algo, filters), tickets, window_of(tickets, n - 1, w), size, algo, filters)
    }
}

proof fn lemma_stats_not_ok(tickets: Seq<LotteryTicket>, n0: int, n: int, w: int, size: u8, algo: Algo, filters: Seq<Filter>)
    requires
        0 <= n0 <= n,
        !stats_tally(tickets, n0, w, size, algo, filters).2,
    ensures
        !stats_tally(tickets, n, w, size, algo, filters).2,
    decreases n - n0,
{
    if n0 < n {
        lemma_stats_not_ok(tickets, n0, n - 1, w, size, algo, filters);
    }
}

/// The candidates scored for a window are those the filters leave: when
/// the even/odd filter is among the filters and every candidate ticket of
/// each of the first `n` windows holds more than three even balls or more
/// than three odd balls, nothing is scored, so a back-test that stays
/// defined keeps its weighted matches at 0 and every counter entry at 0.
pub proof fn lemma_stats_lopsided_windows_score_nothing(
    tickets: Seq<LotteryTicket>,
    n: int,
    w: int,
    size: u8,
    algo: Algo,
    filters: Seq<Filter>,
)
    requires
        filters.contains(Filter::EvenOdd),
        forall|k: int, t: Seq<u8>|
            0 <= k < n && #[trigger] candidates(spec_predict(algo, window_of(tickets, k, w), size), size).contains(t)
                ==> t.filter(|x: u8| x % 2 == 0).len() > 3 || t.filter(|x: u8| x % 2 == 1).len() > 3,
    ensures
        stats_tally(tickets, n, w, size, algo, filters).2 ==> stats_tally(tickets, n, w, size, algo, filters).0 == 0
            && stats_tally(tickets, n, w, size, algo, filters).1 == initial_counter(size),
    decreases n,
{
    if n > 0 {
        lemma_stats_lopsided_windows_score_nothing(tickets, n - 1, w, size, algo, filters);
        let prev = stats_tally(tickets, n - 1, w, size, algo, filters);
        let win = window_of(tickets, n - 1, w);
        let pred = spec_predict(algo, win, size);
        if prev.2 && algo_fits(algo, win) && pred.len() >= size
            && !(size == 0 && (pred.len() > 0 || filters.contains(Filter::BellCurve))) {
            let g = candidates(pred, size);
            assert forall|t: Seq<u8>| #[trigger] g.contains(t) implies t.filter(|x: u8| x % 2 == 0).len() > 3
                || t.filter(|x: u8| x % 2 == 1).len() > 3 by {
                assert(candidates(spec_predict(algo, window_of(tickets, n - 1, w), size), size).contains(t));
            }
            crate::filters::lemma_filters_drop_all_lopsided(filters, g, size);
            let cands = spec_filters(filters, g, size);
            assert(cands =~= Seq::<Seq<u8>>::empty());
            match spec_bsearch(tickets, win.last().date, 0, tickets.len() as int) {
                None => {},
                Some(i) => {
                    let next = tickets[i].numbers@;
                    let wt = window_weight(tickets, win);
                    assert(total_match(cands, next) == 0);
                    let tm = total_match(cands, next) as int;
                    assert(wt * tm == 0) by (nonlinear_arith)
                        requires
                            tm == 0;
                    assert(counted(prev.1, cands, next) =~= prev.1);
                },
            }
        }
    }
}

proof fn lemma_present(s: Seq<LotteryTicket>, k: int)
    requires
        0 <= k < s.len(),
    ensures
        first_pos(s, s[k]) >= 0,
{
    lemma_first_pos(s, s[k]);
}

/// Back-tests the algorithm with windows of `window_size` records over all
/// records but the last. Each window's candidates are scored against the
/// record that the binary search finds for the date of the window's own
/// last record (that record itself, not the draw after it). Returns the
/// window size, the weighted matches divided by the number of windows, and
/// the counter of candidates by
/// number of correct balls (keys `1..=ticket_size`). `None` exactly when a
/// step is undefined: a counter would leave its type, a window's last date
/// is not found by the binary search, or (for `ticket_size == 0`) a
/// prediction is not empty or the bell-curve filter is given.
pub fn stats(
    lottery_tickets: &[LotteryTicket],
    window_size: usize,
    ticket_size: u8,
    algo: Algo,
    filters: &Vec<Filter>,
) -> (r: Option<(usize, u32, HashMap<u8, u32>)>)
    requires
        ticket_size < 255,
        1 <= window_size < lottery_tickets@.len(),
        lottery_tickets@.len() <= i32::MAX,
    ensures
        r is Some <==> stats_tally(
            lottery_tickets@,
            window_count(lottery_tickets@, window_size as int),
            window_size as int,
            ticket_size,
            algo,
            filters@,
        ).2,
        r matches Some(v) ==> {
            let t = stats_tally(
                lottery_tickets@,
                window_count(lottery_tickets@, window_size as int),
                window_size as int,
                ticket_size,
                algo,
                filters@,
            );
            &&& v.0 == window_size
            &&& v.1 == t.0 as int / window_count(lottery_tickets@, window_size as int)
            &&& v.2@ == t.1
        },
{
    let ghost tickets = lottery_tickets@;
    let ghost w = window_size as int;
    let mut weighted_matches: u32 = 0;
    let mut ball_counter: HashMap<u8, u32> = HashMap::new();
    let mut num: u8 = 1;
    while num < ticket_size + 1
        invariant
            1 <= num <= ticket_size + 1,
            ticket_size < 255,
            ball_counter@ == Map::new(|k: u8| 1 <= k < num, |k: u8| 0u32),
        decreases ticket_size + 1 - num,
    {
        ball_counter.insert(num, 0);
        proof {
            assert(ball_counter@ =~= Map::new(|k: u8| 1 <= k < num + 1, |k: u8| 0u32));
        }
        num = num + 1;
    }
    assert(ball_counter@ =~= initial_counter(ticket_size));
    let windows_len = lottery_tickets.len() - 1 - window_size + 1;
    let mut s: usize = 0;
    while s < windows_len
        invariant
            s <= windows_len,
            windows_len == window_count(tickets, w),
            tickets == lottery_tickets@,
            w == window_size,
            ticket_size < 255,
            1 <= window_size < lottery_tickets@.len(),
            lottery_tickets@.len() <= i32::MAX,
            stats_tally(tickets, s as int, w, ticket_size, algo, filters@) == (weighted_matches, ball_counter@, true),
        decreases windows_len - s,
    {
        let window = &lottery_tickets[s..s + window_size];
        assert(window@ == window_of(tickets, s as int, w));
        let ghost prev = stats_tally(tickets, s as int, w, ticket_size, algo, filters@);
        assert(stats_tally(tickets, s + 1, w, ticket_size, algo, filters@) == score_step(prev, tickets, window@, ticket_size, algo, filters@));
        let predicted = match try_predict(algo, window, ticket_size) {
            None => {
                proof { lemma_stats_not_ok(tickets, s + 1, windows_len as int, w, ticket_size, algo, filters@); }
                return None;
            },
            Some(p) => p,
        };
        assert(algo_fits(algo, window@));
        assert(predicted@ == spec_predict(algo, window@, ticket_size));
        if predicted.len() >= ticket_size as usize {
            let ghost pred = predicted@;
            if ticket_size == 0 && (predicted.len() > 0 || has_bell(filters)) {
                proof { lemma_stats_not_ok(tickets, s + 1, windows_len as int, w, ticket_size, algo, filters@); }
                return None;
            }
            let mut cands: Vec<Vec<u8>> = if predicted.len() == ticket_size as usize {
                let c = vec![predicted];
                assert(views(c@) =~= seq![pred]);
                c
            } else {
                selections_of(predicted, ticket_size as usize)
            };
            assert(views(cands@) == candidates(pred, ticket_size));
            apply_filters(filters, &mut cands, ticket_size);
            let found = find_tommorows_ticket(window[window_size - 1].date, lottery_tickets);
            assert(window@.last() == window@[window_size - 1]);
            let next = match found {
                None => {
                    assert(spec_bsearch(tickets, window@.last().date, 0, tickets.len() as int) is None);
                    assert(!score_step(prev, tickets, window@, ticket_size, algo, filters@).2);
                    proof { lemma_stats_not_ok(tickets, s + 1, windows_len as int, w, ticket_size, algo, filters@); }
                    return None;
                },
                Some(i) => i,
            };
            proof {
                lemma_present(tickets, s as int);
                lemma_present(tickets, s + w - 1);
                assert(window@[0] == tickets[s as int]);
                assert(window@[window@.len() - 1] == tickets[s + w - 1]);
            }
            proof { lemma_bsearch(tickets, window@.last().date, 0, tickets.len() as int); }
            assert(spec_bsearch(tickets, window@.last().date, 0, tickets.len() as int) == Some(next as int));
            let ok = apply_weights(lottery_tickets, window, &cands, next, &mut weighted_matches, &mut ball_counter);
            if !ok {
                proof { lemma_stats_not_ok(tickets, s + 1, windows_len as int, w, ticket_size, algo, filters@); }
                return None;
            }
        } else {
            assert(score_step(prev, tickets, window@, ticket_size, algo, filters@) == prev);
        }
        s = s + 1;
    }
    assert(windows_len <= i32::MAX);
    weighted_matches = weighted_matches / (windows_len as u32);
    Some((window_size, weighted_matches, ball_counter))
}

/// Greatest common divisor (`gcd(a, 0) == a`).
pub open spec fn gcd(a: nat, b: nat) -> nat
    decreases b,
{
    if b == 0 { a } else { gcd(b, a % b) }
}

/// `num::rational::Ratio::new_raw(numer, denom).reduced()`: the fraction in
/// lowest terms, both parts divided by their greatest common divisor. The
/// crate panics on a zero denominator.
#[verifier::external_body]
fn reduce_ratio(numer: u32, denom: u32) -> (r: (u32, u32))
    requires
        denom > 0,
    ensures
        r.0 == numer as nat / gcd(numer as nat, denom as nat),
        r.1 == denom as nat / gcd(numer as nat, denom as nat),
{
    let ratio = num::rational::Ratio::new_raw(numer, denom).reduced();
    (*ratio.numer(), *ratio.denom())
}

/// Largest window size tried by the back-test.
pub const WINDOW_SIZE: usize = 150;

/// Window sizes `1..max_depth` are tried: all but the last two records, at
/// most `WINDOW_SIZE`.
pub open spec fn max_depth(len: int) -> int {
    if len - 2 < WINDOW_SIZE { len - 2 } else { WINDOW_SIZE as int }
}

/// The back-test tallies for windows of `ws` records.
pub open spec fn depth_tally(tickets: Seq<LotteryTicket>, ws: int, size: u8, algo: Algo, filters: Seq<Filter>) -> StatsTally {
    stats_tally(tickets, window_count(tickets, ws), ws, size, algo, filters)
}

/// The back-test score for windows of `ws` records.
pub open spec fn depth_score(tickets: Seq<LotteryTicket>, ws: int, size: u8, algo: Algo, filters: Seq<Filter>) -> int {
    depth_tally(tickets, ws, size, algo, filters).0 as int / window_count(tickets, ws)
}

/// Every window size `1..m` back-tests without an undefined step.
pub open spec fn depths_defined(tickets: Seq<LotteryTicket>, m: int, size: u8, algo: Algo, filters: Seq<Filter>) -> bool {
    forall|ws: int| 1 <= ws < m ==> (#[trigger] depth_tally(tickets, ws, size, algo, filters)).2
}

/// The first window size of `1..m` with the highest positive score, and
/// that score; `(0, 0)` when no score is positive.
pub open spec fn best_depth(tickets: Seq<LotteryTicket>, m: int, size: u8, algo: Algo, filters: Seq<Filter>) -> (int, int)
    decreases m,
{
    if m <= 1 {
        (0, 0)
    } else {
        let b = best_depth(tickets, m - 1, size, algo, filters);
        let sc = depth_score(tickets, m - 1, size, algo, filters);
        if sc > b.1 { (m - 1, sc) } else { b }
    }
}

/// The counter with every value divided by `d`.
pub open spec fn normalized(m: Map<u8, u32>, d: int, size: u8) -> Map<u8, u32> {
    Map::new(|k: u8| 1 <= k <= size, |k: u8| (m[k] as int / d) as u32)
}

/// Sum of the divided counter values for the ball counts `1..=n`.
pub open spec fn counter_total(m: Map<u8, u32>, d: int, n: int) -> int
    decreases n,
{
    if n <= 0 { 0 } else { counter_total(m, d, n - 1) + m[n as u8] as int / d }
}

/// What the back-test reports about the best window size.
pub struct OptimizeReport {
    /// The best window size (the optimal history depth).
    pub window_size: usize,
    /// For each number of correct balls, how many candidates had it, per
    /// tested record.
    pub ball_counter: HashMap<u8, u32>,
    /// Correct balls per predicted ball, in lowest terms.
    pub ratio: (u32, u32),
}

/// The ball counter of a back-test always has exactly the keys
/// `1..=size`: scoring a window only changes the values.
pub proof fn lemma_stats_dom(tickets: Seq<LotteryTicket>, n: int, w: int, size: u8, algo: Algo, filters: Seq<Filter>)
    requires
        stats_tally(tickets, n, w, size, algo, filters).2,
    ensures
        stats_tally(tickets, n, w, size, algo, filters).1.dom() == initial_counter(size).dom(),
    decreases n,
{
    if n > 0 {
        let prev = stats_tally(tickets, n - 1, w, size, algo, filters);
        if !prev.2 {
            lemma_stats_not_ok(tickets, n - 1, n, w, size, algo, filters);
        }
        lemma_stats_dom(tickets, n - 1, w, size, algo, filters);
        let t = stats_tally(tickets, n, w, size, algo, filters);
        assert(t.1.dom() =~= prev.1.dom());
    }
}

proof fn lemma_counter_total_mono(m: Map<u8, u32>, d: int, a: int, b: int)
    requires
        0 <= a <= b,
        d > 0,
    ensures
        counter_total(m, d, a) <= counter_total(m, d, b),
    decreases b - a,
{
    if a < b {
        lemma_counter_total_mono(m, d, a, b - 1);
        assert(m[b as u8] as int / d >= 0);
    }
}

/// Back-tests the algorithm for every window size `1..max_depth`, keeps the
/// first size with the highest positive score, back-tests it again and
/// reports it with its counter divided by the number of records minus two
/// and the reduced ratio of that counter's total to `size * ticket_size`.
/// `None` exactly when a back-test step is undefined, no score is positive,
/// or the counter total leaves `u32`.
pub fn optimize(
    lottery_tickets: &[LotteryTicket],
    ticket_size: u8,
    algo: Algo,
    filters: &Vec<Filter>,
) -> (r: Option<OptimizeReport>)
    requires
        2 <= lottery_tickets@.len() <= i32::MAX,
        1 <= ticket_size < 255,
    ensures
        ({
            let tickets = lottery_tickets@;
            let m = max_depth(tickets.len() as int);
            let best = best_depth(tickets, m, ticket_size, algo, filters@);
            let counter = depth_tally(tickets, best.0, ticket_size, algo, filters@).1;
            let d = tickets.len() - 2;
            let total = counter_total(counter, d, ticket_size as int);
            &&& r is Some <==> depths_defined(tickets, m, ticket_size, algo, filters@) && best.0 > 0 && total <= u32::MAX
            &&& r matches Some(rep) ==> {
                &&& rep.window_size == best.0
                &&& rep.ball_counter@ == normalized(counter, d, ticket_size)
                &&& rep.ratio.0 == total / gcd(total as nat, (best.0 * ticket_size) as nat) as int
                &&& rep.ratio.1 == (best.0 * ticket_size) / gcd(total as nat, (best.0 * ticket_size) as nat) as int
            }
        }),
{
    let ghost tickets = lottery_tickets@;
    let len = lottery_tickets.len();
    let depth_limit: usize = if len - 2 < WINDOW_SIZE { len - 2 } else { WINDOW_SIZE };
    let mut best_ws: usize = 0;
    let mut best_wm: u32 = 0;
    let mut window_size: usize = 1;
    while window_size < depth_limit
        invariant
            1 <= window_size,
            window_size <= depth_limit || depth_limit == 0,
            depth_limit == 0 ==> window_size == 1,
            depth_limit == max_depth(tickets.len() as int),
            tickets == lottery_tickets@,
            len == tickets.len(),
            2 <= len <= i32::MAX,
            1 <= ticket_size < 255,
            depths_defined(tickets, window_size as int, ticket_size, algo, filters@),
            best_depth(tickets, window_size as int, ticket_size, algo, filters@) == (best_ws as int, best_wm as int),
        decreases depth_limit - window_size,
    {
        let res = stats(lottery_tickets, window_size, ticket_size, algo, filters);
        match res {
            None => {
                proof {
                    assert(!depth_tally(tickets, window_size as int, ticket_size, algo, filters@).2);
                }
                return None;
            },
            Some((ws, wm, _)) => {
                if wm > best_wm {
                    best_ws = ws;
                    best_wm = wm;
                }
            },
        }
        proof {
            assert forall|k: int| 1 <= k < window_size + 1 implies (#[trigger] depth_tally(tickets, k, ticket_size, algo, filters@)).2 by {
                if k < window_size {
                    assert(depths_defined(tickets, window_size as int, ticket_size, algo, filters@));
                }
            }
        }
        window_size = window_size + 1;
    }
    let ghost m = max_depth(tickets.len() as int);
    assert(best_depth(tickets, m, ticket_size, algo, filters@) == (best_ws as int, best_wm as int)) by {
        if depth_limit > 0 {
            assert(window_size == depth_limit);
        }
    }
    assert(depths_defined(tickets, m, ticket_size, algo, filters@)) by {
        if depth_limit > 0 {
            assert(window_size == depth_limit);
        }
    }
    if best_ws == 0 {
        return None;
    }
    proof { lemma_best_in_range(tickets, m, ticket_size, algo, filters@); }
    let (window_size, _, mut ball_counter) = match stats(lottery_tickets, best_ws, ticket_size, algo, filters) {
        None => {
            return None;
        },
        Some(v) => v,
    };
    let ghost counter = ball_counter@;
    proof {
        lemma_stats_dom(tickets, window_count(tickets, best_ws as int), best_ws as int, ticket_size, algo, filters@);
    }
    let d = (len - 2) as u32;
    let mut total_matches: u32 = 0;
    let mut k: u8 = 1;
    while k <= ticket_size
        invariant
            1 <= k <= ticket_size + 1,
            ticket_size < 255,
            d == tickets.len() - 2,
            d >= 1,
            counter.dom() == initial_counter(ticket_size).dom(),
            tickets == lottery_tickets@,
            m == max_depth(tickets.len() as int),
            counter == depth_tally(tickets, best_ws as int, ticket_size, algo, filters@).1,
            best_depth(tickets, m, ticket_size, algo, filters@) == (best_ws as int, best_wm as int),
            depths_defined(tickets, m, ticket_size, algo, filters@),
            best_ws > 0,
            total_matches == counter_total(counter, d as int, k - 1),
            ball_counter@ == Map::new(
                |j: u8| 1 <= j <= ticket_size,
                |j: u8| if j < k { (counter[j] as int / d as int) as u32 } else { counter[j] },
            ),
        decreases ticket_size + 1 - k,
    {
        assert(ball_counter@.contains_key(k));
        let v = *ball_counter.get(&k).unwrap();
        let nv = v / d;
        ball_counter.insert(k, nv);
        proof {
            assert(ball_counter@ =~= Map::new(
                |j: u8| 1 <= j <= ticket_size,
                |j: u8| if j < k + 1 { (counter[j] as int / d as int) as u32 } else { counter[j] },
            ));
        }
        match total_matches.checked_add(nv) {
            None => {
                proof {
                    assert(counter_total(counter, d as int, k as int) > u32::MAX);
                    lemma_counter_total_mono(counter, d as int, k as int, ticket_size as int);
                }
                return None;
            },
            Some(t) => {
                total_matches = t;
            },
        }
        k = k + 1;
    }
    assert(ball_counter@ =~= normalized(counter, (len - 2) as int, ticket_size));
    assert(1 <= window_size < 150);
    assert(window_size * ticket_size <= 150 * 255) by (nonlinear_arith)
        requires
            window_size < 150,
            ticket_size < 255;
    assert(window_size * ticket_size >= 1) by (nonlinear_arith)
        requires
            window_size >= 1,
            ticket_size >= 1;
    let temp_denom = window_size as u32 * ticket_size as u32;
    let ratio = reduce_ratio(total_matches, temp_denom);
    Some(OptimizeReport { window_size, ball_counter, ratio })
}

/// The back-test picks the best depth: no tried window size scores more
/// than the reported score, the reported size (when not 0) scores exactly
/// that, and every smaller size scores strictly less.
pub proof fn lemma_best_depth_is_first_max(tickets: Seq<LotteryTicket>, m: int, size: u8, algo: Algo, filters: Seq<Filter>)
    ensures
        ({
            let b = best_depth(tickets, m, size, algo, filters);
            &&& b.1 >= 0
            &&& forall|ws: int| 1 <= ws < m ==> #[trigger] depth_score(tickets, ws, size, algo, filters) <= b.1
            &&& b.0 == 0 ==> b.1 == 0
            &&& b.0 != 0 ==> {
                &&& 1 <= b.0 < m
                &&& b.1 > 0
                &&& depth_score(tickets, b.0, size, algo, filters) == b.1
                &&& forall|ws: int| 1 <= ws < b.0 ==> #[trigger] depth_score(tickets, ws, size, algo, filters) < b.1
            }
        }),
    decreases m,
{
    if m > 1 {
        lemma_best_depth_is_first_max(tickets, m - 1, size, algo, filters);
    }
}

/// The plain back-test picks the best depth in the same sense.
pub proof fn lemma_best_gain_depth_is_first_max(tickets: Seq<LotteryTicket>, m: int, size: u8, algo: Algo)
    ensures
        ({
            let b = best_gain_depth(tickets, m, size, algo);
            &&& b.1 >= 0
            &&& forall|ws: int| 1 <= ws < m ==> #[trigger] gain_score(tickets, ws, size, algo) <= b.1
            &&& b.0 == 0 ==> b.1 == 0
            &&& b.0 != 0 ==> {
                &&& 1 <= b.0 < m
                &&& b.1 > 0
                &&& gain_score(tickets, b.0, size, algo) == b.1
                &&& forall|ws: int| 1 <= ws < b.0 ==> #[trigger] gain_score(tickets, ws, size, algo) < b.1
            }
        }),
    decreases m,
{
    if m > 1 {
        lemma_best_gain_depth_is_first_max(tickets, m - 1, size, algo);
    }
}

proof fn lemma_best_in_range(tickets: Seq<LotteryTicket>, m: int, size: u8, algo: Algo, filters: Seq<Filter>)
    ensures
        best_depth(tickets, m, size, algo, filters).0 == 0 || 1 <= best_depth(tickets, m, size, algo, filters).0 < m,
        best_depth(tickets, m, size, algo, filters).1 >= 0,
    decreases m,
{
    if m > 1 {
        lemma_best_in_range(tickets, m - 1, size, algo, filters);
    }
}

/// What the plain back-test accumulates: the weighted matches and whether
/// every step stayed defined.
pub type GainTally = (u32, bool);

/// Scores one window like `score_step`, without filters and without the
/// counter of correct balls.
pub open spec fn gain_step(st: GainTally, tickets: Seq<LotteryTicket>, win: Seq<LotteryTicket>, size: u8, algo: Algo) -> GainTally {
    if !st.1 {
        st
    } else if !algo_fits(algo, win) {
        (st.0, false)
    } else {
        let pred = spec_predict(algo, win, size);
        if pred.len() < size {
            st
        } else if size == 0 && pred.len() > 0 {
            (st.0, false)
        } else {
            let cands = candidates(pred, size);
            match spec_bsearch(tickets, win.last().date, 0, tickets.len() as int) {
                None => (st.0, false),
                Some(i) => {
                    let g = st.0 + window_weight(tickets, win) * total_match(cands, tickets[i].numbers@);
                    if g <= u32::MAX { (g as u32, true) } else { (st.0, false) }
                },
            }
        }
    }
}

/// The plain tallies after scoring the first `n` windows of `w` records.
pub open spec fn gain_tally(tickets: Seq<LotteryTicket>, n: int, w: int, size: u8, algo: Algo) -> GainTally
    decreases n,
{
    if n <= 0 {
        (0u32, true)
    } else {
        gain_step(gain_tally(tickets, n - 1, w, size, algo), tickets, window_of(tickets, n - 1, w), size, algo)
    }
}

proof fn lemma_gain_not_ok(tickets: Seq<LotteryTicket>, n0: int, n: int, w: int, size: u8, algo: Algo)
    requires
        0 <= n0 <= n,
        !gain_tally(tickets, n0, w, size, algo).1,
    ensures
        !gain_tally(tickets, n, w, size, algo).1,
    decreases n - n0,
{
    if n0 < n {
        lemma_gain_not_ok(tickets, n0, n - 1, w, size, algo);
    }
}

/// The plain back-test score for windows of `ws` records.
pub open spec fn gain_score(tickets: Seq<LotteryTicket>, ws: int, size: u8, algo: Algo) -> int {
    gain_tally(tickets, window_count(tickets, ws), ws, size, algo).0 as int / window_count(tickets, ws)
}

/// Every window size `1..m` back-tests (plainly) without an undefined step.
pub open spec fn gains_defined(tickets: Seq<LotteryTicket>, m: int, size: u8, algo: Algo) -> bool {
    forall|ws: int| 1 <= ws < m ==> (#[trigger] gain_tally(tickets, window_count(tickets, ws), ws, size, algo)).1
}

/// The first window size of `1..m` with the highest positive plain score
/// (0 when none is positive), and that score.
pub open spec fn best_gain_depth(tickets: Seq<LotteryTicket>, m: int, size: u8, algo: Algo) -> (int, int)
    decreases m,
{
    if m <= 1 {
        (0, 0)
    } else {
        let b = best_gain_depth(tickets, m - 1, size, algo);
        let sc = gain_score(tickets, m - 1, size, algo);
        if sc > b.1 { (m - 1, sc) } else { b }
    }
}

/// The plain back-test of windows of `window_size` records, each window's
/// candidates scored against the record found for the date of the window's
/// own last record (that record itself, not the draw after it): the
/// weighted matches divided by the number of windows; `None` exactly when a
/// step is
/// undefined (for `ticket_size == 0`, also when a prediction is not empty).
pub fn window_gain(
    lottery_tickets: &[LotteryTicket],
    window_size: usize,
    ticket_size: u8,
    algo: Algo,
) -> (r: Option<u32>)
    requires
        1 <= window_size < lottery_tickets@.len(),
        lottery_tickets@.len() <= i32::MAX,
    ensures
        r is Some <==> gain_tally(lottery_tickets@, window_count(lottery_tickets@, window_size as int), window_size as int, ticket_size, algo).1,
        r matches Some(v) ==> v == gain_score(lottery_tickets@, window_size as int, ticket_size, algo),
{
    let ghost tickets = lottery_tickets@;
    let ghost w = window_size as int;
    let mut weighted_matches: u32 = 0;
    let windows_len = lottery_tickets.len() - 1 - window_size + 1;
    let mut s: usize = 0;
    while s < windows_len
        invariant
            s <= windows_len,
            windows_len == window_count(tickets, w),
            tickets == lottery_tickets@,
            w == window_size,
            1 <= window_size < lottery_tickets@.len(),
            lottery_tickets@.len() <= i32::MAX,
            gain_tally(tickets, s as int, w, ticket_size, algo) == (weighted_matches, true),
        decreases windows_len - s,
    {
        let window = &lottery_tickets[s..s + window_size];
        assert(window@ == window_of(tickets, s as int, w));
        let ghost prev = gain_tally(tickets, s as int, w, ticket_size, algo);
        assert(gain_tally(tickets, s + 1, w, ticket_size, algo) == gain_step(prev, tickets, window@, ticket_size, algo));
        let predicted = match try_predict(algo, window, ticket_size) {
            None => {
                proof { lemma_gain_not_ok(tickets, s + 1, windows_len as int, w, ticket_size, algo); }
                return None;
            },
            Some(p) => p,
        };
        if predicted.len() >= ticket_size as usize {
            let ghost pred = predicted@;
            if ticket_size == 0 && predicted.len() > 0 {
                proof { lemma_gain_not_ok(tickets, s + 1, windows_len as int, w, ticket_size, algo); }
                return None;
            }
            let cands: Vec<Vec<u8>> = if predicted.len() == ticket_size as usize {
                let c = vec![predicted];
                assert(views(c@) =~= seq![pred]);
                c
            } else {
                selections_of(predicted, ticket_size as usize)
            };
            assert(views(cands@) == candidates(pred, ticket_size));
            let found = find_tommorows_ticket(window[window_size - 1].date, lottery_tickets);
            assert(window@.last() == window@[window_size - 1]);
            let next = match found {
                None => {
                    proof { lemma_gain_not_ok(tickets, s + 1, windows_len as int, w, ticket_size, algo); }
                    return None;
                },
                Some(i) => i,
            };
            proof {
                lemma_present(tickets, s as int);
                lemma_present(tickets, s + w - 1);
                assert(window@[0] == tickets[s as int]);
                assert(window@[window@.len() - 1] == tickets[s + w - 1]);
                lemma_bsearch(tickets, window@.last().date, 0, tickets.len() as int);
            }
            assert(spec_bsearch(tickets, window@.last().date, 0, tickets.len() as int) == Some(next as int));
            let ok = add_gains(lottery_tickets, window, &cands, next, &mut weighted_matches);
            if !ok {
                proof { lemma_gain_not_ok(tickets, s + 1, windows_len as int, w, ticket_size, algo); }
                return None;
            }
        } else {
            assert(gain_step(prev, tickets, window@, ticket_size, algo) == prev);
        }
        s = s + 1;
    }
    assert(windows_len <= i32::MAX);
    Some(weighted_matches / (windows_len as u32))
}

} // verus!
