//! The spine prediction: the earliest balls of the window.

use vstd::prelude::*;
use crate::ticket::LotteryTicket;

verus! {

/// Every ball of the window, ticket after ticket, in draw order.
pub open spec fn all_balls(window: Seq<LotteryTicket>) -> Seq<u8>
    decreases window.len(),
{
    if window.len() == 0 {
        Seq::empty()
    } else {
        all_balls(window.drop_last()) + window.last().numbers@
    }
}

/// How many balls the spine prediction keeps.
pub const SPINE_LEN: usize = 9;

/// The spine prediction of a window: its first `SPINE_LEN` balls.
pub open spec fn spec_spine_sort(window: Seq<LotteryTicket>) -> Seq<u8> {
    let b = all_balls(window);
    if b.len() <= SPINE_LEN { b } else { b.take(SPINE_LEN as int) }
}

/// A tally entry: a ball and how often it was seen from its entry on.
struct BallCount {
    ball: u8,
    count: usize,
}

/// Tallies every ball occurrence of the window (one entry per occurrence,
/// and each earlier entry of the same ball counts it again), keeps the
/// entries in order of appearance and predicts their first `SPINE_LEN` balls.
pub fn spine_sort(window: &[LotteryTicket], length: u8) -> (r: Vec<u8>)
    ensures
        r@ == spec_spine_sort(window@),
{
    let mut spine_counter: Vec<BallCount> = Vec::new();
    let mut t: usize = 0;
    while t < window.len()
        invariant
            t <= window.len(),
            spine_counter@.map_values(|e: BallCount| e.ball) == all_balls(window@.take(t as int)),
            forall|k: int| 0 <= k < spine_counter@.len() ==> (#[trigger] spine_counter@[k]).count <= spine_counter@.len(),
        decreases window.len() - t,
    {
        let numbers = &window[t].numbers;
        let mut b: usize = 0;
        while b < numbers.len()
            invariant
                b <= numbers.len(),
                t < window.len(),
                numbers@ == window@[t as int].numbers@,
                spine_counter@.map_values(|e: BallCount| e.ball) == all_balls(window@.take(t as int)) + numbers@.take(b as int),
                forall|k: int| 0 <= k < spine_counter@.len() ==> (#[trigger] spine_counter@[k]).count <= spine_counter@.len(),
            decreases numbers.len() - b,
        {
            let ball = numbers[b];
            let old_len = spine_counter.len();
            let ghost before = spine_counter@;
            spine_counter.push(BallCount { ball, count: 1 });
            assert(spine_counter.len() == old_len + 1);
            let mut k: usize = 0;
            while k < old_len
                invariant
                    k <= old_len,
                    old_len < spine_counter@.len() <= usize::MAX,
                    spine_counter@.len() == old_len + 1,
                    spine_counter@.map_values(|e: BallCount| e.ball) == before.push(BallCount { ball, count: 1 }).map_values(|e: BallCount| e.ball),
                    forall|j: int| 0 <= j < spine_counter@.len() ==> (#[trigger] spine_counter@[j]).count <= spine_counter@.len(),
                    forall|j: int| k <= j < old_len ==> (#[trigger] spine_counter@[j]).count <= old_len,
                decreases old_len - k,
            {
                if spine_counter[k].ball == ball {
                    let c = spine_counter[k].count;
                    spine_counter[k].count = c + 1;
                    proof {
                        assert(spine_counter@.map_values(|e: BallCount| e.ball) =~= before.push(BallCount { ball, count: 1 }).map_values(|e: BallCount| e.ball));
                    }
                }
                k = k + 1;
            }
            b = b + 1;
            proof {
                assert(before.push(BallCount { ball, count: 1 }).map_values(|e: BallCount| e.ball) =~= before.map_values(|e: BallCount| e.ball).push(ball));
                assert(numbers@.take(b as int) =~= numbers@.take(b - 1).push(ball));
                assert(spine_counter@.map_values(|e: BallCount| e.ball) =~= all_balls(window@.take(t as int)) + numbers@.take(b as int));
            }
        }
        t = t + 1;
        proof {
            assert(window@.take(t as int).drop_last() =~= window@.take(t - 1));
            assert(numbers@.take(numbers@.len() as int) =~= numbers@);
        }
    }
    assert(window@.take(window@.len() as int) =~= window@);
    let ghost balls = all_balls(window@);
    let mut predicted_nums: Vec<u8> = Vec::new();
    let mut i: usize = 0;
    while i < spine_counter.len()
        invariant
            i <= spine_counter@.len(),
            spine_counter@.map_values(|e: BallCount| e.ball) == balls,
            predicted_nums@ == balls.take(i as int),
        decreases spine_counter.len() - i,
    {
        predicted_nums.push(spine_counter[i].ball);
        i = i + 1;
        proof {
            assert(predicted_nums@ =~= balls.take(i as int));
        }
    }
    assert(balls.take(balls.len() as int) =~= balls);
    predicted_nums.truncate(SPINE_LEN);
    predicted_nums
}

} // verus!
