//! The multiply statistic: position-weighted ball sums of a window.

use vstd::prelude::*;
use crate::ticket::LotteryTicket;

verus! {

/// Sum of the balls of `nums`, each multiplied by `i`.
pub open spec fn weighted_sum(nums: Seq<u8>, i: int) -> int
    decreases nums.len(),
{
    if nums.len() == 0 {
        0
    } else {
        weighted_sum(nums.drop_last(), i) + nums.last() * i
    }
}

/// Every ticket's weighted sum fits a `usize`.
pub open spec fn multiply_fits(window: Seq<LotteryTicket>) -> bool {
    forall|i: int| 0 <= i < window.len() ==> weighted_sum(#[trigger] window[i].numbers@, i) <= usize::MAX
}

proof fn lemma_weighted_sum_prefix(nums: Seq<u8>, n: int, i: int)
    requires
        0 <= n <= nums.len(),
        i >= 0,
    ensures
        0 <= weighted_sum(nums.take(n), i) <= weighted_sum(nums, i),
    decreases nums.len(),
{
    if n < nums.len() {
        assert(nums.drop_last().take(n) =~= nums.take(n));
        lemma_weighted_sum_prefix(nums.drop_last(), n, i);
        assert(nums.last() * i >= 0) by (nonlinear_arith)
            requires
                i >= 0;
    } else {
        assert(nums.take(n) =~= nums);
        if nums.len() > 0 {
            lemma_weighted_sum_prefix(nums.drop_last(), nums.len() - 1, i);
            assert(nums.drop_last().take(nums.len() - 1) =~= nums.drop_last());
            assert(nums.last() * i >= 0) by (nonlinear_arith)
                requires
                    i >= 0;
        }
    }
}

/// Weighted sum of one ticket's balls; `None` when it overflows.
fn try_weighted_sum(nums: &Vec<u8>, i: usize) -> (r: Option<usize>)
    ensures
        r is Some <==> weighted_sum(nums@, i as int) <= usize::MAX,
        r matches Some(v) ==> v == weighted_sum(nums@, i as int),
{
    let mut total: usize = 0;
    let mut k: usize = 0;
    while k < nums.len()
        invariant
            k <= nums.len(),
            total == weighted_sum(nums@.take(k as int), i as int),
        decreases nums.len() - k,
    {
        proof {
            assert(nums@.take(k + 1).drop_last() =~= nums@.take(k as int));
        }
        let term = (nums[k] as usize).checked_mul(i);
        match term {
            None => {
                proof {
                    lemma_weighted_sum_prefix(nums@, k + 1, i as int);
                    assert(weighted_sum(nums@.take(k as int), i as int) >= 0) by {
                        lemma_weighted_sum_prefix(nums@, k as int, i as int);
                    }
                }
                return None;
            },
            Some(term) => {
                match total.checked_add(term) {
                    None => {
                        proof {
                            lemma_weighted_sum_prefix(nums@, k + 1, i as int);
                        }
                        return None;
                    },
                    Some(t) => {
                        total = t;
                    },
                }
            },
        }
        k = k + 1;
    }
    assert(nums@.take(nums@.len() as int) =~= nums@);
    Some(total)
}

/// For each ticket of the window, the sum of its balls multiplied by the
/// ticket's position in the window; `None` when a sum overflows.
pub fn multiply_products(window: &[LotteryTicket]) -> (r: Option<Vec<usize>>)
    ensures
        r is Some <==> multiply_fits(window@),
        r matches Some(v) ==> v@.len() == window@.len() && forall|i: int|
            0 <= i < window@.len() ==> v@[i] == weighted_sum(#[trigger] window@[i].numbers@, i),
{
    let mut stuff: Vec<usize> = Vec::new();
    let mut i: usize = 0;
    while i < window.len()
        invariant
            i <= window.len(),
            stuff@.len() == i,
            forall|j: int| 0 <= j < i ==> stuff@[j] == weighted_sum(#[trigger] window@[j].numbers@, j),
        decreases window.len() - i,
    {
        match try_weighted_sum(&window[i].numbers, i) {
            None => {
                return None;
            },
            Some(v) => {
                stuff.push(v);
            },
        }
        i = i + 1;
    }
    Some(stuff)
}

/// The multiply prediction: it computes the weighted sums of the window and
/// predicts no ball.
pub fn multiply(window: &[LotteryTicket], _length: u8) -> (r: Vec<u8>)
    requires
        multiply_fits(window@),
    ensures
        r@ == Seq::<u8>::empty(),
{
    let _stuff = multiply_products(window);
    Vec::new()
}

} // verus!
