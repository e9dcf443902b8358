//! Prediction algorithms over a window of past draws.

pub mod friends;
pub mod multiply;
pub mod quiet;
pub mod spine_sort;

pub use friends::friends;
pub use multiply::multiply;
pub use quiet::quiet;
pub use spine_sort::spine_sort;

use vstd::prelude::*;
use crate::ticket::LotteryTicket;
use crate::optimize::{max_depth, best_gain_depth, gains_defined, window_gain, WINDOW_SIZE};

verus! {

/// The available prediction algorithms.
#[derive(Clone, Copy, Debug, PartialEq, Eq, Structural)]
pub enum Algo {
    Spine,
    Multiply,
    Friends,
    Quiet,
}

/// The algorithm's counters stay within their types on this window.
pub open spec fn algo_fits(algo: Algo, window: Seq<LotteryTicket>) -> bool {
    match algo {
        Algo::Spine => true,
        Algo::Multiply => multiply::multiply_fits(window),
        Algo::Friends => friends::friends_fits(window),
        Algo::Quiet => quiet::quiet_fits(window),
    }
}

/// The balls the algorithm predicts from the window.
pub open spec fn spec_predict(algo: Algo, window: Seq<LotteryTicket>, size: u8) -> Seq<u8> {
    match algo {
        Algo::Spine => spine_sort::spec_spine_sort(window),
        Algo::Multiply => Seq::empty(),
        Algo::Friends => friends::spec_friends(window, size),
        Algo::Quiet => Seq::empty(),
    }
}

/// Runs the algorithm on the window; `None` when one of its counters would
/// leave its type.
pub fn try_predict(algo: Algo, window: &[LotteryTicket], size: u8) -> (r: Option<Vec<u8>>)
    ensures
        r is Some <==> algo_fits(algo, window@),
        r matches Some(v) ==> v@ == spec_predict(algo, window@, size),
{
    match algo {
        Algo::Spine => Some(spine_sort(window, size)),
        Algo::Multiply => {
            match multiply::multiply_products(window) {
                Some(_) => Some(Vec::new()),
                None => None,
            }
        },
        Algo::Friends => friends::try_friends(window, size),
        Algo::Quiet => {
            match quiet::quiet_stats(window) {
                Some(_) => Some(Vec::new()),
                None => None,
            }
        },
    }
}

/// Runs the algorithm on the window.
pub fn predict(algo: Algo, window: &[LotteryTicket], size: u8) -> (r: Vec<u8>)
    requires
        algo_fits(algo, window@),
    ensures
        r@ == spec_predict(algo, window@, size),
{
    match algo {
        Algo::Spine => spine_sort(window, size),
        Algo::Multiply => multiply(window, size),
        Algo::Friends => friends(window, size),
        Algo::Quiet => quiet(window, size),
    }
}

/// Plainly back-tests the algorithm (no filters) for every window size
/// `1..max_depth` and returns the first size with the highest positive
/// score, 0 when no score is positive; `None` exactly when a back-test step
/// is undefined.
pub fn optimize(lottery_tickets: &[LotteryTicket], ticket_size: u8, algo: Algo) -> (r: Option<u32>)
    requires
        2 <= lottery_tickets@.len() <= i32::MAX,
    ensures
        r is Some <==> gains_defined(lottery_tickets@, max_depth(lottery_tickets@.len() as int), ticket_size, algo),
        r matches Some(d) ==> d == best_gain_depth(
            lottery_tickets@,
            max_depth(lottery_tickets@.len() as int),
            ticket_size,
            algo,
        ).0,
{
    let ghost tickets = lottery_tickets@;
    let len = lottery_tickets.len();
    let depth_limit: usize = if len - 2 < WINDOW_SIZE { len - 2 } else { WINDOW_SIZE };
    let mut best_ws: u32 = 0;
    let mut best_wm: u32 = 0;
    let mut window_size: usize = 1;
    while window_size < depth_limit
        invariant
            1 <= window_size,
            window_size <= depth_limit || depth_limit == 0,
            depth_limit == 0 ==> window_size == 1,
            depth_limit == max_depth(tickets.len() as int),
            depth_limit <= WINDOW_SIZE,
            tickets == lottery_tickets@,
            len == tickets.len(),
            2 <= len <= i32::MAX,
            gains_defined(tickets, window_size as int, ticket_size, algo),
            best_gain_depth(tickets, window_size as int, ticket_size, algo) == (best_ws as int, best_wm as int),
        decreases depth_limit - window_size,
    {
        match window_gain(lottery_tickets, window_size, ticket_size, algo) {
            None => {
                return None;
            },
            Some(wm) => {
                if wm > best_wm {
                    best_ws = window_size as u32;
                    best_wm = wm;
                }
            },
        }
        window_size = window_size + 1;
    }
    Some(best_ws)
}

} // verus!
