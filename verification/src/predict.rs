//! The prediction for the next draw.

use vstd::prelude::*;
use crate::ticket::{views, Date, LotteryTicket, date_valid, date_lt, spec_next_day};
use crate::algos::{Algo, algo_fits, spec_predict, try_predict};
use crate::filters::{Filter, spec_filters, apply_filters};
use crate::combine::{index_combinations, first_occurrences, sorted_lex, ticket_combinations};

verus! {

/// The records the prediction uses: the last `history` of them.
pub open spec fn recent(tickets: Seq<LotteryTicket>, history: int) -> Seq<LotteryTicket> {
    tickets.subrange(tickets.len() - history, tickets.len() as int)
}

/// Predicts the tickets for the next draw: runs the algorithm on the last
/// `history` records, forms every ticket of `ticket_len` distinct predicted
/// balls, sorts them and applies the filters in order. `None` exactly when
/// a counter of the algorithm would leave its type.
pub fn predict_tickets(
    tickets: &[LotteryTicket],
    history: usize,
    ticket_len: u8,
    algo: Algo,
    filters: &Vec<Filter>,
) -> (r: Option<Vec<Vec<u8>>>)
    requires
        history <= tickets@.len(),
        filters@.contains(Filter::BellCurve) ==> 1 <= ticket_len,
    ensures
        r is Some <==> algo_fits(algo, recent(tickets@, history as int)),
        r matches Some(v) ==> exists|sorted: Seq<Seq<u8>>|
            #![trigger sorted_lex(sorted)]
            sorted.to_multiset() == index_combinations(
                first_occurrences(spec_predict(algo, recent(tickets@, history as int), ticket_len)),
                ticket_len as nat,
            ).to_multiset() && sorted_lex(sorted) && views(v@) == spec_filters(filters@, sorted, ticket_len),
{
    let window = &tickets[tickets.len() - history..tickets.len()];
    let guesses = match try_predict(algo, window, ticket_len) {
        None => {
            return None;
        },
        Some(g) => g,
    };
    let mut candidates = ticket_combinations(guesses, ticket_len);
    let ghost sorted = views(candidates@);
    apply_filters(filters, &mut candidates, ticket_len);
    assert(sorted_lex(sorted));
    Some(candidates)
}

/// The date of the next draw: the day after the last record.
pub fn draw_date(tickets: &[LotteryTicket]) -> (r: Option<Date>)
    requires
        tickets@.len() > 0,
        date_valid(tickets@[tickets@.len() - 1].date),
    ensures
        r == spec_next_day(tickets@[tickets@.len() - 1].date),
{
    tickets[tickets.len() - 1].date.next_day()
}

} // verus!
