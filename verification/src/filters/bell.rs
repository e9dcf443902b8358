//! The bell-curve filter.

use vstd::prelude::*;
use crate::ticket::views;

verus! {

/// Upper limit of the ball range the filter spreads over.
pub const HIGHEST_NUM: u32 = 32;

/// Width of each position's band for tickets of `ticket_len` balls.
pub open spec fn grouping(ticket_len: u8) -> int {
    HIGHEST_NUM as int / ticket_len as int
}

/// Whether the ball `num` at position `pos` lies strictly inside the band
/// of that position.
pub open spec fn in_band(num: u8, pos: int, ticket_len: u8) -> bool {
    let g = grouping(ticket_len);
    if pos == ticket_len as int {
        num > g * pos && num < HIGHEST_NUM
    } else {
        num > g * pos && num < g * (pos + 1)
    }
}

/// Number of positions of `t` whose ball lies inside its band.
pub open spec fn band_hits(t: Seq<u8>, ticket_len: u8) -> nat
    decreases t.len(),
{
    if t.len() == 0 {
        0
    } else {
        band_hits(t.drop_last(), ticket_len) + if in_band(t.last(), t.len() - 1, ticket_len) {
            1nat
        } else {
            0nat
        }
    }
}

/// A ticket survives when exactly `ticket_len - 1` of its balls are in band.
pub open spec fn bell_keep(t: Seq<u8>, ticket_len: u8) -> bool {
    band_hits(t, ticket_len) == ticket_len - 1
}

/// The band arithmetic of every ticket stays within its integer types.
pub open spec fn bell_fits(g: Seq<Seq<u8>>, ticket_len: u8) -> bool {
    forall|i: int|
        0 <= i < g.len() ==> {
            &&& (#[trigger] g[i]).len() < u32::MAX
            &&& grouping(ticket_len) * g[i].len() <= u32::MAX
            &&& band_hits(g[i], ticket_len) <= u8::MAX
        }
}

proof fn lemma_band_hits_prefix(t: Seq<u8>, n: int, ticket_len: u8)
    requires
        0 <= n <= t.len(),
    ensures
        band_hits(t.take(n), ticket_len) <= band_hits(t, ticket_len),
    decreases t.len(),
{
    if n < t.len() {
        assert(t.drop_last().take(n) =~= t.take(n));
        lemma_band_hits_prefix(t.drop_last(), n, ticket_len);
    } else {
        assert(t.take(n) =~= t);
    }
}

/// Decides whether `ticket` survives the filter.
fn keeps(ticket: &Vec<u8>, ticket_len: u8, num_grouping: u32) -> (r: bool)
    requires
        ticket_len > 0,
        num_grouping == grouping(ticket_len),
        ticket@.len() < u32::MAX,
        grouping(ticket_len) * ticket@.len() <= u32::MAX,
        band_hits(ticket@, ticket_len) <= u8::MAX,
    ensures
        r == bell_keep(ticket@, ticket_len),
{
    let mut correct: u8 = 0;
    let mut count: usize = 0;
    while count < ticket.len()
        invariant
            count <= ticket.len(),
            ticket_len > 0,
            num_grouping == grouping(ticket_len),
            ticket@.len() < u32::MAX,
            grouping(ticket_len) * ticket@.len() <= u32::MAX,
            band_hits(ticket@, ticket_len) <= u8::MAX,
            correct == band_hits(ticket@.take(count as int), ticket_len),
        decreases ticket.len() - count,
    {
        let cast_num = ticket[count] as u32;
        assert(num_grouping * (count + 1) <= num_grouping * ticket@.len()) by (nonlinear_arith)
            requires
                count + 1 <= ticket@.len(),
                num_grouping >= 0;
        assert(num_grouping * count <= num_grouping * (count + 1)) by (nonlinear_arith)
            requires
                num_grouping >= 0;
        let upper_bound = num_grouping * (count as u32 + 1);
        let lower_bound = num_grouping * (count as u32);
        proof {
            assert(ticket@.take(count + 1).drop_last() =~= ticket@.take(count as int));
            lemma_band_hits_prefix(ticket@, count + 1, ticket_len);
        }
        if count == ticket_len as usize {
            if cast_num > lower_bound && cast_num < HIGHEST_NUM {
                correct = correct + 1;
            }
        } else {
            if cast_num > lower_bound && cast_num < upper_bound {
                correct = correct + 1;
            }
        }
        count = count + 1;
    }
    assert(ticket@.take(ticket@.len() as int) =~= ticket@);
    correct == ticket_len - 1
}

/// Keeps the tickets whose balls fall into the expected bands for all but
/// one position.
pub fn bell(algo_guesses: &mut Vec<Vec<u8>>, ticket_len: u8)
    requires
        ticket_len > 0,
        bell_fits(views(old(algo_guesses)@), ticket_len),
    ensures
        final(algo_guesses)@ == old(algo_guesses)@.filter(
            |t: Vec<u8>| bell_keep(t@, ticket_len),
        ),
{
    let ghost orig = algo_guesses@;
    let ghost pred = |t: Vec<u8>| bell_keep(t@, ticket_len);
    let num_grouping = HIGHEST_NUM / ticket_len as u32;
    let mut i: usize = 0;
    let mut j: usize = 0;
    assert(orig.len() == algo_guesses.len());
    while i < algo_guesses.len()
        invariant
            ticket_len > 0,
            num_grouping == grouping(ticket_len),
            bell_fits(views(orig), ticket_len),
            j <= orig.len(),
            orig.len() <= usize::MAX,
            pred == (|t: Vec<u8>| bell_keep(t@, ticket_len)),
            i <= algo_guesses@.len(),
            algo_guesses@.len() - i == orig.len() - j,
            algo_guesses@.take(i as int) == orig.take(j as int).filter(pred),
            algo_guesses@.skip(i as int) == orig.skip(j as int),
        decreases algo_guesses@.len() - i,
    {
        proof {
            assert(algo_guesses@[i as int] == orig[j as int]) by {
                assert(algo_guesses@.skip(i as int)[0] == orig.skip(j as int)[0]);
            }
            assert(views(orig)[j as int] == orig[j as int]@);
            assert(views(orig)[j as int] == algo_guesses@[i as int]@);
            assert(orig.take(j + 1).drop_last() =~= orig.take(j as int));
        }
        let keep = keeps(&algo_guesses[i], ticket_len, num_grouping);
        proof {
            reveal_with_fuel(Seq::filter, 1);
            assert(pred(orig[j as int]) == bell_keep(orig[j as int]@, ticket_len));
            assert(pred(orig[j as int]) == keep);
            assert(orig.take(j + 1).last() == orig[j as int]);
        }
        if keep {
            proof {
                assert(algo_guesses@.take(i + 1) =~= algo_guesses@.take(i as int).push(orig[j as int]));
                assert(algo_guesses@.skip(i as int).skip(1) =~= algo_guesses@.skip(i + 1));
                assert(orig.skip(j as int).skip(1) =~= orig.skip(j + 1));
            }
            i = i + 1;
        } else {
            let ghost before = algo_guesses@;
            algo_guesses.remove(i);
            proof {
                assert(algo_guesses@.take(i as int) =~= before.take(i as int));
                assert(before.skip(i as int).skip(1) =~= algo_guesses@.skip(i as int));
                assert(orig.skip(j as int).skip(1) =~= orig.skip(j + 1));
            }
        }
        j = j + 1;
    }
    proof {
        assert(algo_guesses@.skip(i as int).len() == 0);
        assert(orig.skip(j as int).len() == 0);
        assert(orig.take(j as int) =~= orig);
        assert(algo_guesses@.take(i as int) =~= algo_guesses@);
    }
}

} // verus!
