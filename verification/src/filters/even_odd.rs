//! The even/odd balance filter.

use vstd::prelude::*;
use crate::ticket::views;

verus! {

/// Number of even values in `t`.
pub open spec fn count_even(t: Seq<u8>) -> nat
    decreases t.len(),
{
    if t.len() == 0 {
        0
    } else {
        count_even(t.drop_last()) + if t.last() % 2 == 0 { 1nat } else { 0nat }
    }
}

/// Number of odd values in `t`.
pub open spec fn count_odd(t: Seq<u8>) -> nat
    decreases t.len(),
{
    if t.len() == 0 {
        0
    } else {
        count_odd(t.drop_last()) + if t.last() % 2 == 1 { 1nat } else { 0nat }
    }
}

/// A ticket with more than three even or more than three odd values.
pub open spec fn lopsided(t: Seq<u8>) -> bool {
    count_even(t) > 3 || count_odd(t) > 3
}

/// Number of lopsided tickets in `g`.
pub open spec fn count_lopsided(g: Seq<Seq<u8>>) -> nat
    decreases g.len(),
{
    if g.len() == 0 {
        0
    } else {
        count_lopsided(g.drop_last()) + if lopsided(g.last()) { 1nat } else { 0nat }
    }
}

/// The parity tallies of a ticket fit the counters.
pub open spec fn even_odd_fits(g: Seq<Seq<u8>>) -> bool {
    forall|i: int| 0 <= i < g.len() ==> count_even(#[trigger] g[i]) <= i32::MAX && count_odd(g[i]) <= i32::MAX
}

pub(crate) proof fn lemma_count_lopsided_le(g: Seq<Seq<u8>>)
    ensures
        count_lopsided(g) <= g.len(),
    decreases g.len(),
{
    if g.len() > 0 {
        lemma_count_lopsided_le(g.drop_last());
    }
}

/// Tallies the even and odd values of `t`.
fn parity_counts(t: &Vec<u8>) -> (r: (i32, i32))
    requires
        count_even(t@) <= i32::MAX,
        count_odd(t@) <= i32::MAX,
    ensures
        r.0 == count_even(t@),
        r.1 == count_odd(t@),
{
    let mut even: i32 = 0;
    let mut odd: i32 = 0;
    let mut i: usize = 0;
    while i < t.len()
        invariant
            i <= t.len(),
            even == count_even(t@.take(i as int)),
            odd == count_odd(t@.take(i as int)),
            count_even(t@) <= i32::MAX,
            count_odd(t@) <= i32::MAX,
        decreases t.len() - i,
    {
        proof {
            assert(t@.take(i + 1).drop_last() =~= t@.take(i as int));
            lemma_count_prefix_le(t@, i as int + 1);
        }
        if t[i] % 2 == 0 {
            even = even + 1;
        } else {
            odd = odd + 1;
        }
        i = i + 1;
    }
    assert(t@.take(t.len() as int) =~= t@);
    (even, odd)
}

proof fn lemma_count_prefix_le(t: Seq<u8>, n: int)
    requires
        0 <= n <= t.len(),
    ensures
        count_even(t.take(n)) <= count_even(t),
        count_odd(t.take(n)) <= count_odd(t),
    decreases t.len(),
{
    if n < t.len() {
        assert(t.drop_last().take(n) =~= t.take(n));
        lemma_count_prefix_le(t.drop_last(), n);
    } else {
        assert(t.take(n) =~= t);
    }
}

/// Drops one ticket from the end of `algo_guesses` for every ticket that
/// holds more than three even or more than three odd values.
pub fn even_odd(algo_guesses: &mut Vec<Vec<u8>>, _ticket_len: u8)
    requires
        even_odd_fits(views(old(algo_guesses)@)),
    ensures
        final(algo_guesses)@ == old(algo_guesses)@.take(
            old(algo_guesses)@.len() - count_lopsided(views(old(algo_guesses)@)),
        ),
{
    let ghost orig = algo_guesses@;
    let ghost dv = views(algo_guesses@);
    let n = algo_guesses.len();
    let mut i: usize = n;
    let ghost mut popped: nat = 0;
    while i > 0
        invariant
            i <= n,
            n == orig.len(),
            dv == views(orig),
            even_odd_fits(dv),
            popped == count_lopsided(dv.skip(i as int)),
            popped <= n - i,
            algo_guesses@ == orig.take(n - popped),
        decreases i,
    {
        i = i - 1;
        proof {
            lemma_count_lopsided_le(dv.skip(i as int));
        }
        assert(dv[i as int] == algo_guesses@[i as int]@);
        let (even, odd) = parity_counts(&algo_guesses[i]);
        if even > 3 || odd > 3 {
            algo_guesses.pop();
            proof { popped = popped + 1; }
        }
        proof {
            lemma_count_lopsided_cons(dv, i as int);
            assert(orig.take(n - popped) =~= algo_guesses@);
        }
    }
    assert(dv.skip(0) =~= dv);
}

pub(crate) proof fn lemma_count_parity_filter(t: Seq<u8>)
    ensures
        count_even(t) == t.filter(|x: u8| x % 2 == 0).len(),
        count_odd(t) == t.filter(|x: u8| x % 2 == 1).len(),
    decreases t.len(),
{
    reveal_with_fuel(Seq::filter, 1);
    if t.len() > 0 {
        lemma_count_parity_filter(t.drop_last());
    }
}

/// The number of tickets the even/odd filter drops is the number of tickets
/// holding more than three even balls or more than three odd balls.
pub proof fn lemma_lopsided_count(g: Seq<Seq<u8>>)
    ensures
        count_lopsided(g) == g.filter(
            |t: Seq<u8>| t.filter(|x: u8| x % 2 == 0).len() > 3 || t.filter(|x: u8| x % 2 == 1).len() > 3,
        ).len(),
    decreases g.len(),
{
    reveal_with_fuel(Seq::filter, 1);
    if g.len() > 0 {
        lemma_lopsided_count(g.drop_last());
        lemma_count_parity_filter(g.last());
    }
}

/// When every ticket is lopsided, each one counts.
pub(crate) proof fn lemma_all_lopsided(g: Seq<Seq<u8>>)
    requires
        forall|i: int| 0 <= i < g.len() ==> lopsided(#[trigger] g[i]),
    ensures
        count_lopsided(g) == g.len(),
    decreases g.len(),
{
    if g.len() > 0 {
        assert(lopsided(g[g.len() - 1]));
        assert forall|i: int| 0 <= i < g.drop_last().len() implies lopsided(#[trigger] g.drop_last()[i]) by {
            assert(g.drop_last()[i] == g[i]);
        }
        lemma_all_lopsided(g.drop_last());
    }
}

proof fn lemma_count_lopsided_cons(g: Seq<Seq<u8>>, i: int)
    requires
        0 <= i < g.len(),
    ensures
        count_lopsided(g.skip(i)) == count_lopsided(g.skip(i + 1)) + if lopsided(g[i]) { 1nat } else { 0nat },
    decreases g.len(),
{
    if i == g.len() - 1 {
        assert(g.skip(i).drop_last() =~= g.skip(i + 1));
    } else {
        lemma_count_lopsided_cons(g.drop_last(), i);
        assert(g.skip(i).drop_last() =~= g.drop_last().skip(i));
        assert(g.skip(i + 1).drop_last() =~= g.drop_last().skip(i + 1));
    }
}

} // verus!
