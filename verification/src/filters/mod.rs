//! Filters that prune candidate tickets.

pub mod bell;
pub mod even_odd;

pub use bell::bell;
pub use even_odd::even_odd;

use vstd::prelude::*;
use crate::ticket::views;
use bell::{bell_keep, bell_fits, band_hits, grouping};
use even_odd::{count_lopsided, count_even, count_odd, even_odd_fits};

verus! {

/// The available candidate filters.
#[derive(Clone, Copy, Debug, PartialEq, Eq, Structural)]
pub enum Filter {
    BellCurve,
    EvenOdd,
}

/// Every candidate holds exactly `n` balls.
pub open spec fn all_len(g: Seq<Seq<u8>>, n: int) -> bool {
    forall|i: int| 0 <= i < g.len() ==> (#[trigger] g[i]).len() == n
}

/// What a filter keeps of the candidates `g` (by their balls).
pub open spec fn spec_filter(f: Filter, g: Seq<Seq<u8>>, ticket_len: u8) -> Seq<Seq<u8>> {
    match f {
        Filter::BellCurve => g.filter(|t: Seq<u8>| bell_keep(t, ticket_len)),
        Filter::EvenOdd => g.take(g.len() - count_lopsided(g)),
    }
}

/// The candidates left after applying `fs` in order.
pub open spec fn spec_filters(fs: Seq<Filter>, g: Seq<Seq<u8>>, ticket_len: u8) -> Seq<Seq<u8>>
    decreases fs.len(),
{
    if fs.len() == 0 {
        g
    } else {
        spec_filter(fs.last(), spec_filters(fs.drop_last(), g, ticket_len), ticket_len)
    }
}

proof fn lemma_counts_le(t: Seq<u8>, ticket_len: u8)
    ensures
        count_even(t) <= t.len(),
        count_odd(t) <= t.len(),
        band_hits(t, ticket_len) <= t.len(),
    decreases t.len(),
{
    if t.len() > 0 {
        lemma_counts_le(t.drop_last(), ticket_len);
    }
}

proof fn lemma_views_filter(g: Seq<Vec<u8>>, ticket_len: u8)
    ensures
        views(g.filter(|t: Vec<u8>| bell_keep(t@, ticket_len))) == views(g).filter(
            |t: Seq<u8>| bell_keep(t, ticket_len),
        ),
    decreases g.len(),
{
    reveal_with_fuel(Seq::filter, 1);
    if g.len() > 0 {
        lemma_views_filter(g.drop_last(), ticket_len);
        assert(views(g).drop_last() =~= views(g.drop_last()));
        let a = g.drop_last().filter(|t: Vec<u8>| bell_keep(t@, ticket_len));
        assert(views(a.push(g.last())) =~= views(a).push(g.last()@));
    } else {
        assert(views(g) =~= Seq::<Seq<u8>>::empty());
    }
}

proof fn lemma_filter_keeps_len(g: Seq<Seq<u8>>, ticket_len: u8, n: int)
    requires
        all_len(g, n),
    ensures
        all_len(g.filter(|t: Seq<u8>| bell_keep(t, ticket_len)), n),
    decreases g.len(),
{
    reveal_with_fuel(Seq::filter, 1);
    if g.len() > 0 {
        assert(all_len(g.drop_last(), n)) by {
            assert forall|i: int| 0 <= i < g.drop_last().len() implies (#[trigger] g.drop_last()[i]).len() == n by {
                assert(g.drop_last()[i] == g[i]);
            }
        }
        lemma_filter_keeps_len(g.drop_last(), ticket_len, n);
        let a = g.drop_last().filter(|t: Seq<u8>| bell_keep(t, ticket_len));
        assert(g.last() == g[g.len() - 1]);
        assert forall|i: int| 0 <= i < a.push(g.last()).len() implies (#[trigger] a.push(g.last())[i]).len() == n by {
            if i < a.len() {
                assert(a.push(g.last())[i] == a[i]);
            }
        }
    }
}

/// The bell-curve filter is idempotent: filtering its result again keeps
/// every ticket.
pub proof fn lemma_bell_idempotent(g: Seq<Seq<u8>>, ticket_len: u8)
    ensures
        spec_filter(Filter::BellCurve, spec_filter(Filter::BellCurve, g, ticket_len), ticket_len)
            == spec_filter(Filter::BellCurve, g, ticket_len),
    decreases g.len(),
{
    reveal_with_fuel(Seq::filter, 1);
    let p = |t: Seq<u8>| bell_keep(t, ticket_len);
    if g.len() > 0 {
        lemma_bell_idempotent(g.drop_last(), ticket_len);
        let a = g.drop_last().filter(p);
        if p(g.last()) {
            assert(a.push(g.last()).drop_last() =~= a);
        }
    }
}

/// The bell-curve filter can run on its own result whenever it can run on
/// the candidates, and running it again keeps every ticket.
pub proof fn lemma_bell_twice(g: Seq<Vec<u8>>, ticket_len: u8)
    ensures
        bell_fits(views(g), ticket_len) ==> bell_fits(
            views(g.filter(|t: Vec<u8>| bell_keep(t@, ticket_len))),
            ticket_len,
        ),
        g.filter(|t: Vec<u8>| bell_keep(t@, ticket_len)).filter(|t: Vec<u8>| bell_keep(t@, ticket_len))
            == g.filter(|t: Vec<u8>| bell_keep(t@, ticket_len)),
{
    let p = |t: Vec<u8>| bell_keep(t@, ticket_len);
    let h = g.filter(p);
    lemma_views_filter(g, ticket_len);
    lemma_filter_subset(views(g), ticket_len);
    if bell_fits(views(g), ticket_len) {
        let vh = views(h);
        assert forall|i: int| 0 <= i < vh.len() implies {
            &&& (#[trigger] vh[i]).len() < u32::MAX
            &&& grouping(ticket_len) * vh[i].len() <= u32::MAX
            &&& band_hits(vh[i], ticket_len) <= u8::MAX
        } by {
            assert(vh == views(g).filter(|t: Seq<u8>| bell_keep(t, ticket_len)));
            assert(vh.contains(vh[i]));
            assert(views(g).contains(vh[i]));
            let j = choose|j: int| 0 <= j < views(g).len() && views(g)[j] == vh[i];
            assert(views(g)[j] == vh[i]);
        }
    }
    lemma_vec_filter_idempotent(g, ticket_len);
}

proof fn lemma_vec_filter_idempotent(g: Seq<Vec<u8>>, ticket_len: u8)
    ensures
        g.filter(|t: Vec<u8>| bell_keep(t@, ticket_len)).filter(|t: Vec<u8>| bell_keep(t@, ticket_len))
            == g.filter(|t: Vec<u8>| bell_keep(t@, ticket_len)),
    decreases g.len(),
{
    reveal_with_fuel(Seq::filter, 1);
    let p = |t: Vec<u8>| bell_keep(t@, ticket_len);
    if g.len() > 0 {
        lemma_vec_filter_idempotent(g.drop_last(), ticket_len);
        let a = g.drop_last().filter(p);
        if p(g.last()) {
            assert(a.push(g.last()).drop_last() =~= a);
        }
    }
}

/// The bell-curve filter decides on each ticket alone: filtering two lists
/// joined gives the two filtered lists joined, and the filter can run on
/// the joined list exactly when it can run on each.
pub proof fn lemma_bell_per_ticket(a: Seq<Vec<u8>>, b: Seq<Vec<u8>>, ticket_len: u8)
    ensures
        (a + b).filter(|t: Vec<u8>| bell_keep(t@, ticket_len)) == a.filter(
            |t: Vec<u8>| bell_keep(t@, ticket_len),
        ) + b.filter(|t: Vec<u8>| bell_keep(t@, ticket_len)),
        bell_fits(views(a + b), ticket_len) <==> bell_fits(views(a), ticket_len) && bell_fits(
            views(b),
            ticket_len,
        ),
{
    Seq::filter_distributes_over_add(a, b, |t: Vec<u8>| bell_keep(t@, ticket_len));
    let va = views(a);
    let vb = views(b);
    let vab = views(a + b);
    assert(vab =~= va + vb);
    if bell_fits(vab, ticket_len) {
        assert forall|i: int| 0 <= i < va.len() implies {
            &&& (#[trigger] va[i]).len() < u32::MAX
            &&& grouping(ticket_len) * va[i].len() <= u32::MAX
            &&& band_hits(va[i], ticket_len) <= u8::MAX
        } by {
            assert(vab[i] == va[i]);
        }
        assert forall|i: int| 0 <= i < vb.len() implies {
            &&& (#[trigger] vb[i]).len() < u32::MAX
            &&& grouping(ticket_len) * vb[i].len() <= u32::MAX
            &&& band_hits(vb[i], ticket_len) <= u8::MAX
        } by {
            assert(vab[va.len() + i] == vb[i]);
        }
    }
    if bell_fits(va, ticket_len) && bell_fits(vb, ticket_len) {
        assert forall|i: int| 0 <= i < vab.len() implies {
            &&& (#[trigger] vab[i]).len() < u32::MAX
            &&& grouping(ticket_len) * vab[i].len() <= u32::MAX
            &&& band_hits(vab[i], ticket_len) <= u8::MAX
        } by {
            if i < va.len() {
                assert(vab[i] == va[i]);
            } else {
                assert(vab[i] == vb[i - va.len()]);
            }
        }
    }
}

/// The even/odd filter does not depend on the ticket length it is given.
pub proof fn lemma_even_odd_ignores_length(g: Seq<Seq<u8>>, a: u8, b: u8)
    ensures
        spec_filter(Filter::EvenOdd, g, a) == spec_filter(Filter::EvenOdd, g, b),
{
}

/// The even/odd filter drops from the end of the candidates one ticket for
/// each candidate holding more than three even balls or more than three odd
/// balls, whatever the ticket length.
pub proof fn lemma_even_odd_drops_lopsided(g: Seq<Seq<u8>>, ticket_len: u8)
    ensures
        spec_filter(Filter::EvenOdd, g, ticket_len) == g.take(
            g.len() - g.filter(
                |t: Seq<u8>| t.filter(|x: u8| x % 2 == 0).len() > 3 || t.filter(|x: u8| x % 2 == 1).len() > 3,
            ).len(),
        ),
{
    even_odd::lemma_lopsided_count(g);
}

/// When the even/odd filter is among the filters and every candidate holds
/// more than three even balls or more than three odd balls, the filters
/// leave no candidate.
pub proof fn lemma_filters_drop_all_lopsided(fs: Seq<Filter>, g: Seq<Seq<u8>>, ticket_len: u8)
    requires
        fs.contains(Filter::EvenOdd),
        forall|t: Seq<u8>| #[trigger] g.contains(t) ==> t.filter(|x: u8| x % 2 == 0).len() > 3 || t.filter(
            |x: u8| x % 2 == 1,
        ).len() > 3,
    ensures
        spec_filters(fs, g, ticket_len).len() == 0,
    decreases fs.len(),
{
    reveal_with_fuel(Seq::filter, 1);
    let j = choose|j: int| 0 <= j < fs.len() && fs[j] == Filter::EvenOdd;
    let h = spec_filters(fs.drop_last(), g, ticket_len);
    if j < fs.len() - 1 {
        assert(fs.drop_last()[j] == Filter::EvenOdd);
        lemma_filters_drop_all_lopsided(fs.drop_last(), g, ticket_len);
        assert(h.len() == 0);
        match fs.last() {
            Filter::BellCurve => {
                assert(h =~= Seq::<Seq<u8>>::empty());
            },
            Filter::EvenOdd => {},
        }
    } else {
        lemma_filters_only_remove(fs.drop_last(), g, ticket_len);
        assert forall|i: int| 0 <= i < h.len() implies even_odd::lopsided(#[trigger] h[i]) by {
            assert(h.contains(h[i]));
            assert(g.contains(h[i]));
            even_odd::lemma_count_parity_filter(h[i]);
        }
        even_odd::lemma_all_lopsided(h);
    }
}

/// Filters never add a candidate: every ticket left by a sequence of
/// filters was a candidate, and no more tickets are left than were given.
pub proof fn lemma_filters_only_remove(fs: Seq<Filter>, g: Seq<Seq<u8>>, ticket_len: u8)
    ensures
        spec_filters(fs, g, ticket_len).len() <= g.len(),
        forall|t: Seq<u8>| spec_filters(fs, g, ticket_len).contains(t) ==> g.contains(t),
    decreases fs.len(),
{
    broadcast use vstd::seq_lib::group_filter_ensures;
    if fs.len() > 0 {
        lemma_filters_only_remove(fs.drop_last(), g, ticket_len);
        let h = spec_filters(fs.drop_last(), g, ticket_len);
        let r = spec_filters(fs, g, ticket_len);
        match fs.last() {
            Filter::BellCurve => {
                lemma_filter_subset(h, ticket_len);
            },
            Filter::EvenOdd => {
                even_odd::lemma_count_lopsided_le(h);
                assert forall|t: Seq<u8>| r.contains(t) implies h.contains(t) by {
                    let i = choose|i: int| 0 <= i < r.len() && r[i] == t;
                    assert(h[i] == r[i]);
                }
            },
        }
    }
}

proof fn lemma_filter_subset(h: Seq<Seq<u8>>, ticket_len: u8)
    ensures
        h.filter(|t: Seq<u8>| bell_keep(t, ticket_len)).len() <= h.len(),
        forall|t: Seq<u8>| h.filter(|t: Seq<u8>| bell_keep(t, ticket_len)).contains(t) ==> h.contains(t),
    decreases h.len(),
{
    reveal_with_fuel(Seq::filter, 1);
    let p = |t: Seq<u8>| bell_keep(t, ticket_len);
    if h.len() > 0 {
        lemma_filter_subset(h.drop_last(), ticket_len);
        let a = h.drop_last().filter(p);
        assert forall|t: Seq<u8>| h.filter(p).contains(t) implies h.contains(t) by {
            let i = choose|i: int| 0 <= i < h.filter(p).len() && h.filter(p)[i] == t;
            if p(h.last()) && i == a.len() {
                assert(h[h.len() - 1] == t);
            } else {
                assert(a[i] == t);
                assert(a.contains(t));
                assert(h.drop_last().contains(t));
                let j = choose|j: int| 0 <= j < h.drop_last().len() && h.drop_last()[j] == t;
                assert(h[j] == t);
            }
        }
    }
}

/// Whether the bell-curve filter is among `fs`.
pub fn has_bell(fs: &Vec<Filter>) -> (r: bool)
    ensures
        r == fs@.contains(Filter::BellCurve),
{
    let mut i: usize = 0;
    while i < fs.len()
        invariant
            i <= fs@.len(),
            forall|k: int| 0 <= k < i ==> fs@[k] != Filter::BellCurve,
        decreases fs.len() - i,
    {
        if fs[i] == Filter::BellCurve {
            return true;
        }
        i = i + 1;
    }
    false
}

/// Applies one filter to the candidates.
pub fn apply_filter(f: Filter, g: &mut Vec<Vec<u8>>, ticket_len: u8)
    requires
        f == Filter::BellCurve ==> 1 <= ticket_len,
        all_len(views(old(g)@), ticket_len as int),
    ensures
        views(final(g)@) == spec_filter(f, views(old(g)@), ticket_len),
        all_len(views(final(g)@), ticket_len as int),
{
    let ghost g0 = g@;
    let ghost v0 = views(g0);
    assert forall|i: int| 0 <= i < v0.len() implies {
        &&& (#[trigger] v0[i]).len() < u32::MAX
        &&& grouping(ticket_len) * v0[i].len() <= u32::MAX
        &&& band_hits(v0[i], ticket_len) <= u8::MAX
        &&& count_even(v0[i]) <= i32::MAX && count_odd(v0[i]) <= i32::MAX
    } by {
        lemma_counts_le(v0[i], ticket_len);
        if ticket_len > 0 {
            assert(grouping(ticket_len) <= 32);
            assert(grouping(ticket_len) * v0[i].len() <= 32 * 255) by (nonlinear_arith)
                requires
                    0 <= grouping(ticket_len) <= 32,
                    v0[i].len() <= 255;
        }
    }
    match f {
        Filter::BellCurve => {
            bell(g, ticket_len);
            proof {
                lemma_views_filter(g0, ticket_len);
                lemma_filter_keeps_len(v0, ticket_len, ticket_len as int);
                assert(views(g@) == v0.filter(|t: Seq<u8>| bell_keep(t, ticket_len)));
                assert(all_len(views(g@), ticket_len as int));
            }
        },
        Filter::EvenOdd => {
            even_odd(g, ticket_len);
            proof {
                even_odd::lemma_count_lopsided_le(v0);
                let n = v0.len() - count_lopsided(v0);
                assert(v0.len() == g0.len());
                assert(g@ == g0.take(n));
                assert forall|i: int| 0 <= i < views(g@).len() implies #[trigger] views(g@)[i] == v0.take(n)[i] by {
                    assert(views(g@)[i] == g@[i]@);
                    assert(g@[i] == g0[i]);
                }
                assert(views(g@) =~= v0.take(n));
            }
        },
    }
}

/// Applies the filters in order.
pub fn apply_filters(fs: &Vec<Filter>, g: &mut Vec<Vec<u8>>, ticket_len: u8)
    requires
        fs@.contains(Filter::BellCurve) ==> 1 <= ticket_len,
        all_len(views(old(g)@), ticket_len as int),
    ensures
        views(final(g)@) == spec_filters(fs@, views(old(g)@), ticket_len),
        all_len(views(final(g)@), ticket_len as int),
{
    let ghost v0 = views(g@);
    let mut i: usize = 0;
    while i < fs.len()
        invariant
            i <= fs.len(),
            fs@.contains(Filter::BellCurve) ==> 1 <= ticket_len,
            views(g@) == spec_filters(fs@.take(i as int), v0, ticket_len),
            all_len(views(g@), ticket_len as int),
        decreases fs.len() - i,
    {
        assert(fs@[i as int] == Filter::BellCurve ==> fs@.contains(Filter::BellCurve));
        apply_filter(fs[i], g, ticket_len);
        proof {
            assert(fs@.take(i + 1).drop_last() =~= fs@.take(i as int));
        }
        i = i + 1;
    }
    assert(fs@.take(fs.len() as int) =~= fs@);
}

} // verus!
