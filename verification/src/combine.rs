//! Candidate tickets built from predicted balls, through the
//! `combinations` and `itertools` crates.

use vstd::prelude::*;
use itertools::Itertools;
use crate::ticket::views;
use crate::filters::all_len;

verus! {

/// `c` is a selection of `len` of the `items` (a sub-multiset), written in
/// ascending order.
pub open spec fn is_selection(items: Seq<u8>, len: nat, c: Seq<u8>) -> bool {
    &&& c.len() == len
    &&& sorted_balls(c)
    &&& c.to_multiset().subset_of(items.to_multiset())
}

/// `r` holds every selection of `len` of the `items` and nothing else, in
/// strictly increasing lexicographic order (so each exactly once).
pub open spec fn lists_selections(items: Seq<u8>, len: nat, r: Seq<Seq<u8>>) -> bool {
    &&& forall|i: int| 0 <= i < r.len() ==> is_selection(items, len, #[trigger] r[i])
    &&& forall|i: int, j: int| 0 <= i < j < r.len() ==> lex_lt(#[trigger] r[i], #[trigger] r[j])
    &&& forall|c: Seq<u8>| is_selection(items, len, c) ==> #[trigger] r.contains(c)
}

/// The selections of `len` of the `items`, in lexicographic order.
pub open spec fn combinations_of(items: Seq<u8>, len: nat) -> Seq<Seq<u8>> {
    choose|r: Seq<Seq<u8>>| lists_selections(items, len, r)
}

/// `combinations::Combinations::new(items, len)` collected into a vector.
/// The crate panics unless `1 <= len < items.len()`. It sorts the items and
/// yields each sub-multiset of `len` of them once, as an ascending
/// sequence, in strictly increasing lexicographic order.
#[verifier::external_body]
fn distinct_combinations(items: Vec<u8>, len: usize) -> (r: Vec<Vec<u8>>)
    requires
        1 <= len < items@.len(),
    ensures
        lists_selections(items@, len as nat, views(r@)),
{
    combinations::Combinations::new(items, len).collect()
}

proof fn lemma_lex_antisymmetric(a: Seq<u8>, b: Seq<u8>)
    requires
        lex_le(a, b),
        lex_le(b, a),
    ensures
        a == b,
    decreases a.len(),
{
    if a.len() > 0 && b.len() > 0 {
        lemma_lex_antisymmetric(a.drop_first(), b.drop_first());
        assert forall|i: int| 0 <= i < a.len() implies a[i] == b[i] by {
            if i > 0 {
                assert(a[i] == a.drop_first()[i - 1]);
                assert(b[i] == b.drop_first()[i - 1]);
            }
        }
    }
    assert(a =~= b);
}

/// Two lists in strictly increasing lexicographic order that hold the same
/// tickets are equal.
proof fn lemma_strictly_sorted_unique(a: Seq<Seq<u8>>, b: Seq<Seq<u8>>)
    requires
        forall|i: int, j: int| 0 <= i < j < a.len() ==> lex_lt(#[trigger] a[i], #[trigger] a[j]),
        forall|i: int, j: int| 0 <= i < j < b.len() ==> lex_lt(#[trigger] b[i], #[trigger] b[j]),
        forall|x: Seq<u8>| a.contains(x) <==> b.contains(x),
    ensures
        a == b,
    decreases a.len(),
{
    if a.len() == 0 {
        if b.len() > 0 {
            assert(b.contains(b[0]));
        }
    } else if b.len() == 0 {
        assert(a.contains(a[0]));
    } else {
        assert(a.contains(a[0]));
        assert(b.contains(b[0]));
        let j = choose|j: int| 0 <= j < b.len() && b[j] == a[0];
        let i = choose|i: int| 0 <= i < a.len() && a[i] == b[0];
        if i > 0 && j > 0 {
            assert(lex_lt(a[0], a[i]));
            assert(lex_lt(b[0], b[j]));
            lemma_lex_antisymmetric(a[0], b[0]);
        }
        assert(a[0] == b[0]);
        let a2 = a.drop_first();
        let b2 = b.drop_first();
        assert forall|x: Seq<u8>| a2.contains(x) implies b2.contains(x) by {
            let m = choose|m: int| 0 <= m < a2.len() && a2[m] == x;
            assert(a[m + 1] == x);
            assert(lex_lt(a[0], a[m + 1]));
            assert(a.contains(x));
            let k = choose|k: int| 0 <= k < b.len() && b[k] == x;
            assert(k > 0);
            assert(b2[k - 1] == x);
        }
        assert forall|x: Seq<u8>| b2.contains(x) implies a2.contains(x) by {
            let m = choose|m: int| 0 <= m < b2.len() && b2[m] == x;
            assert(b[m + 1] == x);
            assert(lex_lt(b[0], b[m + 1]));
            assert(b.contains(x));
            let k = choose|k: int| 0 <= k < a.len() && a[k] == x;
            assert(k > 0);
            assert(a2[k - 1] == x);
        }
        assert forall|p: int, q: int| 0 <= p < q < a2.len() implies lex_lt(#[trigger] a2[p], #[trigger] a2[q]) by {
            assert(a2[p] == a[p + 1] && a2[q] == a[q + 1]);
        }
        assert forall|p: int, q: int| 0 <= p < q < b2.len() implies lex_lt(#[trigger] b2[p], #[trigger] b2[q]) by {
            assert(b2[p] == b[p + 1] && b2[q] == b[q + 1]);
        }
        lemma_strictly_sorted_unique(a2, b2);
        assert forall|k: int| 0 <= k < a.len() implies a[k] == b[k] by {
            if k > 0 {
                assert(a[k] == a2[k - 1]);
                assert(b[k] == b2[k - 1]);
            }
        }
        assert(a =~= b);
    }
}

/// A list of all the selections, in strictly increasing lexicographic
/// order, is the one `combinations_of` names; each entry has `len` balls.
pub proof fn lemma_selections_unique(items: Seq<u8>, len: nat, r: Seq<Seq<u8>>)
    requires
        lists_selections(items, len, r),
    ensures
        r == combinations_of(items, len),
        all_len(r, len as int),
{
    let c = combinations_of(items, len);
    assert(lists_selections(items, len, c));
    assert forall|x: Seq<u8>| r.contains(x) <==> c.contains(x) by {
        if r.contains(x) {
            let k = choose|k: int| 0 <= k < r.len() && r[k] == x;
            assert(is_selection(items, len, r[k]));
        }
        if c.contains(x) {
            let k = choose|k: int| 0 <= k < c.len() && c[k] == x;
            assert(is_selection(items, len, c[k]));
        }
    }
    lemma_strictly_sorted_unique(r, c);
    assert forall|i: int| 0 <= i < r.len() implies (#[trigger] r[i]).len() == len by {
        assert(is_selection(items, len, r[i]));
    }
}

/// The distinct selections of `len` of the `items` (as multisets), each in
/// ascending order, in lexicographic order.
pub fn selections_of(items: Vec<u8>, len: usize) -> (r: Vec<Vec<u8>>)
    requires
        1 <= len < items@.len(),
    ensures
        views(r@) == combinations_of(items@, len as nat),
        all_len(views(r@), len as int),
{
    let ghost v = items@;
    let r = distinct_combinations(items, len);
    proof { lemma_selections_unique(v, len as nat, views(r@)); }
    r
}

/// `s` with every value kept at its first occurrence only.
pub open spec fn first_occurrences(s: Seq<u8>) -> Seq<u8>
    decreases s.len(),
{
    if s.len() == 0 {
        s
    } else {
        let r = first_occurrences(s.drop_last());
        if r.contains(s.last()) { r } else { r.push(s.last()) }
    }
}

/// The selections of `k` elements of `s` (by position, keeping their
/// order), in lexicographic order of the chosen positions.
pub open spec fn index_combinations(s: Seq<u8>, k: nat) -> Seq<Seq<u8>>
    decreases s.len(),
{
    if k == 0 {
        seq![Seq::<u8>::empty()]
    } else if s.len() == 0 {
        Seq::empty()
    } else {
        index_combinations(s.drop_first(), (k - 1) as nat).map_values(|c: Seq<u8>| seq![s[0]] + c)
            + index_combinations(s.drop_first(), k)
    }
}

/// Lexicographic order on ball sequences (a prefix comes first).
pub open spec fn lex_le(a: Seq<u8>, b: Seq<u8>) -> bool
    decreases a.len(),
{
    if a.len() == 0 {
        true
    } else if b.len() == 0 {
        false
    } else if a[0] != b[0] {
        a[0] < b[0]
    } else {
        lex_le(a.drop_first(), b.drop_first())
    }
}

/// `a` comes strictly before `b` in lexicographic order.
pub open spec fn lex_lt(a: Seq<u8>, b: Seq<u8>) -> bool {
    lex_le(a, b) && a != b
}

/// `s` is in ascending lexicographic order.
pub open spec fn sorted_lex(s: Seq<Seq<u8>>) -> bool {
    forall|i: int, j: int| 0 <= i < j < s.len() ==> lex_le(#[trigger] s[i], #[trigger] s[j])
}

/// `s` is in ascending order.
pub open spec fn sorted_balls(s: Seq<u8>) -> bool {
    forall|i: int, j: int| 0 <= i < j < s.len() ==> #[trigger] s[i] <= #[trigger] s[j]
}

/// `Itertools::unique`: the values in order, each kept at its first
/// occurrence.
#[verifier::external_body]
fn unique_balls(v: Vec<u8>) -> (r: Vec<u8>)
    ensures
        r@ == first_occurrences(v@),
{
    v.into_iter().unique().collect()
}

/// `Itertools::combinations`: the `k`-element selections by position, in
/// lexicographic order of the positions.
#[verifier::external_body]
fn index_selections(v: Vec<u8>, k: usize) -> (r: Vec<Vec<u8>>)
    ensures
        views(r@) == index_combinations(v@, k as nat),
{
    v.into_iter().combinations(k).collect()
}

/// `Itertools::sorted` on tickets: the same tickets in ascending
/// lexicographic order.
#[verifier::external_body]
fn sorted_tickets(v: Vec<Vec<u8>>) -> (r: Vec<Vec<u8>>)
    ensures
        views(r@).to_multiset() == views(v@).to_multiset(),
        sorted_lex(views(r@)),
{
    v.into_iter().sorted().collect()
}

/// `Itertools::sorted` on balls: the same balls in ascending order.
#[verifier::external_body]
fn sorted_ball_list(v: Vec<u8>) -> (r: Vec<u8>)
    ensures
        r@.to_multiset() == v@.to_multiset(),
        sorted_balls(r@),
{
    v.into_iter().sorted().collect()
}

proof fn lemma_index_combinations_len(s: Seq<u8>, k: nat)
    ensures
        all_len(index_combinations(s, k), k as int),
    decreases s.len(),
{
    if k == 0 {
    } else if s.len() == 0 {
    } else {
        lemma_index_combinations_len(s.drop_first(), (k - 1) as nat);
        lemma_index_combinations_len(s.drop_first(), k);
        let a = index_combinations(s.drop_first(), (k - 1) as nat).map_values(|c: Seq<u8>| seq![s[0]] + c);
        let b = index_combinations(s.drop_first(), k);
        assert forall|i: int| 0 <= i < (a + b).len() implies (#[trigger] (a + b)[i]).len() == k by {
            if i < a.len() {
                assert((a + b)[i] == a[i]);
                assert(index_combinations(s.drop_first(), (k - 1) as nat)[i].len() == k - 1);
            } else {
                assert((a + b)[i] == b[i - a.len()]);
            }
        }
    }
}

proof fn lemma_all_len_multiset(a: Seq<Seq<u8>>, b: Seq<Seq<u8>>, n: int)
    requires
        a.to_multiset() == b.to_multiset(),
        all_len(b, n),
    ensures
        all_len(a, n),
{
    broadcast use vstd::seq_lib::to_multiset_contains;
    assert forall|i: int| 0 <= i < a.len() implies (#[trigger] a[i]).len() == n by {
        assert(a.contains(a[i]));
        assert(a.to_multiset().count(a[i]) > 0);
        assert(b.to_multiset().count(a[i]) > 0);
        assert(b.contains(a[i]));
        let j = choose|j: int| 0 <= j < b.len() && b[j] == a[i];
        assert(b[j].len() == n);
    }
}

/// Every ticket of `ticket_len` distinct balls drawn from `balls` (first
/// occurrences, by position), in ascending lexicographic order.
pub fn ticket_combinations(balls: Vec<u8>, ticket_len: u8) -> (r: Vec<Vec<u8>>)
    ensures
        all_len(views(r@), ticket_len as int),
        views(r@).to_multiset() == index_combinations(first_occurrences(balls@), ticket_len as nat).to_multiset(),
        sorted_lex(views(r@)),
{
    let unique = unique_balls(balls);
    let combos = index_selections(unique, ticket_len as usize);
    let r = sorted_tickets(combos);
    proof {
        lemma_index_combinations_len(first_occurrences(balls@), ticket_len as nat);
        lemma_all_len_multiset(views(r@), index_combinations(first_occurrences(balls@), ticket_len as nat), ticket_len as int);
    }
    r
}

/// The ticket's balls in ascending order.
pub fn sorted_ticket(ticket: Vec<u8>) -> (r: Vec<u8>)
    ensures
        r@.to_multiset() == ticket@.to_multiset(),
        sorted_balls(r@),
{
    sorted_ball_list(ticket)
}

} // verus!
