//! Reading the cells of the draw sheet: the ball list and the draw date.

use vstd::prelude::*;
use vstd::string::StringSliceAdditionalSpecFns;
use crate::ticket::{views, Date, valid_ymd};
pub use crate::ticket::LotteryTicket;

verus! {

/// `sep` occurs in `s` at position `i`.
pub open spec fn sep_at(s: Seq<u8>, sep: Seq<u8>, i: int) -> bool {
    0 <= i && i + sep.len() <= s.len() && s.subrange(i, i + sep.len()) == sep
}

/// The first position at or after `from` where `sep` occurs, or -1.
pub open spec fn find_sep(s: Seq<u8>, sep: Seq<u8>, from: int) -> int
    decreases s.len() - from,
{
    if from < 0 || from + sep.len() > s.len() {
        -1
    } else if sep_at(s, sep, from) || sep.len() == 0 {
        from
    } else {
        find_sep(s, sep, from + 1)
    }
}

/// The search for a separator finds its first occurrence at or after
/// `from`, and -1 exactly when there is none.
pub proof fn lemma_find_sep(s: Seq<u8>, sep: Seq<u8>, from: int)
    requires
        0 <= from,
        sep.len() > 0,
    ensures
        find_sep(s, sep, from) == -1 || (from <= find_sep(s, sep, from) && sep_at(s, sep, find_sep(s, sep, from))),
        find_sep(s, sep, from) == -1 ==> forall|k: int| from <= k ==> !sep_at(s, sep, k),
        find_sep(s, sep, from) >= 0 ==> forall|k: int| from <= k < find_sep(s, sep, from) ==> !sep_at(s, sep, k),
    decreases s.len() - from,
{
    if from + sep.len() <= s.len() && !sep_at(s, sep, from) {
        lemma_find_sep(s, sep, from + 1);
    }
}

/// `s` cut at every (leftmost, non-overlapping) occurrence of `sep`.
pub open spec fn split_on(s: Seq<u8>, sep: Seq<u8>) -> Seq<Seq<u8>>
    decreases s.len(),
{
    if sep.len() == 0 {
        seq![s]
    } else {
        let i = find_sep(s, sep, 0);
        if i < 0 {
            seq![s]
        } else {
            proof {
                lemma_find_sep(s, sep, 0);
            }
            seq![s.subrange(0, i)] + split_on(s.subrange(i + sep.len(), s.len() as int), sep)
        }
    }
}

proof fn lemma_find_sep_first(t: Seq<u8>, sep: Seq<u8>, j: int)
    requires
        sep.len() > 0,
        sep_at(t, sep, j),
        forall|k: int| 0 <= k < j ==> !sep_at(t, sep, k),
    ensures
        find_sep(t, sep, 0) == j,
{
    lemma_find_sep(t, sep, 0);
}

proof fn lemma_find_sep_none(t: Seq<u8>, sep: Seq<u8>)
    requires
        sep.len() > 0,
        forall|k: int| 0 <= k && k + sep.len() <= t.len() ==> !sep_at(t, sep, k),
    ensures
        find_sep(t, sep, 0) == -1,
{
    lemma_find_sep(t, sep, 0);
}

/// Whether `sep` occurs in `s` at position `i`.
fn matches_at(s: &[u8], sep: &[u8], i: usize) -> (r: bool)
    requires
        i + sep@.len() <= s@.len(),
    ensures
        r == sep_at(s@, sep@, i as int),
{
    let mut k: usize = 0;
    assert(s@.len() == s.len());
    while k < sep.len()
        invariant
            k <= sep@.len(),
            s@.len() == s.len(),
            i + sep@.len() <= s@.len(),
            forall|j: int| 0 <= j < k ==> s@[i + j] == sep@[j],
        decreases sep.len() - k,
    {
        if s[i + k] != sep[k] {
            assert(s@.subrange(i as int, i + sep@.len())[k as int] != sep@[k as int]);
            return false;
        }
        k = k + 1;
    }
    assert(s@.subrange(i as int, i + sep@.len()) =~= sep@);
    true
}

/// A copy of `s[from..to]`.
fn copy_range(s: &[u8], from: usize, to: usize) -> (r: Vec<u8>)
    requires
        from <= to <= s@.len(),
    ensures
        r@ == s@.subrange(from as int, to as int),
{
    let mut r: Vec<u8> = Vec::new();
    let mut i: usize = from;
    while i < to
        invariant
            from <= i <= to,
            to <= s@.len(),
            r@ == s@.subrange(from as int, i as int),
        decreases to - i,
    {
        r.push(s[i]);
        i = i + 1;
        assert(r@ =~= s@.subrange(from as int, i as int));
    }
    r
}

/// Cuts `s` at every occurrence of `sep`, like `str::split`.
pub fn split_bytes(s: &[u8], sep: &[u8]) -> (r: Vec<Vec<u8>>)
    requires
        sep@.len() > 0,
    ensures
        views(r@) == split_on(s@, sep@),
{
    let mut pieces: Vec<Vec<u8>> = Vec::new();
    let mut start: usize = 0;
    let mut i: usize = 0;
    let ghost sp = sep@;
    assert(s@.subrange(0, s@.len() as int) =~= s@);
    assert(views(pieces@) =~= Seq::<Seq<u8>>::empty());
    assert(s@.len() == s.len());
    while sep.len() <= s.len() - i
        invariant
            s@.len() == s.len(),
            start <= i <= s@.len(),
            sp == sep@,
            sp.len() > 0,
            split_on(s@, sp) == views(pieces@) + split_on(s@.subrange(start as int, s@.len() as int), sp),
            forall|k: int| start <= k < i ==> !sep_at(s@, sp, k),
        decreases s.len() - i,
    {
        let ghost rest = s@.subrange(start as int, s@.len() as int);
        assert forall|k: int| 0 <= k < i - start implies !sep_at(rest, sp, k) by {
            assert(rest.subrange(k, k + sp.len()) =~= s@.subrange(start + k, start + k + sp.len()));
            assert(!sep_at(s@, sp, start + k));
        }
        if matches_at(s, sep, i) {
            proof {
                assert(rest.subrange(i - start, i - start + sp.len()) =~= s@.subrange(i as int, i + sp.len()));
                lemma_find_sep_first(rest, sp, i - start);
                assert(rest.subrange(0, i - start) =~= s@.subrange(start as int, i as int));
                assert(rest.subrange(i - start + sp.len(), rest.len() as int) =~= s@.subrange(i + sp.len(), s@.len() as int));
            }
            let piece = copy_range(s, start, i);
            let ghost before = views(pieces@);
            let ghost head = s@.subrange(start as int, i as int);
            let ghost tail = s@.subrange(i + sp.len(), s@.len() as int);
            assert(split_on(rest, sp) == seq![head] + split_on(tail, sp));
            pieces.push(piece);
            assert(views(pieces@) =~= before.push(head));
            i = i + sep.len();
            start = i;
            proof {
                assert(views(pieces@) + split_on(tail, sp) =~= before + (seq![head] + split_on(tail, sp)));
            }
        } else {
            i = i + 1;
        }
    }
    let ghost rest = s@.subrange(start as int, s@.len() as int);
    proof {
        assert forall|k: int| 0 <= k && k + sp.len() <= rest.len() implies !sep_at(rest, sp, k) by {
            assert(rest.subrange(k, k + sp.len()) =~= s@.subrange(start + k, start + k + sp.len()));
            assert(!sep_at(s@, sp, start + k));
        }
        lemma_find_sep_none(rest, sp);
    }
    let piece = copy_range(s, start, s.len());
    let ghost before = views(pieces@);
    pieces.push(piece);
    assert(views(pieces@) =~= before.push(rest));
    assert(views(pieces@) =~= before + split_on(rest, sp));
    pieces
}

/// An ASCII decimal digit.
pub open spec fn is_digit(b: u8) -> bool {
    48 <= b <= 57
}

/// Every byte of `s` is a digit.
pub open spec fn all_digits(s: Seq<u8>) -> bool {
    forall|i: int| 0 <= i < s.len() ==> is_digit(#[trigger] s[i])
}

/// The decimal value of a digit string.
pub open spec fn digits_value(s: Seq<u8>) -> int
    decreases s.len(),
{
    if s.len() == 0 {
        0
    } else {
        digits_value(s.drop_last()) * 10 + (s.last() - 48)
    }
}

/// The digits of an integer literal: `s` without its leading `+` (or, for a
/// signed type, `-`).
pub open spec fn literal_body(s: Seq<u8>, signed: bool) -> Seq<u8> {
    if s.len() > 0 && (s[0] == 43 || (signed && s[0] == 45)) { s.drop_first() } else { s }
}

/// The literal starts with `-` (signed types only).
pub open spec fn literal_negative(s: Seq<u8>, signed: bool) -> bool {
    signed && s.len() > 0 && s[0] == 45
}

/// What `str::parse` gives for an integer type with range `lo..=hi`
/// (signed when `signed`): an optional sign followed by at least one digit,
/// with the value in range.
pub open spec fn parse_int(s: Seq<u8>, signed: bool, lo: int, hi: int) -> Option<int> {
    let b = literal_body(s, signed);
    let v = if literal_negative(s, signed) { -digits_value(b) } else { digits_value(b) };
    if b.len() > 0 && all_digits(b) && lo <= v <= hi { Some(v) } else { None }
}

proof fn lemma_digits_prefix(s: Seq<u8>, k: int)
    requires
        0 <= k <= s.len(),
        all_digits(s),
    ensures
        0 <= digits_value(s.take(k)) <= digits_value(s),
    decreases s.len(),
{
    if k < s.len() {
        assert(s.drop_last().take(k) =~= s.take(k));
        assert(all_digits(s.drop_last())) by {
            assert forall|i: int| 0 <= i < s.drop_last().len() implies is_digit(#[trigger] s.drop_last()[i]) by {
                assert(s.drop_last()[i] == s[i]);
            }
        }
        lemma_digits_prefix(s.drop_last(), k);
        assert(is_digit(s[s.len() - 1]));
    } else {
        assert(s.take(k) =~= s);
        if s.len() > 0 {
            assert(all_digits(s.drop_last())) by {
                assert forall|i: int| 0 <= i < s.drop_last().len() implies is_digit(#[trigger] s.drop_last()[i]) by {
                    assert(s.drop_last()[i] == s[i]);
                }
            }
            lemma_digits_prefix(s.drop_last(), s.len() - 1);
            assert(s.drop_last().take(s.len() - 1) =~= s.drop_last());
            assert(is_digit(s[s.len() - 1]));
        }
    }
}

/// The value of the digit string `s[from..]` when it is non-empty, all
/// digits and at most `max`.
fn digits_up_to(s: &[u8], from: usize, max: u64) -> (r: Option<u64>)
    requires
        from <= s@.len(),
        max <= u32::MAX as u64 + 1,
    ensures
        ({
            let b = s@.subrange(from as int, s@.len() as int);
            &&& r is Some <==> b.len() > 0 && all_digits(b) && digits_value(b) <= max
            &&& r matches Some(v) ==> v == digits_value(b)
        }),
{
    let ghost b = s@.subrange(from as int, s@.len() as int);
    if from == s.len() {
        return None;
    }
    let mut v: u64 = 0;
    let mut i: usize = from;
    while i < s.len()
        invariant
            from <= i <= s@.len(),
            b == s@.subrange(from as int, s@.len() as int),
            max <= u32::MAX as u64 + 1,
            v <= max,
            all_digits(b.take(i - from)),
            v == digits_value(b.take(i - from)),
        decreases s.len() - i,
    {
        let c = s[i];
        assert(b[i - from] == c);
        if c < 48 || c > 57 {
            assert(!is_digit(b[i - from]));
            return None;
        }
        proof {
            assert(b.take(i - from + 1).drop_last() =~= b.take(i - from));
            assert(all_digits(b.take(i - from + 1))) by {
                assert forall|k: int| 0 <= k < i - from + 1 implies is_digit(#[trigger] b.take(i - from + 1)[k]) by {
                    if k < i - from {
                        assert(b.take(i - from + 1)[k] == b.take(i - from)[k]);
                    }
                }
            }
        }
        let nv = v * 10 + (c - 48) as u64;
        if nv > max {
            proof {
                if all_digits(b) {
                    lemma_digits_prefix(b, i - from + 1);
                }
            }
            return None;
        }
        v = nv;
        i = i + 1;
    }
    assert(b.take(i - from) =~= b);
    Some(v)
}

/// `str::parse` for an integer type with range `lo..=hi`.
pub fn parse_int_bytes(s: &[u8], signed: bool, lo: i64, hi: i64) -> (r: Option<i64>)
    requires
        i32::MIN <= lo <= 0 <= hi <= u32::MAX,
    ensures
        match parse_int(s@, signed, lo as int, hi as int) {
            Some(v) => r == Some(v as i64),
            None => r is None,
        },
{
    let negative = signed && s.len() > 0 && s[0] == 45;
    let skip: usize = if s.len() > 0 && (s[0] == 43 || (signed && s[0] == 45)) { 1 } else { 0 };
    assert(literal_body(s@, signed) =~= s@.subrange(skip as int, s@.len() as int));
    let max: u64 = if negative { (-lo) as u64 } else { hi as u64 };
    match digits_up_to(s, skip, max) {
        None => None,
        Some(v) => {
            if negative {
                Some(-(v as i64))
            } else {
                Some(v as i64)
            }
        },
    }
}

/// One part of a ball list, read as an `i8`.
pub open spec fn ball_value(p: Seq<u8>) -> Option<i8> {
    match parse_int(p, true, -128, 127) {
        Some(v) => Some(v as i8),
        None => None,
    }
}

/// The balls of a `"a - b - c"` cell: the text is cut at each `" - "`, and
/// every part must parse as an `i8`.
pub open spec fn spec_parse_numbers(s: Seq<u8>) -> Option<Seq<i8>> {
    let parts = split_on(s, seq![32u8, 45u8, 32u8]);
    if forall|i: int| 0 <= i < parts.len() ==> (#[trigger] ball_value(parts[i])) is Some {
        Some(Seq::new(parts.len(), |i: int| ball_value(parts[i])->0))
    } else {
        None
    }
}

/// Reads the balls of a `"a - b - c"` cell; `None` when a part is not an
/// `i8`.
pub fn parse_numbers(s: &str) -> (r: Option<Vec<i8>>)
    ensures
        match spec_parse_numbers(s.spec_bytes()) {
            Some(v) => r matches Some(x) && x@ == v,
            None => r is None,
        },
{
    let bytes = s.as_bytes();
    let sep: [u8; 3] = [32, 45, 32];
    assert(sep@ =~= seq![32u8, 45u8, 32u8]);
    let parts = split_bytes(bytes, sep.as_slice());
    let ghost ps = views(parts@);
    let mut out: Vec<i8> = Vec::new();
    let mut i: usize = 0;
    while i < parts.len()
        invariant
            i <= parts@.len(),
            ps == views(parts@),
            ps == split_on(s.spec_bytes(), seq![32u8, 45u8, 32u8]),
            out@.len() == i,
            forall|k: int| 0 <= k < i ==> #[trigger] ball_value(ps[k]) == Some(out@[k]),
        decreases parts.len() - i,
    {
        assert(ps[i as int] == parts@[i as int]@);
        match parse_int_bytes(parts[i].as_slice(), true, -128, 127) {
            None => {
                assert(ball_value(ps[i as int]) is None);
                return None;
            },
            Some(v) => {
                out.push(v as i8);
            },
        }
        i = i + 1;
    }
    assert(out@ =~= Seq::new(ps.len(), |k: int| ball_value(ps[k])->0));
    Some(out)
}

/// The decimal digits of `n`, without leading zeros.
pub open spec fn decimal(n: nat) -> Seq<u8>
    decreases n,
{
    if n < 10 {
        seq![(48 + n) as u8]
    } else {
        decimal(n / 10).push((48 + n % 10) as u8)
    }
}

/// How a ball is written: its decimal digits, after a `-` when negative.
pub open spec fn ball_text(v: i8) -> Seq<u8> {
    if v < 0 { seq![45u8] + decimal((-v) as nat) } else { decimal(v as nat) }
}

/// The balls written one after another with `" - "` between them.
pub open spec fn joined_balls(v: Seq<i8>) -> Seq<u8>
    decreases v.len(),
{
    if v.len() <= 1 {
        if v.len() == 1 { ball_text(v[0]) } else { Seq::empty() }
    } else {
        ball_text(v[0]) + seq![32u8, 45u8, 32u8] + joined_balls(v.drop_first())
    }
}

proof fn lemma_decimal(n: nat)
    ensures
        decimal(n).len() > 0,
        all_digits(decimal(n)),
        digits_value(decimal(n)) == n,
    decreases n,
{
    if n >= 10 {
        lemma_decimal(n / 10);
        let d = decimal(n / 10);
        assert(decimal(n).drop_last() =~= d);
        assert(decimal(n).last() == (48 + n % 10) as u8);
        assert(((48 + n % 10) as u8) - 48 == n % 10);
        assert(n == (n / 10) * 10 + n % 10);
        assert(digits_value(decimal(n)) == digits_value(d) * 10 + (decimal(n).last() - 48));
        assert forall|i: int| 0 <= i < decimal(n).len() implies is_digit(#[trigger] decimal(n)[i]) by {
            if i < d.len() {
                assert(decimal(n)[i] == d[i]);
            }
        }
    } else {
        assert(decimal(n).drop_last() =~= Seq::<u8>::empty());
        assert(digits_value(Seq::<u8>::empty()) == 0);
        assert(decimal(n).last() == (48 + n) as u8);
        assert(digits_value(decimal(n)) == digits_value(decimal(n).drop_last()) * 10 + (decimal(n).last() - 48));
    }
}

proof fn lemma_ball_text(v: i8)
    ensures
        parse_int(ball_text(v), true, -128, 127) == Some(v as int),
        forall|i: int| 0 <= i < ball_text(v).len() ==> #[trigger] ball_text(v)[i] != 32u8,
{
    let n: nat = if v < 0 { (-v) as nat } else { v as nat };
    lemma_decimal(n);
    let d = decimal(n);
    assert(is_digit(d[0]));
    if v < 0 {
        assert((seq![45u8] + d).drop_first() =~= d);
        assert forall|i: int| 0 <= i < ball_text(v).len() implies #[trigger] ball_text(v)[i] != 32u8 by {
            if i > 0 {
                assert(ball_text(v)[i] == d[i - 1]);
                assert(is_digit(d[i - 1]));
            }
        }
    } else {
        assert forall|i: int| 0 <= i < ball_text(v).len() implies #[trigger] ball_text(v)[i] != 32u8 by {
            assert(is_digit(d[i]));
        }
    }
}

proof fn lemma_split_joined(v: Seq<i8>)
    requires
        v.len() >= 1,
    ensures
        split_on(joined_balls(v), seq![32u8, 45u8, 32u8]) == v.map_values(|b: i8| ball_text(b)),
    decreases v.len(),
{
    let sep = seq![32u8, 45u8, 32u8];
    let t = ball_text(v[0]);
    lemma_ball_text(v[0]);
    if v.len() == 1 {
        assert forall|k: int| 0 <= k && k + sep.len() <= t.len() implies !sep_at(t, sep, k) by {
            assert(t.subrange(k, k + 3)[0] == t[k]);
        }
        lemma_find_sep_none(t, sep);
        assert(v.map_values(|b: i8| ball_text(b)) =~= seq![t]);
    } else {
        let rest = joined_balls(v.drop_first());
        let s = t + sep + rest;
        assert(s == joined_balls(v));
        let j = t.len() as int;
        assert(s.subrange(j, j + 3) =~= sep);
        assert forall|k: int| 0 <= k < j implies !sep_at(s, sep, k) by {
            assert(s[k] == t[k]);
            if sep_at(s, sep, k) {
                assert(s.subrange(k, k + 3)[0] == s[k]);
            }
        }
        lemma_find_sep_first(s, sep, j);
        assert(s.subrange(0, j) =~= t);
        assert(s.subrange(j + 3, s.len() as int) =~= rest);
        lemma_split_joined(v.drop_first());
        assert(v.map_values(|b: i8| ball_text(b)) =~= seq![t] + v.drop_first().map_values(|b: i8| ball_text(b)));
    }
}

/// Reading undoes writing: the balls written with `" - "` between them read
/// back as the same balls.
pub proof fn lemma_parse_numbers_undoes_join(v: Seq<i8>)
    requires
        v.len() >= 1,
    ensures
        spec_parse_numbers(joined_balls(v)) == Some(v),
{
    lemma_split_joined(v);
    let parts = split_on(joined_balls(v), seq![32u8, 45u8, 32u8]);
    assert forall|i: int| 0 <= i < parts.len() implies #[trigger] ball_value(parts[i]) == Some(v[i]) by {
        lemma_ball_text(v[i]);
        assert(parts[i] == ball_text(v[i]));
    }
    assert(Seq::new(parts.len(), |i: int| ball_value(parts[i])->0) =~= v);
}

/// The balls of a draw record: those of the cell, when none is negative.
/// Every algorithm, filter and back-test reads a record's balls as `u8`
/// values, so a negative ball has no value in a record.
pub open spec fn spec_ball_list(s: Seq<u8>) -> Option<Seq<u8>> {
    match spec_parse_numbers(s) {
        Some(v) => if forall|i: int| 0 <= i < v.len() ==> v[i] >= 0 {
            Some(v.map_values(|x: i8| x as u8))
        } else {
            None
        },
        None => None,
    }
}

/// The balls as record values: `None` when one is negative.
pub fn ball_list(balls: &Vec<i8>) -> (r: Option<Vec<u8>>)
    ensures
        (forall|i: int| 0 <= i < balls@.len() ==> balls@[i] >= 0) ==> (r matches Some(x) && x@ == balls@.map_values(|b: i8| b as u8)),
        !(forall|i: int| 0 <= i < balls@.len() ==> balls@[i] >= 0) ==> r is None,
{
    let mut out: Vec<u8> = Vec::new();
    let mut i: usize = 0;
    while i < balls.len()
        invariant
            i <= balls@.len(),
            out@ == balls@.take(i as int).map_values(|x: i8| x as u8),
            forall|k: int| 0 <= k < i ==> balls@[k] >= 0,
        decreases balls.len() - i,
    {
        if balls[i] < 0 {
            return None;
        }
        out.push(balls[i] as u8);
        i = i + 1;
        assert(out@ =~= balls@.take(i as int).map_values(|x: i8| x as u8));
    }
    assert(balls@.take(balls@.len() as int) =~= balls@);
    Some(out)
}

proof fn lemma_split_nonempty(s: Seq<u8>, sep: Seq<u8>)
    ensures
        split_on(s, sep).len() >= 1,
    decreases s.len(),
{
    if sep.len() > 0 {
        let i = find_sep(s, sep, 0);
        if i >= 0 {
            lemma_find_sep(s, sep, 0);
            lemma_split_nonempty(s.subrange(i + sep.len(), s.len() as int), sep);
        }
    }
}

/// The draw date of a `"Weekday, MM/DD/YY"` cell: the text after the last
/// `", "` is cut at `/` into month, day and year; a two-digit year below 90
/// is read as 20YY, otherwise as 19YY; the day must exist.
pub open spec fn spec_parse_date(s: Seq<u8>) -> Option<Date> {
    let tail = split_on(s, seq![44u8, 32u8]).last();
    let parts = split_on(tail, seq![47u8]);
    if parts.len() < 3 {
        None
    } else {
        match (
            parse_int(parts[2], true, i32::MIN as int, i32::MAX as int),
            parse_int(parts[0], false, 0, u32::MAX as int),
            parse_int(parts[1], false, 0, u32::MAX as int),
        ) {
            (Some(y2), Some(m), Some(d)) => {
                let century = if y2 >= 90 { seq![49u8, 57u8] } else { seq![50u8, 48u8] };
                match parse_int(century + parts[2], true, i32::MIN as int, i32::MAX as int) {
                    Some(y) => if valid_ymd(y, m, d) {
                        Some(Date { year: y as i32, month: m as u32, day: d as u32 })
                    } else {
                        None
                    },
                    None => None,
                }
            },
            _ => None,
        }
    }
}

/// Reads the draw date of a `"Weekday, MM/DD/YY"` cell; `None` when a part
/// does not parse or the day does not exist.
pub fn parse_date(s: &str) -> (r: Option<Date>)
    ensures
        r == spec_parse_date(s.spec_bytes()),
{
    let bytes = s.as_bytes();
    let comma: [u8; 2] = [44, 32];
    assert(comma@ =~= seq![44u8, 32u8]);
    let pieces = split_bytes(bytes, comma.as_slice());
    proof { lemma_split_nonempty(s.spec_bytes(), seq![44u8, 32u8]); }
    let tail = &pieces[pieces.len() - 1];
    assert(tail@ == split_on(s.spec_bytes(), seq![44u8, 32u8]).last());
    let slash: [u8; 1] = [47];
    assert(slash@ =~= seq![47u8]);
    let parts = split_bytes(tail.as_slice(), slash.as_slice());
    let ghost ps = views(parts@);
    if parts.len() < 3 {
        return None;
    }
    assert(ps[0] == parts@[0]@ && ps[1] == parts@[1]@ && ps[2] == parts@[2]@);
    let y2 = match parse_int_bytes(parts[2].as_slice(), true, i32::MIN as i64, i32::MAX as i64) {
        None => {
            return None;
        },
        Some(v) => v,
    };
    let m = match parse_int_bytes(parts[0].as_slice(), false, 0, u32::MAX as i64) {
        None => {
            return None;
        },
        Some(v) => v,
    };
    let d = match parse_int_bytes(parts[1].as_slice(), false, 0, u32::MAX as i64) {
        None => {
            return None;
        },
        Some(v) => v,
    };
    let mut year_text: Vec<u8> = Vec::new();
    if y2 >= 90 {
        year_text.push(49);
        year_text.push(57);
    } else {
        year_text.push(50);
        year_text.push(48);
    }
    let ghost century = year_text@;
    let p2 = &parts[2];
    let mut k: usize = 0;
    while k < p2.len()
        invariant
            k <= p2@.len(),
            year_text@ == century + p2@.take(k as int),
        decreases p2.len() - k,
    {
        year_text.push(p2[k]);
        k = k + 1;
        assert(year_text@ =~= century + p2@.take(k as int));
    }
    assert(p2@.take(p2@.len() as int) =~= p2@);
    if y2 >= 90 {
        assert(century =~= seq![49u8, 57u8]);
    } else {
        assert(century =~= seq![50u8, 48u8]);
    }
    let y = match parse_int_bytes(year_text.as_slice(), true, i32::MIN as i64, i32::MAX as i64) {
        None => {
            return None;
        },
        Some(v) => v,
    };
    Date::from_ymd(y as i32, m as u32, d as u32)
}

proof fn lemma_split_no_sep(a: Seq<u8>, sep: Seq<u8>)
    requires
        sep.len() > 0,
        forall|k: int| 0 <= k < a.len() ==> #[trigger] a[k] != sep[0],
    ensures
        split_on(a, sep) == seq![a],
{
    assert forall|k: int| 0 <= k && k + sep.len() <= a.len() implies !sep_at(a, sep, k) by {
        assert(a.subrange(k, k + sep.len())[0] == a[k]);
    }
    lemma_find_sep_none(a, sep);
}

proof fn lemma_split_at_first(a: Seq<u8>, sep: Seq<u8>, rest: Seq<u8>)
    requires
        sep.len() > 0,
        forall|k: int| 0 <= k < a.len() ==> #[trigger] a[k] != sep[0],
    ensures
        split_on(a + sep + rest, sep) == seq![a] + split_on(rest, sep),
{
    let t = a + sep + rest;
    let j = a.len() as int;
    assert(t.subrange(j, j + sep.len()) =~= sep);
    assert forall|k: int| 0 <= k < j implies !sep_at(t, sep, k) by {
        assert(t[k] == a[k]);
        if sep_at(t, sep, k) {
            assert(t.subrange(k, k + sep.len())[0] == t[k]);
        }
    }
    lemma_find_sep_first(t, sep, j);
    assert(t.subrange(0, j) =~= a);
    assert(t.subrange(j + sep.len(), t.len() as int) =~= rest);
}

proof fn lemma_parse_digits(x: Seq<u8>, signed: bool, lo: int, hi: int)
    requires
        x.len() > 0,
        all_digits(x),
    ensures
        parse_int(x, signed, lo, hi) == (if lo <= digits_value(x) <= hi { Some(digits_value(x)) } else { None::<int> }),
{
    assert(is_digit(x[0]));
}

proof fn lemma_two_digits(x: Seq<u8>)
    requires
        1 <= x.len() <= 2,
        all_digits(x),
    ensures
        0 <= digits_value(x) <= 99,
{
    assert(is_digit(x[0]));
    if x.len() == 2 {
        assert(is_digit(x[1]));
        let a = x.drop_last();
        assert(a.drop_last() =~= Seq::<u8>::empty());
        assert(digits_value(a.drop_last()) == 0);
        assert(a.last() == x[0]);
        assert(digits_value(a) == digits_value(a.drop_last()) * 10 + (a.last() - 48));
        assert(digits_value(x) == digits_value(a) * 10 + (x.last() - 48));
    } else {
        assert(x.drop_last() =~= Seq::<u8>::empty());
        assert(digits_value(x.drop_last()) == 0);
        assert(digits_value(x) == digits_value(x.drop_last()) * 10 + (x.last() - 48));
    }
}

proof fn lemma_century_digits(c0: u8, c1: u8, yy: Seq<u8>)
    requires
        is_digit(c0),
        is_digit(c1),
        yy.len() == 2,
        all_digits(yy),
    ensures
        all_digits(seq![c0, c1] + yy),
        digits_value(seq![c0, c1] + yy) == (c0 - 48) * 1000 + (c1 - 48) * 100 + digits_value(yy),
{
    let t = seq![c0, c1] + yy;
    assert forall|i: int| 0 <= i < t.len() implies is_digit(#[trigger] t[i]) by {
        if i >= 2 {
            assert(t[i] == yy[i - 2]);
        }
    }
    let t3 = seq![c0, c1, yy[0]];
    let t2 = seq![c0, c1];
    let t1 = seq![c0];
    let e = Seq::<u8>::empty();
    let y1 = seq![yy[0]];
    assert(t.drop_last() =~= t3);
    assert(t3.drop_last() =~= t2);
    assert(t2.drop_last() =~= t1);
    assert(t1.drop_last() =~= e);
    assert(yy.drop_last() =~= y1);
    assert(y1.drop_last() =~= e);
    assert(digits_value(e) == 0);
    assert(digits_value(t1) == digits_value(e) * 10 + (c0 - 48));
    assert(digits_value(t2) == digits_value(t1) * 10 + (c1 - 48));
    assert(digits_value(t3) == digits_value(t2) * 10 + (yy[0] - 48));
    assert(digits_value(t) == digits_value(t3) * 10 + (yy[1] - 48));
    assert(digits_value(y1) == digits_value(e) * 10 + (yy[0] - 48));
    assert(digits_value(yy) == digits_value(y1) * 10 + (yy[1] - 48));
}

/// Two-digit years: a draw date written `"Wkd, MM/DD/YY"` (one or two
/// digits for the month and the day, any weekday text without a comma)
/// reads as year 19YY when YY is 90 or more and as 20YY otherwise, with the
/// month and day as written; it reads as nothing exactly when that day does
/// not exist.
pub proof fn lemma_parse_date_two_digit_year(w: Seq<u8>, mm: Seq<u8>, dd: Seq<u8>, yy: Seq<u8>)
    requires
        forall|k: int| 0 <= k < w.len() ==> #[trigger] w[k] != 44u8,
        1 <= mm.len() <= 2,
        all_digits(mm),
        1 <= dd.len() <= 2,
        all_digits(dd),
        yy.len() == 2,
        all_digits(yy),
    ensures
        ({
            let y = if digits_value(yy) >= 90 { 1900 + digits_value(yy) } else { 2000 + digits_value(yy) };
            let m = digits_value(mm);
            let d = digits_value(dd);
            spec_parse_date(w + seq![44u8, 32u8] + mm + seq![47u8] + dd + seq![47u8] + yy) == (if valid_ymd(y, m, d) {
                Some(Date { year: y as i32, month: m as u32, day: d as u32 })
            } else {
                None::<Date>
            })
        }),
{
    let comma = seq![44u8, 32u8];
    let slash = seq![47u8];
    let tail = dd + slash + yy;
    let rest = mm + slash + tail;
    let t = w + comma + mm + slash + dd + slash + yy;
    assert(t =~= w + comma + rest);
    assert forall|k: int| 0 <= k < mm.len() implies #[trigger] mm[k] != slash[0] && mm[k] != comma[0] by {
        assert(is_digit(mm[k]));
    }
    assert forall|k: int| 0 <= k < dd.len() implies #[trigger] dd[k] != slash[0] && dd[k] != comma[0] by {
        assert(is_digit(dd[k]));
    }
    assert forall|k: int| 0 <= k < yy.len() implies #[trigger] yy[k] != slash[0] && yy[k] != comma[0] by {
        assert(is_digit(yy[k]));
    }
    assert forall|k: int| 0 <= k < rest.len() implies #[trigger] rest[k] != comma[0] by {
        if k < mm.len() {
            assert(rest[k] == mm[k]);
        } else if k == mm.len() {
            assert(rest[k] == 47u8);
        } else if k < mm.len() + 1 + dd.len() {
            assert(rest[k] == dd[k - mm.len() - 1]);
        } else if k == mm.len() + 1 + dd.len() {
            assert(rest[k] == 47u8);
        } else {
            assert(rest[k] == yy[k - mm.len() - 2 - dd.len()]);
        }
    }
    lemma_split_at_first(w, comma, rest);
    lemma_split_no_sep(rest, comma);
    assert(split_on(t, comma) =~= seq![w, rest]);
    assert(split_on(t, comma).last() == rest);
    lemma_split_at_first(mm, slash, tail);
    lemma_split_at_first(dd, slash, yy);
    lemma_split_no_sep(yy, slash);
    let parts = split_on(rest, slash);
    assert(parts =~= seq![mm, dd, yy]);
    lemma_two_digits(mm);
    lemma_two_digits(dd);
    lemma_two_digits(yy);
    lemma_parse_digits(yy, true, i32::MIN as int, i32::MAX as int);
    lemma_parse_digits(mm, false, 0, u32::MAX as int);
    lemma_parse_digits(dd, false, 0, u32::MAX as int);
    let y2 = digits_value(yy);
    if y2 >= 90 {
        lemma_century_digits(49u8, 57u8, yy);
        assert(seq![49u8, 57u8] + yy == seq![49u8, 57u8] + parts[2]);
        lemma_parse_digits(seq![49u8, 57u8] + yy, true, i32::MIN as int, i32::MAX as int);
    } else {
        lemma_century_digits(50u8, 48u8, yy);
        assert(seq![50u8, 48u8] + yy == seq![50u8, 48u8] + parts[2]);
        lemma_parse_digits(seq![50u8, 48u8] + yy, true, i32::MIN as int, i32::MAX as int);
    }
}

/// A draw record from its date cell and its ball-list cell; `None` when the
/// date does not read, the balls do not read, or a ball is negative.
pub fn ticket_from_cells(date: &str, numbers: &str) -> (r: Option<LotteryTicket>)
    ensures
        r is Some <==> spec_parse_date(date.spec_bytes()) is Some && spec_ball_list(numbers.spec_bytes()) is Some,
        r matches Some(t) ==> Some(t.date) == spec_parse_date(date.spec_bytes()) && Some(t.numbers@) == spec_ball_list(numbers.spec_bytes()),
{
    let d = parse_date(date);
    let n = match parse_numbers(numbers) {
        Some(v) => ball_list(&v),
        None => None,
    };
    match (d, n) {
        (Some(d), Some(n)) => Some(LotteryTicket { date: d, numbers: n }),
        _ => None,
    }
}

} // verus!
