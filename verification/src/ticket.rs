//! Draw records: calendar dates and lottery tickets.

use vstd::prelude::*;
use chrono::Datelike;

verus! {

/// The ball sequences held by a list of candidate tickets.
pub open spec fn views(g: Seq<Vec<u8>>) -> Seq<Seq<u8>> {
    g.map_values(|t: Vec<u8>| t@)
}

/// Smallest year a calendar date may carry.
pub const MIN_YEAR: i32 = -262143;

/// Largest year a calendar date may carry.
pub const MAX_YEAR: i32 = 262142;

/// Proleptic Gregorian leap-year rule.
pub open spec fn is_leap_year(y: int) -> bool {
    y % 4 == 0 && (y % 100 != 0 || y % 400 == 0)
}

/// Number of days of month `m` (1-based) in year `y`.
pub open spec fn days_in_month(y: int, m: int) -> int {
    if m == 2 {
        if is_leap_year(y) { 29 } else { 28 }
    } else if m == 4 || m == 6 || m == 9 || m == 11 {
        30
    } else {
        31
    }
}

/// The year, month and day name an existing day in the supported range.
pub open spec fn valid_ymd(y: int, m: int, d: int) -> bool {
    &&& MIN_YEAR <= y <= MAX_YEAR
    &&& 1 <= m <= 12
    &&& 1 <= d <= days_in_month(y, m)
}

/// A calendar day.
#[derive(Clone, Copy, Debug, PartialEq, Eq, Structural)]
pub struct Date {
    pub year: i32,
    pub month: u32,
    pub day: u32,
}

/// Whether `d` is an existing calendar day.
pub open spec fn date_valid(d: Date) -> bool {
    valid_ymd(d.year as int, d.month as int, d.day as int)
}

/// Chronological order: `a` is strictly earlier than `b`.
pub open spec fn date_lt(a: Date, b: Date) -> bool {
    ||| a.year < b.year
    ||| a.year == b.year && a.month < b.month
    ||| a.year == b.year && a.month == b.month && a.day < b.day
}

/// The day after `d`, if it is still in the supported range.
pub open spec fn spec_next_day(d: Date) -> Option<Date> {
    if (d.day as int) < days_in_month(d.year as int, d.month as int) {
        Some(Date { year: d.year, month: d.month, day: (d.day + 1) as u32 })
    } else if d.month < 12 {
        Some(Date { year: d.year, month: (d.month + 1) as u32, day: 1 })
    } else if d.year < MAX_YEAR {
        Some(Date { year: (d.year + 1) as i32, month: 1, day: 1 })
    } else {
        None
    }
}

/// `chrono::NaiveDate::from_ymd_opt`: accepts exactly the existing
/// Gregorian days with a year in `MIN_YEAR..=MAX_YEAR`.
#[verifier::external_body]
fn chrono_accepts_ymd(year: i32, month: u32, day: u32) -> (r: bool)
    ensures
        r == valid_ymd(year as int, month as int, day as int),
{
    chrono::NaiveDate::from_ymd_opt(year, month, day).is_some()
}

/// `chrono::NaiveDate::checked_add_days` with one day: the next calendar day,
/// or `None` past the last supported day.
#[verifier::external_body]
fn chrono_add_one_day(d: Date) -> (r: Option<Date>)
    requires
        date_valid(d),
    ensures
        r == spec_next_day(d),
{
    let n = chrono::NaiveDate::from_ymd_opt(d.year, d.month, d.day)?;
    n.checked_add_days(chrono::Days::new(1)).map(
        |n| Date { year: n.year(), month: n.month(), day: n.day() },
    )
}

impl Date {
    /// Builds the date `year-month-day`; `None` when no such day exists.
    pub fn from_ymd(year: i32, month: u32, day: u32) -> (r: Option<Date>)
        ensures
            r is Some <==> valid_ymd(year as int, month as int, day as int),
            r matches Some(d) ==> d == (Date { year, month, day }),
    {
        if chrono_accepts_ymd(year, month, day) {
            Some(Date { year, month, day })
        } else {
            None
        }
    }

    /// The following calendar day; `None` after the last supported day.
    pub fn next_day(&self) -> (r: Option<Date>)
        requires
            date_valid(*self),
        ensures
            r == spec_next_day(*self),
            r matches Some(n) ==> date_valid(n) && date_lt(*self, n),
    {
        chrono_add_one_day(*self)
    }
}

/// Whether `a` is strictly earlier than `b`.
pub fn date_less(a: &Date, b: &Date) -> (r: bool)
    ensures
        r == date_lt(*a, *b),
{
    a.year < b.year || (a.year == b.year && (a.month < b.month || (a.month == b.month && a.day < b.day)))
}

/// One recorded draw: its date and its winning balls.
#[derive(Clone, Debug)]
pub struct LotteryTicket {
    pub date: Date,
    pub numbers: Vec<u8>,
}

/// Two records hold the same draw date and the same balls in the same order.
pub open spec fn same_ticket(a: LotteryTicket, b: LotteryTicket) -> bool {
    a.date == b.date && a.numbers@ == b.numbers@
}

/// Draw dates never decrease along `s`.
pub open spec fn dates_sorted(s: Seq<LotteryTicket>) -> bool {
    forall|i: int, j: int| 0 <= i < j < s.len() ==> !date_lt(#[trigger] s[j].date, #[trigger] s[i].date)
}

/// Compares two records field by field.
pub fn tickets_equal(a: &LotteryTicket, b: &LotteryTicket) -> (r: bool)
    ensures
        r == same_ticket(*a, *b),
{
    if a.date != b.date || a.numbers.len() != b.numbers.len() {
        return false;
    }
    let mut i: usize = 0;
    while i < a.numbers.len()
        invariant
            i <= a.numbers.len(),
            a.numbers.len() == b.numbers.len(),
            forall|k: int| 0 <= k < i ==> a.numbers@[k] == b.numbers@[k],
        decreases a.numbers.len() - i,
    {
        if a.numbers[i] != b.numbers[i] {
            return false;
        }
        i = i + 1;
    }
    assert(a.numbers@ =~= b.numbers@);
    true
}

/// A sheet listed newest first yields a history ordered oldest first, as
/// the binary search over it needs.
pub proof fn lemma_collect_orders_history(rows: Seq<LotteryTicket>)
    requires
        forall|i: int, j: int| 0 <= i < j < rows.len() ==> !date_lt(#[trigger] rows[i].date, #[trigger] rows[j].date),
    ensures
        dates_sorted(rows.reverse()),
{
    let s = rows.reverse();
    assert forall|i: int, j: int| 0 <= i < j < s.len() implies !date_lt(#[trigger] s[j].date, #[trigger] s[i].date) by {
        assert(s[i] == rows[rows.len() - 1 - i]);
        assert(s[j] == rows[rows.len() - 1 - j]);
    }
}

/// Turns the rows of the draw sheet (newest first) into the draw history
/// (oldest first); `None` when the sheet held no usable row.
pub fn collect_tickets(rows: Vec<LotteryTicket>) -> (r: Option<Vec<LotteryTicket>>)
    ensures
        r is None <==> rows@.len() == 0,
        r matches Some(v) ==> v@ == rows@.reverse(),
{
    if rows.len() == 0 {
        return None;
    }
    let ghost orig = rows@;
    let mut rows = rows;
    let mut out: Vec<LotteryTicket> = Vec::new();
    while rows.len() > 0
        invariant
            orig.len() == rows@.len() + out@.len(),
            rows@ == orig.take(rows@.len() as int),
            out@ == orig.skip(rows@.len() as int).reverse(),
        decreases rows@.len(),
    {
        let t = rows.pop().unwrap();
        out.push(t);
        proof {
            assert(rows@ =~= orig.take(rows@.len() as int));
            assert(out@ =~= orig.skip(rows@.len() as int).reverse());
        }
    }
    assert(orig.skip(0) =~= orig);
    Some(out)
}

/// Whether `v` holds `x`.
pub fn holds(v: &Vec<u8>, x: u8) -> (r: bool)
    ensures
        r == v@.contains(x),
{
    let mut i: usize = 0;
    while i < v.len()
        invariant
            i <= v.len(),
            forall|j: int| 0 <= j < i ==> v@[j] != x,
        decreases v.len() - i,
    {
        if v[i] == x {
            assert(v@[i as int] == x);
            return true;
        }
        i = i + 1;
    }
    false
}

} // verus!
