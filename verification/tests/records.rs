use lottery_predict::ticket::{collect_tickets, date_less, tickets_equal, Date, LotteryTicket, MAX_YEAR};
use lottery_predict::read::{ball_list, parse_date, parse_numbers, split_bytes, ticket_from_cells};
use lottery_predict::predict::draw_date;
use lottery_predict::optimize::find_tommorows_ticket;

fn day(y: i32, m: u32, d: u32) -> Date {
    Date::from_ymd(y, m, d).unwrap()
}

fn ticket(d: u32, nums: &[u8]) -> LotteryTicket {
    LotteryTicket { date: day(2023, 1, d), numbers: nums.to_vec() }
}

#[test]
fn from_ymd_accepts_existing_days_only() {
    assert!(Date::from_ymd(2015, 3, 14).is_some());
    assert!(Date::from_ymd(2015, 0, 14).is_none());
    assert!(Date::from_ymd(2015, 2, 29).is_none());
    assert!(Date::from_ymd(2016, 2, 29).is_some());
    assert!(Date::from_ymd(1900, 2, 29).is_none());
    assert!(Date::from_ymd(2000, 2, 29).is_some());
    assert!(Date::from_ymd(-4, 2, 29).is_some());
    assert!(Date::from_ymd(2015, 4, 31).is_none());
    assert!(Date::from_ymd(2015, 13, 1).is_none());
    assert!(Date::from_ymd(400000, 1, 1).is_none());
    assert!(Date::from_ymd(-400000, 1, 1).is_none());
    assert_eq!(Date::from_ymd(2015, 3, 14), Some(Date { year: 2015, month: 3, day: 14 }));
}

#[test]
fn next_day_rolls_over() {
    assert_eq!(day(2015, 3, 14).next_day(), Some(day(2015, 3, 15)));
    assert_eq!(day(2015, 12, 31).next_day(), Some(day(2016, 1, 1)));
    assert_eq!(day(2016, 2, 28).next_day(), Some(day(2016, 2, 29)));
    assert_eq!(day(2015, 2, 28).next_day(), Some(day(2015, 3, 1)));
    assert_eq!(day(MAX_YEAR, 12, 31).next_day(), None);
}

#[test]
fn date_order_is_chronological() {
    assert!(date_less(&day(2015, 3, 14), &day(2015, 3, 15)));
    assert!(date_less(&day(2014, 12, 31), &day(2015, 1, 1)));
    assert!(!date_less(&day(2015, 3, 14), &day(2015, 3, 14)));
    assert!(!date_less(&day(2015, 4, 1), &day(2015, 3, 31)));
}

#[test]
fn equal_tickets() {
    let a = ticket(1, &[1, 2, 3]);
    let b = a.clone();
    assert!(tickets_equal(&a, &b));
    assert!(!tickets_equal(&a, &ticket(1, &[1, 2, 4])));
    assert!(!tickets_equal(&a, &ticket(2, &[1, 2, 3])));
    assert!(!tickets_equal(&a, &ticket(1, &[1, 2])));
}

#[test]
fn collect_reverses_sheet() {
    assert!(collect_tickets(Vec::new()).is_none());
    let rows = vec![ticket(3, &[3]), ticket(2, &[2]), ticket(1, &[1])];
    let out = collect_tickets(rows).unwrap();
    let dates: Vec<u32> = out.iter().map(|t| t.date.day).collect();
    assert_eq!(dates, vec![1, 2, 3]);
}

#[test]
fn binary_search_finds_dates() {
    let t: Vec<LotteryTicket> = (1..=6).map(|d| ticket(d, &[d as u8])).collect();
    assert_eq!(find_tommorows_ticket(day(2023, 1, 4), &t), Some(3));
    assert_eq!(find_tommorows_ticket(day(2023, 1, 1), &t), Some(0));
    assert_eq!(find_tommorows_ticket(day(2023, 1, 6), &t), Some(5));
    assert_eq!(find_tommorows_ticket(day(2023, 2, 1), &t), None);
    assert_eq!(find_tommorows_ticket(day(2022, 12, 31), &t), None);
    assert_eq!(find_tommorows_ticket(day(2023, 1, 1), &[]), None);
}

#[test]
fn binary_search_misses_in_unordered_history() {
    let t = vec![ticket(5, &[1]), ticket(1, &[2]), ticket(2, &[3])];
    assert_eq!(find_tommorows_ticket(day(2023, 1, 5), &t), None);
    assert_eq!(find_tommorows_ticket(day(2023, 1, 1), &t), Some(1));
}

#[test]
fn draw_date_is_day_after_last() {
    let t = vec![ticket(1, &[1]), ticket(31, &[2])];
    assert_eq!(draw_date(&t), Some(day(2023, 2, 1)));
}

#[test]
fn split_like_str_split() {
    let parts = split_bytes(b"1 - 2 - 30", b" - ");
    assert_eq!(parts, vec![b"1".to_vec(), b"2".to_vec(), b"30".to_vec()]);
    let parts = split_bytes(b"", b" - ");
    assert_eq!(parts, vec![Vec::<u8>::new()]);
    let parts = split_bytes(b" - ", b" - ");
    assert_eq!(parts, vec![Vec::<u8>::new(), Vec::<u8>::new()]);
    let parts = split_bytes(b"aaa", b"aa");
    assert_eq!(parts, vec![Vec::<u8>::new(), b"a".to_vec()]);
}

#[test]
fn numbers_cell() {
    assert_eq!(parse_numbers("1 - 2 - 30"), Some(vec![1, 2, 30]));
    assert_eq!(parse_numbers("07 - +5 - 127"), Some(vec![7, 5, 127]));
    assert_eq!(parse_numbers("12"), Some(vec![12]));
    assert_eq!(parse_numbers("-0 - 3"), Some(vec![0, 3]));
    assert_eq!(parse_numbers("1 - x"), None);
    assert_eq!(parse_numbers(""), None);
    assert_eq!(parse_numbers("1 - -2"), Some(vec![1, -2]));
    assert_eq!(parse_numbers("-5"), Some(vec![-5]));
    assert_eq!(parse_numbers("-128 - 127"), Some(vec![-128, 127]));
    assert_eq!(parse_numbers("128"), None);
    assert_eq!(parse_numbers("-129"), None);
    assert_eq!(parse_numbers("1-2"), None);
    assert_eq!(parse_numbers("1 - "), None);
    assert_eq!(parse_numbers("+"), None);
}

#[test]
fn date_cell() {
    assert_eq!(parse_date("Mon, 01/02/23"), Some(day(2023, 1, 2)));
    assert_eq!(parse_date("Sun, 12/31/95"), Some(day(1995, 12, 31)));
    assert_eq!(parse_date("12/31/95"), Some(day(1995, 12, 31)));
    assert_eq!(parse_date("Tue, 02/29/90"), None);
    assert_eq!(parse_date("Tue, 02/29/96"), Some(day(1996, 2, 29)));
    assert_eq!(parse_date("Wed, 05/06/7"), Some(day(207, 5, 6)));
    assert_eq!(parse_date("Wed, 05/06/89"), Some(day(2089, 5, 6)));
    assert_eq!(parse_date("a, b, 03/04/05"), Some(day(2005, 3, 4)));
    assert_eq!(parse_date("03/04/05/extra"), Some(day(2005, 3, 4)));
    assert_eq!(parse_date("Mon, 02/30/23"), None);
    assert_eq!(parse_date("Mon, 13/01/23"), None);
    assert_eq!(parse_date("Mon, 01/02"), None);
    assert_eq!(parse_date("Mon, 01/02/-5"), None);
    assert_eq!(parse_date("Mon, -1/02/23"), None);
    assert_eq!(parse_date("Mon, x/02/23"), None);
    assert_eq!(parse_date(""), None);
}

#[test]
fn ticket_from_sheet_cells() {
    let t = ticket_from_cells("Mon, 01/02/23", "4 - 8 - 15").unwrap();
    assert_eq!(t.date, day(2023, 1, 2));
    assert_eq!(t.numbers, vec![4, 8, 15]);
    assert!(ticket_from_cells("Mon, 01/02/23", "4 - x").is_none());
    assert!(ticket_from_cells("Mon, 01/32/23", "4").is_none());
    assert!(ticket_from_cells("Mon, 01/02/23", "4 - -8").is_none());
    assert_eq!(ticket_from_cells("Mon, 01/02/23", "-0 - 127").unwrap().numbers, vec![0, 127]);
}

#[test]
fn balls_as_record_values() {
    assert_eq!(ball_list(&vec![3, 0, 127]), Some(vec![3, 0, 127]));
    assert_eq!(ball_list(&vec![3, -1]), None);
    assert_eq!(ball_list(&vec![]), Some(vec![]));
}

#[test]
fn reading_undoes_writing() {
    let v: Vec<i8> = vec![-128, -5, 0, 7, 42, 127];
    let text = v.iter().map(|x| x.to_string()).collect::<Vec<_>>().join(" - ");
    assert_eq!(parse_numbers(&text), Some(v));
    assert_eq!(parse_numbers("-7"), Some(vec![-7]));
}
