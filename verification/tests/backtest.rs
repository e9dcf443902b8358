use std::collections::HashMap;

use lottery_predict::algos::{optimize as plain_optimize, Algo};
use lottery_predict::calculator::{best_window, optimize as calculator_optimize};
use lottery_predict::filters::Filter;
use lottery_predict::optimize::{apply_weights, optimize, stats};
use lottery_predict::predict::predict_tickets;
use lottery_predict::{Date, LotteryTicket};

fn ticket(d: u32, nums: &[u8]) -> LotteryTicket {
    LotteryTicket { date: Date::from_ymd(2023, 1, d).unwrap(), numbers: nums.to_vec() }
}

fn history() -> Vec<LotteryTicket> {
    vec![
        ticket(1, &[1, 2]),
        ticket(2, &[2, 3]),
        ticket(3, &[1, 3]),
        ticket(4, &[2, 4]),
        ticket(5, &[1, 2]),
        ticket(6, &[3, 4]),
    ]
}

fn counter(pairs: &[(u8, u32)]) -> HashMap<u8, u32> {
    pairs.iter().cloned().collect()
}

#[test]
fn weights_of_one_window() {
    let t = history();
    let mut w: u32 = 0;
    let mut c = counter(&[(1, 0), (2, 0)]);
    let ok = apply_weights(&t, &t[0..2], &vec![vec![1, 2], vec![2, 3]], 1, &mut w, &mut c);
    assert!(ok);
    assert_eq!(w, 7);
    assert_eq!(c, counter(&[(1, 1), (2, 1)]));
}

#[test]
fn weights_overflow_is_reported() {
    let t = history();
    let mut w: u32 = u32::MAX - 1;
    let mut c = counter(&[(1, 0), (2, 0)]);
    assert!(!apply_weights(&t, &t[0..2], &vec![vec![1, 2], vec![2, 3]], 1, &mut w, &mut c));
    let mut w: u32 = 0;
    let mut c = counter(&[(1, u32::MAX)]);
    assert!(!apply_weights(&t, &t[0..2], &vec![vec![1, 2]], 1, &mut w, &mut c));
}

#[test]
fn stats_per_window_size() {
    let t = history();
    let (ws, wm, c) = stats(&t, 1, 2, Algo::Spine, &vec![]).unwrap();
    assert_eq!((ws, wm), (1, 0));
    assert_eq!(c, counter(&[(1, 0), (2, 5)]));
    let (ws, wm, c) = stats(&t, 2, 2, Algo::Spine, &vec![]).unwrap();
    assert_eq!((ws, wm), (2, 14));
    assert_eq!(c, counter(&[(1, 10), (2, 7)]));
    let (ws, wm, c) = stats(&t, 3, 2, Algo::Spine, &vec![]).unwrap();
    assert_eq!((ws, wm), (3, 35));
    assert_eq!(c, counter(&[(1, 10), (2, 8)]));
    let (_, wm, _) = stats(&t, 4, 2, Algo::Spine, &vec![]).unwrap();
    assert_eq!(wm, 55);
}

#[test]
fn stats_with_filters_and_silent_algorithms() {
    let t = history();
    let (_, wm, c) = stats(&t, 3, 2, Algo::Quiet, &vec![Filter::EvenOdd]).unwrap();
    assert_eq!(wm, 0);
    assert_eq!(c, counter(&[(1, 0), (2, 0)]));
}

#[test]
fn stats_fail_when_a_date_is_not_found() {
    let t = vec![ticket(5, &[1, 2]), ticket(1, &[2, 3]), ticket(2, &[1, 3])];
    assert!(stats(&t, 1, 2, Algo::Spine, &vec![]).is_none());
}

#[test]
fn optimize_reports_best_depth() {
    let t = history();
    let r = optimize(&t, 2, Algo::Spine, &vec![]).unwrap();
    assert_eq!(r.window_size, 3);
    assert_eq!(r.ball_counter, counter(&[(1, 2), (2, 2)]));
    assert_eq!(r.ratio, (2, 3));
}

#[test]
fn optimize_without_positive_score() {
    let t = history();
    assert!(optimize(&t[0..3], 2, Algo::Spine, &vec![]).is_none());
    assert!(optimize(&t[0..2], 2, Algo::Spine, &vec![]).is_none());
    assert!(optimize(&t, 2, Algo::Multiply, &vec![]).is_none());
}

#[test]
fn plain_optimize_returns_depth() {
    let t = history();
    assert_eq!(plain_optimize(&t, 2, Algo::Spine), Some(3));
    assert_eq!(plain_optimize(&t, 2, Algo::Quiet), Some(0));
    assert_eq!(plain_optimize(&t[0..2], 2, Algo::Spine), Some(0));
}

#[test]
fn calculator_predicts_from_best_window() {
    let t = history();
    assert_eq!(calculator_optimize(&t, 2, Algo::Spine), Some(vec![1, 2, 3, 4]));
    assert_eq!(calculator_optimize(&t, 2, Algo::Quiet), Some(vec![]));
    assert_eq!(calculator_optimize(&t[0..2], 2, Algo::Spine), Some(vec![2, 3]));
}

#[test]
fn prediction_for_next_draw() {
    let t = history();
    let p = predict_tickets(&t, 2, 2, Algo::Spine, &vec![]).unwrap();
    assert_eq!(p, vec![vec![1, 2], vec![1, 3], vec![1, 4], vec![2, 3], vec![2, 4], vec![3, 4]]);
    let p = predict_tickets(&t, 1, 2, Algo::Spine, &vec![Filter::BellCurve]).unwrap();
    assert_eq!(p, vec![vec![3, 4]]);
    let p = predict_tickets(&t, 0, 2, Algo::Spine, &vec![]).unwrap();
    assert!(p.is_empty());
    let p = predict_tickets(&t, 2, 0, Algo::Spine, &vec![Filter::EvenOdd]).unwrap();
    assert_eq!(p, vec![Vec::<u8>::new()]);
}

#[test]
fn best_window_takes_first_highest_total() {
    assert_eq!(best_window(&vec![(1, 5), (2, 7), (3, 7)]), (2, 7));
    assert_eq!(best_window(&vec![(3, 7), (2, 7)]), (3, 7));
    assert_eq!(best_window(&vec![(4, 0), (5, 0)]), (1, 0));
    assert_eq!(best_window(&vec![]), (1, 0));
}

#[test]
fn stats_with_ticket_size_zero() {
    let t = history();
    let (ws, wm, c) = stats(&t, 2, 0, Algo::Quiet, &vec![]).unwrap();
    assert_eq!((ws, wm), (2, 0));
    assert!(c.is_empty());
    let (ws, wm, c) = stats(&t, 3, 0, Algo::Multiply, &vec![Filter::EvenOdd]).unwrap();
    assert_eq!((ws, wm), (3, 0));
    assert!(c.is_empty());
    assert!(stats(&t, 2, 0, Algo::Quiet, &vec![Filter::BellCurve]).is_none());
    assert!(stats(&t, 2, 0, Algo::Spine, &vec![]).is_none());
}

#[test]
fn plain_back_test_with_ticket_size_zero() {
    let t = history();
    assert_eq!(plain_optimize(&t, 0, Algo::Multiply), Some(0));
    assert_eq!(plain_optimize(&t, 0, Algo::Spine), None);
}
