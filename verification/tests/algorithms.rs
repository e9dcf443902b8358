use lottery_predict::algos::friends::{pick_friends, try_friends};
use lottery_predict::algos::multiply::multiply_products;
use lottery_predict::algos::quiet::{quiet_stats, QuietStats};
use lottery_predict::algos::{try_predict, Algo};
use lottery_predict::combine::{selections_of, sorted_ticket, ticket_combinations};
use lottery_predict::{friends, multiply, quiet, spine_sort, Date, LotteryTicket};

fn ticket(d: u32, nums: &[u8]) -> LotteryTicket {
    LotteryTicket { date: Date::from_ymd(2023, 1, d).unwrap(), numbers: nums.to_vec() }
}

#[test]
fn spine_keeps_first_nine_balls() {
    let w = vec![ticket(1, &[1, 2, 3, 4]), ticket(2, &[1, 5, 6, 7]), ticket(3, &[8, 9, 10])];
    assert_eq!(spine_sort(&w, 4), vec![1, 2, 3, 4, 1, 5, 6, 7, 8]);
    let w = vec![ticket(1, &[3, 1])];
    assert_eq!(spine_sort(&w, 4), vec![3, 1]);
    assert!(spine_sort(&[], 4).is_empty());
}

#[test]
fn multiply_weights_by_position() {
    let w = vec![ticket(1, &[1, 2]), ticket(2, &[3, 4]), ticket(3, &[5])];
    assert_eq!(multiply_products(&w), Some(vec![0, 7, 10]));
    assert!(multiply(&w, 2).is_empty());
}

#[test]
fn friends_collects_most_frequent_pairs() {
    let w = vec![ticket(1, &[1, 2, 3]), ticket(2, &[2, 3, 4])];
    assert_eq!(friends(&w, 2), vec![2, 3, 1]);
    assert_eq!(try_friends(&w, 2), Some(vec![2, 3, 1]));
    assert_eq!(friends(&w, 1), vec![2, 3]);
}

#[test]
fn friends_without_pairs() {
    let w = vec![ticket(1, &[7]), ticket(2, &[7])];
    assert!(friends(&w, 3).is_empty());
}

#[test]
fn friends_distinct_balls() {
    let w = vec![ticket(1, &[1, 2, 3, 4]), ticket(2, &[1, 2, 5, 6]), ticket(3, &[1, 2, 7, 8])];
    let out = friends(&w, 3);
    let mut sorted = out.clone();
    sorted.sort();
    sorted.dedup();
    assert_eq!(sorted.len(), out.len());
    assert!(out.len() <= 5);
    assert_eq!(out[..2].to_vec(), vec![1, 2]);
}

#[test]
fn quiet_statistics() {
    let w = vec![ticket(1, &[1, 2]), ticket(2, &[2, 3])];
    let stats = quiet_stats(&w).unwrap();
    let keys: Vec<u8> = stats.keys().cloned().collect();
    assert_eq!(keys, vec![2, 1, 3]);
    let s1 = stats.get(&1).unwrap();
    assert_eq!((s1.resets, s1.average, s1.quiet_counter, s1.miss_count), (1, 0, 1, 1));
    assert_eq!(s1.quiet_count.get(&0), Some(&1));
    let s2 = stats.get(&2).unwrap();
    assert_eq!((s2.resets, s2.average, s2.quiet_counter, s2.miss_count), (2, 0, 0, 0));
    assert_eq!(s2.quiet_count.get(&0), Some(&2));
    let total: u32 = stats.values().map(|v| v.resets).sum();
    assert_eq!(total, 4);
    assert!(quiet(&w, 2).is_empty());
}

#[test]
fn quiet_counts_quiet_periods() {
    let w = vec![ticket(1, &[1]), ticket(2, &[2]), ticket(3, &[2]), ticket(4, &[1])];
    let stats = quiet_stats(&w).unwrap();
    let one = stats.get(&1).unwrap();
    assert_eq!(one.resets, 2);
    assert_eq!(one.average, 2);
    assert_eq!(one.quiet_count.get(&2), Some(&1));
    assert_eq!(one.quiet_count.get(&0), Some(&1));
    assert_eq!(one.miss_count, 2);
    assert_eq!(one.quiet_counter, 0);
}

#[test]
fn new_quiet_stats_are_zero() {
    let s = QuietStats::new();
    assert_eq!((s.resets, s.average, s.quiet_counter, s.miss_count), (0, 0, 0, 0));
    assert!(s.quiet_count.is_empty());
}

#[test]
fn dispatch_runs_the_chosen_algorithm() {
    let w = vec![ticket(1, &[1, 2, 3]), ticket(2, &[2, 3, 4])];
    assert_eq!(try_predict(Algo::Spine, &w, 2), Some(vec![1, 2, 3, 2, 3, 4]));
    assert_eq!(try_predict(Algo::Friends, &w, 2), Some(vec![2, 3, 1]));
    assert_eq!(try_predict(Algo::Multiply, &w, 2), Some(vec![]));
    assert_eq!(try_predict(Algo::Quiet, &w, 2), Some(vec![]));
}

#[test]
fn combinations_of_distinct_balls_sorted() {
    assert_eq!(ticket_combinations(vec![3, 1, 3, 2], 2), vec![vec![1, 2], vec![3, 1], vec![3, 2]]);
    assert_eq!(ticket_combinations(vec![1, 2], 3), Vec::<Vec<u8>>::new());
    assert_eq!(ticket_combinations(vec![5, 4], 0), vec![Vec::<u8>::new()]);
    assert_eq!(sorted_ticket(vec![3, 1, 2, 1]), vec![1, 1, 2, 3]);
}

#[test]
fn picking_depends_on_the_order_of_equal_tallies() {
    assert_eq!(pick_friends(&vec![(1, 2, 1), (3, 4, 1)], 1), vec![1, 2]);
    assert_eq!(pick_friends(&vec![(3, 4, 1), (1, 2, 1)], 1), vec![3, 4]);
    assert_eq!(pick_friends(&vec![(3, 4, 1), (1, 2, 2)], 1), vec![1, 2]);
    assert_eq!(pick_friends(&vec![(5, 5, 9), (1, 2, 1)], 3), vec![1, 2]);
    assert!(pick_friends(&vec![], 3).is_empty());
}

#[test]
fn selections_of_a_multiset() {
    assert_eq!(
        selections_of(vec![4, 2, 3, 2, 1], 3),
        vec![vec![1, 2, 2], vec![1, 2, 3], vec![1, 2, 4], vec![1, 3, 4], vec![2, 2, 3], vec![2, 2, 4], vec![2, 3, 4]]
    );
    assert_eq!(selections_of(vec![2, 2, 2], 2), vec![vec![2, 2]]);
    assert_eq!(selections_of(vec![3, 1, 2], 1), vec![vec![1], vec![2], vec![3]]);
}
