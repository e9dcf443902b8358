use lottery_predict::filters::{apply_filters, Filter};
use lottery_predict::{bell, even_odd};

#[test]
fn bell_keeps_tickets_with_one_ball_out_of_band() {
    let mut g = vec![vec![5, 15, 25], vec![5, 15, 35], vec![1, 2, 3]];
    bell(&mut g, 3);
    assert_eq!(g, vec![vec![5, 15, 35]]);
}

#[test]
fn bell_uses_the_top_band_past_the_ticket_length() {
    let mut g = vec![vec![5, 15, 40, 31], vec![5, 15, 25, 31], vec![5, 40, 40, 31]];
    bell(&mut g, 3);
    assert_eq!(g, vec![vec![5, 40, 40, 31]]);
}

#[test]
fn bell_is_idempotent_on_an_example() {
    let mut g = vec![vec![1, 20], vec![1, 2], vec![17, 18], vec![3, 40]];
    bell(&mut g, 2);
    let once = g.clone();
    bell(&mut g, 2);
    assert_eq!(g, once);
    assert_eq!(once, vec![vec![1, 2], vec![17, 18], vec![3, 40]]);
}

#[test]
fn bell_on_empty_list() {
    let mut g: Vec<Vec<u8>> = Vec::new();
    bell(&mut g, 5);
    assert!(g.is_empty());
}

#[test]
fn even_odd_drops_from_the_end() {
    let mut g = vec![vec![2, 4, 6, 8, 1], vec![1, 3, 5, 7, 2], vec![1, 2, 3, 4]];
    even_odd(&mut g, 5);
    assert_eq!(g, vec![vec![2, 4, 6, 8, 1]]);
}

#[test]
fn even_odd_keeps_balanced_tickets() {
    let mut g = vec![vec![1, 2, 3, 4, 5, 6], vec![2, 4, 6, 1, 3, 5]];
    even_odd(&mut g, 6);
    assert_eq!(g.len(), 2);
    let mut g = vec![vec![2, 4, 6, 8]];
    even_odd(&mut g, 4);
    assert!(g.is_empty());
}

#[test]
fn filters_in_order() {
    let mut g = vec![vec![1, 20], vec![1, 2], vec![17, 18], vec![3, 40]];
    apply_filters(&vec![Filter::BellCurve, Filter::EvenOdd], &mut g, 2);
    assert_eq!(g, vec![vec![1, 2], vec![17, 18], vec![3, 40]]);
    let mut g = vec![vec![2, 4, 6, 8], vec![1, 2, 3, 4]];
    apply_filters(&vec![Filter::EvenOdd, Filter::BellCurve], &mut g, 4);
    assert!(g.is_empty());
}

#[test]
fn bell_decides_each_ticket_alone() {
    let mut a = vec![vec![1, 20], vec![1, 2]];
    let mut b = vec![vec![17, 18], vec![3, 40], vec![20, 1]];
    let mut joined = a.clone();
    joined.extend(b.clone());
    bell(&mut a, 2);
    bell(&mut b, 2);
    bell(&mut joined, 2);
    let mut expected = a.clone();
    expected.extend(b.clone());
    assert_eq!(joined, expected);
}

#[test]
fn even_odd_ignores_the_length_argument() {
    let g = vec![vec![2, 4, 6, 8, 1], vec![1, 2, 3], vec![1, 3, 5, 7]];
    let mut first = g.clone();
    let mut second = g.clone();
    even_odd(&mut first, 0);
    even_odd(&mut second, 255);
    assert_eq!(first, second);
    assert_eq!(first, vec![vec![2, 4, 6, 8, 1]]);
}

#[test]
fn filters_with_unusual_lengths() {
    let mut g: Vec<Vec<u8>> = vec![vec![], vec![]];
    apply_filters(&vec![Filter::EvenOdd], &mut g, 0);
    assert_eq!(g, vec![Vec::<u8>::new(), Vec::<u8>::new()]);
    let mut g = vec![vec![1, 2, 3], vec![40, 41, 42]];
    bell(&mut g, 255);
    assert!(g.is_empty());
}
