//! Tests of the result orderer and the batch helpers.

use vff::get_distance;
use vff::order_distances;
use vff::score_lines;
use vff::split_complete;

#[test]
fn scenario_stable_order() {
    let distances = vec![(5, false), (2, false), (2, true), (9, false)];
    let order = order_distances(&distances);
    assert_eq!(order, vec![1, 2, 0, 3]);
}

#[test]
fn order_of_empty_input_is_empty() {
    let distances: Vec<(usize, bool)> = Vec::new();
    let order = order_distances(&distances);
    assert!(order.is_empty());
}

#[test]
fn order_is_a_permutation() {
    let distances = vec![(3, true), (1, false), (4, true), (1, true), (5, false)];
    let order = order_distances(&distances);
    assert_eq!(order.len(), distances.len());
    for v in 0..distances.len() {
        assert_eq!(order.iter().filter(|&&x| x == v).count(), 1);
    }
}

#[test]
fn order_is_non_decreasing() {
    let distances = vec![(7, true), (0, false), (7, true), (3, true), (2, false)];
    let order = order_distances(&distances);
    for w in order.windows(2) {
        assert!(distances[w[0]].0 <= distances[w[1]].0);
    }
}

#[test]
fn equal_distances_keep_input_order() {
    let distances = vec![(4, true), (4, false), (4, true), (4, false)];
    let order = order_distances(&distances);
    assert_eq!(order, vec![0, 1, 2, 3]);
}

#[test]
fn complete_flag_does_not_affect_order() {
    let distances = vec![(2, false), (1, true), (2, true), (1, false)];
    let order = order_distances(&distances);
    assert_eq!(order, vec![1, 3, 0, 2]);
}

#[test]
fn scores_whole_batch_in_line_order() {
    let lines = vec![
        String::from("greek"),
        String::from("gree"),
        String::from("def"),
    ];
    let scored = score_lines("greek", &lines);
    assert_eq!(scored.len(), 3);
    assert_eq!(scored[0], get_distance("greek", "greek"));
    assert_eq!(scored[1], get_distance("greek", "gree"));
    assert_eq!(scored[2], get_distance("greek", "def"));
}

#[test]
fn splits_complete_matches_first() {
    let lines = vec![
        String::from("xdef"),
        String::from("abc"),
        String::from("abcz"),
        String::from("qqq"),
    ];
    let scored = score_lines("abc", &lines);
    let order = order_distances(&scored);
    let (complete, incomplete) = split_complete(&order, &scored);
    // The complete matches, closest first; then the rest, closest first.
    assert_eq!(complete, vec![1, 2]);
    assert_eq!(incomplete, vec![3, 0]);
}

#[test]
fn split_of_empty_order_is_empty() {
    let order: Vec<usize> = Vec::new();
    let scored: Vec<(usize, bool)> = Vec::new();
    let (complete, incomplete) = split_complete(&order, &scored);
    assert!(complete.is_empty());
    assert!(incomplete.is_empty());
}
