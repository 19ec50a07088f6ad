//! Tests of the distance scorer.

use vff::get_distance;

#[test]
fn exact_matches() {
    assert_eq!(get_distance("greek", "greek").0, 0);
    assert_eq!(get_distance("banan", "banan").0, 0);
    assert_eq!(get_distance("pterodactyl", "pterodactyl").0, 0);
    assert_eq!(get_distance("monstertruck", "monstertruck").0, 0);
    assert_eq!(get_distance("a", "a").0, 0);
}

#[test]
fn off_by_one_values() {
    assert_eq!(get_distance("greek", "gree").0, 1);
    assert_eq!(get_distance("banan", "bana").0, 1);
    assert_eq!(get_distance("pterodactyl", "pterodacty").0, 1);
    assert_eq!(get_distance("monstertruck", "monstertruc").0, 1);
}

#[test]
fn off_by_one_targets() {
    assert_eq!(get_distance("gree", "greek").0, 1);
    assert_eq!(get_distance("bana", "banan").0, 1);
    assert_eq!(get_distance("pterodacty", "pterodactyl").0, 1);
    assert_eq!(get_distance("monstertruc", "monstertruck").0, 1);
}

#[test]
fn zero_match() {
    assert_eq!(get_distance("abc", "def").0, 6);
    assert_eq!(get_distance("ghi", "jkl").0, 6);
    assert_eq!(get_distance("xxxxx", "yyyyy").0, 10);
}

#[test]
fn mid_scrambled() {
    assert_eq!(get_distance("xxx", "xxyx").0, 1);
    assert_eq!(get_distance("xxx", "xxyzx").0, 2);
    assert_eq!(get_distance("xxx", "xxyzwx").0, 3);
}

#[test]
fn half_right() {
    assert_eq!(get_distance("xxxxxx", "xxxyyy").0, 6);
    assert_eq!(get_distance("xxxxxx", "yyyxxx").0, 6);
    assert_eq!(get_distance("xxxxxx", "xyxyxy").0, 6);
}

#[test]
fn self_match_is_zero_and_complete() {
    assert_eq!(get_distance("greek", "greek"), (0, true));
    assert_eq!(get_distance("a", "a"), (0, true));
    assert_eq!(get_distance("", ""), (0, true));
}

#[test]
fn one_extra_trailing_character() {
    assert_eq!(get_distance("greek", "greekx"), (1, true));
    assert_eq!(get_distance("", "x"), (1, true));
}

#[test]
fn one_missing_trailing_character() {
    assert_eq!(get_distance("gree", "greek"), (1, true));
    assert_eq!(get_distance("", "k"), (1, true));
}

#[test]
fn disjoint_characters_cost_both_lengths() {
    assert_eq!(get_distance("abc", "def"), (6, false));
    assert_eq!(get_distance("ab", "defgh"), (7, false));
}

#[test]
fn empty_line_costs_target_plus_one() {
    assert_eq!(get_distance("abc", ""), (4, false));
    assert_eq!(get_distance("a", ""), (2, false));
}

#[test]
fn empty_target_counts_leftover_line() {
    assert_eq!(get_distance("", "abc"), (3, true));
    assert_eq!(get_distance("", ""), (0, true));
}

#[test]
fn scenario_scores() {
    assert_eq!(get_distance("greek", "greek"), (0, true));
    assert_eq!(get_distance("xxx", "xxyx"), (1, true));
    assert_eq!(get_distance("xxxxxx", "xyxyxy"), (6, false));
    assert_eq!(get_distance("abc", "def"), (6, false));
}

#[test]
fn case_sensitive_comparison() {
    assert_eq!(get_distance("abc", "ABC"), (6, false));
    assert_eq!(get_distance("aBc", "aBc"), (0, true));
}
