use hako_search::matcher::{contains_chars, edit_distance_of, match_keyword_exact, match_keyword_partial};
use hako_search::ticket::{SearchRange, SearchRangeList};

fn chars(s: &str) -> Vec<char> {
    s.chars().collect()
}

#[test]
fn similarity_of_a_sequence_with_itself_is_one() {
    let a = chars("cowboy bebop");
    assert_eq!(match_keyword_partial(&a, &a), 1_000_000);
}

#[test]
fn similarity_is_symmetric_and_bounded() {
    let a = chars("kitten");
    let b = chars("sitting");
    let ab = match_keyword_partial(&a, &b);
    let ba = match_keyword_partial(&b, &a);
    assert_eq!(ab, ba);
    assert!(ab <= 1_000_000);
    // distance 3 over length 7
    assert_eq!(ab, 571_428);
}

#[test]
fn similarity_of_two_empty_sequences_is_zero() {
    assert_eq!(match_keyword_partial(&[], &[]), 0);
}

#[test]
fn similarity_against_empty_is_zero() {
    assert_eq!(match_keyword_partial(&chars("abc"), &[]), 0);
}

#[test]
fn edit_distance_of_classic_pair() {
    assert_eq!(edit_distance_of(&chars("kitten"), &chars("sitting")), 3);
    assert_eq!(edit_distance_of(&chars(""), &chars("abc")), 3);
    assert_eq!(edit_distance_of(&chars("flaw"), &chars("lawn")), 2);
}

#[test]
fn exact_match_lowers_the_target() {
    assert!(match_keyword_exact("abc", "xxABCxx"));
    assert!(!match_keyword_exact("abd", "xxABCxx"));
    assert!(match_keyword_exact("ABC", "xxabcxx"));
    assert!(match_keyword_exact("aBc", "xxAbCxx"));
    assert!(match_keyword_exact("", "anything"));
}

#[test]
fn exact_match_handles_non_ascii() {
    assert!(match_keyword_exact("魔法", "魔法少女"));
    assert!(!match_keyword_exact("少年", "魔法少女"));
}

#[test]
fn substring_search() {
    assert!(contains_chars(&chars("hello"), &chars("ell")));
    assert!(!contains_chars(&chars("hello"), &chars("elo")));
    assert!(!contains_chars(&chars("he"), &chars("hello")));
}

#[test]
fn ranges_are_half_open() {
    assert!(SearchRange::Range(2000, 2005).contains(2000));
    assert!(!SearchRange::Range(2000, 2005).contains(2005));
    assert!(SearchRange::RangeTo(2000).contains(1999));
    assert!(!SearchRange::RangeTo(2000).contains(2000));
    assert!(SearchRange::RangeFrom(2015).contains(2015));
    assert!(!SearchRange::RangeFrom(2015).contains(2014));
    assert!(SearchRange::RangeFull.contains(0));
}

#[test]
fn range_lists_join_by_or() {
    let l = vec![SearchRange::Range(2000, 2005), SearchRange::RangeFrom(2015)];
    assert!(l.range_contains(2001));
    assert!(l.range_contains(2020));
    assert!(!l.range_contains(2010));
    let empty: Vec<SearchRange> = Vec::new();
    assert!(!empty.range_contains(2010));
}
