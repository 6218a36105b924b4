use ashpk::codec::{join_with, split_str};
use ashpk::commands::contains_sub;
use ashpk::order::{str_eq, str_lt, vec_contains_str};

#[test]
fn split_and_join_round_trip() {
    let parts = split_str("a:bb:", ':');
    assert_eq!(parts, vec!["a".to_string(), "bb".to_string(), "".to_string()]);
    assert_eq!(join_with(&parts, ":"), "a:bb:");
    assert_eq!(split_str("", ';'), vec!["".to_string()]);
    assert_eq!(join_with(&Vec::new(), ";"), "");
}

#[test]
fn lexicographic_order() {
    assert!(str_lt("1", "10"));
    assert!(str_lt("abc", "abd"));
    assert!(str_lt("ab", "abc"));
    assert!(!str_lt("abc", "abc"));
    assert!(!str_lt("b", "a"));
}

#[test]
fn string_equality_is_exact() {
    assert!(str_eq("10", "10"));
    assert!(!str_eq("1", "10"));
    assert!(!str_eq("10", "1"));
}

#[test]
fn substring_search() {
    assert!(contains_sub("warning: NO_PUBKEY ABC", "NO_PUBKEY"));
    assert!(!contains_sub("all good", "NO_PUBKEY"));
    assert!(contains_sub("anything", ""));
    assert!(!contains_sub("ab", "abc"));
}

#[test]
fn vector_membership_is_exact() {
    let v = vec!["1".to_string(), "10".to_string()];
    assert!(vec_contains_str(&v, "10"));
    assert!(vec_contains_str(&v, "1"));
    assert!(!vec_contains_str(&v, "0"));
}
