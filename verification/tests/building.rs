//! Putting strings together.

use str_extensions::prelude::{StringBuilding, TypeCoercion};
use std::borrow::Cow;

#[test]
fn append_puts_the_other_string_after_this_one() {
    assert_eq!("config".append(".toml"), "config.toml");
}

#[test]
fn prepend_puts_it_before() {
    assert_eq!("toml".prepend("config."), "config.toml");
    // The two are each other's mirror.
    assert_eq!("b".prepend("a"), "a".append("b"));
}

#[test]
fn concat_appends_each_in_order() {
    assert_eq!("a".concat(&["b", "c", "d"]), "abcd");
}

#[test]
fn concat_agrees_with_repeated_appends() {
    let pieces = ["one", "two", "three", "four"];
    let by_concat = "start".concat(&pieces);
    let by_append = pieces
        .iter()
        .fold(String::from("start"), |acc, p| acc.append(p));
    assert_eq!(by_concat, by_append);
}

#[test]
fn the_empty_cases_are_the_identity() {
    assert_eq!("a".append(""), "a");
    assert_eq!("".append("a"), "a");
    assert_eq!("a".prepend(""), "a");
    assert_eq!("a".concat(&[]), "a");
    assert_eq!("".concat(&["a"]), "a");
    assert_eq!("".concat(&[]), "");
}

#[test]
fn multibyte_characters_survive() {
    assert_eq!("mä".append("ki"), "mäki");
    assert_eq!("日".concat(&["本", "語"]), "日本語");
    assert_eq!("→".prepend("←"), "←→");
}

#[test]
fn as_cow_borrows_rather_than_copying() {
    let owned = String::from("borrowed, not copied");
    let cow = owned.as_str().as_cow();
    assert!(
        matches!(cow, Cow::Borrowed(_)),
        "as_cow borrows; got {cow:?}"
    );
    assert_eq!(cow, "borrowed, not copied");
}

#[test]
fn into_arc_gives_a_shareable_copy() {
    let arc = "shared".into_arc();
    assert_eq!(*arc, "shared");

    let second = arc.clone();
    assert_eq!(
        std::sync::Arc::strong_count(&arc),
        2,
        "cloning shares rather than copies"
    );
    assert_eq!(*second, "shared");
}

#[test]
fn join_puts_the_separator_between_each_pair() {
    assert_eq!("a".join(&["b", "c"], ", "), "a, b, c");
}

#[test]
fn join_with_nothing_to_join_to_is_the_string_itself() {
    assert_eq!("alone".join(&[], ", "), "alone");
}

#[test]
fn join_does_not_put_a_separator_after_the_last() {
    let joined = "one".join(&["two", "three"], "-");
    assert_eq!(joined, "one-two-three");
    assert!(!joined.ends_with('-'), "nothing trails the last element");
}

#[test]
fn an_empty_separator_makes_join_agree_with_concat_exactly() {
    assert_eq!("a".join(&["b", "c"], ""), "abc");
    assert_eq!("a".join(&["b", "c"], ""), "a".concat(&["b", "c"]));
}

#[test]
fn join_carries_multibyte_separators_and_elements() {
    assert_eq!("日".join(&["本", "語"], "・"), "日・本・語");
    assert_eq!("a".join(&["é"], "…"), "a…é");
}

#[test]
fn join_sizes_its_allocation_for_the_exact_length() {
    let joined = "aa".join(&["bbb", "c"], "--");
    assert_eq!(joined, "aa--bbb--c");
    assert_eq!(joined.len(), 2 + 2 + 3 + 2 + 1);
}

#[test]
fn join_of_an_empty_string_with_an_empty_separator_is_the_pieces() {
    assert_eq!("".join(&["x", "y"], ""), "xy");
    assert_eq!("".join(&["", ""], ","), ",,");
}

#[test]
fn append_and_prepend_of_two_empty_strings_are_empty() {
    assert_eq!("".append(""), "");
    assert_eq!("".prepend(""), "");
}
