//! The extension traits are reachable from another crate.

use str_extensions::prelude::{CaseConversions, Segmentation, StringBuilding};

#[test]
fn string_building_is_callable_from_another_crate() {
    assert_eq!("foo".concat(&["bar"]), "foobar");
}

#[test]
fn case_conversions_over_a_segmentation_are_callable_from_another_crate() {
    let segments = Segmentation::new(vec!["foo".to_string(), " ".to_string(), "bar".to_string()]);
    let out = segments.to_human_readable();
    assert_eq!(out, "foo bar");
}
