//! Holding a slice in other shapes.

use str_extensions::type_coercion::TypeCoercion;

#[test]
fn to_arc_holds_the_same_characters() {
    let shared = "shared".to_arc();
    let second = shared.clone();
    assert_eq!(&*second, "shared");
    assert_eq!(&*"日本語".to_arc(), "日本語");
}

#[test]
fn to_arc_of_an_empty_slice_is_empty() {
    assert_eq!(&*"".to_arc(), "");
}

#[test]
fn into_arc_holds_a_growable_string() {
    let mut arc = "grow".into_arc();
    std::sync::Arc::make_mut(&mut arc).push_str("n");
    assert_eq!(*arc, "grown");
}
