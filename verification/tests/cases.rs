//! The case conversions over a segmentation, checked against the examples the readme states
//! for each one. The segmentations are written out as word-bound resolution gives them:
//! lowercased segments, with separators that carry no letter or digit as segments of their own.

use str_extensions::cases::{capitalised, joined_with, words_of, CaseConversions, Segmentation};
use str_extensions::lending::Case;

fn segmentation(segments: &[&str]) -> Segmentation {
    Segmentation::new(segments.iter().map(|s| s.to_string()).collect())
}

fn example() -> Segmentation {
    segmentation(&["this", "is", "an", "example"])
}

#[test]
fn snake_case_of_the_example() {
    assert_eq!(example().to_snake_case(), "this_is_an_example");
}

#[test]
fn camel_case_of_the_example() {
    assert_eq!(example().to_camel_case(), "thisIsAnExample");
}

#[test]
fn pascal_case_of_the_example() {
    assert_eq!(example().to_pascal_case(), "ThisIsAnExample");
}

#[test]
fn kebab_case_of_the_example() {
    assert_eq!(example().to_kebab_case(), "this-is-an-example");
}

#[test]
fn human_readable_of_the_example() {
    assert_eq!(example().to_human_readable(), "this is an example");
}

#[test]
fn title_case_of_the_example() {
    assert_eq!(example().to_title_case(), "This Is An Example");
}

#[test]
fn separator_segments_are_dropped_rather_than_doubled() {
    let leading = segmentation(&["_", "prepended", "underscore"]);
    assert_eq!(leading.to_snake_case(), "prepended_underscore");
    let trailing = segmentation(&["appended", "underscore", "_"]);
    assert_eq!(trailing.to_snake_case(), "appended_underscore");
    let between = segmentation(&["a", "__", "b"]);
    assert_eq!(between.to_kebab_case(), "a-b");
}

#[test]
fn punctuation_that_belongs_to_a_word_stays_attached() {
    let hashtag = segmentation(&["hashtag", "#rust"]);
    assert_eq!(hashtag.to_snake_case(), "hashtag_#rust");
    assert_eq!(hashtag.to_pascal_case(), "Hashtag#rust");
}

#[test]
fn acronyms_and_digits_are_words_of_their_own() {
    assert_eq!(segmentation(&["json", "response"]).to_snake_case(), "json_response");
    assert_eq!(
        segmentation(&["word", "with", "numbers", "123"]).to_snake_case(),
        "word_with_numbers_123"
    );
    assert_eq!(segmentation(&["short", "1"]).to_kebab_case(), "short-1");
    assert_eq!(segmentation(&["v", "2", "release"]).to_camel_case(), "v2Release");
}

#[test]
fn an_empty_segmentation_stays_empty() {
    let empty = segmentation(&[]);
    assert_eq!(empty.to_snake_case(), "");
    assert_eq!(empty.to_pascal_case(), "");
    assert_eq!(empty.to_title_case(), "");
    assert_eq!(empty.to_camel_case(), "");
}

#[test]
fn a_segmentation_of_separators_only_is_empty_in_every_case() {
    let nothing = segmentation(&["...", "   ", "-", "_"]);
    assert_eq!(nothing.to_snake_case(), "");
    assert_eq!(nothing.to_camel_case(), "");
    assert_eq!(nothing.to_pascal_case(), "");
    assert_eq!(nothing.to_kebab_case(), "");
    assert_eq!(nothing.to_human_readable(), "");
    assert_eq!(nothing.to_title_case(), "");
}

#[test]
fn non_ascii_words_are_capitalised_by_their_uppercase_mapping() {
    let words = segmentation(&["äöü", "straße", "ǆemal"]);
    assert_eq!(words.to_title_case(), "Äöü Straße Ǆemal");
    assert_eq!(words.to_camel_case(), "äöüStraßeǄemal");
}

#[test]
fn words_of_keeps_only_segments_with_a_letter_or_digit() {
    let segments: Vec<String> = ["_", "a", "--", "1", "#b", " "].iter().map(|s| s.to_string()).collect();
    assert_eq!(words_of(&segments), vec!["a".to_string(), "1".to_string(), "#b".to_string()]);
}

#[test]
fn capitalised_uppercases_the_first_character_only() {
    assert_eq!(capitalised("http"), "Http");
    assert_eq!(capitalised("hTTP"), "HTTP");
    assert_eq!(capitalised(""), "");
    assert_eq!(capitalised("ßa"), "SSa");
}

#[test]
fn joined_with_puts_the_separator_between_kept_words() {
    let segments: Vec<String> = ["some", "_", "http", "request"].iter().map(|s| s.to_string()).collect();
    assert_eq!(joined_with(&segments, "::"), "some::http::request");
    assert_eq!(joined_with(&Vec::new(), "::"), "");
}

#[test]
fn each_case_has_its_separator_and_capitals() {
    assert_eq!(Case::Snake.separator(), Some('_'));
    assert_eq!(Case::Kebab.separator(), Some('-'));
    assert_eq!(Case::HumanReadable.separator(), Some(' '));
    assert_eq!(Case::Title.separator(), Some(' '));
    assert_eq!(Case::Camel.separator(), None);
    assert_eq!(Case::Pascal.separator(), None);
    assert!(!Case::Camel.capitalises(0));
    assert!(Case::Camel.capitalises(1));
    assert!(Case::Pascal.capitalises(0));
    assert!(Case::Title.capitalises(3));
    assert!(!Case::Snake.capitalises(2));
    assert!(!Case::HumanReadable.capitalises(0));
}
