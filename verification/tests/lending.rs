//! The case sink, driven the way a word walk drives it: each raw word's characters pushed in
//! turn, then the word committed.

use str_extensions::cases::{CaseConversions, Segmentation};
use str_extensions::lending::{write_steps, Case, CaseSink, Exhausted, SinkStep};

const ALL_CASES: [Case; 6] = [
    Case::Snake,
    Case::Camel,
    Case::Pascal,
    Case::Kebab,
    Case::HumanReadable,
    Case::Title,
];

fn cased(c: char) -> bool {
    c.is_lowercase() || c.is_uppercase()
}

/// Pushes every raw word into a sink over `out` and hands back what it wrote.
fn drive(words: &[&str], case: Case, out: &mut [u8]) -> Result<String, Exhausted> {
    let mut sink = CaseSink::new(case);
    for word in words {
        for c in word.chars() {
            let held_is_cased = sink.held().is_some_and(cased);
            sink.push_char(out, c, held_is_cased)?;
        }
        sink.commit(out)?;
    }
    Ok(sink.written(out).to_string())
}

fn via_lending(words: &[&str], case: Case) -> String {
    let mut out = [0u8; 512];
    drive(words, case, &mut out).expect("512 bytes is enough here")
}

fn via_alloc(words: &[&str], case: Case) -> String {
    let segments = Segmentation::new(words.iter().map(|w| w.to_lowercase()).collect());
    let out = match case {
        Case::Snake => segments.to_snake_case(),
        Case::Camel => segments.to_camel_case(),
        Case::Pascal => segments.to_pascal_case(),
        Case::Kebab => segments.to_kebab_case(),
        Case::HumanReadable => segments.to_human_readable(),
        Case::Title => segments.to_title_case(),
    };
    out.into_owned()
}

const SOME_HTTP_REQUEST: &[&str] = &["some", "HTTP", "Request"];

#[test]
fn every_case_over_one_input() {
    for (case, expected) in [
        (Case::Snake, "some_http_request"),
        (Case::Camel, "someHttpRequest"),
        (Case::Pascal, "SomeHttpRequest"),
        (Case::Kebab, "some-http-request"),
        (Case::HumanReadable, "some http request"),
        (Case::Title, "Some Http Request"),
    ] {
        assert_eq!(via_lending(SOME_HTTP_REQUEST, case), expected);
    }
}

#[test]
fn a_dropped_segment_takes_its_separator_with_it() {
    assert_eq!(via_lending(&["_", "Prepended", "Underscore"], Case::Snake), "prepended_underscore");
    assert_eq!(via_lending(&["__", "both", "__"], Case::Snake), "both");
    assert_eq!(via_lending(&["a", "__", "b"], Case::Kebab), "a-b");
    assert_eq!(via_lending(&["some", "HTTP", "Request", "_", "id"], Case::Title), "Some Http Request Id");
}

#[test]
fn segments_with_no_words_write_nothing() {
    for words in [&["..."][..], &["   "], &["_"], &["-"], &["_", "..."]] {
        for case in ALL_CASES {
            assert_eq!(via_lending(words, case), "", "{words:?} at {case:?}");
        }
    }
}

#[test]
fn a_lend_too_small_refuses_with_both_numbers() {
    let mut out = [0u8; 4];
    let refused = drive(SOME_HTTP_REQUEST, Case::Snake, &mut out).unwrap_err();
    assert_eq!(refused.had, 4, "it reports what it was given");
    assert_eq!(refused.wanted, 5, "the separator after the first word did not fit");
    assert!(refused.wanted <= "some_http_request".len());
}

#[test]
fn a_lend_of_exactly_the_right_size_is_enough() {
    let expected = "some_http_request";
    let mut out = vec![0u8; expected.len()];
    assert_eq!(drive(SOME_HTTP_REQUEST, Case::Snake, &mut out).unwrap(), expected);

    let mut one_short = vec![0u8; expected.len() - 1];
    let refused = drive(SOME_HTTP_REQUEST, Case::Snake, &mut one_short).unwrap_err();
    assert_eq!(refused, Exhausted { wanted: expected.len(), had: expected.len() - 1 });
}

#[test]
fn a_multibyte_character_that_does_not_fit_is_refused_whole() {
    let mut out = [0u8; 3];
    let refused = drive(&["ab", "é"], Case::Snake, &mut out).unwrap_err();
    assert_eq!(refused, Exhausted { wanted: 5, had: 3 });
}

#[test]
fn a_capital_sigma_takes_its_final_form_at_the_end_of_a_cased_word() {
    assert_eq!(via_lending(&["ΟΔΟΣ"], Case::Snake), "\u{3bf}\u{3b4}\u{3bf}\u{3c2}");
    assert_eq!(via_lending(&["ΟΔΟΣ"], Case::Title), "\u{39f}\u{3b4}\u{3bf}\u{3c2}");
    assert_eq!(via_lending(&["ΑΣ", " ", "ΣΑΣ"], Case::HumanReadable), "\u{3b1}\u{3c2} \u{3c3}\u{3b1}\u{3c2}");
    assert_eq!(via_lending(&["Σ"], Case::Snake), "\u{3c3}");
}

#[test]
fn capitalising_lowercases_first() {
    // `İ` lowercases to `i` and a combining dot, and the capital is taken of the `i`.
    assert_eq!(via_lending(&["İstanbul"], Case::Pascal), "I\u{307}stanbul");
    assert_eq!(via_lending(&["ẞTRASSE"], Case::Title), "SStrasse");
}

#[test]
fn both_sides_agree_on_every_case_and_every_input() {
    let inputs: &[&[&str]] = &[
        &["some", "HTTP", "Request", "_", "id"],
        &["snake", "_", "case", "_", "name"],
        &["XML", "Http", "Request"],
        &["IO", "Error"],
        &["a"],
        &[],
        &["_", "Prepended", "Underscore"],
        &["trailing", "_"],
        &["a", "...", "b"],
        &["#rust"],
        &["c++", "Style"],
        &["digits", "123", "mixed", "456"],
        &["ÄÖÜ", "_", "äöü"],
        &["naïve", "Résumé"],
        &["Здравствуй", "Мир"],
        &["ΟΔΟΣ"],
        &["ΟΔΟΣ", "_", "ΣΤΟ"],
        &["ΑΣ", " ", "ΣΑΣ"],
        &["日本語テキスト"],
    ];
    for words in inputs {
        for case in ALL_CASES {
            assert_eq!(via_lending(words, case), via_alloc(words, case), "{words:?} at {case:?}");
        }
    }
}

#[test]
fn the_sink_reports_what_is_pending() {
    let mut out = [0u8; 16];
    let mut sink = CaseSink::new(Case::Snake);
    assert!(sink.pending_is_empty());
    assert_eq!(sink.held(), None);
    sink.push_char(&mut out, 'a', false).unwrap();
    assert!(!sink.pending_is_empty());
    assert!(sink.pending_ends_with('a'));
    assert!(!sink.pending_ends_with('b'));
    assert_eq!(sink.held(), Some('a'));
    sink.commit(&mut out).unwrap();
    assert!(sink.pending_is_empty());
    assert_eq!(sink.written(&out), "a");
}

#[test]
fn a_dropped_word_needs_room_while_it_is_written() {
    // The separator and the word go in before the word is known to carry no letter or digit,
    // so the lend must hold them until they are taken back.
    let mut two = [0u8; 2];
    assert_eq!(drive(&["a", "____"], Case::Snake, &mut two).unwrap_err(), Exhausted { wanted: 3, had: 2 });
    let mut four = [0u8; 4];
    assert_eq!(drive(&["a", "____"], Case::Snake, &mut four).unwrap_err(), Exhausted { wanted: 5, had: 4 });
    let mut five = [0u8; 5];
    assert_eq!(drive(&["a", "____"], Case::Snake, &mut five).unwrap_err(), Exhausted { wanted: 6, had: 5 });
    let mut six = [0u8; 6];
    assert_eq!(drive(&["a", "____"], Case::Snake, &mut six).unwrap(), "a");
}

fn steps_of(words: &[&str]) -> Vec<SinkStep> {
    let mut steps = Vec::new();
    for word in words {
        let mut held: Option<char> = None;
        for c in word.chars() {
            steps.push(SinkStep::Push(c, held.is_some_and(cased)));
            held = Some(c);
        }
        steps.push(SinkStep::Commit);
    }
    steps
}

#[test]
fn a_walk_succeeds_exactly_when_the_lend_holds_its_largest_step() {
    let steps = steps_of(&["a", "__"]);
    let mut three = [0u8; 3];
    assert_eq!(write_steps(Case::Snake, &steps, &mut three).err().unwrap(), Exhausted { wanted: 4, had: 3 });
    let mut four = [0u8; 4];
    let sink = write_steps(Case::Snake, &steps, &mut four).unwrap();
    assert_eq!(sink.written(&four), "a");
}

#[test]
fn retrying_with_at_least_wanted_converges() {
    let steps = steps_of(&["some", "HTTP", "Request", "_", "id"]);
    let mut size = 1;
    let mut tries = 0;
    loop {
        let mut out = vec![0u8; size];
        match write_steps(Case::Title, &steps, &mut out) {
            Ok(sink) => {
                assert_eq!(sink.written(&out), "Some Http Request Id");
                break;
            },
            Err(e) => {
                assert_eq!(e.had, size);
                assert!(e.wanted > e.had);
                size = e.wanted.max(2 * size);
            },
        }
        tries += 1;
        assert!(tries < 10);
    }
}

#[test]
fn a_word_without_letters_or_digits_leaves_the_text_as_it_was() {
    let mut out = [0u8; 32];
    let before = write_steps(Case::Kebab, &steps_of(&["a"]), &mut out).unwrap();
    assert_eq!(before.written(&out), "a");
    let after = write_steps(Case::Kebab, &steps_of(&["a", "..."]), &mut out).unwrap();
    assert_eq!(after.written(&out), "a");
    let kept = write_steps(Case::Kebab, &steps_of(&["a", ".b."]), &mut out).unwrap();
    assert_eq!(kept.written(&out), "a-.b.");
}
