//! Case conversion over a word segmentation.
//!
//! The conversions do not look for one separator each: they start from the segments that
//! word-bound resolution made of the input (already lowercased), drop the segments that carry
//! no letter or digit, and write the words that are left in the asked-for case.
use vstd::prelude::*;
use std::borrow::Cow;

use crate::lending::{Case, capitalises_at, separator_of};
use crate::text::{any_alphanumeric, has_alphanumeric, push_char, uppercase_nth, uppercase_of};

verus! {

/// The characters of each string, in order.
pub open spec fn string_views(strings: Seq<String>) -> Seq<Seq<char>> {
    strings.map_values(|s: String| s@)
}

/// The segments that carry at least one alphanumeric character, in their order.
pub open spec fn kept_words(segments: Seq<Seq<char>>) -> Seq<Seq<char>>
    decreases segments.len(),
{
    if segments.len() == 0 {
        Seq::empty()
    } else if has_alphanumeric(segments.last()) {
        kept_words(segments.drop_last()).push(segments.last())
    } else {
        kept_words(segments.drop_last())
    }
}

/// `w` with its first character uppercased and the rest as it was.
pub open spec fn capitalised_word(w: Seq<char>) -> Seq<char> {
    if w.len() == 0 {
        Seq::empty()
    } else {
        uppercase_of(w[0]) + w.drop_first()
    }
}

/// The words with `separator` between each pair and nothing after the last.
pub open spec fn join_words(words: Seq<Seq<char>>, separator: Seq<char>) -> Seq<char>
    decreases words.len(),
{
    if words.len() == 0 {
        Seq::empty()
    } else if words.len() == 1 {
        words[0]
    } else {
        join_words(words.drop_last(), separator) + separator + words.last()
    }
}

/// What goes between two words in `case`, as characters.
pub open spec fn separator_chars(case: Case) -> Seq<char> {
    match separator_of(case) {
        Some(c) => seq![c],
        None => Seq::empty(),
    }
}

/// Each word capitalised where `case` asks for it at that position.
pub open spec fn styled_words(case: Case, words: Seq<Seq<char>>) -> Seq<Seq<char>> {
    Seq::new(
        words.len(),
        |i: int|
            if capitalises_at(case, i) {
                capitalised_word(words[i])
            } else {
                words[i]
            },
    )
}

/// `words` written in `case`.
pub open spec fn in_case(case: Case, words: Seq<Seq<char>>) -> Seq<char> {
    join_words(styled_words(case, words), separator_chars(case))
}

/// The conversion of a segmentation into `case`.
pub open spec fn converted(case: Case, segments: Seq<Seq<char>>) -> Seq<char> {
    in_case(case, kept_words(segments))
}

/// The segments that word-bound resolution made of an input, in order.
///
/// Resolution lowercases every segment; the conversions take them as they come.
pub struct Segmentation {
    segments: Vec<String>,
}

impl View for Segmentation {
    type V = Seq<Seq<char>>;

    closed spec fn view(&self) -> Seq<Seq<char>> {
        string_views(self.segments@)
    }
}

impl Segmentation {
    /// The segmentation made of `segments`.
    pub fn new(segments: Vec<String>) -> (s: Segmentation)
        ensures
            s@ == string_views(segments@),
    {
        Segmentation { segments }
    }

    /// The segments, in order.
    pub fn segments(&self) -> (r: &Vec<String>)
        ensures
            string_views(r@) == self@,
    {
        &self.segments
    }
}

/// Drops the segments that carry no alphanumeric character.
///
/// Case conversion normalises an identifier, so a leading underscore is a separator rather
/// than a word: keeping it would emit a doubled separator in the output. Punctuation that
/// belongs to a word, such as the `#` in `#rust`, stays attached and survives.
pub fn words_of(segments: &Vec<String>) -> (words: Vec<String>)
    ensures
        string_views(words@) == kept_words(string_views(segments@)),
{
    let ghost all = string_views(segments@);
    let mut words: Vec<String> = Vec::new();
    let mut i: usize = 0;
    while i < segments.len()
        invariant
            i <= segments@.len(),
            all == string_views(segments@),
            string_views(words@) == kept_words(all.take(i as int)),
        decreases segments@.len() - i,
    {
        proof {
            assert(all.take(i as int + 1).drop_last() =~= all.take(i as int));
            assert(all.take(i as int + 1).last() == segments@[i as int]@);
        }
        if any_alphanumeric(segments[i].as_str()) {
            let word = segments[i].clone();
            words.push(word);
            proof {
                assert(string_views(words@) =~= kept_words(all.take(i as int)).push(
                    segments@[i as int]@,
                ));
            }
        }
        i = i + 1;
    }
    assert(all.take(i as int) =~= all);
    words
}

/// Uppercases the first character and leaves the rest as the segmentation produced it.
pub fn capitalised(word: &str) -> (s: String)
    ensures
        s@ == capitalised_word(word@),
{
    broadcast use vstd::string::axiom_spec_iter;

    let mut out = String::new();
    let mut first = true;
    for c in it: word.chars()
        invariant
            it.seq() == word@,
            first == (it.index() == 0),
            it.index() == 0 ==> out@ == Seq::<char>::empty(),
            it.index() > 0 ==> out@ == uppercase_of(word@[0]) + word@.subrange(1, it.index() as int),
    {
        if first {
            let (count, _) = uppercase_nth(c, 0);
            for n in 0..count
                invariant
                    it.index() == 0,
                    count == uppercase_of(c).len(),
                    out@ == uppercase_of(c).take(n as int),
            {
                let (_, upper) = uppercase_nth(c, n);
                if let Some(u) = upper {
                    push_char(&mut out, u);
                }
                assert(out@ =~= uppercase_of(c).take(n as int + 1));
            }
            assert(uppercase_of(c).take(count as int) =~= uppercase_of(c));
            assert(word@.subrange(1, 1) =~= Seq::<char>::empty());
            assert(out@ =~= uppercase_of(word@[0]) + word@.subrange(1, 1));
            first = false;
        } else {
            let ghost before = out@;
            push_char(&mut out, c);
            assert(word@.subrange(1, it.index() + 1) =~= word@.subrange(1, it.index() as int).push(c));
        }
    }
    proof {
        if word@.len() > 0 {
            assert(word@.subrange(1, word@.len() as int) =~= word@.drop_first());
        }
    }
    out
}

/// Appending one more word to a join puts the separator before it, unless it is the first.
pub proof fn lemma_join_push(words: Seq<Seq<char>>, separator: Seq<char>, w: Seq<char>)
    ensures
        join_words(words.push(w), separator) == (if words.len() == 0 {
            w
        } else {
            join_words(words, separator) + separator + w
        }),
{
    assert(words.push(w).drop_last() =~= words);
}

/// The strings with `separator` between each pair, as `[String]::join` writes them.
pub fn join_strings(words: &Vec<String>, separator: &str) -> (s: String)
    ensures
        s@ == join_words(string_views(words@), separator@),
{
    let ghost all = string_views(words@);
    let mut out = String::new();
    let mut i: usize = 0;
    while i < words.len()
        invariant
            i <= words@.len(),
            all == string_views(words@),
            out@ == join_words(all.take(i as int), separator@),
        decreases words@.len() - i,
    {
        proof {
            lemma_join_push(all.take(i as int), separator@, all[i as int]);
            assert(all.take(i as int).push(all[i as int]) =~= all.take(i as int + 1));
        }
        if i > 0 {
            push_str(&mut out, separator);
        }
        push_str(&mut out, words[i].as_str());
        i = i + 1;
    }
    assert(all.take(i as int) =~= all);
    out
}

/// Appends `tail` to `s`.
fn push_str(s: &mut String, tail: &str)
    ensures
        final(s)@ == old(s)@ + tail@,
{
    vstd::string::StringExecFns::append(s, tail);
}

/// The words of `segments` with `separator` between each pair.
pub fn joined_with(segments: &Vec<String>, separator: &str) -> (s: String)
    ensures
        s@ == join_words(kept_words(string_views(segments@)), separator@),
{
    let words = words_of(segments);
    join_strings(&words, separator)
}

/// In the cases that capitalise nothing, the words are written as they are.
proof fn lemma_uncapitalised(case: Case, words: Seq<Seq<char>>)
    requires
        case is Snake || case is Kebab || case is HumanReadable,
    ensures
        styled_words(case, words) == words,
{
    assert(styled_words(case, words) =~= words);
}

/// The conversions into each of the six cases.
pub trait CaseConversions<'a, TOut> {
    /// `this_is_an_example`
    fn to_snake_case(&self) -> TOut;

    /// `thisIsAnExample`
    fn to_camel_case(&self) -> TOut;

    /// `ThisIsAnExample`
    fn to_pascal_case(&self) -> TOut;

    /// `this-is-an-example`
    fn to_kebab_case(&self) -> TOut;

    /// `this is an example`
    fn to_human_readable(&self) -> TOut;

    /// `This Is An Example`
    fn to_title_case(&self) -> TOut;
}

impl<'a> CaseConversions<'a, Cow<'a, str>> for Segmentation {
    fn to_snake_case(&self) -> (s: Cow<'a, str>)
        ensures
            s@ == converted(Case::Snake, self@),
            s is Owned,
    {
        let out = joined_with(&self.segments, "_");
        proof {
            reveal_strlit("_");
            assert("_"@ =~= separator_chars(Case::Snake));
            lemma_uncapitalised(Case::Snake, kept_words(self@));
        }
        Cow::Owned(out)
    }

    fn to_camel_case(&self) -> (s: Cow<'a, str>)
        ensures
            s@ == converted(Case::Camel, self@),
            s is Owned,
    {
        let words = words_of(&self.segments);
        let ghost all = string_views(words@);
        let ghost styled = styled_words(Case::Camel, all);
        let mut out = String::new();
        let mut idx: usize = 0;
        while idx < words.len()
            invariant
                idx <= words@.len(),
                all == string_views(words@),
                styled == styled_words(Case::Camel, all),
                out@ == join_words(styled.take(idx as int), Seq::empty()),
            decreases words@.len() - idx,
        {
            proof {
                lemma_join_push(styled.take(idx as int), Seq::empty(), styled[idx as int]);
                assert(styled.take(idx as int).push(styled[idx as int]) =~= styled.take(
                    idx as int + 1,
                ));
            }
            // the leading word stays lowercase, which is the only thing separating this
            // from pascal
            if idx == 0 {
                push_str(&mut out, words[idx].as_str());
            } else {
                let capital = capitalised(words[idx].as_str());
                push_str(&mut out, capital.as_str());
            }
            assert(out@ =~= join_words(styled.take(idx as int + 1), Seq::empty()));
            idx = idx + 1;
        }
        assert(styled.take(idx as int) =~= styled);
        Cow::Owned(out)
    }

    fn to_pascal_case(&self) -> (s: Cow<'a, str>)
        ensures
            s@ == converted(Case::Pascal, self@),
            s is Owned,
    {
        let words = words_of(&self.segments);
        let ghost all = string_views(words@);
        let ghost styled = styled_words(Case::Pascal, all);
        let mut out = String::new();
        let mut idx: usize = 0;
        while idx < words.len()
            invariant
                idx <= words@.len(),
                all == string_views(words@),
                styled == styled_words(Case::Pascal, all),
                out@ == join_words(styled.take(idx as int), Seq::empty()),
            decreases words@.len() - idx,
        {
            proof {
                lemma_join_push(styled.take(idx as int), Seq::empty(), styled[idx as int]);
                assert(styled.take(idx as int).push(styled[idx as int]) =~= styled.take(
                    idx as int + 1,
                ));
            }
            let capital = capitalised(words[idx].as_str());
            push_str(&mut out, capital.as_str());
            assert(out@ =~= join_words(styled.take(idx as int + 1), Seq::empty()));
            idx = idx + 1;
        }
        assert(styled.take(idx as int) =~= styled);
        Cow::Owned(out)
    }

    fn to_kebab_case(&self) -> (s: Cow<'a, str>)
        ensures
            s@ == converted(Case::Kebab, self@),
            s is Owned,
    {
        let out = joined_with(&self.segments, "-");
        proof {
            reveal_strlit("-");
            assert("-"@ =~= separator_chars(Case::Kebab));
            lemma_uncapitalised(Case::Kebab, kept_words(self@));
        }
        Cow::Owned(out)
    }

    fn to_human_readable(&self) -> (s: Cow<'a, str>)
        ensures
            s@ == converted(Case::HumanReadable, self@),
            s is Owned,
    {
        let out = joined_with(&self.segments, " ");
        proof {
            reveal_strlit(" ");
            assert(" "@ =~= separator_chars(Case::HumanReadable));
            lemma_uncapitalised(Case::HumanReadable, kept_words(self@));
        }
        Cow::Owned(out)
    }

    fn to_title_case(&self) -> (s: Cow<'a, str>)
        ensures
            s@ == converted(Case::Title, self@),
            s is Owned,
    {
        let words = words_of(&self.segments);
        let ghost all = string_views(words@);
        let mut capitals: Vec<String> = Vec::new();
        let mut idx: usize = 0;
        while idx < words.len()
            invariant
                idx <= words@.len(),
                all == string_views(words@),
                string_views(capitals@) == styled_words(Case::Title, all).take(idx as int),
            decreases words@.len() - idx,
        {
            let capital = capitalised(words[idx].as_str());
            assert(all[idx as int] == words@[idx as int]@);
            let ghost prev = capitals@;
            capitals.push(capital);
            assert(string_views(capitals@) =~= string_views(prev).push(capital@));
            assert(string_views(capitals@) =~= styled_words(Case::Title, all).take(
                idx as int + 1,
            ));
            idx = idx + 1;
        }
        assert(styled_words(Case::Title, all).take(idx as int) =~= styled_words(Case::Title, all));
        let out = join_strings(&capitals, " ");
        proof {
            reveal_strlit(" ");
            assert(" "@ =~= separator_chars(Case::Title));
        }
        Cow::Owned(out)
    }
}

/// Keeping words distributes over putting segment lists together.
pub proof fn lemma_kept_words_concat(a: Seq<Seq<char>>, b: Seq<Seq<char>>)
    ensures
        kept_words(a + b) == kept_words(a) + kept_words(b),
    decreases b.len(),
{
    if b.len() == 0 {
        assert(a + b =~= a);
        assert(kept_words(a) + kept_words(b) =~= kept_words(a));
    } else {
        assert((a + b).drop_last() =~= a + b.drop_last());
        assert((a + b).last() == b.last());
        lemma_kept_words_concat(a, b.drop_last());
        if has_alphanumeric(b.last()) {
            assert(kept_words(a + b) =~= kept_words(a) + kept_words(b));
        }
    }
}

/// A segment that carries no letter or digit is dropped: putting one anywhere among the
/// segments changes no conversion.
pub proof fn law_segments_without_alphanumerics_are_dropped(
    case: Case,
    segments: Seq<Seq<char>>,
    at: int,
    separator_only: Seq<char>,
)
    requires
        0 <= at <= segments.len(),
        !has_alphanumeric(separator_only),
    ensures
        converted(case, segments.insert(at, separator_only)) == converted(case, segments),
{
    let front = segments.take(at);
    let back = segments.skip(at);
    assert(segments.insert(at, separator_only) =~= front + seq![separator_only] + back);
    assert(segments =~= front + back);
    lemma_kept_words_concat(front + seq![separator_only], back);
    lemma_kept_words_concat(front, seq![separator_only]);
    lemma_kept_words_concat(front, back);
    assert(seq![separator_only].drop_last() =~= Seq::<Seq<char>>::empty());
    assert(seq![separator_only].last() == separator_only);
    assert(kept_words(Seq::<Seq<char>>::empty()) =~= Seq::<Seq<char>>::empty());
    assert(kept_words(seq![separator_only]) =~= Seq::<Seq<char>>::empty());
    assert(kept_words(front) + kept_words(seq![separator_only]) =~= kept_words(front));
}

/// A segment that carries a letter or digit is kept, in its place: putting one anywhere
/// among the segments puts it at the same place among the kept words, between the words kept
/// before it and after it.
pub proof fn law_a_segment_with_a_letter_or_digit_is_kept(
    segments: Seq<Seq<char>>,
    at: int,
    word: Seq<char>,
)
    requires
        0 <= at <= segments.len(),
        has_alphanumeric(word),
    ensures
        kept_words(segments.insert(at, word)) == kept_words(segments.take(at)) + seq![word]
            + kept_words(segments.skip(at)),
{
    let front = segments.take(at);
    let back = segments.skip(at);
    assert(segments.insert(at, word) =~= front + seq![word] + back);
    lemma_kept_words_concat(front + seq![word], back);
    lemma_kept_words_concat(front, seq![word]);
    assert(seq![word].drop_last() =~= Seq::<Seq<char>>::empty());
    assert(seq![word].last() == word);
    assert(kept_words(Seq::<Seq<char>>::empty()) =~= Seq::<Seq<char>>::empty());
    assert(kept_words(seq![word]) =~= seq![word]);
}

/// Where every segment carries a letter or digit, none is dropped: the conversion writes
/// every segment, in order.
pub proof fn law_segments_with_letters_or_digits_are_all_written(case: Case, segments: Seq<Seq<char>>)
    requires
        forall|i: int| 0 <= i < segments.len() ==> has_alphanumeric(#[trigger] segments[i]),
    ensures
        kept_words(segments) == segments,
        converted(case, segments) == in_case(case, segments),
    decreases segments.len(),
{
    if segments.len() > 0 {
        law_segments_with_letters_or_digits_are_all_written(case, segments.drop_last());
        assert(has_alphanumeric(segments[segments.len() - 1]));
        assert(segments.drop_last().push(segments.last()) =~= segments);
    } else {
        assert(kept_words(segments) =~= segments);
    }
}

/// Every word a conversion writes carries a letter or digit.
pub proof fn law_kept_words_carry_alphanumerics(segments: Seq<Seq<char>>)
    ensures
        forall|i: int|
            0 <= i < kept_words(segments).len() ==> has_alphanumeric(
                #[trigger] kept_words(segments)[i],
            ),
    decreases segments.len(),
{
    if segments.len() > 0 {
        law_kept_words_carry_alphanumerics(segments.drop_last());
        let prev = kept_words(segments.drop_last());
        assert forall|i: int| 0 <= i < kept_words(segments).len() implies has_alphanumeric(
            #[trigger] kept_words(segments)[i],
        ) by {
            if i < prev.len() {
                assert(kept_words(segments)[i] == prev[i]);
            }
        }
    }
}

/// Empty input stays empty, in every case.
pub proof fn law_empty_input_stays_empty(case: Case)
    ensures
        converted(case, Seq::empty()) == Seq::<char>::empty(),
{
    assert(styled_words(case, Seq::empty()) =~= Seq::<Seq<char>>::empty());
}

/// Joining a word in front of others puts one separator after it, if there are others.
pub proof fn lemma_join_front(w: Seq<char>, rest: Seq<Seq<char>>, separator: Seq<char>)
    ensures
        join_words(seq![w] + rest, separator) == (if rest.len() == 0 {
            w
        } else {
            w + separator + join_words(rest, separator)
        }),
    decreases rest.len(),
{
    if rest.len() == 0 {
        assert(seq![w] + rest =~= seq![w]);
    } else {
        assert((seq![w] + rest).drop_last() =~= seq![w] + rest.drop_last());
        lemma_join_front(w, rest.drop_last(), separator);
        if rest.len() > 1 {
            assert(join_words(rest, separator) == join_words(rest.drop_last(), separator)
                + separator + rest.last());
            assert(join_words(seq![w] + rest, separator) =~= w + separator + join_words(
                rest,
                separator,
            ));
        } else {
            assert(rest.drop_last() =~= Seq::<Seq<char>>::empty());
            assert(join_words(seq![w] + rest, separator) =~= w + separator + join_words(
                rest,
                separator,
            ));
        }
    }
}

/// Camel case and pascal case differ only in the leading word, which camel case leaves in
/// lower case: both continue with the remaining words capitalised.
pub proof fn law_camel_differs_from_pascal_only_in_the_first_word(words: Seq<Seq<char>>)
    requires
        words.len() > 0,
    ensures
        in_case(Case::Pascal, words) == capitalised_word(words[0]) + in_case(
            Case::Pascal,
            words.drop_first(),
        ),
        in_case(Case::Camel, words) == words[0] + in_case(Case::Pascal, words.drop_first()),
{
    let rest = words.drop_first();
    let pascal_rest = styled_words(Case::Pascal, rest);
    assert(styled_words(Case::Pascal, words) =~= seq![capitalised_word(words[0])] + pascal_rest);
    assert(styled_words(Case::Camel, words) =~= seq![words[0]] + pascal_rest);
    lemma_join_front(capitalised_word(words[0]), pascal_rest, Seq::empty());
    lemma_join_front(words[0], pascal_rest, Seq::empty());
    if rest.len() == 0 {
        assert(pascal_rest =~= Seq::<Seq<char>>::empty());
        assert(in_case(Case::Pascal, rest) =~= Seq::<char>::empty());
    }
}

/// Title case is the human-readable form with every word capitalised.
pub proof fn law_title_is_capitalised_human_readable(words: Seq<Seq<char>>)
    ensures
        in_case(Case::Title, words) == in_case(
            Case::HumanReadable,
            words.map_values(|w: Seq<char>| capitalised_word(w)),
        ),
{
    assert(styled_words(Case::Title, words) =~= styled_words(
        Case::HumanReadable,
        words.map_values(|w: Seq<char>| capitalised_word(w)),
    ));
}

} // verus!
