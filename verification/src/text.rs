//! Character facts from std that the conversions rest on.
use vstd::prelude::*;

verus! {

/// Whether `c` is alphabetic or numeric, as `char::is_alphanumeric` decides it.
pub uninterp spec fn alphanumeric(c: char) -> bool;

/// The lowercase mapping of `c`, as `char::to_lowercase` yields it.
pub uninterp spec fn lowercase_of(c: char) -> Seq<char>;

/// The uppercase mapping of `c`, as `char::to_uppercase` yields it.
pub uninterp spec fn uppercase_of(c: char) -> Seq<char>;

/// `char::is_alphanumeric`: whether `c` is alphabetic or numeric. The result is named,
/// since the Unicode tables behind it are not restated here.
#[verifier::external_body]
pub(crate) fn is_alphanumeric(c: char) -> (b: bool)
    ensures
        b == alphanumeric(c),
{
    c.is_alphanumeric()
}

/// How many characters `char::to_lowercase` yields for `c` (its iterator is an
/// `ExactSizeIterator`), and the `n`th of them if there is one. Its documentation promises
/// one or more characters.
#[verifier::external_body]
pub(crate) fn lowercase_nth(c: char, n: usize) -> (r: (usize, Option<char>))
    ensures
        r.0 == lowercase_of(c).len(),
        r.1 == (if n < lowercase_of(c).len() {
            Some(lowercase_of(c)[n as int])
        } else {
            None
        }),
        n == 0 ==> r.1 is Some,
{
    let mut mapping = c.to_lowercase();
    let count = mapping.len();
    (count, mapping.nth(n))
}

/// How many characters `char::to_uppercase` yields for `c` (its iterator is an
/// `ExactSizeIterator`), and the `n`th of them if there is one. Its documentation promises
/// one or more characters.
#[verifier::external_body]
pub(crate) fn uppercase_nth(c: char, n: usize) -> (r: (usize, Option<char>))
    ensures
        r.0 == uppercase_of(c).len(),
        r.1 == (if n < uppercase_of(c).len() {
            Some(uppercase_of(c)[n as int])
        } else {
            None
        }),
        n == 0 ==> r.1 is Some,
{
    let mut mapping = c.to_uppercase();
    let count = mapping.len();
    (count, mapping.nth(n))
}

/// `String::push`: appends one character.
#[verifier::external_body]
pub(crate) fn push_char(s: &mut String, c: char)
    ensures
        final(s)@ == old(s)@.push(c),
{
    s.push(c)
}

/// Whether any character of `w` is alphanumeric.
pub open spec fn has_alphanumeric(w: Seq<char>) -> bool {
    exists|i: int| 0 <= i < w.len() && #[trigger] alphanumeric(w[i])
}

/// Whether any character of `word` is alphanumeric.
pub fn any_alphanumeric(word: &str) -> (b: bool)
    ensures
        b == has_alphanumeric(word@),
{
    broadcast use vstd::string::axiom_spec_iter;

    for c in it: word.chars()
        invariant
            it.seq() == word@,
            forall|j: int| 0 <= j < it.index() ==> !alphanumeric(#[trigger] word@[j]),
    {
        if is_alphanumeric(c) {
            assert(word@[it.index() as int] == c);
            return true;
        }
    }
    false
}

} // verus!
