//! Putting strings together.
//!
//! `append` is the concatenation; `join` puts a separator between each pair of pieces and
//! never after the last one.
use vstd::prelude::*;
use vstd::utf8::encode_utf8;

use crate::lending::lemma_encode_concat;

verus! {

/// The characters of each piece, in order.
pub open spec fn views_of(pieces: Seq<&str>) -> Seq<Seq<char>> {
    pieces.map_values(|p: &str| p@)
}

/// Every piece, one after another.
pub open spec fn concat_all(pieces: Seq<Seq<char>>) -> Seq<char>
    decreases pieces.len(),
{
    if pieces.len() == 0 {
        Seq::empty()
    } else {
        concat_all(pieces.drop_last()) + pieces.last()
    }
}

/// Each piece preceded by `separator`, one after another.
pub open spec fn separated_tail(pieces: Seq<Seq<char>>, separator: Seq<char>) -> Seq<char>
    decreases pieces.len(),
{
    if pieces.len() == 0 {
        Seq::empty()
    } else {
        separated_tail(pieces.drop_last(), separator) + separator + pieces.last()
    }
}

/// Sum of the byte lengths of the pieces.
pub open spec fn byte_total(pieces: Seq<&str>) -> int
    decreases pieces.len(),
{
    if pieces.len() == 0 {
        0
    } else {
        byte_total(pieces.drop_last()) + pieces.last().len()
    }
}

/// `s` followed by `other`.
pub open spec fn appended(s: Seq<char>, other: Seq<char>) -> Seq<char> {
    s + other
}

/// `other` followed by `s`.
pub open spec fn prepended(s: Seq<char>, other: Seq<char>) -> Seq<char> {
    other + s
}

/// `s` followed by each of `others`.
pub open spec fn concatenated(s: Seq<char>, others: Seq<Seq<char>>) -> Seq<char> {
    s + concat_all(others)
}

/// `s` and each of `others`, with `separator` between each pair.
pub open spec fn joined(s: Seq<char>, others: Seq<Seq<char>>, separator: Seq<char>) -> Seq<char> {
    s + separated_tail(others, separator)
}

/// An empty string with room for `capacity` bytes.
#[verifier::external_body]
fn string_with_capacity(capacity: usize) -> (s: String)
    ensures
        s@ == Seq::<char>::empty(),
{
    String::with_capacity(capacity)
}

/// Appends `tail` to `s`.
fn push_str(s: &mut String, tail: &str)
    ensures
        final(s)@ == old(s)@ + tail@,
{
    vstd::string::StringExecFns::append(s, tail);
}

/// The total byte length of `others`, saturating at `usize::MAX`.
fn sum_of_lengths(others: &[&str]) -> (total: usize)
    ensures
        byte_total(others@) <= usize::MAX ==> total == byte_total(others@),
{
    let mut total: usize = 0;
    let mut i: usize = 0;
    while i < others.len()
        invariant
            i <= others@.len(),
            byte_total(others@.take(i as int)) <= usize::MAX ==> total == byte_total(
                others@.take(i as int),
            ),
            byte_total(others@.take(i as int)) >= 0,
        decreases others@.len() - i,
    {
        proof {
            assert(others@.take(i as int + 1).drop_last() =~= others@.take(i as int));
            lemma_byte_total_nonneg(others@.take(i as int + 1));
        }
        total = total.saturating_add(others[i].len());
        i = i + 1;
    }
    assert(others@.take(i as int) =~= others@);
    total
}

/// Byte totals are never negative.
proof fn lemma_byte_total_nonneg(pieces: Seq<&str>)
    ensures
        byte_total(pieces) >= 0,
    decreases pieces.len(),
{
    if pieces.len() > 0 {
        lemma_byte_total_nonneg(pieces.drop_last());
    }
}

/// Putting strings together into a new `String`.
pub trait StringBuilding {
    /// This string followed by `other`.
    fn append(&self, other: &str) -> String;

    /// `other` followed by this string.
    fn prepend(&self, other: &str) -> String;

    /// This string followed by each of `others`, in order.
    fn concat(&self, others: &[&str]) -> String;

    /// This string and each of `others`, with `separator` between each pair.
    ///
    /// The separator goes between elements and not after the last.
    fn join(&self, others: &[&str], separator: &str) -> String;
}

impl StringBuilding for str {
    fn append(&self, other: &str) -> (s: String)
        ensures
            s@ == appended(self@, other@),
    {
        let mut s = string_with_capacity(self.len().saturating_add(other.len()));
        push_str(&mut s, self);
        push_str(&mut s, other);
        s
    }

    fn prepend(&self, other: &str) -> (s: String)
        ensures
            s@ == prepended(self@, other@),
    {
        let mut s = string_with_capacity(self.len().saturating_add(other.len()));
        push_str(&mut s, other);
        push_str(&mut s, self);
        s
    }

    fn concat(&self, others: &[&str]) -> (s: String)
        ensures
            s@ == concatenated(self@, views_of(others@)),
    {
        let rest = sum_of_lengths(others);
        let mut s = string_with_capacity(self.len().saturating_add(rest));
        push_str(&mut s, self);
        let ghost pieces = views_of(others@);
        let mut i: usize = 0;
        while i < others.len()
            invariant
                i <= others@.len(),
                pieces == views_of(others@),
                s@ == self@ + concat_all(pieces.take(i as int)),
            decreases others@.len() - i,
        {
            push_str(&mut s, others[i]);
            proof {
                assert(pieces.take(i as int + 1).drop_last() =~= pieces.take(i as int));
            }
            i = i + 1;
        }
        assert(pieces.take(i as int) =~= pieces);
        s
    }

    fn join(&self, others: &[&str], separator: &str) -> (s: String)
        ensures
            s@ == joined(self@, views_of(others@), separator@),
    {
        let separators = match others.len().checked_mul(separator.len()) {
            Some(n) => n,
            None => usize::MAX,
        };
        let rest = sum_of_lengths(others);
        let total = self.len().saturating_add(rest).saturating_add(separators);
        let mut s = string_with_capacity(total);
        push_str(&mut s, self);
        let ghost pieces = views_of(others@);
        let mut i: usize = 0;
        while i < others.len()
            invariant
                i <= others@.len(),
                pieces == views_of(others@),
                s@ == self@ + separated_tail(pieces.take(i as int), separator@),
            decreases others@.len() - i,
        {
            push_str(&mut s, separator);
            push_str(&mut s, others[i]);
            proof {
                assert(pieces.take(i as int + 1).drop_last() =~= pieces.take(i as int));
            }
            i = i + 1;
        }
        assert(pieces.take(i as int) =~= pieces);
        s
    }
}

/// `s` with each of `others` appended in turn, as repeated calls of `append` build it.
pub open spec fn appended_in_turn(s: Seq<char>, others: Seq<Seq<char>>) -> Seq<char>
    decreases others.len(),
{
    if others.len() == 0 {
        s
    } else {
        appended(appended_in_turn(s, others.drop_last()), others.last())
    }
}

/// Sum of the lengths of the pieces.
pub open spec fn length_total(pieces: Seq<Seq<char>>) -> int
    decreases pieces.len(),
{
    if pieces.len() == 0 {
        0
    } else {
        length_total(pieces.drop_last()) + pieces.last().len()
    }
}

/// `prepend` is the mirror of `append`: `b.prepend(a)` is `a.append(b)`.
pub proof fn law_prepend_mirrors_append(a: Seq<char>, b: Seq<char>)
    ensures
        prepended(b, a) == appended(a, b),
{
}

/// `concat` gives what appending each piece in turn gives.
pub proof fn law_concat_agrees_with_repeated_appends(s: Seq<char>, others: Seq<Seq<char>>)
    ensures
        concatenated(s, others) == appended_in_turn(s, others),
    decreases others.len(),
{
    if others.len() > 0 {
        law_concat_agrees_with_repeated_appends(s, others.drop_last());
        assert(concatenated(s, others) =~= appended(
            concatenated(s, others.drop_last()),
            others.last(),
        ));
    } else {
        assert(concatenated(s, others) =~= s);
    }
}

/// The empty cases are the identity: appending or prepending nothing, and concatenating or
/// joining no pieces, give the string itself.
pub proof fn law_empty_cases_are_identity(s: Seq<char>, separator: Seq<char>)
    ensures
        appended(s, Seq::empty()) == s,
        appended(Seq::empty(), s) == s,
        prepended(s, Seq::empty()) == s,
        concatenated(s, Seq::empty()) == s,
        joined(s, Seq::empty(), separator) == s,
{
    assert(appended(s, Seq::empty()) =~= s);
    assert(appended(Seq::empty(), s) =~= s);
    assert(prepended(s, Seq::empty()) =~= s);
    assert(concatenated(s, Seq::empty()) =~= s);
    assert(joined(s, Seq::empty(), separator) =~= s);
}

/// With an empty separator, `join` is `concat`.
pub proof fn law_join_with_empty_separator_is_concat(s: Seq<char>, others: Seq<Seq<char>>)
    ensures
        joined(s, others, Seq::empty()) == concatenated(s, others),
    decreases others.len(),
{
    if others.len() > 0 {
        law_join_with_empty_separator_is_concat(s, others.drop_last());
        assert(joined(s, others, Seq::empty()) =~= joined(s, others.drop_last(), Seq::empty())
            + others.last());
        assert(concatenated(s, others) =~= concatenated(s, others.drop_last()) + others.last());
    } else {
        assert(joined(s, others, Seq::empty()) =~= concatenated(s, others));
    }
}

/// `join` ends with the last piece: nothing trails the last element.
pub proof fn law_join_ends_with_the_last_piece(
    s: Seq<char>,
    others: Seq<Seq<char>>,
    separator: Seq<char>,
)
    requires
        others.len() > 0,
    ensures
        joined(s, others, separator) == joined(s, others.drop_last(), separator) + separator
            + others.last(),
{
    assert(joined(s, others, separator) =~= joined(s, others.drop_last(), separator) + separator
        + others.last());
}

/// `join` holds every piece and one separator for each gap: its length is the string's, the
/// pieces', and the separator's once per piece joined on.
pub proof fn law_join_length(s: Seq<char>, others: Seq<Seq<char>>, separator: Seq<char>)
    ensures
        joined(s, others, separator).len() == s.len() + length_total(others) + others.len()
            * separator.len(),
    decreases others.len(),
{
    if others.len() > 0 {
        law_join_length(s, others.drop_last(), separator);
        law_join_ends_with_the_last_piece(s, others, separator);
        assert(others.len() * separator.len() == (others.len() - 1) * separator.len()
            + separator.len()) by (nonlinear_arith);
    }
}

/// Sum of the UTF-8 lengths of the pieces.
pub open spec fn utf8_length_total(pieces: Seq<Seq<char>>) -> int
    decreases pieces.len(),
{
    if pieces.len() == 0 {
        0
    } else {
        utf8_length_total(pieces.drop_last()) + encode_utf8(pieces.last()).len()
    }
}

/// The same count in bytes: `join`'s UTF-8 length is the string's, the pieces', and the
/// separator's once per piece joined on, which is the capacity it reserves.
pub proof fn law_join_byte_length(s: Seq<char>, others: Seq<Seq<char>>, separator: Seq<char>)
    ensures
        encode_utf8(joined(s, others, separator)).len() == encode_utf8(s).len()
            + utf8_length_total(others) + others.len() * encode_utf8(separator).len(),
    decreases others.len(),
{
    if others.len() > 0 {
        law_join_byte_length(s, others.drop_last(), separator);
        law_join_ends_with_the_last_piece(s, others, separator);
        let front = joined(s, others.drop_last(), separator);
        lemma_encode_concat(front, separator);
        lemma_encode_concat(front + separator, others.last());
        assert(others.len() * encode_utf8(separator).len() == (others.len() - 1) * encode_utf8(
            separator,
        ).len() + encode_utf8(separator).len()) by (nonlinear_arith);
    } else {
        assert(joined(s, others, separator) =~= s);
    }
}

} // verus!
