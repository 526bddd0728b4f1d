//! Case conversion into storage the caller lends, without allocating.
//!
//! The allocating conversions build a vector of words and then a second string out of it.
//! A [`CaseSink`] writes the answer directly as the words arrive: a word walk pushes each
//! character and commits each word, and the separators and the capitals go in at the moments
//! the walk reaches them. The sink writes each separator before it knows whether the word
//! after it survives, and takes both back when it does not. A lend too small is refused with
//! how much was wanted against how much was there.
use vstd::prelude::*;
use vstd::string::StringSliceAdditionalSpecFns;
use vstd::utf8::{encode_scalar, encode_utf8, valid_utf8};

use crate::cases::{capitalised_word, in_case, join_words, lemma_join_push, separator_chars, styled_words};
use crate::text::{
    alphanumeric, has_alphanumeric, is_alphanumeric, lowercase_nth, lowercase_of, uppercase_nth,
    uppercase_of,
};

verus! {

/// Which case to write.
///
/// The six the allocating conversions offer, named rather than one function each, because the
/// only thing that differs between them is a separator and whether a word's first letter is
/// capitalised.
#[derive(Debug, Clone, Copy, PartialEq, Eq)]
pub enum Case {
    /// `this_is_an_example`
    Snake,
    /// `thisIsAnExample`
    Camel,
    /// `ThisIsAnExample`
    Pascal,
    /// `this-is-an-example`
    Kebab,
    /// `this is an example`
    HumanReadable,
    /// `This Is An Example`
    Title,
}

/// What goes between two words in `case`, if anything.
pub open spec fn separator_of(case: Case) -> Option<char> {
    match case {
        Case::Snake => Some('_'),
        Case::Kebab => Some('-'),
        Case::HumanReadable | Case::Title => Some(' '),
        Case::Camel | Case::Pascal => None,
    }
}

/// Whether the word at `index` starts with a capital in `case`.
pub open spec fn capitalises_at(case: Case, index: int) -> bool {
    match case {
        Case::Pascal | Case::Title => true,
        Case::Camel => index > 0,
        Case::Snake | Case::Kebab | Case::HumanReadable => false,
    }
}

impl Case {
    /// What goes between two words, if anything.
    pub fn separator(self) -> (r: Option<char>)
        ensures
            r == separator_of(self),
    {
        match self {
            Case::Snake => Some('_'),
            Case::Kebab => Some('-'),
            Case::HumanReadable | Case::Title => Some(' '),
            Case::Camel | Case::Pascal => None,
        }
    }

    /// Whether the word at `index` starts with a capital.
    pub fn capitalises(self, index: usize) -> (b: bool)
        ensures
            b == capitalises_at(self, index as int),
    {
        match self {
            Case::Pascal | Case::Title => true,
            // The leading word stays lower case, which is the only thing separating camel
            // from pascal.
            Case::Camel => index > 0,
            Case::Snake | Case::Kebab | Case::HumanReadable => false,
        }
    }
}


/// Greek capital sigma, whose lowercase form depends on where in a word it stands.
pub const CAPITAL_SIGMA: char = '\u{3a3}';

/// The lowercase sigma that ends a word.
pub const FINAL_SIGMA: char = '\u{3c2}';

/// The lowercase sigma anywhere else.
pub const NON_FINAL_SIGMA: char = '\u{3c3}';

/// What a lend could not hold.
///
/// Carries both numbers so that a caller can double from `wanted` and converge.
#[derive(Debug, Clone, Copy, PartialEq, Eq)]
pub struct Exhausted {
    /// How much was needed: a lower bound where the shortfall was found partway through.
    pub wanted: usize,
    /// How much the lend held.
    pub had: usize,
}

/// A refusal that reports the lend's size and asks for more than that: by no more than the
/// width of the one character that did not fit.
pub open spec fn refusal_of(e: Exhausted, slots_len: int) -> bool {
    e.had == slots_len && e.had < e.wanted <= e.had + 4
}

/// The UTF-8 encoding of `c` in a four-byte buffer, and how many of its bytes are used: the
/// bytes `char::encode_utf8` writes.
fn encode_char(c: char) -> (r: ([u8; 4], usize))
    ensures
        r.1 == encode_scalar(c as u32).len(),
        r.0@.take(r.1 as int) == encode_scalar(c as u32),
{
    proof {
        vstd::utf8::char_is_scalar(c);
    }
    let v = c as u32;
    if v < 0x80 {
        let buf: [u8; 4] = [(v & 0x7F) as u8, 0, 0, 0];
        assert(buf@.take(1) =~= encode_scalar(v));
        (buf, 1)
    } else if v < 0x800 {
        let buf: [u8; 4] = [0xC0 | ((v >> 6) & 0x1F) as u8, 0x80 | (v & 0x3F) as u8, 0, 0];
        assert(buf@.take(2) =~= encode_scalar(v));
        (buf, 2)
    } else if v < 0x10000 {
        let buf: [u8; 4] = [
            0xE0 | ((v >> 12) & 0x0F) as u8,
            0x80 | ((v >> 6) & 0x3F) as u8,
            0x80 | (v & 0x3F) as u8,
            0,
        ];
        assert(buf@.take(3) =~= encode_scalar(v));
        (buf, 3)
    } else {
        let buf: [u8; 4] = [
            0xF0 | ((v >> 18) & 0x7) as u8,
            0x80 | ((v >> 12) & 0x3F) as u8,
            0x80 | ((v >> 6) & 0x3F) as u8,
            0x80 | (v & 0x3F) as u8,
        ];
        assert(buf@.take(4) =~= encode_scalar(v));
        (buf, 4)
    }
}

/// The number of bytes `c` needs in UTF-8, as `char::len_utf8` counts them.
fn len_utf8(c: char) -> (n: usize)
    ensures
        n == encode_scalar(c as u32).len(),
{
    proof {
        vstd::utf8::char_is_scalar(c);
    }
    let v = c as u32;
    if v < 0x80 {
        1
    } else if v < 0x800 {
        2
    } else if v < 0x10000 {
        3
    } else {
        4
    }
}

/// `core::str::from_utf8`: the bytes as a string slice when they are valid UTF-8.
#[verifier::external_body]
fn str_from_utf8(bytes: &[u8]) -> (r: Option<&str>)
    ensures
        r is Some <==> valid_utf8(bytes@),
        r matches Some(s) ==> s.spec_bytes() == bytes@,
{
    core::str::from_utf8(bytes).ok()
}

/// Encoding is done character by character, so it distributes over concatenation.
pub proof fn lemma_encode_concat(a: Seq<char>, b: Seq<char>)
    ensures
        encode_utf8(a + b) == encode_utf8(a) + encode_utf8(b),
    decreases a.len(),
{
    if a.len() == 0 {
        assert(a + b =~= b);
    } else {
        assert((a + b).drop_first() =~= a.drop_first() + b);
        lemma_encode_concat(a.drop_first(), b);
        assert(encode_utf8(a + b) =~= encode_utf8(a) + encode_utf8(b));
    }
}

/// The encoding of one more character is the old encoding followed by that character's.
pub proof fn lemma_encode_push(a: Seq<char>, c: char)
    ensures
        encode_utf8(a.push(c)) == encode_utf8(a) + encode_scalar(c as u32),
{
    lemma_encode_concat(a, seq![c]);
    assert(a + seq![c] =~= a.push(c));
    assert(seq![c].drop_first() =~= Seq::<char>::empty());
    assert(encode_utf8(Seq::<char>::empty()) =~= Seq::<u8>::empty());
    assert(encode_utf8(seq![c]) == encode_scalar(seq![c][0] as u32) + encode_utf8(
        seq![c].drop_first(),
    ));
    assert(encode_utf8(seq![c]) =~= encode_scalar(c as u32));
}

/// Whether a cased character was reported before position `j` of a word.
pub open spec fn cased_before(cased: Seq<bool>, j: int) -> bool {
    exists|k: int| 0 <= k < j && k < cased.len() && #[trigger] cased[k]
}

/// `c` lowercased where it stands: a capital sigma becomes the final form at the end of a
/// word that has a cased character before it, and the other form anywhere else.
pub open spec fn lowered_char(c: char, is_final: bool, cased_earlier: bool) -> Seq<char> {
    if c == CAPITAL_SIGMA {
        if is_final && cased_earlier {
            seq![FINAL_SIGMA]
        } else {
            seq![NON_FINAL_SIGMA]
        }
    } else {
        lowercase_of(c)
    }
}

/// `c` as the first character of a capitalised word: lowercased first, then the leading
/// character of that uppercased.
pub open spec fn capital_char(c: char) -> Seq<char> {
    uppercase_of(lowercase_of(c)[0]) + lowercase_of(c).drop_first()
}

/// What the character at position `j` of the raw word turns into.
pub open spec fn written_char(
    capital: bool,
    raw: Seq<char>,
    cased: Seq<bool>,
    j: int,
    is_final: bool,
) -> Seq<char> {
    if j == 0 && capital {
        capital_char(raw[0])
    } else {
        lowered_char(raw[j], is_final, cased_before(cased, j))
    }
}

/// What the first `n` characters of the raw word turn into, none of them at the word's end.
pub open spec fn written_prefix(capital: bool, raw: Seq<char>, cased: Seq<bool>, n: int) -> Seq<
    char,
>
    decreases n,
{
    if n <= 0 {
        Seq::empty()
    } else {
        written_prefix(capital, raw, cased, n - 1) + written_char(capital, raw, cased, n - 1, false)
    }
}

/// What a whole raw word turns into.
pub open spec fn written_word(capital: bool, raw: Seq<char>, cased: Seq<bool>) -> Seq<char> {
    if raw.len() == 0 {
        Seq::empty()
    } else {
        written_prefix(capital, raw, cased, raw.len() - 1) + written_char(
            capital,
            raw,
            cased,
            raw.len() - 1,
            true,
        )
    }
}

/// The words in `case`: each raw word as written at its position, separated.
pub open spec fn sink_text(case: Case, words: Seq<(Seq<char>, Seq<bool>)>) -> Seq<char> {
    join_words(
        Seq::new(
            words.len(),
            |i: int| written_word(capitalises_at(case, i), words[i].0, words[i].1),
        ),
        separator_chars(case),
    )
}

/// A raw word as the walk delivered it: its characters, and for each but the last whether
/// it was reported cased.
pub open spec fn raw_word_wf(w: (Seq<char>, Seq<bool>)) -> bool {
    w.0.len() > 0 && w.1.len() == w.0.len() - 1
}

/// Two words that agree on their first `n` characters, and on the cased reports before the
/// last of those, have the same first `n` characters written.
pub proof fn lemma_prefix_agree(
    capital: bool,
    raw1: Seq<char>,
    cased1: Seq<bool>,
    raw2: Seq<char>,
    cased2: Seq<bool>,
    n: int,
)
    requires
        n <= raw1.len(),
        n <= raw2.len(),
        raw1.take(n) == raw2.take(n),
        n >= 1 ==> cased1.len() >= n - 1 && cased2.len() >= n - 1 && cased1.take(n - 1)
            == cased2.take(n - 1),
    ensures
        written_prefix(capital, raw1, cased1, n) == written_prefix(capital, raw2, cased2, n),
    decreases n,
{
    if n > 0 {
        assert(raw1.take(n - 1) =~= raw1.take(n).take(n - 1));
        assert(raw2.take(n - 1) =~= raw2.take(n).take(n - 1));
        if n >= 2 {
            assert(cased1.take(n - 2) =~= cased1.take(n - 1).take(n - 2));
            assert(cased2.take(n - 2) =~= cased2.take(n - 1).take(n - 2));
        }
        lemma_prefix_agree(capital, raw1, cased1, raw2, cased2, n - 1);
        assert(raw1[n - 1] == raw1.take(n)[n - 1]);
        assert(raw2[n - 1] == raw2.take(n)[n - 1]);
        assert(cased_before(cased1, n - 1) == cased_before(cased2, n - 1)) by {
            if cased_before(cased1, n - 1) {
                let k = choose|k: int| 0 <= k < n - 1 && k < cased1.len() && #[trigger] cased1[k];
                assert(cased1.take(n - 1)[k] == cased1[k]);
                assert(cased2.take(n - 1)[k] == cased2[k]);
            }
            if cased_before(cased2, n - 1) {
                let k = choose|k: int| 0 <= k < n - 1 && k < cased2.len() && #[trigger] cased2[k];
                assert(cased1.take(n - 1)[k] == cased1[k]);
                assert(cased2.take(n - 1)[k] == cased2[k]);
            }
        }
    }
}

/// Lowering a character that is not at a word's end does not depend on what came before it.
pub proof fn lemma_lowered_not_final(c: char, a: bool, b: bool)
    ensures
        lowered_char(c, false, a) == lowered_char(c, false, b),
{
}

/// A case sink: writes a case conversion into lent bytes as the words arrive.
///
/// The walk pushes characters and commits words; the separators and capitals go in at the
/// moments it reaches them. A word that turns out to carry no alphanumeric character is
/// taken back, together with the separator written for it.
pub struct CaseSink {
    used: usize,
    case: Case,
    /// How many words have been committed, which decides the separator and the capital.
    words: usize,
    /// Where in the lend the word being built starts, so it can be dropped whole.
    word_start: usize,
    /// Whether anything in the word being built is alphanumeric.
    word_has_alphanumeric: bool,
    /// The character pushed most recently, not yet written: a capital sigma's lower case
    /// form depends on whether it ends the word.
    held: Option<char>,
    /// The most recent cased character in the word being built, held or written.
    last_cased: Option<char>,
    /// The raw words committed and kept.
    kept: Ghost<Seq<(Seq<char>, Seq<bool>)>>,
    /// The raw characters pushed since the last commit.
    pending: Ghost<Seq<char>>,
    /// For each pending character but the held one, whether it was reported cased.
    pending_cased: Ghost<Seq<bool>>,
}

impl CaseSink {
    /// The case being written.
    pub closed spec fn case_of(&self) -> Case {
        self.case
    }

    /// The raw words committed and kept so far.
    pub closed spec fn kept(&self) -> Seq<(Seq<char>, Seq<bool>)> {
        self.kept@
    }

    /// The raw characters pushed since the last commit.
    pub closed spec fn pending(&self) -> Seq<char> {
        self.pending@
    }

    /// For each pending character but the last, whether it was reported cased.
    pub closed spec fn pending_cased(&self) -> Seq<bool> {
        self.pending_cased@
    }

    /// How many bytes of the lend hold the answer so far.
    pub closed spec fn used_bytes(&self) -> nat {
        self.used as nat
    }

    /// What is written ahead of the word being built: the kept words, and a separator if
    /// a word is under way after at least one kept word.
    pub closed spec fn head(&self) -> Seq<char> {
        sink_text(self.case, self.kept@) + if self.pending@.len() > 0 && self.words > 0 {
            separator_chars(self.case)
        } else {
            Seq::empty()
        }
    }

    /// What is written of the word being built: all of it but the held character.
    pub closed spec fn written_pending(&self) -> Seq<char> {
        written_prefix(
            capitalises_at(self.case, self.words as int),
            self.pending@,
            self.pending_cased@,
            self.pending@.len() - 1,
        )
    }

    /// The text the lend holds so far.
    pub closed spec fn text(&self) -> Seq<char> {
        self.head() + self.written_pending()
    }

    /// The text the lend holds once one more character is pushed: the character pushed
    /// before it written out, or, before the first character of a word that follows a kept
    /// one, the separator.
    pub closed spec fn text_once_pushed(&self) -> Seq<char> {
        sink_text(self.case, self.kept@) + (if self.words > 0 {
            separator_chars(self.case)
        } else {
            Seq::empty()
        }) + written_prefix(
            capitalises_at(self.case, self.words as int),
            self.pending@,
            self.pending_cased@,
            self.pending@.len() as int,
        )
    }

    /// The text with the word being built written whole: what the lend holds while the word
    /// is committed, before a word without a letter or digit is taken back.
    pub closed spec fn text_with_word(&self) -> Seq<char> {
        self.head() + written_word(
            capitalises_at(self.case, self.words as int),
            self.pending@,
            self.pending_cased@,
        )
    }

    /// The sink's fields agree with its record of what was pushed and committed.
    pub closed spec fn consistent(&self) -> bool {
        &&& self.words == self.kept@.len()
        &&& forall|i: int| 0 <= i < self.kept@.len() ==> raw_word_wf(#[trigger] self.kept@[i])
        &&& self.pending@.len() == 0 ==> self.pending_cased@.len() == 0
        &&& self.pending@.len() > 0 ==> self.pending_cased@.len() == self.pending@.len() - 1
        &&& self.held == (if self.pending@.len() == 0 {
            None
        } else {
            Some(self.pending@.last())
        })
        &&& self.word_has_alphanumeric == has_alphanumeric(self.pending@)
        &&& self.last_cased.is_some() == (self.pending@.len() > 0 && cased_before(
            self.pending_cased@,
            self.pending@.len() - 1,
        ))
        &&& self.word_start == encode_utf8(self.head()).len()
        &&& self.pending@.len() >= 2 ==> self.used > self.word_start
        &&& self.pending@.len() <= 1 ==> self.used == self.word_start
        &&& self.words <= encode_utf8(sink_text(self.case, self.kept@)).len()
    }

    /// The sink is consistent, and the lend `slots` holds its text.
    pub closed spec fn wf(&self, slots: Seq<u8>) -> bool {
        &&& self.consistent()
        &&& slots.len() <= isize::MAX
        &&& self.used <= slots.len()
        &&& slots.subrange(0, self.used as int) == encode_utf8(self.text())
    }

    /// What the lend of a well-formed sink holds: its first `used_bytes()` bytes are the
    /// UTF-8 of the sink's text, so they are valid UTF-8, and they fit in the lend.
    pub proof fn lemma_lend_holds_the_text(&self, slots: Seq<u8>)
        requires
            self.wf(slots),
        ensures
            self.used_bytes() == encode_utf8(self.text()).len(),
            self.used_bytes() <= slots.len(),
            slots.subrange(0, self.used_bytes() as int) == encode_utf8(self.text()),
            valid_utf8(slots.subrange(0, self.used_bytes() as int)),
    {
        vstd::utf8::encode_utf8_valid_utf8(self.text());
        assert(slots.subrange(0, self.used as int).len() == self.used);
    }

    /// Every field but `used` is as in `other`.
    closed spec fn same_apart_from_used(&self, other: CaseSink) -> bool {
        &&& self.case == other.case
        &&& self.words == other.words
        &&& self.word_start == other.word_start
        &&& self.word_has_alphanumeric == other.word_has_alphanumeric
        &&& self.held == other.held
        &&& self.last_cased == other.last_cased
        &&& self.kept == other.kept
        &&& self.pending == other.pending
        &&& self.pending_cased == other.pending_cased
    }

    /// Writes one character's UTF-8, refusing if it does not fit.
    fn write(&mut self, slots: &mut [u8], c: char) -> (r: Result<(), Exhausted>)
        requires
            old(self).used <= old(slots)@.len() <= isize::MAX,
        ensures
            final(slots)@.len() == old(slots)@.len(),
            final(self).same_apart_from_used(*old(self)),
            r is Ok ==> final(self).used == old(self).used + encode_scalar(c as u32).len(),
            r is Ok ==> old(self).used < final(self).used <= final(slots)@.len(),
            r is Ok ==> final(slots)@.subrange(0, final(self).used as int) == old(slots)@.subrange(
                0,
                old(self).used as int,
            ) + encode_scalar(c as u32),
            r is Ok ==> final(slots)@.subrange(final(self).used as int, final(slots)@.len() as int)
                == old(slots)@.subrange(final(self).used as int, old(slots)@.len() as int),
            r matches Err(e) ==> refusal_of(e, old(slots)@.len() as int) && e.wanted == old(
                self,
            ).used + encode_scalar(c as u32).len(),
            r is Err ==> final(self).used == old(self).used && final(slots)@ == old(slots)@,
    {
        let (buf, n) = encode_char(c);
        proof {
            vstd::utf8::char_is_scalar(c);
        }
        if self.used + n > slots.len() {
            // A lower bound: what this write needed is known, and what the rest of the
            // input still needs is not.
            return Err(Exhausted { wanted: self.used + n, had: slots.len() });
        }
        let start = self.used;
        let ghost before = slots@;
        let mut k: usize = 0;
        while k < n
            invariant
                k <= n,
                n == encode_scalar(c as u32).len(),
                buf@.take(n as int) == encode_scalar(c as u32),
                start + n <= slots@.len(),
                slots@.len() == before.len(),
                before.len() <= isize::MAX,
                slots@.subrange(0, start + k) == before.subrange(0, start as int)
                    + encode_scalar(c as u32).take(k as int),
                slots@.subrange(start + k, slots@.len() as int) == before.subrange(
                    start + k,
                    before.len() as int,
                ),
            decreases n - k,
        {
            let ghost prev = slots@;
            slots[start + k] = buf[k];
            proof {
                assert(buf@.take(n as int)[k as int] == buf@[k as int]);
                assert(slots@ == prev.update(start + k, buf@[k as int]));
                assert(encode_scalar(c as u32)[k as int] == buf@[k as int]);
                assert(slots@.subrange(0, start + k + 1) =~= prev.subrange(0, start + k).push(
                    buf@[k as int],
                ));
                assert(encode_scalar(c as u32).take(k + 1) =~= encode_scalar(c as u32).take(
                    k as int,
                ).push(buf@[k as int]));
                assert forall|i: int| start + k < i < prev.len() implies #[trigger] slots@[i]
                    == before[i] by {
                    assert(prev.subrange(start + k, prev.len() as int)[i - start - k]
                        == before.subrange(start + k, before.len() as int)[i - start - k]);
                }
            }
            k = k + 1;
            assert(slots@.subrange(0, start + k) =~= before.subrange(0, start as int)
                + encode_scalar(c as u32).take(k as int));
            assert(slots@.subrange(start + k, slots@.len() as int) =~= before.subrange(
                start + k,
                before.len() as int,
            ));
        }
        assert(encode_scalar(c as u32).take(n as int) =~= encode_scalar(c as u32));
        self.used = self.used + n;
        Ok(())
    }

    /// Writes the lowercase mapping of `c` from its `from`th character on.
    fn write_lowercase(&mut self, slots: &mut [u8], c: char, from: usize) -> (r: Result<
        (),
        Exhausted,
    >)
        requires
            old(self).used <= old(slots)@.len() <= isize::MAX,
            from <= lowercase_of(c).len(),
        ensures
            final(slots)@.len() == old(slots)@.len(),
            final(self).same_apart_from_used(*old(self)),
            r is Ok ==> final(self).used <= final(slots)@.len(),
            r is Ok ==> final(slots)@.subrange(0, final(self).used as int) == old(slots)@.subrange(
                0,
                old(self).used as int,
            ) + encode_utf8(lowercase_of(c).subrange(from as int, lowercase_of(c).len() as int)),
            r is Ok ==> final(self).used >= old(self).used,
            r is Ok && from == 0 ==> final(self).used > old(self).used,
            r matches Err(e) ==> refusal_of(e, old(slots)@.len() as int) && e.wanted <= old(
                self,
            ).used + encode_utf8(lowercase_of(c).subrange(from as int, lowercase_of(c).len() as int)).len(),
    {
        let (count, _) = lowercase_nth(c, 0);
        let ghost start = self.used;
        let ghost before = slots@;
        let mut k = from;
        while k < count
            invariant
                from <= k <= count,
                count == lowercase_of(c).len(),
                self.same_apart_from_used(*old(self)),
                start == old(self).used,
                before == old(slots)@,
                start <= self.used <= slots@.len(),
                count >= 1,
                k > from ==> start < self.used,
                slots@.len() == before.len() <= isize::MAX,
                slots@.subrange(0, self.used as int) == before.subrange(0, start as int)
                    + encode_utf8(lowercase_of(c).subrange(from as int, k as int)),
            decreases count - k,
        {
            let (_, lower) = lowercase_nth(c, k);
            let l = lower.unwrap();
            let ghost prev_used = self.used;
            let ghost prev = slots@;
            proof {
                let whole = lowercase_of(c).subrange(from as int, count as int);
                let upto = lowercase_of(c).subrange(from as int, k + 1);
                assert(upto =~= lowercase_of(c).subrange(from as int, k as int).push(l));
                lemma_encode_push(lowercase_of(c).subrange(from as int, k as int), l);
                assert(whole =~= upto + lowercase_of(c).subrange(k + 1, count as int));
                lemma_encode_concat(upto, lowercase_of(c).subrange(k + 1, count as int));
                assert(prev_used == start + encode_utf8(lowercase_of(c).subrange(from as int, k as int)).len()) by {
                    assert(slots@.subrange(0, self.used as int).len() == self.used);
                }
            }
            self.write(slots, l)?;
            k = k + 1;
        }
        Ok(())
    }

    /// Writes the uppercase mapping of `c`.
    fn write_uppercase(&mut self, slots: &mut [u8], c: char) -> (r: Result<(), Exhausted>)
        requires
            old(self).used <= old(slots)@.len() <= isize::MAX,
        ensures
            final(slots)@.len() == old(slots)@.len(),
            final(self).same_apart_from_used(*old(self)),
            r is Ok ==> final(self).used <= final(slots)@.len(),
            r is Ok ==> final(slots)@.subrange(0, final(self).used as int) == old(slots)@.subrange(
                0,
                old(self).used as int,
            ) + encode_utf8(uppercase_of(c)),
            r is Ok ==> final(self).used > old(self).used,
            r matches Err(e) ==> refusal_of(e, old(slots)@.len() as int) && e.wanted <= old(
                self,
            ).used + encode_utf8(uppercase_of(c)).len(),
    {
        let (count, _) = uppercase_nth(c, 0);
        let ghost start = self.used;
        let ghost before = slots@;
        let mut k: usize = 0;
        while k < count
            invariant
                k <= count,
                count == uppercase_of(c).len(),
                count >= 1,
                self.same_apart_from_used(*old(self)),
                start == old(self).used,
                before == old(slots)@,
                start <= self.used <= slots@.len(),
                k > 0 ==> start < self.used,
                slots@.len() == before.len() <= isize::MAX,
                slots@.subrange(0, self.used as int) == before.subrange(0, start as int)
                    + encode_utf8(uppercase_of(c).take(k as int)),
            decreases count - k,
        {
            let (_, upper) = uppercase_nth(c, k);
            let u = upper.unwrap();
            proof {
                vstd::utf8::char_is_scalar(u);
                assert(uppercase_of(c).take(k + 1) =~= uppercase_of(c).take(k as int).push(u));
                lemma_encode_push(uppercase_of(c).take(k as int), u);
                assert(uppercase_of(c) =~= uppercase_of(c).take(k + 1) + uppercase_of(c).subrange(
                    k + 1,
                    count as int,
                ));
                lemma_encode_concat(uppercase_of(c).take(k + 1), uppercase_of(c).subrange(k + 1, count as int));
                assert(self.used == start + encode_utf8(uppercase_of(c).take(k as int)).len()) by {
                    assert(slots@.subrange(0, self.used as int).len() == self.used);
                }
            }
            self.write(slots, u)?;
            k = k + 1;
        }
        assert(uppercase_of(c).take(count as int) =~= uppercase_of(c));
        Ok(())
    }

    /// What flushing the held character `c` writes, given where the sink stands.
    closed spec fn flushed(&self, c: char, is_final: bool) -> Seq<char> {
        if self.used == self.word_start && capitalises_at(self.case, self.words as int) {
            capital_char(c)
        } else {
            lowered_char(c, is_final, self.last_cased.is_some())
        }
    }

    /// Writes the held character, lowercased or capitalised as the position calls for.
    fn flush_held(&mut self, slots: &mut [u8], is_final: bool) -> (r: Result<(), Exhausted>)
        requires
            old(self).used <= old(slots)@.len() <= isize::MAX,
        ensures
            final(slots)@.len() == old(slots)@.len(),
            final(self).case == old(self).case,
            final(self).words == old(self).words,
            final(self).word_start == old(self).word_start,
            final(self).word_has_alphanumeric == old(self).word_has_alphanumeric,
            final(self).last_cased == old(self).last_cased,
            final(self).kept == old(self).kept,
            final(self).pending == old(self).pending,
            final(self).pending_cased == old(self).pending_cased,
            final(self).held is None,
            r is Ok ==> final(self).used <= final(slots)@.len(),
            r is Ok && old(self).held is None ==> final(self).used == old(self).used
                && final(slots)@.subrange(0, final(self).used as int) == old(slots)@.subrange(
                0,
                old(self).used as int,
            ),
            r is Ok && old(self).held is Some ==> final(self).used > old(self).used
                && final(slots)@.subrange(0, final(self).used as int) == old(slots)@.subrange(
                0,
                old(self).used as int,
            ) + encode_utf8(old(self).flushed(old(self).held->0, is_final)),
            r matches Err(e) ==> refusal_of(e, old(slots)@.len() as int) && old(self).held is Some
                && e.wanted <= old(self).used + encode_utf8(
                old(self).flushed(old(self).held->0, is_final),
            ).len(),
    {
        let c = match self.held {
            None => {
                return Ok(());
            },
            Some(c) => c,
        };
        self.held = None;
        let ghost start = self.used;
        let ghost before = slots@;
        // The first character of a word is capitalised in the cases that ask for it. It is
        // the first when nothing has been written into this word yet.
        //
        // Lowercased first, then the leading character of that uppercased, which is what
        // capitalising an already lowercased word does.
        if self.used == self.word_start && self.case.capitalises(self.words) {
            let (_, lowered) = lowercase_nth(c, 0);
            let first = lowered.unwrap();
            proof {
                assert(lowercase_of(c).subrange(1, lowercase_of(c).len() as int)
                    =~= lowercase_of(c).drop_first());
                lemma_encode_concat(uppercase_of(lowercase_of(c)[0]), lowercase_of(c).drop_first());
            }
            self.write_uppercase(slots, first)?;
            let ghost mid = slots@;
            let ghost mid_used = self.used;
            assert(mid_used == start + encode_utf8(uppercase_of(first)).len()) by {
                assert(mid.subrange(0, mid_used as int).len() == mid_used);
            }
            self.write_lowercase(slots, c, 1)?;
            proof {
                assert(lowercase_of(c).subrange(1, lowercase_of(c).len() as int)
                    =~= lowercase_of(c).drop_first());
                lemma_encode_concat(uppercase_of(lowercase_of(c)[0]), lowercase_of(c).drop_first());
                assert(slots@.subrange(0, mid_used as int) == mid.subrange(0, mid_used as int)) by {
                    assert(slots@.subrange(0, mid_used as int) =~= slots@.subrange(
                        0,
                        self.used as int,
                    ).subrange(0, mid_used as int));
                }
            }
            return Ok(());
        }
        // Otherwise lowercased, with the one rule `char::to_lowercase` does not carry.

        if c == CAPITAL_SIGMA {
            let final_position = is_final && self.last_cased.is_some();
            let sigma = if final_position {
                FINAL_SIGMA
            } else {
                NON_FINAL_SIGMA
            };
            let r = self.write(slots, sigma);
            proof {
                lemma_encode_push(Seq::empty(), sigma);
                assert(Seq::<char>::empty().push(sigma) =~= seq![sigma]);
            }
            return r;
        }
        proof {
            assert(lowercase_of(c).subrange(0, lowercase_of(c).len() as int) =~= lowercase_of(c));
        }
        self.write_lowercase(slots, c, 0)?;
        Ok(())
    }

    /// Takes one character of the word being built.
    ///
    /// `held_is_cased` says whether the character pushed before this one in the same word,
    /// if there is one, is cased; it decides the form of a capital sigma that ends the word.
    #[verifier::rlimit(60)]
    pub fn push_char(&mut self, slots: &mut [u8], c: char, held_is_cased: bool) -> (r: Result<
        (),
        Exhausted,
    >)
        requires
            old(self).wf(old(slots)@),
        ensures
            final(slots)@.len() == old(slots)@.len(),
            r is Ok ==> final(self).wf(final(slots)@),
            r is Ok ==> final(self).case_of() == old(self).case_of(),
            r is Ok ==> final(self).kept() == old(self).kept(),
            r is Ok ==> final(self).pending() == old(self).pending().push(c),
            r is Ok ==> final(self).pending_cased() == (if old(self).pending().len() == 0 {
                old(self).pending_cased()
            } else {
                old(self).pending_cased().push(held_is_cased)
            }),
            r is Ok ==> final(self).text() == old(self).text_once_pushed(),
            r is Ok <==> encode_utf8(old(self).text_once_pushed()).len() <= old(slots)@.len(),
            r matches Err(e) ==> refusal_of(e, old(slots)@.len() as int) && e.wanted
                <= encode_utf8(old(self).text_once_pushed()).len(),
    {
        let ghost s0 = *self;
        let ghost slots0 = slots@;
        // Read before the flush, which takes it.
        let was_held = self.held;

        // The separator goes in before the first character of a word that is not the
        // first, which is where it belongs and is why it cannot be appended after each.
        proof {
            assert(s0.used == encode_utf8(s0.text()).len()) by {
                assert(slots0.subrange(0, s0.used as int).len() == s0.used);
            }
            if s0.pending@.len() == 0 {
                assert(written_prefix(
                    capitalises_at(s0.case, s0.words as int),
                    s0.pending@,
                    s0.pending_cased@,
                    0,
                ) =~= Seq::<char>::empty());
                assert(s0.text() =~= sink_text(s0.case, s0.kept@));
            }
        }
        if self.held.is_none() && self.used == self.word_start && self.words > 0 {
            if let Some(separator) = self.case.separator() {
                proof {
                    lemma_encode_push(sink_text(s0.case, s0.kept@), separator);
                    assert(separator_chars(s0.case) =~= seq![separator]);
                    assert(sink_text(s0.case, s0.kept@).push(separator) =~= sink_text(
                        s0.case,
                        s0.kept@,
                    ) + separator_chars(s0.case));
                    assert(s0.text_once_pushed() =~= sink_text(s0.case, s0.kept@).push(separator));
                }
                self.write(slots, separator)?;
                // The separator is not part of the word, so the word starts after it and a
                // dropped word does not take it with it.
                self.word_start = self.used;
            }
        }
        let ghost s1 = *self;
        let ghost slots1 = slots@;
        proof {
            if s0.pending@.len() > 0 {
                let l = s0.pending@.len() as int;
                let p0 = s0.pending@;
                let pc0 = s0.pending_cased@;
                let cap = capitalises_at(s0.case, s0.words as int);
                assert(s1 == s0);
                lemma_lowered_not_final(p0[l - 1], s0.last_cased.is_some(), cased_before(pc0, l - 1));
                assert(s0.used == s0.word_start <==> l == 1);
                assert(s0.flushed(p0[l - 1], false) == written_char(cap, p0, pc0, l - 1, false));
                assert(s0.text_once_pushed() =~= s0.text() + s0.flushed(p0[l - 1], false));
                lemma_encode_concat(s0.text(), s0.flushed(p0[l - 1], false));
            }
        }
        self.flush_held(slots, false)?;
        if held_is_cased && was_held.is_some() {
            self.last_cased = was_held;
        }
        self.held = Some(c);
        if is_alphanumeric(c) {
            self.word_has_alphanumeric = true;
        }
        let ghost new_cased = if s0.pending@.len() == 0 {
            s0.pending_cased@
        } else {
            s0.pending_cased@.push(held_is_cased)
        };
        self.pending = Ghost(s0.pending@.push(c));
        self.pending_cased = Ghost(new_cased);
        proof {
            let p0 = s0.pending@;
            let p1 = self.pending@;
            let cap = capitalises_at(s0.case, s0.words as int);
            assert(has_alphanumeric(p1) == (has_alphanumeric(p0) || alphanumeric(c))) by {
                if has_alphanumeric(p1) && !alphanumeric(c) {
                    let i = choose|i: int| 0 <= i < p1.len() && #[trigger] alphanumeric(p1[i]);
                    assert(p0[i] == p1[i]);
                }
                if has_alphanumeric(p0) {
                    let i = choose|i: int| 0 <= i < p0.len() && #[trigger] alphanumeric(p0[i]);
                    assert(p1[i] == p0[i]);
                }
                if alphanumeric(c) {
                    assert(p1[p0.len() as int] == c);
                }
            }
            if p0.len() == 0 {
                let text0 = sink_text(s0.case, s0.kept@);
                assert(s0.text() =~= text0);
                assert(self.written_pending() =~= Seq::<char>::empty());
                assert(self.text() =~= self.head());
                assert(!cased_before(new_cased, 0));
                if s0.words > 0 && separator_of(s0.case) is Some {
                    assert(self.head() =~= text0 + separator_chars(s0.case));
                } else {
                    assert(self.head() =~= text0);
                    assert(slots1.subrange(0, s1.used as int) == encode_utf8(text0));
                }
            } else {
                assert(s1 == s0);
                let l = p0.len() as int;
                let pc0 = s0.pending_cased@;
                assert(s1.used == s1.word_start <==> l == 1);
                lemma_lowered_not_final(p0[l - 1], s0.last_cased.is_some(), cased_before(pc0, l - 1));
                assert(s1.flushed(p0[l - 1], false) == written_char(cap, p0, pc0, l - 1, false));
                assert(p0.take(l - 1) =~= p1.take(l - 1));
                if l >= 2 {
                    assert(pc0.take(l - 2) =~= new_cased.take(l - 2));
                }
                lemma_prefix_agree(cap, p0, pc0, p1, new_cased, l - 1);
                assert(written_prefix(cap, p1, new_cased, l) == written_prefix(cap, p0, pc0, l - 1)
                    + written_char(cap, p0, pc0, l - 1, false)) by {
                    assert(cased_before(new_cased, l - 1) == cased_before(pc0, l - 1)) by {
                        if cased_before(new_cased, l - 1) {
                            let k = choose|k: int| 0 <= k < l - 1 && k < new_cased.len() && #[trigger] new_cased[k];
                            assert(pc0[k]);
                        }
                        if cased_before(pc0, l - 1) {
                            let k = choose|k: int| 0 <= k < l - 1 && k < pc0.len() && #[trigger] pc0[k];
                            assert(new_cased[k]);
                        }
                    }
                }
                assert(self.head() == s0.head());
                lemma_encode_concat(s0.text(), s1.flushed(p0[l - 1], false));
                assert(self.text() =~= s0.text() + s1.flushed(p0[l - 1], false));
                assert(cased_before(new_cased, l) == (cased_before(pc0, l - 1) || held_is_cased)) by {
                    if cased_before(new_cased, l) && !held_is_cased {
                        let k = choose|k: int| 0 <= k < l && k < new_cased.len() && #[trigger] new_cased[k];
                        assert(pc0[k]);
                    }
                    if cased_before(pc0, l - 1) {
                        let k = choose|k: int| 0 <= k < l - 1 && k < pc0.len() && #[trigger] pc0[k];
                        assert(new_cased[k]);
                    }
                    if held_is_cased {
                        assert(new_cased[l - 1]);
                    }
                }
            }
        }
        Ok(())
    }

    /// The words in `case` after one more raw word is kept.
    proof fn lemma_sink_text_push(case: Case, words: Seq<(Seq<char>, Seq<bool>)>, w: (Seq<char>, Seq<bool>))
        ensures
            sink_text(case, words.push(w)) == (if words.len() == 0 {
                written_word(capitalises_at(case, 0), w.0, w.1)
            } else {
                sink_text(case, words) + separator_chars(case) + written_word(
                    capitalises_at(case, words.len() as int),
                    w.0,
                    w.1,
                )
            }),
    {
        let f = Seq::new(
            words.len(),
            |i: int| written_word(capitalises_at(case, i), words[i].0, words[i].1),
        );
        let ww = written_word(capitalises_at(case, words.len() as int), w.0, w.1);
        let g = Seq::new(
            words.push(w).len(),
            |i: int| written_word(capitalises_at(case, i), words.push(w)[i].0, words.push(w)[i].1),
        );
        assert(g =~= f.push(ww));
        lemma_join_push(f, separator_chars(case), ww);
    }

    /// Ends the word being built: keeps it if it carries an alphanumeric character, and
    /// otherwise takes it back together with the separator written for it.
    #[verifier::rlimit(60)]
    pub fn commit(&mut self, slots: &mut [u8]) -> (r: Result<(), Exhausted>)
        requires
            old(self).wf(old(slots)@),
            old(self).pending().len() > 0,
        ensures
            final(slots)@.len() == old(slots)@.len(),
            r is Ok ==> final(self).wf(final(slots)@),
            r is Ok ==> final(self).case_of() == old(self).case_of(),
            r is Ok ==> final(self).kept() == (if has_alphanumeric(old(self).pending()) {
                old(self).kept().push((old(self).pending(), old(self).pending_cased()))
            } else {
                old(self).kept()
            }),
            r is Ok ==> final(self).pending() == Seq::<char>::empty(),
            r is Ok ==> final(self).text() == sink_text(final(self).case_of(), final(self).kept()),
            r is Ok ==> final(self).used_bytes() == encode_utf8(
                sink_text(final(self).case_of(), final(self).kept()),
            ).len(),
            r is Ok <==> encode_utf8(old(self).text_with_word()).len() <= old(slots)@.len(),
            r matches Err(e) ==> refusal_of(e, old(slots)@.len() as int) && e.wanted
                <= encode_utf8(old(self).text_with_word()).len(),
    {
        let ghost s0 = *self;
        let ghost slots0 = slots@;
        let ghost p0 = s0.pending@;
        let ghost pc0 = s0.pending_cased@;
        let ghost l = p0.len() as int;
        let ghost cap = capitalises_at(s0.case, s0.words as int);
        let ghost word = written_word(cap, p0, pc0);
        proof {
            assert(s0.used == encode_utf8(s0.text()).len()) by {
                assert(slots0.subrange(0, s0.used as int).len() == s0.used);
            }
            assert(s0.used == s0.word_start <==> l == 1);
            assert(s0.flushed(p0[l - 1], true) == written_char(cap, p0, pc0, l - 1, true));
            assert(word == s0.written_pending() + s0.flushed(p0[l - 1], true));
            assert(s0.text() + s0.flushed(p0[l - 1], true) =~= s0.text_with_word());
            lemma_encode_concat(s0.text(), s0.flushed(p0[l - 1], true));
        }
        self.flush_held(slots, true)?;
        let ghost s1 = *self;
        let ghost slots1 = slots@;
        proof {
            lemma_encode_concat(s0.head(), s0.written_pending());
            lemma_encode_concat(s0.head(), word);
            assert(s0.text() + s0.flushed(p0[l - 1], true) =~= s0.head() + word);
            assert(slots1.subrange(0, s1.used as int) == encode_utf8(s0.head() + word));
            lemma_encode_concat(sink_text(s0.case, s0.kept@), if s0.pending@.len() > 0 && s0.words > 0 {
                separator_chars(s0.case)
            } else {
                Seq::empty()
            });
            assert(s0.words <= s0.word_start);
            assert(s0.word_start <= s0.used < s1.used);
        }
        if self.word_has_alphanumeric {
            self.words = self.words + 1;
            self.word_start = self.used;
            self.kept = Ghost(s0.kept@.push((p0, pc0)));
            proof {
                Self::lemma_sink_text_push(s0.case, s0.kept@, (p0, pc0));
                if s0.words > 0 {
                    assert(s0.head() + word =~= sink_text(s0.case, s0.kept@) + separator_chars(
                        s0.case,
                    ) + word);
                } else {
                    assert(sink_text(s0.case, s0.kept@) =~= Seq::<char>::empty()) by {
                        assert(Seq::new(
                            0,
                            |i: int|
                                written_word(
                                    capitalises_at(s0.case, i),
                                    s0.kept@[i].0,
                                    s0.kept@[i].1,
                                ),
                        ) =~= Seq::<Seq<char>>::empty());
                    }
                    assert(s0.head() + word =~= word);
                }
            }
        } else {
            // Dropped: rewind over it, and over the separator that was written for it,
            // which is why `word_start` moved past the separator when it went in.
            self.used = self.word_start;
            proof {
                assert(slots1.subrange(0, self.used as int) == encode_utf8(s0.head())) by {
                    assert(slots1.subrange(0, self.used as int) =~= slots1.subrange(
                        0,
                        s1.used as int,
                    ).subrange(0, self.used as int));
                }
            }
            if self.words > 0 {
                if let Some(separator) = self.case.separator() {
                    let width = len_utf8(separator);
                    proof {
                        assert(separator_chars(s0.case) =~= seq![separator]);
                        assert(s0.head() =~= sink_text(s0.case, s0.kept@).push(separator));
                        lemma_encode_push(sink_text(s0.case, s0.kept@), separator);
                    }
                    self.used = self.used - width;
                    self.word_start = self.used;
                    proof {
                        assert(slots1.subrange(0, self.used as int) =~= slots1.subrange(
                            0,
                            s0.word_start as int,
                        ).subrange(0, self.used as int));
                    }
                }
            }
        }
        self.word_has_alphanumeric = false;
        self.last_cased = None;
        self.pending = Ghost(Seq::empty());
        self.pending_cased = Ghost(Seq::empty());
        proof {
            assert(self.written_pending() =~= Seq::<char>::empty());
            assert(self.text() =~= self.head());
            assert(self.head() =~= sink_text(self.case, self.kept@));
            assert(self.words == self.kept@.len());
            assert(forall|i: int| 0 <= i < self.kept@.len() ==> raw_word_wf(#[trigger] self.kept@[i]));
            assert(self.word_start == encode_utf8(self.head()).len());
            assert(self.words <= encode_utf8(sink_text(self.case, self.kept@)).len());
            assert(self.used <= slots@.len());
            assert(slots@.subrange(0, self.used as int) == encode_utf8(self.text()));
            assert(!cased_before(self.pending_cased@, -1));
            assert(slots@.subrange(0, self.used as int).len() == self.used);
        }
        Ok(())
    }

    /// Whether nothing has been pushed since the last commit.
    pub fn pending_is_empty(&self) -> (b: bool)
        requires
            self.consistent(),
        ensures
            b == (self.pending().len() == 0),
    {
        self.used == self.word_start && self.held.is_none()
    }

    /// Whether the character pushed last, in the word being built, is `c`.
    pub fn pending_ends_with(&self, c: char) -> (b: bool)
        requires
            self.consistent(),
        ensures
            b == (self.pending().len() > 0 && self.pending().last() == c),
    {
        match self.held {
            Some(h) => h == c,
            None => false,
        }
    }

    /// The character pushed last in the word being built, if any.
    pub fn held(&self) -> (r: Option<char>)
        requires
            self.consistent(),
        ensures
            r == (if self.pending().len() == 0 {
                None
            } else {
                Some(self.pending().last())
            }),
    {
        self.held
    }

    /// The text written so far, borrowed from the lend.
    ///
    /// Every byte came from a whole character's encoding, so it is valid UTF-8 by
    /// construction; that is proved rather than checked at run time.
    pub fn written<'a>(&self, slots: &'a [u8]) -> (text: &'a str)
        requires
            self.wf(slots@),
        ensures
            text@ == self.text(),
            self.pending().len() == 0 ==> text@ == sink_text(self.case_of(), self.kept()),
    {
        let prefix = vstd::slice::slice_subrange(slots, 0, self.used);
        proof {
            vstd::utf8::encode_utf8_valid_utf8(self.text());
        }
        let text = str_from_utf8(prefix).unwrap();
        proof {
            vstd::utf8::encode_utf8_decode_utf8(self.text());
            vstd::utf8::encode_utf8_decode_utf8(text@);
            if self.pending@.len() == 0 {
                assert(self.written_pending() =~= Seq::<char>::empty());
                assert(self.text() =~= sink_text(self.case, self.kept@));
            }
        }
        text
    }

    /// A sink for `case` with nothing written: consistent with any lend.
    pub fn new(case: Case) -> (sink: CaseSink)
        ensures
            sink.case_of() == case,
            sink.kept() == Seq::<(Seq<char>, Seq<bool>)>::empty(),
            sink.pending() == Seq::<char>::empty(),
            sink.pending_cased() == Seq::<bool>::empty(),
            forall|slots: Seq<u8>| slots.len() <= isize::MAX ==> #[trigger] sink.wf(slots),
    {
        let sink = CaseSink {
            used: 0,
            case,
            words: 0,
            word_start: 0,
            word_has_alphanumeric: false,
            held: None,
            last_cased: None,
            kept: Ghost(Seq::empty()),
            pending: Ghost(Seq::empty()),
            pending_cased: Ghost(Seq::empty()),
        };
        proof {
            assert(sink_text(case, Seq::empty()) =~= Seq::<char>::empty());
            assert(sink.text() =~= Seq::<char>::empty());
            assert forall|slots: Seq<u8>| slots.len() <= isize::MAX implies #[trigger] sink.wf(
                slots,
            ) by {
                assert(slots.subrange(0, 0) =~= encode_utf8(sink.text()));
            }
        }
        sink
    }
}

/// Two sinks in one case that keep the same words and have nothing pending hold the same
/// bytes of their lends: so a word taken back, because it carries no letter or digit,
/// together with the separator written for it, leaves the lend holding what it held before
/// the word began.
pub proof fn law_the_same_kept_words_hold_the_same_bytes(
    before: CaseSink,
    before_slots: Seq<u8>,
    after: CaseSink,
    after_slots: Seq<u8>,
)
    requires
        before.wf(before_slots),
        after.wf(after_slots),
        before.pending().len() == 0,
        after.pending().len() == 0,
        after.case_of() == before.case_of(),
        after.kept() == before.kept(),
    ensures
        after.used_bytes() == before.used_bytes(),
        after_slots.subrange(0, after.used_bytes() as int) == before_slots.subrange(
            0,
            before.used_bytes() as int,
        ),
{
    before.lemma_lend_holds_the_text(before_slots);
    after.lemma_lend_holds_the_text(after_slots);
    assert(before.written_pending() =~= Seq::<char>::empty());
    assert(after.written_pending() =~= Seq::<char>::empty());
    assert(before.text() =~= sink_text(before.case, before.kept@));
    assert(after.text() =~= sink_text(after.case, after.kept@));
}

/// One event of a word walk: a character pushed, with whether the character pushed before it
/// in the same word is cased, or the end of a word.
#[derive(Debug, Clone, Copy)]
pub enum SinkStep {
    Push(char, bool),
    Commit,
}

/// What a sink records of a walk: the raw words kept, the raw characters pushed since the
/// last commit, and for each of those but the last whether it was reported cased.
pub open spec fn after_step(
    st: (Seq<(Seq<char>, Seq<bool>)>, Seq<char>, Seq<bool>),
    step: SinkStep,
) -> (Seq<(Seq<char>, Seq<bool>)>, Seq<char>, Seq<bool>) {
    match step {
        SinkStep::Push(c, held_is_cased) => (
            st.0,
            st.1.push(c),
            if st.1.len() == 0 {
                st.2
            } else {
                st.2.push(held_is_cased)
            },
        ),
        SinkStep::Commit => if st.1.len() == 0 {
            st
        } else {
            (
                if has_alphanumeric(st.1) {
                    st.0.push((st.1, st.2))
                } else {
                    st.0
                },
                Seq::empty(),
                Seq::empty(),
            )
        },
    }
}

/// What a sink records once it has taken `steps`, an end of word with nothing pushed being
/// no event.
pub open spec fn walked(steps: Seq<SinkStep>) -> (Seq<(Seq<char>, Seq<bool>)>, Seq<char>, Seq<bool>)
    decreases steps.len(),
{
    if steps.len() == 0 {
        (Seq::empty(), Seq::empty(), Seq::empty())
    } else {
        after_step(walked(steps.drop_last()), steps.last())
    }
}

/// The text a sink in `case` that recorded `st` holds once one more character is pushed.
pub open spec fn once_pushed_text(
    case: Case,
    st: (Seq<(Seq<char>, Seq<bool>)>, Seq<char>, Seq<bool>),
) -> Seq<char> {
    sink_text(case, st.0) + (if st.0.len() > 0 {
        separator_chars(case)
    } else {
        Seq::empty()
    }) + written_prefix(capitalises_at(case, st.0.len() as int), st.1, st.2, st.1.len() as int)
}

/// The text a sink in `case` that recorded `st` holds while it commits the word being built.
pub open spec fn with_word_text(
    case: Case,
    st: (Seq<(Seq<char>, Seq<bool>)>, Seq<char>, Seq<bool>),
) -> Seq<char> {
    sink_text(case, st.0) + (if st.1.len() > 0 && st.0.len() > 0 {
        separator_chars(case)
    } else {
        Seq::empty()
    }) + written_word(capitalises_at(case, st.0.len() as int), st.1, st.2)
}

/// How many bytes of lend one step needs, from a sink that recorded `st`.
pub open spec fn step_need(
    case: Case,
    st: (Seq<(Seq<char>, Seq<bool>)>, Seq<char>, Seq<bool>),
    step: SinkStep,
) -> int {
    match step {
        SinkStep::Push(_, _) => encode_utf8(once_pushed_text(case, st)).len() as int,
        SinkStep::Commit => if st.1.len() == 0 {
            0
        } else {
            encode_utf8(with_word_text(case, st)).len() as int
        },
    }
}

/// How many bytes of lend a walk needs: the most any of its steps needs.
pub open spec fn walk_need(case: Case, steps: Seq<SinkStep>) -> int
    decreases steps.len(),
{
    if steps.len() == 0 {
        0
    } else {
        let before = walk_need(case, steps.drop_last());
        let here = step_need(case, walked(steps.drop_last()), steps.last());
        if before >= here {
            before
        } else {
            here
        }
    }
}

/// A walk needs at least what any of its first steps need.
proof fn lemma_walk_need_prefix(case: Case, steps: Seq<SinkStep>, n: int)
    requires
        0 <= n <= steps.len(),
    ensures
        walk_need(case, steps.take(n)) <= walk_need(case, steps),
    decreases steps.len(),
{
    if n < steps.len() {
        assert(steps.drop_last().take(n) =~= steps.take(n));
        lemma_walk_need_prefix(case, steps.drop_last(), n);
    } else {
        assert(steps.take(n) =~= steps);
    }
}

/// Whether `ps` are the steps that push the characters of `word`, one each, in order.
pub open spec fn pushes_word(ps: Seq<SinkStep>, word: Seq<char>) -> bool {
    &&& ps.len() == word.len()
    &&& forall|i: int|
        0 <= i < ps.len() ==> (#[trigger] ps[i] matches SinkStep::Push(c, _) && c == word[i])
}

/// Whether a step reports the character pushed before it as cased; an end of word reports
/// nothing.
pub open spec fn held_flag(step: SinkStep) -> bool {
    match step {
        SinkStep::Push(_, held_is_cased) => held_is_cased,
        SinkStep::Commit => false,
    }
}

/// The cased reports that pushing `ps` makes: each push's report of the character before it,
/// for every push but the first.
pub open spec fn reported_cased(ps: Seq<SinkStep>) -> Seq<bool>
    decreases ps.len(),
{
    if ps.len() <= 1 {
        Seq::empty()
    } else {
        reported_cased(ps.drop_last()).push(held_flag(ps.last()))
    }
}

/// A sink records one cased report fewer than it has characters pending, and none when
/// nothing is pending.
proof fn lemma_walked_shape(steps: Seq<SinkStep>)
    ensures
        walked(steps).1.len() == 0 ==> walked(steps).2.len() == 0,
        walked(steps).1.len() > 0 ==> walked(steps).2.len() == walked(steps).1.len() - 1,
    decreases steps.len(),
{
    if steps.len() > 0 {
        lemma_walked_shape(steps.drop_last());
    }
}

/// Taking one more step is recording it after the ones before.
proof fn lemma_walked_push(steps: Seq<SinkStep>, step: SinkStep)
    ensures
        walked(steps.push(step)) == after_step(walked(steps), step),
{
    assert(steps.push(step).drop_last() =~= steps);
}

/// Pushing the characters of a word, from a sink with nothing pending, keeps the kept words
/// and leaves the word pending.
proof fn lemma_walked_pushes(steps: Seq<SinkStep>, ps: Seq<SinkStep>, word: Seq<char>)
    requires
        walked(steps).1.len() == 0,
        pushes_word(ps, word),
    ensures
        walked(steps + ps).0 == walked(steps).0,
        walked(steps + ps).1 == word,
        walked(steps + ps).2 == reported_cased(ps),
    decreases ps.len(),
{
    lemma_walked_shape(steps);
    if ps.len() == 0 {
        assert(steps + ps =~= steps);
        assert(word =~= Seq::<char>::empty());
        assert(walked(steps).2 =~= Seq::<bool>::empty());
    } else {
        let fewer = ps.drop_last();
        assert(pushes_word(fewer, word.drop_last())) by {
            assert forall|i: int| 0 <= i < fewer.len() implies (#[trigger] fewer[i] matches SinkStep::Push(
                c,
                _,
            ) && c == word.drop_last()[i]) by {
                assert(fewer[i] == ps[i]);
            }
        }
        lemma_walked_pushes(steps, fewer, word.drop_last());
        let before = steps + fewer;
        assert(steps + ps =~= before.push(ps.last()));
        lemma_walked_push(before, ps.last());
        assert(ps[ps.len() - 1] matches SinkStep::Push(c, _) && c == word[ps.len() - 1]);
        assert(word =~= word.drop_last().push(word.last()));
        if fewer.len() == 0 {
            assert(reported_cased(ps) =~= Seq::<bool>::empty());
            assert(walked(before).2 =~= Seq::<bool>::empty());
        }
    }
}

/// A word without a letter or digit is taken back whole: pushing its characters and ending
/// it, from a sink with nothing pending, leaves the kept words, and so the text, as they
/// were, with nothing pending; a word with one is kept after the others.
pub proof fn law_a_word_is_kept_only_with_an_alphanumeric(
    steps: Seq<SinkStep>,
    ps: Seq<SinkStep>,
    word: Seq<char>,
)
    requires
        walked(steps).1.len() == 0,
        pushes_word(ps, word),
        word.len() > 0,
    ensures
        walked(steps + ps.push(SinkStep::Commit)).1 == Seq::<char>::empty(),
        !has_alphanumeric(word) ==> walked(steps + ps.push(SinkStep::Commit)).0 == walked(
            steps,
        ).0,
        has_alphanumeric(word) ==> walked(steps + ps.push(SinkStep::Commit)).0 == walked(
            steps,
        ).0.push((word, walked(steps + ps).2)),
{
    lemma_walked_pushes(steps, ps, word);
    assert(steps + ps.push(SinkStep::Commit) =~= (steps + ps).push(SinkStep::Commit));
    lemma_walked_push(steps + ps, SinkStep::Commit);
}

/// The cased reports of `ps` are, in order, what each push after the first reports.
proof fn lemma_reported_cased_index(ps: Seq<SinkStep>)
    ensures
        ps.len() >= 1 ==> reported_cased(ps).len() == ps.len() - 1,
        forall|i: int|
            0 <= i < ps.len() - 1 ==> #[trigger] reported_cased(ps)[i] == held_flag(ps[i + 1]),
    decreases ps.len(),
{
    if ps.len() > 1 {
        lemma_reported_cased_index(ps.drop_last());
        assert forall|i: int| 0 <= i < ps.len() - 1 implies #[trigger] reported_cased(ps)[i]
            == held_flag(ps[i + 1]) by {
            if i < ps.len() - 2 {
                assert(reported_cased(ps)[i] == reported_cased(ps.drop_last())[i]);
                assert(ps.drop_last()[i + 1] == ps[i + 1]);
            }
        }
    }
}

/// The sink records the walk's own cased reports: once the characters of a word are pushed
/// from a sink with nothing pending, the word is pending and, for each of its characters but
/// the last, the sink holds exactly the report that the next push carried of it.
pub proof fn law_the_sink_keeps_the_walks_cased_reports(
    steps: Seq<SinkStep>,
    ps: Seq<SinkStep>,
    word: Seq<char>,
)
    requires
        walked(steps).1.len() == 0,
        pushes_word(ps, word),
        word.len() > 0,
    ensures
        walked(steps + ps).1 == word,
        walked(steps + ps).2.len() == word.len() - 1,
        forall|i: int|
            0 <= i < word.len() - 1 ==> #[trigger] walked(steps + ps).2[i] == held_flag(ps[i + 1]),
{
    lemma_walked_pushes(steps, ps, word);
    lemma_reported_cased_index(ps);
}

/// A capital sigma that ends a word, after a character the walk reported cased, is written
/// as the final sigma: the text ends with it once the word is kept, whatever the case.
pub proof fn law_a_final_capital_sigma_lowers_to_the_final_form(
    case: Case,
    steps: Seq<SinkStep>,
    ps: Seq<SinkStep>,
    word: Seq<char>,
    k: int,
)
    requires
        walked(steps).1.len() == 0,
        pushes_word(ps, word),
        word.len() >= 2,
        word.last() == CAPITAL_SIGMA,
        has_alphanumeric(word),
        1 <= k < word.len(),
        held_flag(ps[k]),
    ensures
        sink_text(case, walked(steps + ps.push(SinkStep::Commit)).0).last() == FINAL_SIGMA,
{
    law_a_word_is_kept_only_with_an_alphanumeric(steps, ps, word);
    law_the_sink_keeps_the_walks_cased_reports(steps, ps, word);
    let kept = walked(steps).0;
    let cased = walked(steps + ps).2;
    let n = word.len() as int;
    let cap = capitalises_at(case, kept.len() as int);
    assert(cased[k - 1] == held_flag(ps[k]));
    assert(cased_before(cased, n - 1));
    let w = written_word(cap, word, cased);
    assert(written_char(cap, word, cased, n - 1, true) == seq![FINAL_SIGMA]);
    assert(w.last() == FINAL_SIGMA);
    CaseSink::lemma_sink_text_push(case, kept, (word, cased));
}

/// Drives a case sink over a whole walk into the lend `slots`, ending a word only where
/// something was pushed since the last end.
///
/// The walk succeeds exactly when the lend is at least as long as the most any of its steps
/// needs, and then leaves the same sink whatever the lend's size. A refusal reports the
/// lend's size and asks for more than that, and for no more than the walk needs: so a
/// caller that retries with at least `wanted` bytes each time comes to a lend that is
/// enough.
pub fn write_steps(case: Case, steps: &Vec<SinkStep>, slots: &mut [u8]) -> (r: Result<
    CaseSink,
    Exhausted,
>)
    requires
        old(slots)@.len() <= isize::MAX,
    ensures
        final(slots)@.len() == old(slots)@.len(),
        r is Ok <==> walk_need(case, steps@) <= old(slots)@.len(),
        r matches Ok(sink) ==> sink.wf(final(slots)@) && sink.case_of() == case && (
        sink.kept(),
        sink.pending(),
        sink.pending_cased(),
        ) == walked(steps@),
        r matches Err(e) ==> refusal_of(e, old(slots)@.len() as int) && e.wanted <= walk_need(
            case,
            steps@,
        ),
{
    let ghost len = slots@.len();
    let mut sink = CaseSink::new(case);
    let mut i: usize = 0;
    assert(steps@.take(0) =~= Seq::<SinkStep>::empty());
    while i < steps.len()
        invariant
            i <= steps@.len(),
            slots@.len() == len,
            len == old(slots)@.len(),
            len <= isize::MAX,
            sink.wf(slots@),
            sink.case_of() == case,
            (sink.kept(), sink.pending(), sink.pending_cased()) == walked(steps@.take(i as int)),
            walk_need(case, steps@.take(i as int)) <= len,
        decreases steps@.len() - i,
    {
        let ghost st = walked(steps@.take(i as int));
        proof {
            assert(steps@.take(i as int + 1).drop_last() =~= steps@.take(i as int));
            assert(steps@.take(i as int + 1).last() == steps@[i as int]);
            lemma_walk_need_prefix(case, steps@, i as int + 1);
            assert(sink.words == sink.kept@.len());
            assert(sink.text_once_pushed() == once_pushed_text(case, st));
            assert(sink.text_with_word() == with_word_text(case, st));
        }
        match steps[i] {
            SinkStep::Push(c, held_is_cased) => {
                match sink.push_char(slots, c, held_is_cased) {
                    Ok(()) => {},
                    Err(e) => {
                        return Err(e);
                    },
                }
            },
            SinkStep::Commit => {
                if !sink.pending_is_empty() {
                    match sink.commit(slots) {
                        Ok(()) => {},
                        Err(e) => {
                            return Err(e);
                        },
                    }
                }
            },
        }
        i = i + 1;
    }
    proof {
        assert(steps@.take(i as int) =~= steps@);
    }
    Ok(sink)
}

/// Each raw word lowercased where it stands, as written in a position that is not capitalised.
pub open spec fn lowered_words(words: Seq<(Seq<char>, Seq<bool>)>) -> Seq<Seq<char>> {
    Seq::new(words.len(), |i: int| written_word(false, words[i].0, words[i].1))
}

/// Past the first character, whether a word is capitalised changes nothing.
proof fn lemma_prefix_capital_irrelevant(raw: Seq<char>, cased: Seq<bool>, n: int)
    requires
        1 <= n,
    ensures
        written_prefix(true, raw, cased, n) == written_prefix(true, raw, cased, 1)
            + written_prefix(false, raw, cased, n).subrange(
            written_prefix(false, raw, cased, 1).len() as int,
            written_prefix(false, raw, cased, n).len() as int,
        ),
        written_prefix(false, raw, cased, 1).len() <= written_prefix(false, raw, cased, n).len(),
        written_prefix(false, raw, cased, n).subrange(0, written_prefix(false, raw, cased, 1).len() as int)
            == written_prefix(false, raw, cased, 1),
    decreases n,
{
    if n > 1 {
        lemma_prefix_capital_irrelevant(raw, cased, n - 1);
        let a = written_prefix(false, raw, cased, n - 1);
        let b = written_char(false, raw, cased, n - 1, false);
        assert(written_char(true, raw, cased, n - 1, false) == b);
        let k = written_prefix(false, raw, cased, 1).len() as int;
        assert((a + b).subrange(k, (a + b).len() as int) =~= a.subrange(k, a.len() as int) + b);
        assert((a + b).subrange(0, k) =~= a.subrange(0, k));
    } else {
        assert(written_prefix(false, raw, cased, n).subrange(
            written_prefix(false, raw, cased, 1).len() as int,
            written_prefix(false, raw, cased, n).len() as int,
        ) =~= Seq::<char>::empty());
        assert(written_prefix(false, raw, cased, 1).subrange(0, written_prefix(false, raw, cased, 1).len() as int)
            =~= written_prefix(false, raw, cased, 1));
    }
}

/// A capitalised word is the capitalisation of the word as lowered, provided its first
/// character lowers to at least one character, and a capital sigma to the non-final sigma.
proof fn lemma_capitalised_word(raw: Seq<char>, cased: Seq<bool>)
    requires
        raw.len() > 0,
        lowercase_of(raw[0]).len() > 0,
        raw[0] == CAPITAL_SIGMA ==> lowercase_of(CAPITAL_SIGMA) == seq![NON_FINAL_SIGMA],
    ensures
        written_word(true, raw, cased) == capitalised_word(written_word(false, raw, cased)),
{
    let n = raw.len() as int;
    let first_lower = lowered_char(raw[0], n == 1, false);
    assert(first_lower == lowercase_of(raw[0]));
    assert(!cased_before(cased, 0));
    if n == 1 {
        assert(written_prefix(true, raw, cased, 0) =~= Seq::<char>::empty());
        assert(written_prefix(false, raw, cased, 0) =~= Seq::<char>::empty());
        assert(written_word(false, raw, cased) =~= first_lower);
        assert(written_word(true, raw, cased) =~= capital_char(raw[0]));
        assert(capitalised_word(first_lower) =~= capital_char(raw[0]));
    } else {
        lemma_prefix_capital_irrelevant(raw, cased, n - 1);
        let lw = written_prefix(false, raw, cased, n - 1);
        let k = written_prefix(false, raw, cased, 1).len() as int;
        assert(written_prefix(true, raw, cased, 0) =~= Seq::<char>::empty());
        assert(written_prefix(false, raw, cased, 0) =~= Seq::<char>::empty());
        assert(written_prefix(false, raw, cased, 1) =~= first_lower);
        assert(written_prefix(true, raw, cased, 1) =~= capital_char(raw[0]));
        let last = written_char(true, raw, cased, n - 1, true);
        assert(last == written_char(false, raw, cased, n - 1, true));
        let rest = lw.subrange(k, lw.len() as int);
        assert(lw =~= first_lower + rest);
        assert(written_word(false, raw, cased) =~= first_lower + (rest + last));
        assert(written_word(true, raw, cased) =~= capital_char(raw[0]) + (rest + last));
        assert(capitalised_word(first_lower + (rest + last)) =~= uppercase_of(first_lower[0])
            + first_lower.drop_first() + (rest + last));
    }
}

/// The lending conversion writes what the allocating conversion writes for the same words.
///
/// The text a case sink holds once the walk has committed its words is the words, each
/// lowercased where it stands, written in the case: the same function the allocating
/// conversions compute from the segments. It rests on two facts of `char::to_lowercase`: the
/// first character of each word lowers to at least one character, and a word that starts
/// with a capital sigma lowers it to the non-final sigma.
pub proof fn law_lending_matches_allocating(case: Case, words: Seq<(Seq<char>, Seq<bool>)>)
    requires
        forall|i: int| 0 <= i < words.len() ==> raw_word_wf(#[trigger] words[i]),
        forall|i: int| 0 <= i < words.len() ==> lowercase_of(#[trigger] words[i].0[0]).len() > 0,
        forall|i: int|
            0 <= i < words.len() && #[trigger] words[i].0[0] == CAPITAL_SIGMA ==> lowercase_of(
                CAPITAL_SIGMA,
            ) == seq![NON_FINAL_SIGMA],
    ensures
        sink_text(case, words) == in_case(case, lowered_words(words)),
{
    let lhs = Seq::new(
        words.len(),
        |i: int| written_word(capitalises_at(case, i), words[i].0, words[i].1),
    );
    let rhs = styled_words(case, lowered_words(words));
    assert forall|i: int| 0 <= i < words.len() implies #[trigger] lhs[i] == rhs[i] by {
        assert(raw_word_wf(words[i]));
        if capitalises_at(case, i) {
            if words[i].0[0] == CAPITAL_SIGMA {
                assert(lowercase_of(CAPITAL_SIGMA) == seq![NON_FINAL_SIGMA]);
            }
            lemma_capitalised_word(words[i].0, words[i].1);
        }
    }
    assert(lhs =~= rhs);
}

} // verus!
