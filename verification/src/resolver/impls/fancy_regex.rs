//! The boundary pattern of the `fancy_regex` resolver.
//!
//! Resolving with that pattern is the `word_bounds` crate's work; what stands here is how the
//! rules compile into it.
use vstd::prelude::*;
use core::marker::PhantomData;

use crate::cases::{join_strings, join_words, string_views};
use crate::resolver::rules::{
    default_resolution_rules, DefaultRules, ResolverProcessingRule, ResolverRules, RuleTarget,
};
use crate::resolver::CompiledRules;

verus! {

/// A lowercase letter followed by an uppercase one.
pub open spec fn lower_to_upper_pattern() -> Seq<char> {
    r"(?<=\p{Ll})(?=\p{Lu})"@
}

/// An uppercase letter followed by one that starts a capitalised word.
pub open spec fn upper_to_camel_pattern() -> Seq<char> {
    r"(?<=\p{Lu})(?=\p{Lu}\p{Ll})"@
}

/// A class of the punctuation characters.
pub open spec fn punct_class_pattern(punct: Seq<char>) -> Seq<char> {
    seq!['['] + punct + seq![']']
}

/// The pattern pieces one more boundary rule on `target` adds, with the flags that keep each
/// kind of boundary from being added twice.
pub open spec fn bound_step(
    state: (Seq<Seq<char>>, bool, bool),
    target: RuleTarget,
    punct: Seq<char>,
) -> (Seq<Seq<char>>, bool, bool) {
    match target {
        RuleTarget::CaseChange(_) => if !state.1 {
            (state.0.push(lower_to_upper_pattern()).push(upper_to_camel_pattern()), true, state.2)
        } else {
            state
        },
        RuleTarget::PunctSpecialChar => if !state.2 {
            (state.0.push(punct_class_pattern(punct)), state.1, true)
        } else {
            state
        },
        _ => state,
    }
}

/// The pattern pieces `rules` compile into, in rule order, with whether a case-change and a
/// punctuation boundary were added.
pub open spec fn pattern_pieces(punct: Seq<char>, rules: Seq<ResolverProcessingRule>) -> (
    Seq<Seq<char>>,
    bool,
    bool,
)
    decreases rules.len(),
{
    if rules.len() == 0 {
        (Seq::empty(), false, false)
    } else {
        let prev = pattern_pieces(punct, rules.drop_last());
        match rules.last() {
            ResolverProcessingRule::BoundStart(t) => bound_step(prev, t, punct),
            ResolverProcessingRule::BoundEnd(t) => bound_step(prev, t, punct),
            _ => prev,
        }
    }
}

/// The rules that apply: the given ones, or the default rules where none are given.
pub open spec fn rules_in_force(rules: Seq<ResolverProcessingRule>) -> Seq<ResolverProcessingRule> {
    if rules.len() == 0 {
        default_resolution_rules()
    } else {
        rules
    }
}

/// The word-boundary pattern of `rules`: the pieces of the rules in force, as alternatives.
pub open spec fn compiled_pattern(punct: Seq<char>, rules: Seq<ResolverProcessingRule>) -> Seq<
    char,
> {
    join_words(pattern_pieces(punct, rules_in_force(rules)).0, seq!['|'])
}

/// Appends `tail` to `s`.
fn push_str(s: &mut String, tail: &str)
    ensures
        final(s)@ == old(s)@ + tail@,
{
    vstd::string::StringExecFns::append(s, tail);
}

/// Compiles boundary rules into a `fancy_regex` pattern: a case change becomes two lookaround
/// boundaries and the punctuation a character class, each once, joined as alternatives. An
/// empty rule list stands for the default rules.
pub fn compile_pattern(punct_chars: &str, given: &Vec<ResolverProcessingRule>) -> (pattern: String)
    ensures
        pattern@ == compiled_pattern(punct_chars@, given@),
{
    // When no resolution rules are given, the defaults are used.
    let defaults = if given.len() == 0 {
        Some(DefaultRules::resolution_pass_rules())
    } else {
        None
    };
    let rules = match &defaults {
        Some(d) => d,
        None => given,
    };
    assert(rules@ == rules_in_force(given@));
    let mut pieces: Vec<String> = Vec::new();
    let mut flag_case_change = false;
    let mut flag_punct = false;

    // Create Regex string for punct_char boundaries
    let mut punct_char_pattern = String::from_str("[");
    push_str(&mut punct_char_pattern, punct_chars);
    push_str(&mut punct_char_pattern, "]");
    proof {
        reveal_strlit("[");
        reveal_strlit("]");
        assert(punct_char_pattern@ =~= punct_class_pattern(punct_chars@));
    }

    let mut i: usize = 0;
    while i < rules.len()
        invariant
            i <= rules@.len(),
            punct_char_pattern@ == punct_class_pattern(punct_chars@),
            rules@ == rules_in_force(given@),
            (string_views(pieces@), flag_case_change, flag_punct) == pattern_pieces(
                punct_chars@,
                rules@.take(i as int),
            ),
        decreases rules@.len() - i,
    {
        proof {
            assert(rules@.take(i as int + 1).drop_last() =~= rules@.take(i as int));
            assert(rules@.take(i as int + 1).last() == rules@[i as int]);
        }
        let target = match &rules[i] {
            ResolverProcessingRule::BoundStart(target) => Some(target),
            ResolverProcessingRule::BoundEnd(target) => Some(target),
            _ => None,
        };
        if let Some(target) = target {
            match target {
                RuleTarget::CaseChange(_) => {
                    if !flag_case_change {
                        let ghost prev = pieces@;
                        // lowercase to uppercase
                        pieces.push(String::from_str(r"(?<=\p{Ll})(?=\p{Lu})"));
                        // UPPERCASE to camelCase
                        pieces.push(String::from_str(r"(?<=\p{Lu})(?=\p{Lu}\p{Ll})"));
                        flag_case_change = true;
                        assert(string_views(pieces@) =~= string_views(prev).push(
                            lower_to_upper_pattern(),
                        ).push(upper_to_camel_pattern()));
                    }
                },
                RuleTarget::PunctSpecialChar => {
                    if !flag_punct {
                        let ghost prev = pieces@;
                        // treat punctuation defined in rules as boundaries
                        pieces.push(punct_char_pattern.clone());
                        flag_punct = true;
                        assert(string_views(pieces@) =~= string_views(prev).push(
                            punct_class_pattern(punct_chars@),
                        ));
                    }
                },
                _ => {},
            }
        }
        i = i + 1;
    }
    assert(rules@.take(i as int) =~= rules@);
    let pattern = join_strings(&pieces, "|");
    proof {
        reveal_strlit("|");
        assert("|"@ =~= seq!['|']);
    }
    pattern
}

/// Whether `rule` bounds words at a case change, in either direction.
pub open spec fn bounds_case_change(rule: ResolverProcessingRule) -> bool {
    ||| rule matches ResolverProcessingRule::BoundStart(RuleTarget::CaseChange(_))
    ||| rule matches ResolverProcessingRule::BoundEnd(RuleTarget::CaseChange(_))
}

/// Two rules at one place compile alike when they bound the same kind of thing: a case
/// change in either direction, punctuation, or nothing.
proof fn lemma_pieces_of_like_rules(
    punct: Seq<char>,
    a: Seq<ResolverProcessingRule>,
    b: Seq<ResolverProcessingRule>,
    i: int,
)
    requires
        0 <= i < a.len(),
        a.len() == b.len(),
        forall|j: int| 0 <= j < a.len() && j != i ==> a[j] == b[j],
        bounds_case_change(a[i]),
        bounds_case_change(b[i]),
    ensures
        pattern_pieces(punct, a) == pattern_pieces(punct, b),
    decreases a.len(),
{
    if i < a.len() - 1 {
        lemma_pieces_of_like_rules(punct, a.drop_last(), b.drop_last(), i);
        assert(a.last() == b.last());
    } else {
        assert(a.drop_last() =~= b.drop_last());
    }
}

/// The direction a case-change boundary carries, and whether it bounds a word's start or
/// end, do not change the compiled pattern: any case-change boundary rule in a place compiles
/// as any other would.
pub proof fn law_every_case_change_boundary_compiles_alike(
    punct: Seq<char>,
    rules: Seq<ResolverProcessingRule>,
    i: int,
    one: ResolverProcessingRule,
    other: ResolverProcessingRule,
)
    requires
        0 <= i < rules.len(),
        bounds_case_change(one),
        bounds_case_change(other),
    ensures
        compiled_pattern(punct, rules.update(i, one)) == compiled_pattern(
            punct,
            rules.update(i, other),
        ),
{
    lemma_pieces_of_like_rules(punct, rules.update(i, one), rules.update(i, other), i);
}

/// Once some rule bounds a case change, the pieces hold both case-change lookarounds.
proof fn lemma_case_change_pieces(punct: Seq<char>, rules: Seq<ResolverProcessingRule>)
    ensures
        (exists|j: int| 0 <= j < rules.len() && bounds_case_change(#[trigger] rules[j]))
            ==> pattern_pieces(punct, rules).1,
        pattern_pieces(punct, rules).1 ==> pattern_pieces(punct, rules).0.contains(
            r"(?<=\p{Ll})(?=\p{Lu})"@,
        ) && pattern_pieces(punct, rules).0.contains(r"(?<=\p{Lu})(?=\p{Lu}\p{Ll})"@),
    decreases rules.len(),
{
    if rules.len() > 0 {
        let prev = rules.drop_last();
        lemma_case_change_pieces(punct, prev);
        let before = pattern_pieces(punct, prev);
        let after = pattern_pieces(punct, rules);
        if exists|j: int| 0 <= j < rules.len() && bounds_case_change(#[trigger] rules[j]) {
            let j = choose|j: int| 0 <= j < rules.len() && bounds_case_change(#[trigger] rules[j]);
            if j < rules.len() - 1 {
                assert(prev[j] == rules[j]);
            }
        }
        if before.1 {
            assert(before.0.contains(r"(?<=\p{Ll})(?=\p{Lu})"@));
            assert(before.0.contains(r"(?<=\p{Lu})(?=\p{Lu}\p{Ll})"@));
            let x = choose|x: int| 0 <= x < before.0.len() && before.0[x] == r"(?<=\p{Ll})(?=\p{Lu})"@;
            let y = choose|y: int| 0 <= y < before.0.len() && before.0[y] == r"(?<=\p{Lu})(?=\p{Lu}\p{Ll})"@;
            assert(after.0.len() >= before.0.len());
            assert(after.0[x] == before.0[x]);
            assert(after.0[y] == before.0[y]);
        } else if after.1 {
            let n = before.0.len() as int;
            assert(after.0[n] == r"(?<=\p{Ll})(?=\p{Lu})"@);
            assert(after.0[n + 1] == r"(?<=\p{Lu})(?=\p{Lu}\p{Ll})"@);
        }
    }
}

/// A rule list that bounds words at a case change, in either direction, compiles into a
/// pattern that has both case-change lookarounds among its alternatives: a lowercase letter
/// before an uppercase one, and an uppercase letter before a capitalised word.
pub proof fn law_a_case_change_boundary_splits_at_case_changes(
    punct: Seq<char>,
    rules: Seq<ResolverProcessingRule>,
)
    requires
        exists|j: int| 0 <= j < rules.len() && bounds_case_change(#[trigger] rules[j]),
    ensures
        pattern_pieces(punct, rules_in_force(rules)).0.contains(r"(?<=\p{Ll})(?=\p{Lu})"@),
        pattern_pieces(punct, rules_in_force(rules)).0.contains(
            r"(?<=\p{Lu})(?=\p{Lu}\p{Ll})"@,
        ),
{
    lemma_case_change_pieces(punct, rules);
}

/// The rules `R` as the `fancy_regex` resolver applies them: compiled into a pattern whose
/// matches are the word boundaries.
pub struct FancyRegex<R: ResolverRules = DefaultRules> {
    _phantom_data: PhantomData<R>,
}

impl<R: ResolverRules> FancyRegex<R> {
    /// The boundary pattern of the rules `R`.
    pub open spec fn pattern() -> Seq<char> {
        compiled_pattern(R::punct_chars_spec(), R::resolution_pass_rules_spec())
    }

    /// The rules `R` compiled into the boundary pattern.
    pub fn compile_rules() -> (r: CompiledRules)
        ensures
            r matches CompiledRules::Regex(pattern) && pattern@ == Self::pattern(),
    {
        let punct_chars = R::punct_chars();
        let rules = R::resolution_pass_rules();
        CompiledRules::Regex(compile_pattern(punct_chars.as_str(), &rules))
    }
}

} // verus!
