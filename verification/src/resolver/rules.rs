//! The rules a resolver applies.
use vstd::prelude::*;

use crate::resolver::rules::Direction::{Auto, Next, Previous};
use crate::resolver::rules::IncludeMode::{Attach, Dedicated};
use crate::resolver::rules::RemoveMode::All;
use crate::resolver::rules::ResolverProcessingRule::{BoundEnd, BoundStart, Include, Remove};
use crate::resolver::rules::RuleTarget::{
    Acronym, CaseChange, DetectionArtifacts, NonPunctSpecialChar, Numerics, PunctSpecialChar, Word,
};

verus! {

/// Where a rule applies.
pub enum Scope {
    SingleWord,
    /// Prepends are only considered for the first word, and appends for the last.
    FullInput,
}

/// What a removal takes away.
pub enum RemoveMode {
    /// Nothing is removed.
    Nothing,
    Prepended(Scope),
    Appended(Scope),
    PrependedOrAppended(Scope),
    All,
}

/// How an included target is kept.
pub enum IncludeMode {
    /// As its own word, separately.
    Dedicated,
    Attach(Direction),
}

/// What a rule is about.
pub enum RuleTarget {
    Word,
    String(String),
    Char(char),
    Numerics,
    SpecialChars,
    DetectionArtifacts,
    Acronym,
    PunctSpecialChar,
    NonPunctSpecialChar,
    CaseChange(Direction),
}

/// One processing rule.
pub enum ResolverProcessingRule {
    Remove(RuleTarget, RemoveMode),
    Include(RuleTarget, IncludeMode),
    BoundStart(RuleTarget),
    BoundEnd(RuleTarget),
}

/// Which way something attaches.
pub enum Direction {
    Previous,
    Next,
    /// e.g hashtags go to next usually (i.e prefix), but a percent symbol would go to
    /// previous (i.e postfix).
    ///
    /// For numerics, we'd consider if the next word starts with a case change, and if it
    /// does, it's probably meant to go to next, but if there's a case change prior, or no
    /// case, probably goes to previous.
    Auto,
}

/// The resolution-pass rules of [`DefaultRules`], in order.
pub open spec fn default_resolution_rules() -> Seq<ResolverProcessingRule> {
    seq![
        Remove(DetectionArtifacts, All),
        Include(Word, Dedicated),
        Include(Acronym, Dedicated),
        Include(NonPunctSpecialChar, Attach(Auto)),
        Include(Numerics, Attach(Auto)),
        BoundStart(CaseChange(Next)),
        BoundEnd(CaseChange(Previous)),
        BoundStart(PunctSpecialChar),
        BoundEnd(PunctSpecialChar),
    ]
}

/// The punctuation characters that bound words unless rules say otherwise.
pub open spec fn default_punct_chars() -> Seq<char> {
    seq!['-', '_', '.', ',', ':', ';', '?', '!']
}

/// The rules a word-bound resolver follows.
pub trait ResolverRules {
    /// The characters these rules consider punctuation: unless an implementation says
    /// otherwise, those of the default rules.
    open spec fn punct_chars_spec() -> Seq<char> {
        default_punct_chars()
    }

    /// The resolution-pass rules, in order: unless an implementation says otherwise, those
    /// of the default rules.
    open spec fn resolution_pass_rules_spec() -> Seq<ResolverProcessingRule> {
        default_resolution_rules()
    }

    /// The rules consider the chars in this string punctuation characters, delimiting words.
    ///
    /// This also means inversely, that non-punct chars are everything but these.
    fn punct_chars() -> (r: String)
        ensures
            r@ == Self::punct_chars_spec(),
    ;

    /// These are operations and rules that are run on the entire input before we pass it on
    /// to the resolution step.
    ///
    /// When pre_pass_rules is empty, no pre-process pass will be run.
    fn pre_pass_rules() -> (r: Vec<ResolverProcessingRule>)
        default_ensures
            r@ == Seq::<ResolverProcessingRule>::empty(),
    {
        Vec::new()
    }

    /// This is the ruleset passed on to the word bound resolving implementations.
    ///
    /// When resolution_pass_rules is empty, the defaults will be used.
    fn resolution_pass_rules() -> (r: Vec<ResolverProcessingRule>)
        ensures
            r@ == Self::resolution_pass_rules_spec(),
    ;

    /// These are operations and rules that are run on the resolved output of the resolution
    /// pass, which should be a fairly finished vector of properly bounded words.
    ///
    /// When post_pass_rules is empty, no post-process pass will be run.
    fn post_pass_rules() -> (r: Vec<ResolverProcessingRule>)
        default_ensures
            r@ == Seq::<ResolverProcessingRule>::empty(),
    {
        Vec::new()
    }
}

/// The rules the resolvers follow unless told otherwise.
pub struct DefaultRules;

impl ResolverRules for DefaultRules {
    fn punct_chars() -> (r: String) {
        let r = String::from_str("-_.,:;?!");
        proof {
            reveal_strlit("-_.,:;?!");
            assert(r@ =~= default_punct_chars());
        }
        r
    }

    fn pre_pass_rules() -> (r: Vec<ResolverProcessingRule>)
        ensures
            r@.len() == 0,
    {
        vec![]
    }

    fn resolution_pass_rules() -> (r: Vec<ResolverProcessingRule>)
        ensures
            r@ == default_resolution_rules(),
    {
        let r = vec![
            Remove(DetectionArtifacts, All),
            Include(Word, Dedicated),
            Include(Acronym, Dedicated),
            Include(NonPunctSpecialChar, Attach(Auto)),
            Include(Numerics, Attach(Auto)),
            BoundStart(CaseChange(Next)),
            BoundEnd(CaseChange(Previous)),
            BoundStart(PunctSpecialChar),
            BoundEnd(PunctSpecialChar),
        ];
        assert(r@ =~= default_resolution_rules());
        r
    }

    fn post_pass_rules() -> (r: Vec<ResolverProcessingRule>)
        ensures
            r@.len() == 0,
    {
        vec![]
    }
}

} // verus!
