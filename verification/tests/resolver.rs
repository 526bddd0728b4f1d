//! Word-bound rules and the resolvers that apply them.

use str_extensions::resolver::impls::FancyRegex;
use str_extensions::resolver::impls::fancy_regex::compile_pattern;
use str_extensions::resolver::rules::Direction::{Auto, Next, Previous};
use str_extensions::resolver::rules::IncludeMode::{Attach, Dedicated};
use str_extensions::resolver::rules::RemoveMode::All;
use str_extensions::resolver::rules::ResolverProcessingRule::{BoundEnd, BoundStart, Include, Remove};
use str_extensions::resolver::rules::RuleTarget::{
    Acronym, CaseChange, DetectionArtifacts, NonPunctSpecialChar, Numerics, PunctSpecialChar, Word,
};
use str_extensions::resolver::rules::{DefaultRules, ResolverProcessingRule, ResolverRules};
use str_extensions::resolver::CompiledRules;

pub struct _DefaultRules;

impl ResolverRules for _DefaultRules {
    fn punct_chars() -> String {
        String::from("-_.,:;?!")
    }

    fn pre_pass_rules() -> Vec<ResolverProcessingRule> {
        vec![]
    }

    fn resolution_pass_rules() -> Vec<ResolverProcessingRule> {
        vec![
            Remove(DetectionArtifacts, All),
            Include(Word, Dedicated),
            Include(Acronym, Dedicated),
            Include(NonPunctSpecialChar, Attach(Auto)),
            Include(Numerics, Attach(Auto)),
            BoundStart(CaseChange(Next)),
            BoundEnd(CaseChange(Previous)),
            BoundStart(PunctSpecialChar),
            BoundEnd(PunctSpecialChar),
        ]
    }

    fn post_pass_rules() -> Vec<ResolverProcessingRule> {
        vec![]
    }
}

#[test]
fn test_compile_rules() {
    // Result from compile_rules
    let result = match FancyRegex::<_DefaultRules>::compile_rules() {
        CompiledRules::Regex(r) => r,
        _ => panic!("Compiled rules were not a Regex"),
    };

    // Established pattern as per default rules, adjust as required
    let expected = r"(?<=\p{Ll})(?=\p{Lu})|(?<=\p{Lu})(?=\p{Lu}\p{Ll})|[-_.,:;?!]";

    // Test that the result from compile_rules matches the established pattern
    assert_eq!(
        result, expected,
        "Compiled pattern does not match expectations"
    );
}


#[test]
fn the_default_rules_compile_to_the_same_pattern() {
    match FancyRegex::<DefaultRules>::compile_rules() {
        CompiledRules::Regex(r) => {
            assert_eq!(r, r"(?<=\p{Ll})(?=\p{Lu})|(?<=\p{Lu})(?=\p{Lu}\p{Ll})|[-_.,:;?!]")
        },
        _ => panic!("not a pattern"),
    }
    assert_eq!(DefaultRules::punct_chars(), "-_.,:;?!");
    assert_eq!(DefaultRules::resolution_pass_rules().len(), 9);
    assert!(DefaultRules::pre_pass_rules().is_empty());
    assert!(DefaultRules::post_pass_rules().is_empty());
}

#[test]
fn each_kind_of_boundary_is_compiled_once_in_rule_order() {
    // no rules given: the default rules apply
    assert_eq!(compile_pattern("-", &vec![]), r"(?<=\p{Ll})(?=\p{Lu})|(?<=\p{Lu})(?=\p{Lu}\p{Ll})|[-]");
    assert_eq!(compile_pattern("-", &vec![BoundEnd(PunctSpecialChar), BoundStart(PunctSpecialChar)]), "[-]");
    assert_eq!(
        compile_pattern("_", &vec![BoundStart(PunctSpecialChar), Include(Word, Dedicated), BoundEnd(CaseChange(Previous))]),
        r"[_]|(?<=\p{Ll})(?=\p{Lu})|(?<=\p{Lu})(?=\p{Lu}\p{Ll})"
    );
    assert_eq!(compile_pattern(".", &vec![BoundStart(Word), Remove(PunctSpecialChar, All)]), "");
}
