//! Whether a User-Agent is to be rewritten.

use vstd::prelude::*;

use crate::text::{chars_of, contains_chars, contains_seq};

verus! {

/// How User-Agents are selected for rewriting.
#[derive(Clone, Debug)]
pub enum MatchMode {
    /// Those that contain any of the keywords.
    Keywords(Vec<String>),
    /// All of them.
    Force,
    /// Those in which the pattern matches somewhere.
    Regex { pattern: String },
}

/// Whether `pattern` is accepted by the regex engine.
pub uninterp spec fn regex_valid(pattern: Seq<char>) -> bool;

/// Whether the compiled `pattern` matches somewhere in `text`.
pub uninterp spec fn regex_accepts(pattern: Seq<char>, text: Seq<char>) -> bool;

#[verifier::external_type_specification]
#[verifier::external_body]
pub struct ExRegex(regex::Regex);

/// A pattern compiled by the regex engine, kept with the text it was
/// compiled from. Only `compile_pattern` builds one.
pub struct CompiledPattern {
    re: regex::Regex,
    source: String,
}

impl CompiledPattern {
    /// The pattern text this was compiled from.
    pub closed spec fn source(&self) -> Seq<char> {
        self.source@
    }
}

/// Relies on `regex::Regex::new`: the pattern compiles exactly when the
/// engine accepts it.
#[verifier::external_body]
pub(crate) fn compile_pattern(pattern: &str) -> (r: Option<CompiledPattern>)
    ensures
        r.is_some() == regex_valid(pattern@),
        r matches Some(c) ==> c.source() == pattern@,
{
    match regex::Regex::new(pattern) {
        Ok(re) => Some(CompiledPattern { re, source: pattern.to_string() }),
        Err(_) => None,
    }
}

/// Relies on `regex::Regex::is_match`: whether the compiled pattern matches
/// somewhere in `text`.
#[verifier::external_body]
pub(crate) fn pattern_matches(c: &CompiledPattern, text: &str) -> (r: bool)
    ensures
        r == regex_accepts(c.source(), text@),
{
    c.re.is_match(text)
}

/// Whether `ua` contains one of `keywords`, case-sensitively.
pub open spec fn any_contained(ua: Seq<char>, keywords: Seq<String>) -> bool {
    exists|i: int| 0 <= i < keywords.len() && contains_seq(ua, (#[trigger] keywords[i])@)
}

/// The rewrite rule: every UA under `Force`; one containing a keyword under
/// `Keywords`; one that a valid pattern matches under `Regex`.
pub open spec fn modify_rule(mode: MatchMode, ua: Seq<char>) -> bool {
    match mode {
        MatchMode::Force => true,
        MatchMode::Keywords(k) => any_contained(ua, k@),
        MatchMode::Regex { pattern } => regex_valid(pattern@) && regex_accepts(pattern@, ua),
    }
}

/// Whether `ua` contains one of `keywords`.
pub fn contains_any(ua: &str, keywords: &Vec<String>) -> (r: bool)
    ensures
        r == any_contained(ua@, keywords@),
{
    let hay = chars_of(ua);
    let mut i: usize = 0;
    while i < keywords.len()
        invariant
            hay@ == ua@,
            i <= keywords@.len(),
            forall|j: int| 0 <= j < i ==> !contains_seq(ua@, (#[trigger] keywords@[j])@),
        decreases keywords@.len() - i,
    {
        let needle = chars_of(keywords[i].as_str());
        if contains_chars(&hay, &needle) {
            return true;
        }
        i = i + 1;
    }
    false
}

/// Whether `ua` is to be rewritten under `mode`.
pub fn should_modify(ua: &str, mode: &MatchMode) -> (r: bool)
    ensures
        r == modify_rule(*mode, ua@),
{
    match mode {
        MatchMode::Force => true,
        MatchMode::Keywords(k) => contains_any(ua, k),
        MatchMode::Regex { pattern } => match compile_pattern(pattern.as_str()) {
            Some(c) => pattern_matches(&c, ua),
            None => false,
        },
    }
}

/// The rule reads nothing but the characters of the User-Agent: two
/// User-Agents with the same characters get the same answer under any mode.
pub proof fn lemma_rule_reads_only_content(mode: MatchMode, a: &str, b: &str)
    requires
        a@ == b@,
    ensures
        modify_rule(mode, a@) == modify_rule(mode, b@),
{
}

} // verus!
