//! Regular expressions: compiled once, matched against many lines.

use regex::Regex;
use vstd::prelude::*;

verus! {

// ---------------------------------------------------------------------------
// Trusted: the crate `regex`
// ---------------------------------------------------------------------------

/// A compiled regular expression.
#[verifier::external_type_specification]
#[verifier::external_body]
pub struct ExRegex(regex::Regex);

/// Why a pattern was refused.
#[verifier::external_type_specification]
#[verifier::external_body]
pub struct ExRegexError(regex::Error);

/// The pattern that a regular expression was compiled from: what `Regex::as_str` returns.
pub uninterp spec fn pattern_of(re: Regex) -> Seq<char>;

/// `Regex::new` accepts the pattern: it is well formed and compiles within the size limit that
/// `regex` sets by default.
pub uninterp spec fn is_pattern(pattern: Seq<char>) -> bool;

/// What `Regex::captures` finds with a pattern in a text: nothing where the pattern matches
/// nowhere, else the text of every capture group, the whole match first, then the groups in the
/// order of their opening parentheses.
pub uninterp spec fn regex_groups(pattern: Seq<char>, text: Seq<char>) -> Option<
    Seq<Option<Seq<char>>>,
>;

/// `Regex::new`: compiles a pattern. The result is the regular expression of that pattern, or an
/// error where the pattern is not accepted.
pub assume_specification[ Regex::new ](re: &str) -> (r: Result<Regex, regex::Error>)
    ensures
        match r {
            Ok(compiled) => is_pattern(re@) && pattern_of(compiled) == re@,
            Err(_) => !is_pattern(re@),
        },
;

/// `Regex::captures`: the capture groups of the first match, which depend on the pattern and the
/// text alone.
#[verifier::external_body]
fn captures(re: &Regex, text: &str) -> (r: Option<Vec<Option<String>>>)
    ensures
        groups_view(r) == regex_groups(pattern_of(*re), text@),
{
    re.captures(text).map(
        |found| found.iter().map(|group| group.map(|m| m.as_str().to_string())).collect(),
    )
}

// ---------------------------------------------------------------------------
// Groups
// ---------------------------------------------------------------------------

/// The text of a group that may be missing.
pub open spec fn group_view(g: Option<String>) -> Option<Seq<char>> {
    match g {
        Some(s) => Some(s@),
        None => None,
    }
}

/// The texts of all groups.
pub open spec fn groups_seq(g: Seq<Option<String>>) -> Seq<Option<Seq<char>>> {
    g.map_values(|x: Option<String>| group_view(x))
}

/// The texts of all groups, where there was a match.
pub open spec fn groups_view(g: Option<Vec<Option<String>>>) -> Option<Seq<Option<Seq<char>>>> {
    match g {
        Some(v) => Some(groups_seq(v@)),
        None => None,
    }
}

/// Group `i`, where it took part in the match.
pub open spec fn group_at(g: Seq<Option<Seq<char>>>, i: int) -> Option<Seq<char>> {
    if 0 <= i < g.len() {
        g[i]
    } else {
        None
    }
}

/// Group `i`, where it took part in the match.
pub fn group(g: &Vec<Option<String>>, i: usize) -> (r: Option<String>)
    ensures
        group_view(r) == group_at(groups_seq(g@), i as int),
{
    if i < g.len() {
        match &g[i] {
            Some(s) => Some(s.clone()),
            None => None,
        }
    } else {
        None
    }
}

/// The pattern of a line format is not accepted.
#[derive(Clone, Copy, Debug, PartialEq, Eq, Structural)]
pub struct PatternError;

/// A pattern ready for use.
pub struct Matcher {
    regex: Regex,
}

impl Matcher {
    /// The pattern.
    pub closed spec fn pattern(self) -> Seq<char> {
        pattern_of(self.regex)
    }

    /// Compiles a pattern.
    pub fn new(pattern: &str) -> (r: Result<Matcher, PatternError>)
        ensures
            match r {
                Ok(m) => is_pattern(pattern@) && m.pattern() == pattern@,
                Err(_) => !is_pattern(pattern@),
            },
    {
        match Regex::new(pattern) {
            Ok(regex) => Ok(Matcher { regex }),
            Err(_) => Err(PatternError),
        }
    }

    /// The capture groups of the first match in a text.
    pub fn groups(&self, text: &str) -> (r: Option<Vec<Option<String>>>)
        ensures
            groups_view(r) == regex_groups(self.pattern(), text@),
    {
        captures(&self.regex, text)
    }
}

} // verus!
