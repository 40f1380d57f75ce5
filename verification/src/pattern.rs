//! Regular expressions, matched by the `regex` crate.
//!
//! What a regular expression matches is left to `regex`: the contracts name
//! its answers (`regex_finds`, `regex_groups`, `regex_count`) as functions of
//! the pattern and the text, and everything this crate does with an answer is
//! verified against those names.

use vstd::prelude::*;
use crate::text::str_chars;

verus! {

#[verifier::external_type_specification]
#[verifier::external_body]
pub struct ExRegex(regex::Regex);

#[verifier::external_type_specification]
#[verifier::external_body]
pub struct ExRegexError(regex::Error);

/// Whether `regex::Regex::new` accepts `pattern`.
pub uninterp spec fn regex_compiles(pattern: Seq<char>) -> bool;

/// `regex::Regex::is_match`: whether the regex of `pattern` matches somewhere in `text`.
pub uninterp spec fn regex_finds(pattern: Seq<char>, text: Seq<char>) -> bool;

/// `regex::Regex::captures`: for the leftmost-first match of `pattern` in `text`,
/// the text of each capture group (group 0 is the whole match; a group that
/// took no part in the match is `None`); `None` when there is no match.
pub uninterp spec fn regex_groups(pattern: Seq<char>, text: Seq<char>) -> Option<
    Seq<Option<Seq<char>>>,
>;

/// `regex::Regex::find_iter(..).count()`: the number of successive
/// non-overlapping matches of `pattern` in `text`.
pub uninterp spec fn regex_count(pattern: Seq<char>, text: Seq<char>) -> nat;

/// `regex::Regex::new`. Claims only that it succeeds exactly on the patterns
/// named by `regex_compiles`; the compiled value is opaque.
#[verifier::external_body]
fn regex_new(pattern: &str) -> (r: Result<regex::Regex, regex::Error>)
    ensures
        r is Ok <==> regex_compiles(pattern@),
{
    regex::Regex::new(pattern)
}

/// A compiled regular expression and the pattern it was compiled from.
/// Only `Pattern::compile` builds one, so `re` is always the regex of `source`.
pub struct Pattern {
    source: Vec<char>,
    re: regex::Regex,
}

impl Pattern {
    /// The pattern this regex was compiled from.
    pub closed spec fn source(&self) -> Seq<char> {
        self.source@
    }

    /// Compiles `pattern`; `None` when `regex` refuses it.
    pub fn compile(pattern: &str) -> (r: Option<Pattern>)
        ensures
            r is Some <==> regex_compiles(pattern@),
            r matches Some(p) ==> p.source() == pattern@,
    {
        match regex_new(pattern) {
            Ok(re) => Some(Pattern { source: str_chars(pattern), re }),
            Err(_) => None,
        }
    }
}

/// `regex::Regex::is_match` on the characters of `text`. Claims that the
/// answer is `regex_finds` of the regex's source pattern and `text`.
#[verifier::external_body]
fn regex_is_match(p: &Pattern, text: &[char]) -> (r: bool)
    ensures
        r == regex_finds(p.source(), text@),
{
    let hay = String::from_iter(text.iter());
    p.re.is_match(&hay)
}

/// `regex::Regex::captures` on the characters of `text`, each group's text
/// copied out. Claims that the answer is `regex_groups` of the source pattern
/// and `text`.
#[verifier::external_body]
fn regex_captures(p: &Pattern, text: &[char]) -> (r: Option<Vec<Option<Vec<char>>>>)
    ensures
        r.deep_view() == regex_groups(p.source(), text@),
{
    let hay = String::from_iter(text.iter());
    match p.re.captures(&hay) {
        Some(caps) => {
            let mut groups: Vec<Option<Vec<char>>> = Vec::new();
            for m in caps.iter() {
                groups.push(match m {
                    Some(m) => Some(m.as_str().chars().collect()),
                    None => None,
                });
            }
            Some(groups)
        },
        None => None,
    }
}

/// `regex::Regex::find_iter(..).count()` on the characters of `text`. Claims
/// that the answer is `regex_count` of the source pattern and `text`.
#[verifier::external_body]
fn regex_find_count(p: &Pattern, text: &[char]) -> (r: usize)
    ensures
        r as nat == regex_count(p.source(), text@),
{
    let hay = String::from_iter(text.iter());
    p.re.find_iter(&hay).count()
}

/// `pattern` compiles and matches somewhere in `text`.
pub open spec fn hits(pattern: Seq<char>, text: Seq<char>) -> bool {
    regex_compiles(pattern) && regex_finds(pattern, text)
}

/// The capture groups of `pattern` in `text`; `None` when the pattern does
/// not compile or does not match.
pub open spec fn groups(pattern: Seq<char>, text: Seq<char>) -> Option<Seq<Option<Seq<char>>>> {
    if regex_compiles(pattern) {
        regex_groups(pattern, text)
    } else {
        None
    }
}

/// The number of matches of `pattern` in `text`; 0 when it does not compile.
pub open spec fn match_count(pattern: Seq<char>, text: Seq<char>) -> nat {
    if regex_compiles(pattern) {
        regex_count(pattern, text)
    } else {
        0
    }
}

/// Whether the compiled pattern, if any, matches in `text`.
pub fn pattern_hits(p: &Option<Pattern>, text: &[char]) -> (r: bool)
    ensures
        r == (p matches Some(q) && regex_finds(q.source(), text@)),
{
    match p {
        Some(q) => regex_is_match(q, text),
        None => false,
    }
}

/// The capture groups of the compiled pattern, if any, in `text`.
pub fn pattern_groups(p: &Option<Pattern>, text: &[char]) -> (r: Option<Vec<Option<Vec<char>>>>)
    ensures
        p is None ==> r is None,
        p matches Some(q) ==> r.deep_view() == regex_groups(q.source(), text@),
{
    match p {
        Some(q) => regex_captures(q, text),
        None => None,
    }
}

/// The number of matches of the compiled pattern, if any, in `text`.
pub fn pattern_count(p: &Option<Pattern>, text: &[char]) -> (r: usize)
    ensures
        p is None ==> r == 0,
        p matches Some(q) ==> r as nat == regex_count(q.source(), text@),
{
    match p {
        Some(q) => regex_find_count(q, text),
        None => 0,
    }
}

/// `p` is the compiled `source`, when `source` compiles.
pub open spec fn compiled_from(p: Option<Pattern>, source: Seq<char>) -> bool {
    &&& p is Some <==> regex_compiles(source)
    &&& p matches Some(q) ==> q.source() == source
}

} // verus!
