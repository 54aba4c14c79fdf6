//! Regular expressions: the `regex` crate behind a few functions whose results are named
//! after the pattern and the text they depend on.

use crate::text::{copy_opt, opt_text, str_texts};
use regex::Regex;
use vstd::prelude::*;

verus! {

/// `regex::Regex`, a compiled pattern. Nothing inside it is seen here.
#[verifier::external_type_specification]
#[verifier::external_body]
pub struct ExRegex(regex::Regex);

/// `regex::Error`, the reason why a pattern was not compiled.
#[verifier::external_type_specification]
#[verifier::external_body]
pub struct ExRegexError(regex::Error);

/// The pattern that a compiled expression stands for, which is all that its matches depend
/// on besides the text.
pub uninterp spec fn regex_pattern(re: Regex) -> Seq<char>;

/// Whether `Regex::new` compiles a pattern.
pub uninterp spec fn regex_accepts(pattern: Seq<char>) -> bool;

/// Whether `Regex::is_match` finds the pattern in the text.
pub uninterp spec fn regex_matches(pattern: Seq<char>, text: Seq<char>) -> bool;

/// The groups that `Regex::captures` finds for the leftmost match of the pattern in the
/// text, the whole match first; a group that took no part in the match is absent.
pub uninterp spec fn regex_groups(pattern: Seq<char>, text: Seq<char>) -> Option<
    Seq<Option<Seq<char>>>,
>;

/// `Regex::new`: compiles the pattern with the default configuration. Whether it
/// succeeds depends on the pattern alone, and the result holds that pattern.
#[verifier::external_body]
fn compile(pattern: &str) -> (r: Result<Regex, regex::Error>)
    ensures
        r is Ok <==> regex_accepts(pattern@),
        r matches Ok(re) ==> regex_pattern(re) == pattern@,
{
    Regex::new(pattern)
}

/// `Regex::is_match`: whether the pattern is found anywhere in the text, which the
/// pattern and the text decide.
#[verifier::external_body]
fn is_match(re: &Regex, text: &str) -> (r: bool)
    ensures
        r == regex_matches(regex_pattern(*re), text@),
{
    re.is_match(text)
}

/// The texts of the groups of a match.
pub open spec fn group_texts(groups: Option<Vec<Option<String>>>) -> Option<
    Seq<Option<Seq<char>>>,
> {
    match groups {
        Some(g) => Some(Seq::new(g@.len(), |i: int| opt_text(g@[i]))),
        None => None,
    }
}

/// `Regex::captures`: the texts of the groups of the leftmost match, if there is one,
/// which the pattern and the text decide.
#[verifier::external_body]
fn captures(re: &Regex, text: &str) -> (r: Option<Vec<Option<String>>>)
    ensures
        group_texts(r) == regex_groups(regex_pattern(*re), text@),
{
    re.captures(text).map(|c| c.iter().map(|g| g.map(|m| m.as_str().to_string())).collect())
}

/// What group `k` of a match holds, where there is a match and the group took part in it.
pub open spec fn group_of(groups: Option<Seq<Option<Seq<char>>>>, k: int) -> Option<Seq<char>> {
    match groups {
        Some(g) => if 0 <= k < g.len() {
            g[k]
        } else {
            None
        },
        None => None,
    }
}

/// What group `k` of the leftmost match of the pattern in the text holds.
pub open spec fn captured(pattern: Seq<char>, text: Seq<char>, k: int) -> Option<Seq<char>> {
    group_of(regex_groups(pattern, text), k)
}

/// What group `k` of a match holds, where there is a match and the group took part in it.
pub(crate) fn group(groups: &Option<Vec<Option<String>>>, k: usize) -> (r: Option<String>)
    ensures
        opt_text(r) == group_of(group_texts(*groups), k as int),
{
    match groups {
        Some(g) => if k < g.len() {
            copy_opt(&g[k])
        } else {
            None
        },
        None => None,
    }
}

/// For each line, whether the pattern is found in it.
pub open spec fn matching(pattern: Seq<char>, lines: Seq<Seq<char>>) -> Seq<bool> {
    Seq::new(lines.len(), |i: int| regex_matches(pattern, lines[i]))
}

/// For each line, whether the pattern is found in it. `None` if the pattern is not one
/// that compiles.
pub(crate) fn match_lines(pattern: &str, lines: &[&str]) -> (r: Option<Vec<bool>>)
    ensures
        r is Some <==> regex_accepts(pattern@),
        r matches Some(v) ==> v@ == matching(pattern@, str_texts(lines@)),
{
    match compile(pattern) {
        Ok(re) => {
            let mut found: Vec<bool> = Vec::new();
            let mut i: usize = 0;
            while i < lines.len()
                invariant
                    i <= lines@.len(),
                    found@.len() == i,
                    regex_pattern(re) == pattern@,
                    forall|k: int|
                        0 <= k < i ==> found@[k] == regex_matches(pattern@, lines@[k]@),
                decreases lines@.len() - i,
            {
                found.push(is_match(&re, lines[i]));
                i = i + 1;
            }
            assert(found@ =~= matching(pattern@, str_texts(lines@)));
            Some(found)
        },
        Err(_) => None,
    }
}

/// Whether the pattern is found in the text. `None` if the pattern is not one that
/// compiles.
pub(crate) fn match_text(pattern: &str, text: &str) -> (r: Option<bool>)
    ensures
        r is Some <==> regex_accepts(pattern@),
        r matches Some(b) ==> b == regex_matches(pattern@, text@),
{
    match compile(pattern) {
        Ok(re) => Some(is_match(&re, text)),
        Err(_) => None,
    }
}

/// Whether the pattern is one that compiles.
pub(crate) fn accepts(pattern: &str) -> (r: bool)
    ensures
        r == regex_accepts(pattern@),
{
    compile(pattern).is_ok()
}

/// For each line, the groups of the leftmost match of the pattern in it. `None` if the
/// pattern is not one that compiles.
pub(crate) fn capture_lines(pattern: &str, lines: &[&str]) -> (r: Option<
    Vec<Option<Vec<Option<String>>>>,
>)
    ensures
        r is Some <==> regex_accepts(pattern@),
        r matches Some(v) ==> {
            &&& v@.len() == lines@.len()
            &&& forall|i: int|
                0 <= i < v@.len() ==> group_texts(#[trigger] v@[i]) == regex_groups(
                    pattern@,
                    str_texts(lines@)[i],
                )
        },
{
    match compile(pattern) {
        Ok(re) => {
            let mut found: Vec<Option<Vec<Option<String>>>> = Vec::new();
            let mut i: usize = 0;
            while i < lines.len()
                invariant
                    i <= lines@.len(),
                    found@.len() == i,
                    regex_pattern(re) == pattern@,
                    forall|k: int|
                        0 <= k < i ==> group_texts(#[trigger] found@[k]) == regex_groups(
                            pattern@,
                            lines@[k]@,
                        ),
                decreases lines@.len() - i,
            {
                found.push(captures(&re, lines[i]));
                i = i + 1;
            }
            Some(found)
        },
        Err(_) => None,
    }
}

} // verus!
