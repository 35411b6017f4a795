//! Regular expressions, matched by the `regex` crate.
//!
//! A pattern with its options either compiles or is refused with a message
//! ([`regex_refusal`]); what a compiled pattern makes of a text is named here
//! and computed by the crate. Offsets are byte offsets.
use crate::model::opt_text;
use regex::RegexBuilder;
use vstd::prelude::*;

verus! {

/// The options a pattern is compiled with.
#[derive(Debug, Clone, Copy, PartialEq, Eq, Structural)]
pub struct Options {
    /// `i`: letters match in either case.
    pub ignore_case: bool,
    /// `x`: white space and `#` comments in the pattern are ignored.
    pub verbose: bool,
    /// `s`: `.` matches a line feed too.
    pub dot_all: bool,
    /// `m`: `^` and `$` match at line boundaries.
    pub multi_line: bool,
}

/// Where the groups of one match lie, as byte offsets; group 0 is the whole
/// match, `None` a group that took no part.
pub type Spans = Vec<Option<(usize, usize)>>;

/// Why a pattern does not compile; `None` when it does.
pub uninterp spec fn regex_refusal(re: Seq<char>, o: Options) -> Option<Seq<char>>;

/// Whether a compiled pattern matches anywhere in a text.
pub uninterp spec fn regex_matches(re: Seq<char>, o: Options, text: Seq<char>) -> bool;

/// The group spans of the successive non-overlapping matches in a text.
pub uninterp spec fn regex_spans(re: Seq<char>, o: Options, text: Seq<char>) -> Seq<
    Seq<Option<(usize, usize)>>,
>;

/// The names of a compiled pattern's groups, by group number.
pub uninterp spec fn regex_names(re: Seq<char>, o: Options) -> Seq<Option<Seq<char>>>;

/// A text with its first match replaced, `$1` and `$name` in the replacement
/// standing for groups.
pub uninterp spec fn regex_replaced(
    re: Seq<char>,
    o: Options,
    text: Seq<char>,
    replacement: Seq<char>,
) -> Seq<char>;

/// A text with every match replaced.
pub uninterp spec fn regex_replaced_all(
    re: Seq<char>,
    o: Options,
    text: Seq<char>,
    replacement: Seq<char>,
) -> Seq<char>;

/// The pieces of a text between matches.
pub uninterp spec fn regex_pieces(re: Seq<char>, o: Options, text: Seq<char>) -> Seq<Seq<char>>;

/// The contents of a list of optional texts.
pub open spec fn opt_texts(s: Seq<Option<String>>) -> Seq<Option<Seq<char>>> {
    Seq::new(s.len(), |i: int| opt_text(s[i]))
}

/// The contents of the spans of several matches.
pub open spec fn span_seqs(s: Seq<Spans>) -> Seq<Seq<Option<(usize, usize)>>> {
    Seq::new(s.len(), |i: int| s[i]@)
}

/// `RegexBuilder::build`: the error message when the pattern does not compile
/// with the options, named by [`regex_refusal`].
#[verifier::external_body]
pub(crate) fn refusal(re: &str, o: Options) -> (r: Option<String>)
    ensures
        opt_text(r) == regex_refusal(re@, o),
{
    RegexBuilder::new(re)
        .case_insensitive(o.ignore_case)
        .ignore_whitespace(o.verbose)
        .dot_matches_new_line(o.dot_all)
        .multi_line(o.multi_line)
        .build()
        .err()
        .map(|e| e.to_string())
}

/// `Regex::is_match`, named by [`regex_matches`].
#[verifier::external_body]
pub(crate) fn matches_text(re: &str, o: Options, text: &str) -> (r: bool)
    requires
        regex_refusal(re@, o) is None,
    ensures
        r == regex_matches(re@, o, text@),
{
    RegexBuilder::new(re)
        .case_insensitive(o.ignore_case)
        .ignore_whitespace(o.verbose)
        .dot_matches_new_line(o.dot_all)
        .multi_line(o.multi_line)
        .build()
        .unwrap()
        .is_match(text)
}

/// `Regex::captures_iter`, the spans of every group of every match, named by
/// [`regex_spans`]. Group 0 is there in every match and always took part.
#[verifier::external_body]
pub(crate) fn match_spans(re: &str, o: Options, text: &str) -> (r: Vec<Spans>)
    requires
        regex_refusal(re@, o) is None,
    ensures
        span_seqs(r@) == regex_spans(re@, o, text@),
        forall|i: int| 0 <= i < r.len() ==> (#[trigger] r@[i])@.len() > 0 && r@[i]@[0] is Some,
{
    RegexBuilder::new(re)
        .case_insensitive(o.ignore_case)
        .ignore_whitespace(o.verbose)
        .dot_matches_new_line(o.dot_all)
        .multi_line(o.multi_line)
        .build()
        .unwrap()
        .captures_iter(text)
        .map(|c| c.iter().map(|g| g.map(|m| (m.start(), m.end()))).collect())
        .collect()
}

/// `Regex::capture_names`, named by [`regex_names`].
#[verifier::external_body]
pub(crate) fn group_names(re: &str, o: Options) -> (r: Vec<Option<String>>)
    requires
        regex_refusal(re@, o) is None,
    ensures
        opt_texts(r@) == regex_names(re@, o),
{
    RegexBuilder::new(re)
        .case_insensitive(o.ignore_case)
        .ignore_whitespace(o.verbose)
        .dot_matches_new_line(o.dot_all)
        .multi_line(o.multi_line)
        .build()
        .unwrap()
        .capture_names()
        .map(|n| n.map(|t| t.to_string()))
        .collect()
}

/// `Regex::replace`, named by [`regex_replaced`].
#[verifier::external_body]
pub(crate) fn replace_first(re: &str, o: Options, text: &str, replacement: &str) -> (r: String)
    requires
        regex_refusal(re@, o) is None,
    ensures
        r@ == regex_replaced(re@, o, text@, replacement@),
{
    RegexBuilder::new(re)
        .case_insensitive(o.ignore_case)
        .ignore_whitespace(o.verbose)
        .dot_matches_new_line(o.dot_all)
        .multi_line(o.multi_line)
        .build()
        .unwrap()
        .replace(text, replacement)
        .into_owned()
}

/// `Regex::replace_all`, named by [`regex_replaced_all`].
#[verifier::external_body]
pub(crate) fn replace_every(re: &str, o: Options, text: &str, replacement: &str) -> (r: String)
    requires
        regex_refusal(re@, o) is None,
    ensures
        r@ == regex_replaced_all(re@, o, text@, replacement@),
{
    RegexBuilder::new(re)
        .case_insensitive(o.ignore_case)
        .ignore_whitespace(o.verbose)
        .dot_matches_new_line(o.dot_all)
        .multi_line(o.multi_line)
        .build()
        .unwrap()
        .replace_all(text, replacement)
        .into_owned()
}

/// `Regex::split`, named by [`regex_pieces`].
#[verifier::external_body]
pub(crate) fn pieces(re: &str, o: Options, text: &str) -> (r: Vec<String>)
    requires
        regex_refusal(re@, o) is None,
    ensures
        crate::value::texts(r@) == regex_pieces(re@, o, text@),
{
    RegexBuilder::new(re)
        .case_insensitive(o.ignore_case)
        .ignore_whitespace(o.verbose)
        .dot_matches_new_line(o.dot_all)
        .multi_line(o.multi_line)
        .build()
        .unwrap()
        .split(text)
        .map(|p| p.to_string())
        .collect()
}

} // verus!
