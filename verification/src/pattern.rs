//! The trusted boundary to the regular-expression engine and the
//! multi-pattern keyword searcher that compiled rules are built on.
//! Each searcher is stored beside the text it was built from, and the
//! module keeps that pairing: nothing else constructs these types.

use vstd::prelude::*;

verus! {

#[verifier::external_type_specification]
#[verifier::external_body]
pub struct ExRegex(regex::Regex);

#[verifier::external_type_specification]
#[verifier::external_body]
pub struct ExRegexError(regex::Error);

#[verifier::external_type_specification]
#[verifier::external_body]
pub struct ExAhoCorasick(aho_corasick::AhoCorasick);

#[verifier::external_type_specification]
#[verifier::external_body]
pub struct ExAcBuildError(aho_corasick::BuildError);

/// Whether the expression engine accepts `pattern`.
pub uninterp spec fn regex_valid(pattern: Seq<char>) -> bool;

/// The named capture groups of the first match of `pattern` in `line`,
/// in the pattern's group order: each group's name with the text it
/// captured, or None for the whole thing when the pattern does not match.
pub uninterp spec fn regex_caps(pattern: Seq<char>, line: Seq<char>) -> Option<
    Seq<(Seq<char>, Option<Seq<char>>)>,
>;

/// Whether the searcher builder accepts `patterns`.
pub uninterp spec fn ac_buildable(patterns: Seq<Seq<char>>) -> bool;

/// The pattern index of the earliest match in `hay` found by the
/// ASCII-case-insensitive searcher built from `patterns`, or None when
/// no pattern occurs in `hay`.
pub uninterp spec fn ac_find(patterns: Seq<Seq<char>>, hay: Seq<char>) -> Option<int>;

pub open spec fn cap_pair_view(p: (String, Option<String>)) -> (Seq<char>, Option<Seq<char>>) {
    (
        p.0@,
        match p.1 {
            Some(t) => Some(t@),
            None => None,
        },
    )
}

pub open spec fn caps_seq_view(v: Seq<(String, Option<String>)>) -> Seq<
    (Seq<char>, Option<Seq<char>>),
> {
    v.map_values(|p: (String, Option<String>)| cap_pair_view(p))
}

pub open spec fn keywords_view(v: Seq<String>) -> Seq<Seq<char>> {
    v.map_values(|s: String| s@)
}

/// A compiled expression, kept beside its text.
pub struct Pattern {
    text: String,
    re: regex::Regex,
}

impl Pattern {
    /// The text the expression was compiled from.
    pub closed spec fn spec_text(&self) -> Seq<char> {
        self.text@
    }

    /// Relies on regex::Regex::new: compiles `text`, failing exactly on
    /// the patterns the engine rejects.
    #[verifier::external_body]
    pub fn compile(text: &str) -> (r: Result<Pattern, regex::Error>)
        ensures
            r matches Ok(p) ==> p.spec_text() == text@ && regex_valid(text@),
            r is Err ==> !regex_valid(text@),
    {
        match regex::Regex::new(text) {
            Ok(re) => Ok(Pattern { text: text.to_owned(), re }),
            Err(e) => Err(e),
        }
    }

    /// Relies on regex::Regex::captures, Regex::capture_names and
    /// Captures::name: the named groups of the first match, a function
    /// of the pattern text and the line alone.
    #[verifier::external_body]
    pub fn captures(&self, line: &str) -> (r: Option<Vec<(String, Option<String>)>>)
        ensures
            ({
                let f = regex_caps(self.spec_text(), line@);
                match r {
                    Some(v) => f == Some(caps_seq_view(v@)),
                    None => f is None,
                }
            }),
    {
        self.re.captures(line).map(|caps| {
            self.re.capture_names().flatten().map(
                |name| (name.to_owned(), caps.name(name).map(|m| m.as_str().to_owned())),
            ).collect()
        })
    }
}

/// A keyword searcher, kept beside the keywords it was built from.
pub struct Searcher {
    keywords: Vec<String>,
    ac: aho_corasick::AhoCorasick,
}

impl Searcher {
    /// The keywords the searcher was built from.
    pub closed spec fn spec_keywords(&self) -> Seq<Seq<char>> {
        keywords_view(self.keywords@)
    }

    /// Relies on AhoCorasickBuilder::build, with ascii_case_insensitive
    /// set and the deterministic automaton kind: builds a searcher over
    /// `keywords`, failing exactly where the builder does.
    #[verifier::external_body]
    pub fn build(keywords: Vec<String>) -> (r: Result<Searcher, aho_corasick::BuildError>)
        ensures
            r matches Ok(s) ==> s.spec_keywords() == keywords_view(keywords@) && ac_buildable(
                keywords_view(keywords@),
            ),
            r is Err ==> !ac_buildable(keywords_view(keywords@)),
    {
        let built = aho_corasick::AhoCorasick::builder().ascii_case_insensitive(true).kind(
            Some(aho_corasick::AhoCorasickKind::DFA),
        ).build(&keywords);
        match built {
            Ok(ac) => Ok(Searcher { keywords, ac }),
            Err(e) => Err(e),
        }
    }

    /// Relies on AhoCorasick::find with the default standard semantics:
    /// the earliest match, a function of the keywords and the haystack
    /// alone, its pattern index within the keyword list.
    #[verifier::external_body]
    pub fn find(&self, hay: &str) -> (r: Option<usize>)
        ensures
            ({
                let f = ac_find(self.spec_keywords(), hay@);
                match r {
                    Some(i) => f == Some(i as int) && i < self.spec_keywords().len(),
                    None => f is None,
                }
            }),
    {
        self.ac.find(hay).map(|m| m.pattern().as_usize())
    }
}

} // verus!
