//! Rules as configured, and their compilation: macro tokens in each
//! filter are expanded textually, the result is handed to the expression
//! engine, and every keyword list becomes a searcher.

use vstd::prelude::*;

use crate::pattern::{
    ac_buildable, keywords_view, regex_valid, Pattern, Searcher,
};
use crate::strutil::{chars_vec, push_char, str_eq};

verus! {

/// A configured rule: a log file, filter patterns, the ports to block,
/// the sentence length in seconds, and per-capture-group keyword lists.
pub struct Rule {
    pub file: String,
    pub filters: Vec<String>,
    pub ports: Vec<u16>,
    pub timeout: i64,
    pub blacklists: Vec<(String, Vec<String>)>,
}

impl Rule {
    /// A nonnegative sentence, and one keyword list per group name.
    pub open spec fn wf(&self) -> bool {
        &&& self.timeout >= 0
        &&& forall|i: int, j: int|
            0 <= i < j < self.blacklists@.len() ==> (#[trigger] self.blacklists@[i].0)@ != (
            #[trigger] self.blacklists@[j].0)@
    }
}

pub open spec fn starts_with(s: Seq<char>, p: Seq<char>) -> bool {
    p.len() <= s.len() && s.subrange(0, p.len() as int) == p
}

pub open spec fn host_re() -> Seq<char> {
    r"(?P<host>(?:[0-9]{1,3}\.){3}[0-9]{1,3}|(?:[a-fA-F0-9]{0,4}:){1,}[a-fA-F0-9]{1,4})"@
}

pub open spec fn time_re() -> Seq<char> {
    r"(?P<time>[0-9]{2}/[a-zA-Z]{3}/[0-9]{4}(?::[0-9]{2}){3} \+[0-9]{4})"@
}

pub open spec fn time_rfc2822_re() -> Seq<char> {
    r"(?P<time_rfc2822>[a-zA-Z]{3}, [0-9]{1,2} [a-zA-Z]{3} [0-9]{4} [0-9]{2}(?::[0-9]{2}){2} [\+-][0-9]{4})"@
}

pub open spec fn time_rfc3339_re() -> Seq<char> {
    r"(?P<time_rfc3339>[0-9]{4}(?:-[0-9]{2}){2}T[0-9]{2}(?::[0-9]{2}){2}[\+-][0-9]{2}:[0-9]{2})"@
}

pub open spec fn method_re() -> Seq<char> {
    r"(?P<method>GET|HEAD|POST|PUT|DELETE|CONNECT|OPTIONS|TRACE|PATCH)"@
}

pub open spec fn version_re() -> Seq<char> {
    r"(?P<version>HTTP/[1-9](?:\.[0-9])?)"@
}

/// The token standing at the front of `s`, if any: its length and its
/// expansion. Tokens are prefix-free, so at most one fits.
pub open spec fn spec_token_at(s: Seq<char>) -> Option<(int, Seq<char>)> {
    if starts_with(s, "<HOST>"@) {
        Some(("<HOST>"@.len() as int, host_re()))
    } else if starts_with(s, "<TIME>"@) {
        Some(("<TIME>"@.len() as int, time_re()))
    } else if starts_with(s, "<TIME_RFC2822>"@) {
        Some(("<TIME_RFC2822>"@.len() as int, time_rfc2822_re()))
    } else if starts_with(s, "<TIME_RFC3339>"@) {
        Some(("<TIME_RFC3339>"@.len() as int, time_rfc3339_re()))
    } else if starts_with(s, "<METHOD>"@) {
        Some(("<METHOD>"@.len() as int, method_re()))
    } else if starts_with(s, "<VERSION>"@) {
        Some(("<VERSION>"@.len() as int, version_re()))
    } else {
        None
    }
}

/// A filter with every occurrence of a macro token replaced by its
/// expansion. Expansions hold no tokens, so one pass settles it.
pub open spec fn spec_expand(s: Seq<char>) -> Seq<char>
    decreases s.len(),
{
    if s.len() == 0 {
        Seq::empty()
    } else {
        match spec_token_at(s) {
            Some((tl, exp)) => if 0 < tl <= s.len() {
                exp + spec_expand(s.skip(tl))
            } else {
                seq![s[0]] + spec_expand(s.drop_first())
            },
            None => seq![s[0]] + spec_expand(s.drop_first()),
        }
    }
}

/// The expansion of one macro token, by its exact name.
pub open spec fn spec_token_expansion(t: Seq<char>) -> Option<Seq<char>> {
    if t == "<HOST>"@ {
        Some(host_re())
    } else if t == "<TIME>"@ {
        Some(time_re())
    } else if t == "<TIME_RFC2822>"@ {
        Some(time_rfc2822_re())
    } else if t == "<TIME_RFC3339>"@ {
        Some(time_rfc3339_re())
    } else if t == "<METHOD>"@ {
        Some(method_re())
    } else if t == "<VERSION>"@ {
        Some(version_re())
    } else {
        None
    }
}

/// The expansion of one macro token, as the diagnostic tests read it.
pub fn token_expansion(token: &str) -> (r: Option<String>)
    ensures
        match r {
            Some(e) => spec_token_expansion(token@) == Some(e@),
            None => spec_token_expansion(token@) is None,
        },
{
    if str_eq(token, "<HOST>") {
        let e =
            r"(?P<host>(?:[0-9]{1,3}\.){3}[0-9]{1,3}|(?:[a-fA-F0-9]{0,4}:){1,}[a-fA-F0-9]{1,4})";
        return Some(e.to_owned());
    }
    if str_eq(token, "<TIME>") {
        let e = r"(?P<time>[0-9]{2}/[a-zA-Z]{3}/[0-9]{4}(?::[0-9]{2}){3} \+[0-9]{4})";
        return Some(e.to_owned());
    }
    if str_eq(token, "<TIME_RFC2822>") {
        let e =
            r"(?P<time_rfc2822>[a-zA-Z]{3}, [0-9]{1,2} [a-zA-Z]{3} [0-9]{4} [0-9]{2}(?::[0-9]{2}){2} [\+-][0-9]{4})";
        return Some(e.to_owned());
    }
    if str_eq(token, "<TIME_RFC3339>") {
        let e =
            r"(?P<time_rfc3339>[0-9]{4}(?:-[0-9]{2}){2}T[0-9]{2}(?::[0-9]{2}){2}[\+-][0-9]{2}:[0-9]{2})";
        return Some(e.to_owned());
    }
    if str_eq(token, "<METHOD>") {
        let e = r"(?P<method>GET|HEAD|POST|PUT|DELETE|CONNECT|OPTIONS|TRACE|PATCH)";
        return Some(e.to_owned());
    }
    if str_eq(token, "<VERSION>") {
        let e = r"(?P<version>HTTP/[1-9](?:\.[0-9])?)";
        return Some(e.to_owned());
    }
    None
}

/// A compiled rule: the rule beside its compiled expressions, one per
/// filter in order, and one keyword searcher per blacklist in order.
pub struct Entry {
    pub name: String,
    pub matchers: Vec<Pattern>,
    pub blacklists: Vec<(String, Searcher)>,
    pub rule: Rule,
}

impl Entry {
    pub open spec fn wf(&self) -> bool {
        &&& self.rule.wf()
        &&& self.matchers@.len() == self.rule.filters@.len()
        &&& (forall|i: int|
            0 <= i < self.matchers@.len() ==> (#[trigger] self.matchers@[i]).spec_text()
                == spec_expand(self.rule.filters@[i]@))
        &&& self.blacklists@.len() == self.rule.blacklists@.len()
        &&& (forall|j: int|
            0 <= j < self.blacklists@.len() ==> (#[trigger] self.blacklists@[j]).0@
                == self.rule.blacklists@[j].0@ && self.blacklists@[j].1.spec_keywords()
                == keywords_view(self.rule.blacklists@[j].1@))
    }
}

/// What can go wrong compiling a rule from its configuration.
#[derive(Debug)]
pub enum ConfigError {
    /// A filter did not compile after expansion.
    InvalidPattern { rule: String, filter: String },
    /// A keyword list was refused by the searcher builder.
    InvalidKeywords { rule: String, group: String },
}

fn clone_strings(v: &Vec<String>) -> (r: Vec<String>)
    ensures
        r@ == v@,
{
    let mut r: Vec<String> = Vec::new();
    let mut i: usize = 0;
    while i < v.len()
        invariant
            i <= v@.len(),
            r@ == v@.subrange(0, i as int),
        decreases v@.len() - i,
    {
        r.push(v[i].clone());
        i = i + 1;
        assert(r@ =~= v@.subrange(0, i as int));
    }
    assert(r@ =~= v@);
    r
}

/// Compiles one rule: expands and compiles every filter in order, then
/// builds one searcher per blacklist in order. Succeeds exactly when the
/// engine accepts every expanded filter and every keyword list.
#[verifier::loop_isolation(false)]
pub fn prepare_rule(name: String, rule: Rule) -> (r: Result<Entry, ConfigError>)
    requires
        rule.wf(),
    ensures
        r matches Ok(e) ==> e.wf() && e.rule == rule && e.name == name,
        r is Ok <==> (forall|i: int|
            0 <= i < rule.filters@.len() ==> regex_valid(
                spec_expand((#[trigger] rule.filters@[i])@),
            )) && (forall|j: int|
            0 <= j < rule.blacklists@.len() ==> ac_buildable(
                keywords_view((#[trigger] rule.blacklists@[j]).1@),
            )),
        r matches Err(e) ==> (e is InvalidPattern ==> exists|i: int|
            0 <= i < rule.filters@.len() && !regex_valid(
                spec_expand((#[trigger] rule.filters@[i])@),
            )),
        r matches Err(e) ==> (e is InvalidKeywords ==> exists|j: int|
            0 <= j < rule.blacklists@.len() && !ac_buildable(
                keywords_view((#[trigger] rule.blacklists@[j]).1@),
            )),
{
    let mut matchers: Vec<Pattern> = Vec::new();
    let mut i: usize = 0;
    while i < rule.filters.len()
        invariant
            i <= rule.filters@.len(),
            matchers@.len() == i,
            forall|k: int|
                0 <= k < i ==> (#[trigger] matchers@[k]).spec_text() == spec_expand(
                    rule.filters@[k]@,
                ),
            forall|k: int|
                0 <= k < i ==> regex_valid(spec_expand((#[trigger] rule.filters@[k])@)),
        decreases rule.filters@.len() - i,
    {
        let expanded = expand_filter(rule.filters[i].as_str());
        match Pattern::compile(expanded.as_str()) {
            Ok(p) => {
                matchers.push(p);
            },
            Err(_) => {
                return Err(
                    ConfigError::InvalidPattern { rule: name, filter: rule.filters[i].clone() },
                );
            },
        }
        i = i + 1;
    }
    let mut blacklists: Vec<(String, Searcher)> = Vec::new();
    let mut j: usize = 0;
    while j < rule.blacklists.len()
        invariant
            j <= rule.blacklists@.len(),
            blacklists@.len() == j,
            forall|k: int|
                0 <= k < j ==> (#[trigger] blacklists@[k]).0@ == rule.blacklists@[k].0@
                    && blacklists@[k].1.spec_keywords() == keywords_view(rule.blacklists@[k].1@),
            forall|k: int|
                0 <= k < j ==> ac_buildable(keywords_view((#[trigger] rule.blacklists@[k]).1@)),
        decreases rule.blacklists@.len() - j,
    {
        let kw = clone_strings(&rule.blacklists[j].1);
        match Searcher::build(kw) {
            Ok(s) => {
                blacklists.push((rule.blacklists[j].0.clone(), s));
            },
            Err(_) => {
                return Err(
                    ConfigError::InvalidKeywords {
                        rule: name,
                        group: rule.blacklists[j].0.clone(),
                    },
                );
            },
        }
        j = j + 1;
    }
    Ok(Entry { name, matchers, blacklists, rule })
}

/// Whether `tok` stands at position `i` of `chars`.
#[verifier::loop_isolation(false)]
pub fn starts_with_at(chars: &Vec<char>, i: usize, tok: &Vec<char>) -> (r: bool)
    requires
        i <= chars@.len(),
    ensures
        r == starts_with(chars@.skip(i as int), tok@),
{
    let ghost tail = chars@.skip(i as int);
    if chars.len() - i < tok.len() {
        assert(tok@.len() > tail.len());
        return false;
    }
    let mut j: usize = 0;
    while j < tok.len()
        invariant
            j <= tok@.len(),
            i + tok@.len() <= chars@.len(),
            forall|k: int| 0 <= k < j ==> tail[k] == tok@[k],
        decreases tok@.len() - j,
    {
        if chars[i + j] != tok[j] {
            assert(tail[j as int] != tok@[j as int]);
            assert(!starts_with(tail, tok@)) by {
                if starts_with(tail, tok@) {
                    assert(tail.subrange(0, tok@.len() as int)[j as int] == tok@[j as int]);
                }
            }
            return false;
        }
        assert(tail[j as int] == tok@[j as int]);
        j = j + 1;
    }
    assert(tail.subrange(0, tok@.len() as int) =~= tok@);
    true
}

/// A filter with its macro tokens expanded, one left-to-right pass.
#[verifier::loop_isolation(false)]
pub fn expand_filter(f: &str) -> (r: String)
    ensures
        r@ == spec_expand(f@),
{
    let chars = chars_vec(f);
    let tok_host = chars_vec("<HOST>");
    let tok_time = chars_vec("<TIME>");
    let tok_2822 = chars_vec("<TIME_RFC2822>");
    let tok_3339 = chars_vec("<TIME_RFC3339>");
    let tok_method = chars_vec("<METHOD>");
    let tok_version = chars_vec("<VERSION>");
    proof {
        reveal_strlit("<HOST>");
        reveal_strlit("<TIME>");
        reveal_strlit("<TIME_RFC2822>");
        reveal_strlit("<TIME_RFC3339>");
        reveal_strlit("<METHOD>");
        reveal_strlit("<VERSION>");
    }
    let mut out = String::new();
    let mut i: usize = 0;
    assert(f@.skip(0) =~= f@);
    while i < chars.len()
        invariant
            i <= chars@.len(),
            spec_expand(f@) == out@ + spec_expand(f@.skip(i as int)),
        decreases chars@.len() - i,
    {
        let ghost tail = f@.skip(i as int);
        assert(tail.len() > 0);
        if starts_with_at(&chars, i, &tok_host) {
            let e =
                r"(?P<host>(?:[0-9]{1,3}\.){3}[0-9]{1,3}|(?:[a-fA-F0-9]{0,4}:){1,}[a-fA-F0-9]{1,4})";
            out.append(e);
            proof {
                assert(spec_expand(tail) == host_re() + spec_expand(tail.skip(6)));
                assert(f@.skip(i + 6) =~= tail.skip(6));
            }
            i = i + tok_host.len();
        } else if starts_with_at(&chars, i, &tok_time) {
            let e = r"(?P<time>[0-9]{2}/[a-zA-Z]{3}/[0-9]{4}(?::[0-9]{2}){3} \+[0-9]{4})";
            out.append(e);
            proof {
                assert(spec_expand(tail) == time_re() + spec_expand(tail.skip(6)));
                assert(f@.skip(i + 6) =~= tail.skip(6));
            }
            i = i + tok_time.len();
        } else if starts_with_at(&chars, i, &tok_2822) {
            let e =
                r"(?P<time_rfc2822>[a-zA-Z]{3}, [0-9]{1,2} [a-zA-Z]{3} [0-9]{4} [0-9]{2}(?::[0-9]{2}){2} [\+-][0-9]{4})";
            out.append(e);
            proof {
                assert(spec_expand(tail) == time_rfc2822_re() + spec_expand(tail.skip(14)));
                assert(f@.skip(i + 14) =~= tail.skip(14));
            }
            i = i + tok_2822.len();
        } else if starts_with_at(&chars, i, &tok_3339) {
            let e =
                r"(?P<time_rfc3339>[0-9]{4}(?:-[0-9]{2}){2}T[0-9]{2}(?::[0-9]{2}){2}[\+-][0-9]{2}:[0-9]{2})";
            out.append(e);
            proof {
                assert(spec_expand(tail) == time_rfc3339_re() + spec_expand(tail.skip(14)));
                assert(f@.skip(i + 14) =~= tail.skip(14));
            }
            i = i + tok_3339.len();
        } else if starts_with_at(&chars, i, &tok_method) {
            let e = r"(?P<method>GET|HEAD|POST|PUT|DELETE|CONNECT|OPTIONS|TRACE|PATCH)";
            out.append(e);
            proof {
                assert(spec_expand(tail) == method_re() + spec_expand(tail.skip(8)));
                assert(f@.skip(i + 8) =~= tail.skip(8));
            }
            i = i + tok_method.len();
        } else if starts_with_at(&chars, i, &tok_version) {
            let e = r"(?P<version>HTTP/[1-9](?:\.[0-9])?)";
            out.append(e);
            proof {
                assert(spec_expand(tail) == version_re() + spec_expand(tail.skip(9)));
                assert(f@.skip(i + 9) =~= tail.skip(9));
            }
            i = i + tok_version.len();
        } else {
            push_char(&mut out, chars[i]);
            proof {
                assert(spec_token_at(tail) is None);
                assert(spec_expand(tail) == seq![tail[0]] + spec_expand(tail.drop_first()));
                assert(f@.skip(i + 1) =~= tail.drop_first());
                assert(tail[0] == f@[i as int]);
            }
            i = i + 1;
        }
    }
    assert(f@.skip(i as int).len() == 0);
    assert(spec_expand(f@.skip(i as int)) =~= Seq::<char>::empty());
    assert(out@ =~= spec_expand(f@));
    out
}

} // verus!
