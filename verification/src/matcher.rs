//! The matching engine: given a compiled rule and one log line, decide
//! whether the line convicts a host, keeping the per-file watermark.

use vstd::prelude::*;

use crate::clock::{now_unix, spec_parse_log_time, parse_log_time};
use crate::ip::{spec_parse_ip, parse_ip, IpAddress};
use crate::pattern::{ac_find, caps_seq_view, regex_caps};
use crate::rules::Entry;
use crate::strutil::str_eq;

verus! {

/// The engine itself: the clock instant its verdicts are measured from.
pub struct Matcher {
    pub now: i64,
}

/// The captured text of the named group, if the group took part in the
/// match; the first group of that name decides.
pub open spec fn cap_lookup(
    caps: Seq<(Seq<char>, Option<Seq<char>>)>,
    name: Seq<char>,
) -> Option<Seq<char>>
    decreases caps.len(),
{
    if caps.len() == 0 {
        None
    } else if caps[0].0 == name {
        caps[0].1
    } else {
        cap_lookup(caps.drop_first(), name)
    }
}

proof fn lemma_cap_lookup_skip(
    caps: Seq<(Seq<char>, Option<Seq<char>>)>,
    name: Seq<char>,
    i: int,
)
    requires
        0 <= i <= caps.len(),
        forall|j: int| 0 <= j < i ==> (#[trigger] caps[j]).0 != name,
    ensures
        cap_lookup(caps, name) == cap_lookup(caps.skip(i), name),
    decreases i,
{
    if i > 0 {
        assert(caps[0].0 != name);
        let rest = caps.drop_first();
        assert(forall|j: int| 0 <= j < i - 1 ==> (#[trigger] rest[j]).0 == caps[j + 1].0 && caps[j
            + 1].0 != name);
        lemma_cap_lookup_skip(rest, name, i - 1);
        assert(rest.skip(i - 1) =~= caps.skip(i));
    } else {
        assert(caps.skip(0) =~= caps);
    }
}

/// The captured text of `name`, cloned out of the capture list.
fn cap_text(caps: &Vec<(String, Option<String>)>, name: &str) -> (r: Option<String>)
    ensures
        ({
            let f = cap_lookup(caps_seq_view(caps@), name@);
            match r {
                Some(t) => f == Some(t@),
                None => f is None,
            }
        }),
{
    let ghost view = caps_seq_view(caps@);
    let mut i: usize = 0;
    while i < caps.len()
        invariant
            i <= caps@.len(),
            view == caps_seq_view(caps@),
            forall|j: int| 0 <= j < i ==> (#[trigger] view[j]).0 != name@,
        decreases caps@.len() - i,
    {
        if str_eq(caps[i].0.as_str(), name) {
            proof {
                lemma_cap_lookup_skip(view, name@, i as int);
                assert(view.skip(i as int)[0] == view[i as int]);
                assert(view.skip(i as int).len() > 0);
                assert(cap_lookup(view.skip(i as int), name@) == view[i as int].1);
            }
            return match &caps[i].1 {
                Some(t) => Some(t.clone()),
                None => None,
            };
        }
        assert(view[i as int].0 != name@);
        i = i + 1;
    }
    proof {
        lemma_cap_lookup_skip(view, name@, caps@.len() as int);
        assert(view.skip(view.len() as int).len() == 0);
    }
    None
}

/// The parsed timestamp of the match, from the "time" capture.
pub open spec fn spec_cap_time(caps: Seq<(Seq<char>, Option<Seq<char>>)>) -> Option<int> {
    match cap_lookup(caps, "time"@) {
        Some(v) => spec_parse_log_time(v),
        None => None,
    }
}

/// The parsed host of the match, from the "host" capture.
pub open spec fn spec_cap_host(caps: Seq<(Seq<char>, Option<Seq<char>>)>) -> Option<IpAddress> {
    match cap_lookup(caps, "host"@) {
        Some(v) => spec_parse_ip(v),
        None => None,
    }
}

/// Whether blacklist `j` of the rule hits: its group took part in the
/// match and its searcher finds a keyword in the captured text.
pub open spec fn spec_blacklist_hit(
    e: &Entry,
    caps: Seq<(Seq<char>, Option<Seq<char>>)>,
    j: int,
) -> bool {
    match cap_lookup(caps, e.blacklists@[j].0@) {
        Some(v) => ac_find(e.blacklists@[j].1.spec_keywords(), v) is Some,
        None => false,
    }
}

/// Whether a regex match convicts: with no blacklists the match alone
/// does; otherwise some blacklist must hit.
pub open spec fn spec_convicted(e: &Entry, caps: Seq<(Seq<char>, Option<Seq<char>>)>) -> bool {
    e.blacklists@.len() == 0 || exists|j: int|
        0 <= j < e.blacklists@.len() && spec_blacklist_hit(e, caps, j)
}

/// One draining step of the engine from filter `i` on: the verdict and
/// the watermark after the line. A match without a parsable timestamp is
/// skipped; an outdated timestamp abandons the line; a fresh one moves
/// the watermark, and the host convicts if the blacklists agree.
pub open spec fn spec_find_from(
    e: &Entry,
    now: int,
    last: int,
    line: Seq<char>,
    i: int,
) -> (Option<IpAddress>, int)
    decreases e.matchers@.len() - i,
{
    if i < 0 || i >= e.matchers@.len() {
        (None, last)
    } else {
        match regex_caps(e.matchers@[i].spec_text(), line) {
            None => spec_find_from(e, now, last, line, i + 1),
            Some(caps) => match spec_cap_time(caps) {
                None => spec_find_from(e, now, last, line, i + 1),
                Some(t) => if t < last || now - t > e.rule.timeout {
                    (None, last)
                } else {
                    match spec_cap_host(caps) {
                        None => spec_find_from(e, now, t, line, i + 1),
                        Some(h) => if spec_convicted(e, caps) {
                            (Some(h), t)
                        } else {
                            spec_find_from(e, now, t, line, i + 1)
                        },
                    }
                },
            },
        }
    }
}

/// The watermark never moves backwards.
pub proof fn lemma_find_monotonic(e: &Entry, now: int, last: int, line: Seq<char>, i: int)
    ensures
        spec_find_from(e, now, last, line, i).1 >= last,
    decreases e.matchers@.len() - i,
{
    if 0 <= i < e.matchers@.len() {
        match regex_caps(e.matchers@[i].spec_text(), line) {
            None => {
                lemma_find_monotonic(e, now, last, line, i + 1);
            },
            Some(caps) => {
                match spec_cap_time(caps) {
                    None => {
                        lemma_find_monotonic(e, now, last, line, i + 1);
                    },
                    Some(t) => {
                        if !(t < last || now - t > e.rule.timeout) {
                            lemma_find_monotonic(e, now, t, line, i + 1);
                        }
                    },
                }
            },
        }
    }
}

/// One filter's analysis record: the parsed time with its outdated flag
/// measured against the epoch, the parsed host, every named capture, and
/// every blacklist hit with the keyword found.
pub struct Match {
    pub time: Option<(i64, bool)>,
    pub host: Option<IpAddress>,
    pub captures: Vec<(String, Option<String>)>,
    pub blacklists: Vec<(String, String)>,
}

/// The diagnostic report: per filter, in order, its text and what matched.
pub struct Analysis {
    pub matches: Vec<(String, Option<Match>)>,
}

pub open spec fn pairs_view(v: Seq<(String, String)>) -> Seq<(Seq<char>, Seq<char>)> {
    v.map_values(|p: (String, String)| (p.0@, p.1@))
}

/// The diagnostic time of a match: the parsed "time" capture, flagged
/// outdated when measured against the epoch rather than a watermark.
pub open spec fn spec_analyze_time(e: &Entry, now: int, caps: Seq<(Seq<char>, Option<Seq<char>>)>) -> Option<(int, bool)> {
    match cap_lookup(caps, "time"@) {
        Some(v) => match spec_parse_log_time(v) {
            Some(t) => Some((t, t < 0 || now - t > e.rule.timeout)),
            None => None,
        },
        None => None,
    }
}

/// The blacklist hits of one match, each with the keyword it found, in
/// the rule's blacklist order.
pub open spec fn spec_analyze_blacklists(
    e: &Entry,
    caps: Seq<(Seq<char>, Option<Seq<char>>)>,
    j: int,
) -> Seq<(Seq<char>, Seq<char>)>
    decreases e.blacklists@.len() - j,
{
    if j < 0 || j >= e.blacklists@.len() {
        Seq::empty()
    } else {
        let rest = spec_analyze_blacklists(e, caps, j + 1);
        match cap_lookup(caps, e.blacklists@[j].0@) {
            Some(v) => match ac_find(e.blacklists@[j].1.spec_keywords(), v) {
                Some(p) => seq![(e.blacklists@[j].0@, e.blacklists@[j].1.spec_keywords()[p])]
                    + rest,
                None => rest,
            },
            None => rest,
        }
    }
}

/// What one filter's analysis record must hold of its match.
pub open spec fn spec_match_ok(
    e: &Entry,
    now: int,
    caps: Seq<(Seq<char>, Option<Seq<char>>)>,
    m: Match,
) -> bool {
    &&& (match spec_analyze_time(e, now, caps) {
        Some((t, o)) => m.time matches Some(p) && p.0 == t && p.1 == o,
        None => m.time is None,
    })
    &&& m.host == spec_cap_host(caps)
    &&& caps_seq_view(m.captures@) == caps
    &&& pairs_view(m.blacklists@) == spec_analyze_blacklists(e, caps, 0)
}

#[verifier::loop_isolation(false)]
fn analyze_blacklists(entry: &Entry, caps: &Vec<(String, Option<String>)>) -> (r: Vec<
    (String, String),
>)
    requires
        entry.wf(),
    ensures
        pairs_view(r@) == spec_analyze_blacklists(entry, caps_seq_view(caps@), 0),
{
    let ghost view = caps_seq_view(caps@);
    let mut out: Vec<(String, String)> = Vec::new();
    let mut j: usize = 0;
    assert(pairs_view(out@) =~= Seq::<(Seq<char>, Seq<char>)>::empty());
    while j < entry.blacklists.len()
        invariant
            j <= entry.blacklists@.len(),
            spec_analyze_blacklists(entry, view, 0) == pairs_view(out@)
                + spec_analyze_blacklists(entry, view, j as int),
        decreases entry.blacklists@.len() - j,
    {
        let ghost pre = out@;
        match cap_text(caps, entry.blacklists[j].0.as_str()) {
            Some(v) => {
                match entry.blacklists[j].1.find(v.as_str()) {
                    Some(p) => {
                        let kw = entry.rule.blacklists[j].1[p].clone();
                        proof {
                            assert(entry.blacklists@[j as int].1.spec_keywords()[p as int]
                                == entry.rule.blacklists@[j as int].1@[p as int]@);
                        }
                        out.push((entry.blacklists[j].0.clone(), kw));
                        proof {
                            assert(pairs_view(out@) =~= pairs_view(pre) + seq![
                                (
                                    entry.blacklists@[j as int].0@,
                                    entry.blacklists@[j as int].1.spec_keywords()[p as int],
                                ),
                            ]);
                        }
                    },
                    None => {},
                }
            },
            None => {},
        }
        j = j + 1;
        proof {
            assert(pairs_view(out@) + spec_analyze_blacklists(entry, view, j as int)
                =~= pairs_view(pre) + spec_analyze_blacklists(entry, view, j - 1));
        }
    }
    assert(spec_analyze_blacklists(entry, view, entry.blacklists@.len() as int)
        =~= Seq::<(Seq<char>, Seq<char>)>::empty());
    assert(pairs_view(out@) =~= spec_analyze_blacklists(entry, view, 0));
    out
}

fn check_convicted(entry: &Entry, caps: &Vec<(String, Option<String>)>) -> (r: bool)
    ensures
        r == spec_convicted(entry, caps_seq_view(caps@)),
{
    let ghost view = caps_seq_view(caps@);
    if entry.blacklists.len() == 0 {
        return true;
    }
    let mut j: usize = 0;
    while j < entry.blacklists.len()
        invariant
            j <= entry.blacklists@.len(),
            view == caps_seq_view(caps@),
            forall|k: int| 0 <= k < j ==> !spec_blacklist_hit(entry, view, k),
        decreases entry.blacklists@.len() - j,
    {
        match cap_text(caps, entry.blacklists[j].0.as_str()) {
            Some(v) => {
                if entry.blacklists[j].1.find(v.as_str()).is_some() {
                    assert(spec_blacklist_hit(entry, view, j as int));
                    return true;
                }
            },
            None => {},
        }
        assert(!spec_blacklist_hit(entry, view, j as int));
        j = j + 1;
    }
    assert(forall|k: int|
        0 <= k < entry.blacklists@.len() ==> !spec_blacklist_hit(entry, view, k));
    false
}

impl Default for Matcher {
    fn default() -> Matcher {
        Matcher::new()
    }
}

impl Matcher {
    /// An engine measuring from the clock now.
    pub fn new() -> Matcher {
        Matcher { now: now_unix() }
    }

    /// An engine measuring from the given instant.
    pub fn with(now: i64) -> (m: Matcher)
        ensures
            m.now == now,
    {
        Matcher { now }
    }

    /// Runs the line through the rule's filters in order. The result and
    /// the new watermark follow the one draining step exactly; the
    /// watermark never moves backwards.
    #[verifier::loop_isolation(false)]
    pub fn find(&self, entry: &Entry, last_time: &mut i64, line: &str) -> (r: Option<IpAddress>)
        ensures
            ({
                let step = spec_find_from(
                    entry,
                    self.now as int,
                    *old(last_time) as int,
                    line@,
                    0,
                );
                r == step.0 && *final(last_time) as int == step.1
            }),
            *final(last_time) >= *old(last_time),
            r matches Some(ip) ==> ip.wf(),
    {
        let ghost step = spec_find_from(entry, self.now as int, *old(last_time) as int, line@, 0);
        let mut lt: i64 = *last_time;
        let mut i: usize = 0;
        while i < entry.matchers.len()
            invariant
                i <= entry.matchers@.len(),
                lt >= *old(last_time),
                step == spec_find_from(entry, self.now as int, lt as int, line@, i as int),
            decreases entry.matchers@.len() - i,
        {
            let caps = match entry.matchers[i].captures(line) {
                Some(c) => c,
                None => {
                    i = i + 1;
                    continue ;
                },
            };
            let ghost cview = caps_seq_view(caps@);
            let t = match cap_text(&caps, "time") {
                Some(ts) => match parse_log_time(ts.as_str()) {
                    Some(t) => t,
                    None => {
                        assert(spec_cap_time(cview) is None);
                        i = i + 1;
                        continue ;
                    },
                },
                None => {
                    assert(spec_cap_time(cview) is None);
                    i = i + 1;
                    continue ;
                },
            };
            assert(spec_cap_time(cview) == Some(t as int));
            if t < lt || (self.now as i128) - (t as i128) > (entry.rule.timeout as i128) {
                assert(step == (None::<IpAddress>, lt as int));
                *last_time = lt;
                return None;
            }
            lt = t;
            let h = match cap_text(&caps, "host") {
                Some(hs) => match parse_ip(hs.as_str()) {
                    Some(h) => h,
                    None => {
                        assert(spec_cap_host(cview) is None);
                        i = i + 1;
                        continue ;
                    },
                },
                None => {
                    assert(spec_cap_host(cview) is None);
                    i = i + 1;
                    continue ;
                },
            };
            assert(spec_cap_host(cview) == Some(h) && h.wf());
            if check_convicted(entry, &caps) {
                assert(step == (Some(h), lt as int));
                *last_time = lt;
                return Some(h);
            }
            i = i + 1;
        }
        assert(step == (None::<IpAddress>, lt as int));
        *last_time = lt;
        None
    }
}

impl Matcher {
    /// Runs the line through every filter in order and reports, for each,
    /// whether it matched and what the match held.
    #[verifier::loop_isolation(false)]
    pub fn find_analyze(&self, entry: &Entry, line: &str) -> (r: Analysis)
        requires
            entry.wf(),
        ensures
            r.matches@.len() == entry.rule.filters@.len(),
            forall|i: int|
                0 <= i < r.matches@.len() ==> {
                    &&& (#[trigger] r.matches@[i]).0@ == entry.rule.filters@[i]@
                    &&& (match regex_caps(entry.matchers@[i].spec_text(), line@) {
                        Some(caps) => r.matches@[i].1 matches Some(m) && spec_match_ok(
                            entry,
                            self.now as int,
                            caps,
                            m,
                        ),
                        None => r.matches@[i].1 is None,
                    })
                },
    {
        let mut matches: Vec<(String, Option<Match>)> = Vec::new();
        let mut i: usize = 0;
        while i < entry.matchers.len()
            invariant
                i <= entry.matchers@.len(),
                matches@.len() == i,
                forall|k: int|
                    0 <= k < i ==> {
                        &&& (#[trigger] matches@[k]).0@ == entry.rule.filters@[k]@
                        &&& (match regex_caps(entry.matchers@[k].spec_text(), line@) {
                            Some(caps) => matches@[k].1 matches Some(m) && spec_match_ok(
                                entry,
                                self.now as int,
                                caps,
                                m,
                            ),
                            None => matches@[k].1 is None,
                        })
                    },
            decreases entry.matchers@.len() - i,
        {
            let name = entry.rule.filters[i].clone();
            match entry.matchers[i].captures(line) {
                None => {
                    matches.push((name, None));
                },
                Some(caps) => {
                    let ghost cview = caps_seq_view(caps@);
                    let time: Option<(i64, bool)> = match cap_text(&caps, "time") {
                        Some(ts) => match parse_log_time(ts.as_str()) {
                            Some(t) => {
                                let outdated = t < 0 || (self.now as i128) - (t as i128) > (
                                entry.rule.timeout as i128);
                                Some((t, outdated))
                            },
                            None => None,
                        },
                        None => None,
                    };
                    let host = match cap_text(&caps, "host") {
                        Some(hs) => parse_ip(hs.as_str()),
                        None => None,
                    };
                    let blacklists = analyze_blacklists(entry, &caps);
                    let m = Match { time, host, captures: caps, blacklists };
                    assert(spec_match_ok(entry, self.now as int, cview, m));
                    matches.push((name, Some(m)));
                },
            }
            i = i + 1;
        }
        Analysis { matches }
    }
}

} // verus!
