//! What the firewall drivers decide and say: the exact argument vectors
//! handed to the packet-filter utilities, and the classification of their
//! error output. Running the utilities is the shell's business.

use vstd::prelude::*;

use crate::ip::{format_ip, spec_format_ip, IpAddress};
use crate::ledger::strings_view;
use crate::rules::{starts_with, starts_with_at};
use crate::strutil::{chars_vec, join_dec, spec_join_dec, str_eq, string_of_chars};

verus! {

/// What one firewall action aims at: an address, and the ports to cover;
/// an empty list covers all ports.
pub struct Target {
    pub ip: IpAddress,
    pub ports: Vec<u16>,
}

/// The verdict a matched packet is sent to.
#[derive(Clone, Copy, Debug, PartialEq, Eq, Structural)]
pub enum IptablesTarget {
    /// Drop the packets, as if the host did not exist.
    Drop,
    /// Reject the packets, returning an error to the client.
    Reject,
    /// Hold the client in a tarpit of long-running connections.
    Tarpit,
}

impl Default for IptablesTarget {
    fn default() -> (r: Self)
        ensures
            r == IptablesTarget::Drop,
    {
        IptablesTarget::Drop
    }
}

pub open spec fn cmds_view(v: Seq<Vec<String>>) -> Seq<Seq<Seq<char>>> {
    v.map_values(|c: Vec<String>| strings_view(c@))
}

impl IptablesTarget {
    /// The extra arguments that select the verdict.
    pub open spec fn spec_args(&self) -> Seq<Seq<char>> {
        match self {
            IptablesTarget::Drop => seq!["DROP"@],
            IptablesTarget::Reject => seq!["REJECT"@],
            IptablesTarget::Tarpit => seq!["TARPIT"@, "--tarpit"@],
        }
    }

    /// The verdict as it stands in a listed rule.
    pub open spec fn spec_display(&self) -> Seq<char> {
        match self {
            IptablesTarget::Drop => "DROP"@,
            IptablesTarget::Reject => "REJECT"@,
            IptablesTarget::Tarpit => "TARPIT --tarpit"@,
        }
    }

    /// The extra arguments that select the verdict.
    pub fn to_args(self) -> (r: Vec<String>)
        ensures
            strings_view(r@) == self.spec_args(),
    {
        let r: Vec<String> = match self {
            IptablesTarget::Drop => vec!["DROP".to_owned()],
            IptablesTarget::Reject => vec!["REJECT".to_owned()],
            IptablesTarget::Tarpit => vec!["TARPIT".to_owned(), "--tarpit".to_owned()],
        };
        assert(strings_view(r@) =~= self.spec_args());
        r
    }

    /// The verdict as it stands in a listed rule.
    pub fn display(self) -> (r: String)
        ensures
            r@ == self.spec_display(),
    {
        match self {
            IptablesTarget::Drop => "DROP".to_owned(),
            IptablesTarget::Reject => "REJECT".to_owned(),
            IptablesTarget::Tarpit => "TARPIT --tarpit".to_owned(),
        }
    }
}

/// Which set operation an error message came from.
#[derive(Clone, Copy, Debug)]
pub enum RunType {
    Add,
    Delete,
}

/// The message the set utility gives for a harmless repeat of the
/// operation.
pub open spec fn spec_expected_message(ty: RunType) -> Seq<char> {
    match ty {
        RunType::Add => "Element cannot be added to the set: it's already added"@,
        RunType::Delete => "Element cannot be deleted from the set: it's not added"@,
    }
}

/// Position of the first ": " separator, or the length when absent.
pub open spec fn idx_of_sep(s: Seq<char>) -> int
    decreases s.len(),
{
    if s.len() < 2 {
        s.len() as int
    } else if s[0] == ':' && s[1] == ' ' {
        0
    } else {
        1 + idx_of_sep(s.drop_first())
    }
}

proof fn lemma_idx_of_sep_at(s: Seq<char>, k: int)
    requires
        0 <= k <= s.len(),
        forall|j: int| 0 <= j < k && j + 1 < s.len() ==> !(#[trigger] s[j] == ':' && s[j + 1] == ' '),
        k + 1 < s.len() ==> s[k] == ':' && s[k + 1] == ' ',
        k + 1 >= s.len() ==> k == s.len(),
    ensures
        idx_of_sep(s) == k,
    decreases s.len(),
{
    if s.len() < 2 {
    } else if s[0] == ':' && s[1] == ' ' {
        assert(k == 0);
    } else {
        let s1 = s.drop_first();
        assert(k >= 1);
        assert(forall|j: int| 0 <= j < k - 1 && j + 1 < s1.len() ==> #[trigger] s1[j] == s[j + 1]
            && s1[j + 1] == s[j + 2] && !(s[j + 1] == ':' && s[j + 2] == ' '));
        lemma_idx_of_sep_at(s1, k - 1);
    }
}

pub open spec fn is_blank(c: char) -> bool {
    c == ' ' || c == '\t' || c == '\r' || c == '\n'
}

pub open spec fn trim_start(s: Seq<char>) -> Seq<char>
    decreases s.len(),
{
    if s.len() > 0 && is_blank(s[0]) {
        trim_start(s.drop_first())
    } else {
        s
    }
}

pub open spec fn trim_end(s: Seq<char>) -> Seq<char>
    decreases s.len(),
{
    if s.len() > 0 && is_blank(s.last()) {
        trim_end(s.drop_last())
    } else {
        s
    }
}

/// Leading and trailing blanks stripped, as around utility output.
pub open spec fn spec_trim(s: Seq<char>) -> Seq<char> {
    trim_end(trim_start(s))
}

proof fn lemma_trim_start_at(s: Seq<char>, k: int)
    requires
        0 <= k <= s.len(),
        forall|j: int| 0 <= j < k ==> is_blank(#[trigger] s[j]),
        k < s.len() ==> !is_blank(s[k]),
    ensures
        trim_start(s) =~= s.skip(k),
    decreases k,
{
    if k == 0 {
        assert(s.skip(0) =~= s);
    } else {
        let s1 = s.drop_first();
        assert(forall|j: int| 0 <= j < k - 1 ==> #[trigger] s1[j] == s[j + 1] && is_blank(s[j + 1]));
        assert(k - 1 < s1.len() ==> s1[k - 1] == s[k]);
        lemma_trim_start_at(s1, k - 1);
        assert(s1.skip(k - 1) =~= s.skip(k));
    }
}

proof fn lemma_trim_end_at(s: Seq<char>, k: int)
    requires
        0 <= k <= s.len(),
        forall|j: int| k <= j < s.len() ==> is_blank(#[trigger] s[j]),
        k > 0 ==> !is_blank(s[k - 1]),
    ensures
        trim_end(s) =~= s.subrange(0, k),
    decreases s.len() - k,
{
    if k == s.len() {
        assert(s.subrange(0, k) =~= s);
    } else {
        let s1 = s.drop_last();
        assert(is_blank(s.last()));
        assert(forall|j: int| k <= j < s1.len() ==> #[trigger] s1[j] == s[j]);
        lemma_trim_end_at(s1, k);
        assert(s1.subrange(0, k) =~= s.subrange(0, k));
    }
}

/// Whether the message is the harmless repeat the set utility reports:
/// a prefix naming the utility and its version, then exactly the known
/// sentence.
pub open spec fn spec_is_expected_error(msg: Seq<char>, ty: RunType) -> bool {
    let k = idx_of_sep(msg);
    if k >= msg.len() {
        false
    } else {
        starts_with(msg.subrange(0, k), "ipset v"@) && spec_trim(
            msg.subrange(k + 2, msg.len() as int),
        ) == spec_expected_message(ty)
    }
}

/// Classifies the set utility's error output: a repeat of an add or a
/// delete is tolerated, anything else is a real failure.
#[verifier::loop_isolation(false)]
pub fn is_expected_error(message: &str, ty: RunType) -> (r: bool)
    ensures
        r == spec_is_expected_error(message@, ty),
{
    let chars = chars_vec(message);
    let n = chars.len();
    // find the first ": "
    let mut i: usize = 0;
    let mut found = false;
    while i < n && i + 1 < n && !found
        invariant
            i <= n,
            found ==> i + 1 < n && chars@[i as int] == ':' && chars@[i + 1] == ' ',
            forall|j: int| 0 <= j < i && j + 1 < n ==> !(#[trigger] chars@[j] == ':' && chars@[j
                + 1] == ' '),
        decreases n - i, 1int - (if found { 1int } else { 0int }),
    {
        if chars[i] == ':' && chars[i + 1] == ' ' {
            found = true;
        } else {
            i = i + 1;
        }
    }
    let k: usize = if found {
        i
    } else {
        n
    };
    proof {
        lemma_idx_of_sep_at(message@, k as int);
    }
    if k == n {
        return false;
    }
    // the prefix must name the set utility
    let prefix_tok = chars_vec("ipset v");
    let prefix_hit = starts_with_at(&chars, 0, &prefix_tok);
    proof {
        assert(chars@.skip(0) =~= message@);
    }
    if !prefix_hit || prefix_tok.len() > k {
        proof {
            if starts_with(message@.subrange(0, k as int), "ipset v"@) {
                assert(forall|j: int|
                    0 <= j < "ipset v"@.len() ==> message@.subrange(0, k as int)[j]
                        == #[trigger] message@.subrange(0, "ipset v"@.len() as int)[j]);
                assert(message@.subrange(0, "ipset v"@.len() as int) =~= "ipset v"@);
                assert(starts_with(message@, "ipset v"@));
            }
        }
        return false;
    }
    proof {
        assert(starts_with(message@.subrange(0, k as int), "ipset v"@)) by {
            assert(forall|j: int|
                0 <= j < "ipset v"@.len() ==> #[trigger] message@.subrange(0, k as int)[j]
                    == message@[j] && message@.subrange(0, "ipset v"@.len() as int)[j]
                    == message@[j]);
            assert(message@.subrange(0, k as int).subrange(0, "ipset v"@.len() as int)
                =~= message@.subrange(0, "ipset v"@.len() as int));
            assert(message@.subrange(0, "ipset v"@.len() as int) =~= "ipset v"@);
        }
    }
    // trim the rest and compare with the known sentence
    let rest_lo = k + 2;
    let ghost rest = message@.subrange(rest_lo as int, n as int);
    let mut lo: usize = rest_lo;
    while lo < n && is_blank_exec(chars[lo])
        invariant
            rest_lo <= lo <= n,
            forall|j: int| rest_lo <= j < lo ==> is_blank(#[trigger] chars@[j]),
        decreases n - lo,
    {
        lo = lo + 1;
    }
    let mut hi: usize = n;
    while hi > lo && is_blank_exec(chars[hi - 1])
        invariant
            lo <= hi <= n,
            forall|j: int| hi <= j < n ==> is_blank(#[trigger] chars@[j]),
        decreases hi,
    {
        hi = hi - 1;
    }
    proof {
        assert(forall|j: int| 0 <= j < lo - rest_lo ==> is_blank(#[trigger] rest[j]));
        lemma_trim_start_at(rest, lo - rest_lo);
        let started = rest.skip(lo - rest_lo);
        assert(forall|j: int|
            hi - lo <= j < started.len() ==> #[trigger] started[j] == chars@[lo + j] && is_blank(
                chars@[lo + j],
            ));
        if hi > lo {
            assert(started[hi - lo - 1] == chars@[hi - 1]);
        }
        lemma_trim_end_at(started, hi - lo);
        assert(spec_trim(rest) =~= chars@.subrange(lo as int, hi as int));
    }
    let mut trimmed: Vec<char> = Vec::new();
    let mut t: usize = lo;
    while t < hi
        invariant
            lo <= t <= hi <= n,
            trimmed@ == chars@.subrange(lo as int, t as int),
        decreases hi - t,
    {
        trimmed.push(chars[t]);
        t = t + 1;
        assert(trimmed@ =~= chars@.subrange(lo as int, t as int));
    }
    assert(trimmed@ =~= spec_trim(rest));
    let trimmed_str = string_of_chars(&trimmed);
    match ty {
        RunType::Add => str_eq(
            trimmed_str.as_str(),
            "Element cannot be added to the set: it's already added",
        ),
        RunType::Delete => str_eq(
            trimmed_str.as_str(),
            "Element cannot be deleted from the set: it's not added",
        ),
    }
}

fn is_blank_exec(c: char) -> (r: bool)
    ensures
        r == is_blank(c),
{
    c == ' ' || c == '\t' || c == '\r' || c == '\n'
}

/// Whether the rule utility's complaint means the rule or chain was
/// already gone: tolerated during an uninstall.
pub open spec fn spec_is_missing_rule_error(s: Seq<char>) -> bool {
    ||| starts_with(s, "iptables: Bad rule "@)
    ||| starts_with(s, "ip6tables: Bad rule "@)
    ||| starts_with(s, "iptables: No chain/target/match by that name."@)
    ||| starts_with(s, "ip6tables: No chain/target/match by that name."@)
}

/// Classifies the rule utility's error output during an uninstall.
pub fn is_missing_rule_error(stderr: &str) -> (r: bool)
    ensures
        r == spec_is_missing_rule_error(stderr@),
{
    let chars = chars_vec(stderr);
    assert(chars@.skip(0) =~= stderr@);
    let t1 = chars_vec("iptables: Bad rule ");
    let t2 = chars_vec("ip6tables: Bad rule ");
    let t3 = chars_vec("iptables: No chain/target/match by that name.");
    let t4 = chars_vec("ip6tables: No chain/target/match by that name.");
    starts_with_at(&chars, 0, &t1) || starts_with_at(&chars, 0, &t2) || starts_with_at(
        &chars,
        0,
        &t3,
    ) || starts_with_at(&chars, 0, &t4)
}

/// The set-backed driver: two named sets, one per address family, with
/// jump rules on the standard chains. These builders give the exact
/// argument vectors; the shell runs them.
pub struct IpSet {
    pub name: String,
    pub name_v6: String,
    pub target: IptablesTarget,
}

pub open spec fn spec_insert_rule_args(
    flag: Seq<char>,
    chain: Seq<char>,
    name: Seq<char>,
    target: IptablesTarget,
) -> Seq<Seq<char>> {
    seq![
        flag,
        chain,
        "-p"@,
        "tcp"@,
        "-m"@,
        "multiport"@,
        "--dports"@,
        "80,443"@,
        "-m"@,
        "set"@,
        "--match-set"@,
        name,
        "src"@,
        "-j"@,
    ] + target.spec_args()
}

impl IpSet {
    /// A driver over the two conventional set names.
    pub fn new(target: IptablesTarget) -> (r: IpSet)
        ensures
            r.name@ == "veto"@,
            r.name_v6@ == "veto_v6"@,
            r.target == target,
    {
        IpSet { name: "veto".to_owned(), name_v6: "veto_v6".to_owned(), target }
    }

    /// Arguments that list the existing set names.
    pub fn list_sets_args() -> (r: Vec<String>)
        ensures
            strings_view(r@) =~= seq!["list"@, "-n"@],
    {
        let r: Vec<String> = vec!["list".to_owned(), "-n".to_owned()];
        assert(strings_view(r@) =~= seq!["list"@, "-n"@]);
        r
    }

    /// Arguments that create one family's set.
    pub fn create_set_args(name: &str, family: &str) -> (r: Vec<String>)
        ensures
            strings_view(r@) =~= seq!["create"@, name@, "hash:ip"@, "family"@, family@],
    {
        let r: Vec<String> = vec![
            "create".to_owned(),
            name.to_owned(),
            "hash:ip".to_owned(),
            "family".to_owned(),
            family.to_owned(),
        ];
        assert(strings_view(r@) =~= seq!["create"@, name@, "hash:ip"@, "family"@, family@]);
        r
    }

    /// Arguments that destroy one family's set.
    pub fn destroy_args(name: &str) -> (r: Vec<String>)
        ensures
            strings_view(r@) =~= seq!["destroy"@, name@],
    {
        let r: Vec<String> = vec!["destroy".to_owned(), name.to_owned()];
        assert(strings_view(r@) =~= seq!["destroy"@, name@]);
        r
    }

    /// The jump rule as it stands in a rule listing: what the installer
    /// looks for before inserting it.
    pub fn rule_line(chain: &str, name: &str, target: IptablesTarget) -> (r: String)
        ensures
            r@ == "-A "@ + chain@ + " -p tcp -m multiport --dports 80,443 -m set --match-set "@
                + name@ + " src -j "@ + target.spec_display(),
    {
        let mut s = "-A ".to_owned();
        s.append(chain);
        s.append(" -p tcp -m multiport --dports 80,443 -m set --match-set ");
        s.append(name);
        s.append(" src -j ");
        let d = target.display();
        s.append(d.as_str());
        s
    }

    /// Arguments that insert the jump rule into a chain.
    pub fn insert_rule_args(chain: &str, name: &str, target: IptablesTarget) -> (r: Vec<String>)
        ensures
            strings_view(r@) =~= spec_insert_rule_args("-I"@, chain@, name@, target),
    {
        Self::jump_rule_args("-I", chain, name, target)
    }

    /// Arguments that delete the jump rule from a chain.
    pub fn delete_rule_args(chain: &str, name: &str, target: IptablesTarget) -> (r: Vec<String>)
        ensures
            strings_view(r@) =~= spec_insert_rule_args("-D"@, chain@, name@, target),
    {
        Self::jump_rule_args("-D", chain, name, target)
    }

    fn jump_rule_args(flag: &str, chain: &str, name: &str, target: IptablesTarget) -> (r: Vec<
        String,
    >)
        ensures
            strings_view(r@) =~= spec_insert_rule_args(flag@, chain@, name@, target),
    {
        let mut r: Vec<String> = vec![
            flag.to_owned(),
            chain.to_owned(),
            "-p".to_owned(),
            "tcp".to_owned(),
            "-m".to_owned(),
            "multiport".to_owned(),
            "--dports".to_owned(),
            "80,443".to_owned(),
            "-m".to_owned(),
            "set".to_owned(),
            "--match-set".to_owned(),
            name.to_owned(),
            "src".to_owned(),
            "-j".to_owned(),
        ];
        let ghost head = strings_view(r@);
        assert(head =~= seq![
            flag@,
            chain@,
            "-p"@,
            "tcp"@,
            "-m"@,
            "multiport"@,
            "--dports"@,
            "80,443"@,
            "-m"@,
            "set"@,
            "--match-set"@,
            name@,
            "src"@,
            "-j"@,
        ]);
        let mut extra = target.to_args();
        let ghost tail = strings_view(extra@);
        let mut i: usize = 0;
        while i < extra.len()
            invariant
                i <= extra@.len(),
                tail == strings_view(extra@),
                strings_view(r@) == head + tail.subrange(0, i as int),
            decreases extra@.len() - i,
        {
            let ghost pre_r = strings_view(r@);
            r.push(extra[i].clone());
            proof {
                assert(strings_view(r@) =~= pre_r.push(tail[i as int]));
                assert(pre_r.push(tail[i as int]) =~= head + tail.subrange(0, i + 1));
            }
            i = i + 1;
        }
        assert(tail.subrange(0, tail.len() as int) =~= tail);
        r
    }

    /// Arguments that add the address to its family's set.
    pub fn block_args(&self, ip: &IpAddress) -> (r: Vec<String>)
        requires
            ip.wf(),
        ensures
            strings_view(r@) =~= seq![
                "add"@,
                (if ip.v6 {
                    self.name_v6@
                } else {
                    self.name@
                }),
                spec_format_ip(*ip),
            ],
    {
        let set = if ip.v6 {
            self.name_v6.clone()
        } else {
            self.name.clone()
        };
        let r: Vec<String> = vec!["add".to_owned(), set, format_ip(ip)];
        r
    }

    /// Arguments that remove the address from its family's set.
    pub fn unblock_args(&self, ip: &IpAddress) -> (r: Vec<String>)
        requires
            ip.wf(),
        ensures
            strings_view(r@) =~= seq![
                "del"@,
                (if ip.v6 {
                    self.name_v6@
                } else {
                    self.name@
                }),
                spec_format_ip(*ip),
            ],
    {
        let set = if ip.v6 {
            self.name_v6.clone()
        } else {
            self.name.clone()
        };
        let r: Vec<String> = vec!["del".to_owned(), set, format_ip(ip)];
        r
    }
}

/// The rule-backed driver: a dedicated chain, one rule per block. These
/// builders give the exact argument vectors; the shell runs them against
/// the family's utility.
pub struct IpTables {
    pub name: String,
    pub iptables_path: String,
    pub ip6tables_path: String,
}

/// The rule tail matching source, protocol and the target's ports.
pub open spec fn spec_match_args(ip: IpAddress, ports: Seq<u16>) -> Seq<Seq<char>> {
    seq!["-s"@, spec_format_ip(ip), "-p"@, "tcp"@] + (if ports.len() == 0 {
        Seq::<Seq<char>>::empty()
    } else {
        seq!["-m"@, "multiport"@, "--dports"@, spec_join_dec(ports, ',')]
    }) + seq!["-j"@, "REJECT"@, "--reject-with"@, "tcp-reset"@]
}

impl IpTables {
    /// A driver over the conventional chain name and the given utility
    /// paths.
    pub fn new(iptables_path: String, ip6tables_path: String) -> (r: IpTables)
        ensures
            r.name@ == "veto"@,
            r.iptables_path == iptables_path,
            r.ip6tables_path == ip6tables_path,
    {
        IpTables { name: "veto".to_owned(), iptables_path, ip6tables_path }
    }

    /// The utility that speaks for the target's address family.
    pub fn select_path(&self, v6: bool) -> (r: &String)
        ensures
            r == (if v6 {
                &self.ip6tables_path
            } else {
                &self.iptables_path
            }),
    {
        if v6 {
            &self.ip6tables_path
        } else {
            &self.iptables_path
        }
    }

    /// The rule tail matching the target.
    pub fn match_args(target: &Target) -> (r: Vec<String>)
        requires
            target.ip.wf(),
        ensures
            strings_view(r@) =~= spec_match_args(target.ip, target.ports@),
    {
        let mut r: Vec<String> = vec![
            "-s".to_owned(),
            format_ip(&target.ip),
            "-p".to_owned(),
            "tcp".to_owned(),
        ];
        if target.ports.len() > 0 {
            r.push("-m".to_owned());
            r.push("multiport".to_owned());
            r.push("--dports".to_owned());
            r.push(join_dec(&target.ports, ','));
        }
        r.push("-j".to_owned());
        r.push("REJECT".to_owned());
        r.push("--reject-with".to_owned());
        r.push("tcp-reset".to_owned());
        assert(strings_view(r@) =~= spec_match_args(target.ip, target.ports@));
        r
    }

    /// Arguments that prepend the block rule to the chain.
    pub fn block_cmd(&self, target: &Target) -> (r: Vec<String>)
        requires
            target.ip.wf(),
        ensures
            strings_view(r@) =~= seq!["-I"@, self.name@] + spec_match_args(
                target.ip,
                target.ports@,
            ),
    {
        let mut r: Vec<String> = vec!["-I".to_owned(), self.name.clone()];
        let tail = Self::match_args(target);
        let ghost head = strings_view(r@);
        let ghost tv = strings_view(tail@);
        let mut i: usize = 0;
        while i < tail.len()
            invariant
                i <= tail@.len(),
                tv == strings_view(tail@),
                strings_view(r@) == head + tv.subrange(0, i as int),
            decreases tail@.len() - i,
        {
            let ghost pre_r = strings_view(r@);
            r.push(tail[i].clone());
            proof {
                assert(strings_view(r@) =~= pre_r.push(tv[i as int]));
                assert(pre_r.push(tv[i as int]) =~= head + tv.subrange(0, i + 1));
            }
            i = i + 1;
        }
        assert(tv.subrange(0, tv.len() as int) =~= tv);
        assert(head =~= seq!["-I"@, self.name@]);
        r
    }

    /// Arguments that delete the mirror rule from the chain.
    pub fn unblock_cmd(&self, target: &Target) -> (r: Vec<String>)
        requires
            target.ip.wf(),
        ensures
            strings_view(r@) =~= seq!["-D"@, self.name@] + spec_match_args(
                target.ip,
                target.ports@,
            ),
    {
        let mut r: Vec<String> = vec!["-D".to_owned(), self.name.clone()];
        let tail = Self::match_args(target);
        let ghost head = strings_view(r@);
        let ghost tv = strings_view(tail@);
        let mut i: usize = 0;
        while i < tail.len()
            invariant
                i <= tail@.len(),
                tv == strings_view(tail@),
                strings_view(r@) == head + tv.subrange(0, i as int),
            decreases tail@.len() - i,
        {
            let ghost pre_r = strings_view(r@);
            r.push(tail[i].clone());
            proof {
                assert(strings_view(r@) =~= pre_r.push(tv[i as int]));
                assert(pre_r.push(tv[i as int]) =~= head + tv.subrange(0, i + 1));
            }
            i = i + 1;
        }
        assert(tv.subrange(0, tv.len() as int) =~= tv);
        assert(head =~= seq!["-D"@, self.name@]);
        r
    }

    /// The commands that install the dedicated chain.
    pub fn install_cmds(&self) -> (r: Vec<Vec<String>>)
        ensures
            cmds_view(r@) =~= seq![
                seq!["-N"@, self.name@],
                seq!["-A"@, self.name@, "-j"@, "ACCEPT"@],
                seq![
                    "-I"@,
                    "INPUT"@,
                    "-m"@,
                    "state"@,
                    "--state"@,
                    "NEW"@,
                    "-p"@,
                    "tcp"@,
                    "-j"@,
                    self.name@,
                ],
            ],
    {
        let c1: Vec<String> = vec!["-N".to_owned(), self.name.clone()];
        let c2: Vec<String> = vec![
            "-A".to_owned(),
            self.name.clone(),
            "-j".to_owned(),
            "ACCEPT".to_owned(),
        ];
        let c3: Vec<String> = vec![
            "-I".to_owned(),
            "INPUT".to_owned(),
            "-m".to_owned(),
            "state".to_owned(),
            "--state".to_owned(),
            "NEW".to_owned(),
            "-p".to_owned(),
            "tcp".to_owned(),
            "-j".to_owned(),
            self.name.clone(),
        ];
        assert(strings_view(c1@) =~= seq!["-N"@, self.name@]);
        assert(strings_view(c2@) =~= seq!["-A"@, self.name@, "-j"@, "ACCEPT"@]);
        assert(strings_view(c3@) =~= seq![
            "-I"@,
            "INPUT"@,
            "-m"@,
            "state"@,
            "--state"@,
            "NEW"@,
            "-p"@,
            "tcp"@,
            "-j"@,
            self.name@,
        ]);
        let r: Vec<Vec<String>> = vec![c1, c2, c3];
        assert(cmds_view(r@) =~= seq![
            strings_view(r@[0]@),
            strings_view(r@[1]@),
            strings_view(r@[2]@),
        ]);
        r
    }

    /// The commands that remove the dedicated chain.
    pub fn uninstall_cmds(&self) -> (r: Vec<Vec<String>>)
        ensures
            cmds_view(r@) =~= seq![
                seq![
                    "-D"@,
                    "INPUT"@,
                    "-m"@,
                    "state"@,
                    "--state"@,
                    "NEW"@,
                    "-p"@,
                    "tcp"@,
                    "-j"@,
                    self.name@,
                ],
                seq!["-F"@, self.name@],
                seq!["-X"@, self.name@],
            ],
    {
        let c1: Vec<String> = vec![
            "-D".to_owned(),
            "INPUT".to_owned(),
            "-m".to_owned(),
            "state".to_owned(),
            "--state".to_owned(),
            "NEW".to_owned(),
            "-p".to_owned(),
            "tcp".to_owned(),
            "-j".to_owned(),
            self.name.clone(),
        ];
        let c2: Vec<String> = vec!["-F".to_owned(), self.name.clone()];
        let c3: Vec<String> = vec!["-X".to_owned(), self.name.clone()];
        assert(strings_view(c1@) =~= seq![
            "-D"@,
            "INPUT"@,
            "-m"@,
            "state"@,
            "--state"@,
            "NEW"@,
            "-p"@,
            "tcp"@,
            "-j"@,
            self.name@,
        ]);
        assert(strings_view(c2@) =~= seq!["-F"@, self.name@]);
        assert(strings_view(c3@) =~= seq!["-X"@, self.name@]);
        let r: Vec<Vec<String>> = vec![c1, c2, c3];
        assert(cmds_view(r@) =~= seq![
            strings_view(r@[0]@),
            strings_view(r@[1]@),
            strings_view(r@[2]@),
        ]);
        r
    }
}

} // verus!
