//! The reaction core: draining newly appended lines through the matcher,
//! recording convictions in the ledger, and deciding the block and
//! unblock actions the shell performs.

use vstd::prelude::*;

use crate::firewall::Target;
use crate::ip::{IpAddress, IpNetwork};
use crate::ledger::{
    contains_ip, spec_active, spec_lookup, spec_outdated_actions, spec_outdated_effect,
    spec_upsert, strings_view, Ledger, RecordModel,
};
use crate::matcher::{spec_find_from, Matcher};
use crate::rules::Entry;
use crate::strutil::str_eq;

verus! {

/// Per watched file: whether its line stream is open, and the watermark.
pub struct State {
    pub lines_open: bool,
    pub time: i64,
}

/// The reaction state: the whitelist, the ledger, and the instant of the
/// last unblock pass.
pub struct Handler {
    pub whitelist: Vec<IpNetwork>,
    pub storage: Ledger,
    pub last_unblock: i64,
}

impl Handler {
    pub open spec fn wf(&self) -> bool {
        &&& self.storage.wf()
        &&& forall|i: int| 0 <= i < self.whitelist@.len() ==> (#[trigger] self.whitelist@[i]).wf()
    }
}

/// Whether some whitelist network holds the address.
pub open spec fn spec_whitelisted(wl: Seq<IpNetwork>, ip: IpAddress) -> bool {
    exists|i: int| 0 <= i < wl.len() && (#[trigger] wl[i]).spec_contains(ip)
}

/// Whether some whitelist network holds the address.
pub fn is_whitelisted(wl: &Vec<IpNetwork>, ip: &IpAddress) -> (r: bool)
    requires
        forall|i: int| 0 <= i < wl@.len() ==> (#[trigger] wl@[i]).wf(),
    ensures
        r == spec_whitelisted(wl@, *ip),
{
    let mut i: usize = 0;
    while i < wl.len()
        invariant
            i <= wl@.len(),
            forall|j: int| 0 <= j < wl@.len() ==> (#[trigger] wl@[j]).wf(),
            forall|j: int| 0 <= j < i ==> !(#[trigger] wl@[j]).spec_contains(*ip),
        decreases wl@.len() - i,
    {
        if wl[i].contains(ip) {
            return true;
        }
        i = i + 1;
    }
    false
}

/// One draining pass from the front of `lines`: the ledger, the block
/// actions (newly created records only, whitelisted hosts excluded), and
/// the watermark it leaves behind.
pub open spec fn spec_drain(
    e: &Entry,
    wl: Seq<IpNetwork>,
    s: Seq<(IpAddress, RecordModel)>,
    now: int,
    last: int,
    lines: Seq<Seq<char>>,
) -> (Seq<(IpAddress, RecordModel)>, Seq<IpAddress>, int)
    decreases lines.len(),
{
    if lines.len() == 0 {
        (s, Seq::empty(), last)
    } else {
        let step = spec_find_from(e, now, last, lines[0], 0);
        match step.0 {
            None => spec_drain(e, wl, s, now, step.1, lines.drop_first()),
            Some(ip) => if spec_whitelisted(wl, ip) {
                spec_drain(e, wl, s, now, step.1, lines.drop_first())
            } else {
                let existed = contains_ip(s, ip);
                let s2 = spec_upsert(s, ip, now + e.rule.timeout, e.rule.file@);
                let rest = spec_drain(e, wl, s2, now, step.1, lines.drop_first());
                if existed {
                    rest
                } else {
                    (rest.0, seq![ip] + rest.1, rest.2)
                }
            },
        }
    }
}

/// The watermark of a pass never moves backwards.
pub proof fn lemma_drain_monotonic(
    e: &Entry,
    wl: Seq<IpNetwork>,
    s: Seq<(IpAddress, RecordModel)>,
    now: int,
    last: int,
    lines: Seq<Seq<char>>,
)
    ensures
        spec_drain(e, wl, s, now, last, lines).2 >= last,
    decreases lines.len(),
{
    if lines.len() > 0 {
        let step = spec_find_from(e, now, last, lines[0], 0);
        crate::matcher::lemma_find_monotonic(e, now, last, lines[0], 0);
        match step.0 {
            None => {
                lemma_drain_monotonic(e, wl, s, now, step.1, lines.drop_first());
            },
            Some(ip) => {
                if spec_whitelisted(wl, ip) {
                    lemma_drain_monotonic(e, wl, s, now, step.1, lines.drop_first());
                } else {
                    let s2 = spec_upsert(s, ip, now + e.rule.timeout, e.rule.file@);
                    lemma_drain_monotonic(e, wl, s2, now, step.1, lines.drop_first());
                }
            },
        }
    }
}

/// A whitelisted host is never touched by a draining pass: its ledger
/// record, if any, stands exactly as before, and no block action names
/// it — whatever the lines hold.
pub proof fn lemma_whitelist_exclusion(
    e: &Entry,
    wl: Seq<IpNetwork>,
    s: Seq<(IpAddress, RecordModel)>,
    now: int,
    last: int,
    lines: Seq<Seq<char>>,
    ip: IpAddress,
)
    requires
        spec_whitelisted(wl, ip),
    ensures
        spec_lookup(spec_drain(e, wl, s, now, last, lines).0, ip) == spec_lookup(s, ip),
        !spec_drain(e, wl, s, now, last, lines).1.contains(ip),
    decreases lines.len(),
{
    if lines.len() > 0 {
        let step = spec_find_from(e, now, last, lines[0], 0);
        match step.0 {
            None => {
                lemma_whitelist_exclusion(e, wl, s, now, step.1, lines.drop_first(), ip);
            },
            Some(h) => {
                if spec_whitelisted(wl, h) {
                    lemma_whitelist_exclusion(e, wl, s, now, step.1, lines.drop_first(), ip);
                } else {
                    // h is not whitelisted, so h is not ip
                    assert(h != ip);
                    let s2 = spec_upsert(s, h, now + e.rule.timeout, e.rule.file@);
                    crate::ledger::lemma_upsert_other(s, h, now + e.rule.timeout, e.rule.file@, ip);
                    lemma_whitelist_exclusion(e, wl, s2, now, step.1, lines.drop_first(), ip);
                    let rest = spec_drain(e, wl, s2, now, step.1, lines.drop_first());
                    if !contains_ip(s, h) {
                        assert(!(seq![h] + rest.1).contains(ip)) by {
                            assert(forall|k: int|
                                0 <= k < rest.1.len() ==> #[trigger] (seq![h] + rest.1)[k + 1]
                                    == rest.1[k]);
                            if (seq![h] + rest.1).contains(ip) {
                                let k = choose|k: int|
                                    0 <= k < (seq![h] + rest.1).len() && (seq![h] + rest.1)[k]
                                        == ip;
                                if k == 0 {
                                    assert(h == ip);
                                } else {
                                    assert(rest.1[k - 1] == ip);
                                }
                            }
                        }
                    }
                }
            },
        }
    }
}

/// A host the ledger already holds is never blocked again: a drain may
/// refresh its sentence, but emits no block action for it. With a fresh
/// ledger this makes the one block per address exact: the first
/// conviction creates the record, and every pass after that sees it.
pub proof fn lemma_block_once(
    e: &Entry,
    wl: Seq<IpNetwork>,
    s: Seq<(IpAddress, RecordModel)>,
    now: int,
    last: int,
    lines: Seq<Seq<char>>,
    ip: IpAddress,
)
    requires
        contains_ip(s, ip),
    ensures
        !spec_drain(e, wl, s, now, last, lines).1.contains(ip),
        contains_ip(spec_drain(e, wl, s, now, last, lines).0, ip),
    decreases lines.len(),
{
    if lines.len() > 0 {
        let step = spec_find_from(e, now, last, lines[0], 0);
        match step.0 {
            None => {
                lemma_block_once(e, wl, s, now, step.1, lines.drop_first(), ip);
            },
            Some(h) => {
                if spec_whitelisted(wl, h) {
                    lemma_block_once(e, wl, s, now, step.1, lines.drop_first(), ip);
                } else {
                    let s2 = spec_upsert(s, h, now + e.rule.timeout, e.rule.file@);
                    if h == ip {
                        crate::ledger::lemma_upsert_idempotent(
                            s,
                            ip,
                            now + e.rule.timeout,
                            now + e.rule.timeout,
                            e.rule.file@,
                            e.rule.file@,
                        );
                    } else {
                        crate::ledger::lemma_upsert_other(
                            s,
                            h,
                            now + e.rule.timeout,
                            e.rule.file@,
                            ip,
                        );
                    }
                    assert(contains_ip(s2, ip));
                    lemma_block_once(e, wl, s2, now, step.1, lines.drop_first(), ip);
                    let rest = spec_drain(e, wl, s2, now, step.1, lines.drop_first());
                    if !contains_ip(s, h) {
                        // only a host without a record is blocked, so not ip
                        assert(h != ip);
                        assert(!(seq![h] + rest.1).contains(ip)) by {
                            if (seq![h] + rest.1).contains(ip) {
                                let k = choose|k: int|
                                    0 <= k < (seq![h] + rest.1).len() && (seq![h] + rest.1)[k]
                                        == ip;
                                if k == 0 {
                                    assert(h == ip);
                                } else {
                                    assert((seq![h] + rest.1)[k] == rest.1[k - 1]);
                                }
                            }
                        }
                    }
                }
            },
        }
    }
}

impl Handler {
    /// Drains newly appended lines: every line runs through the matcher
    /// under the watermark; a convicted host that is not whitelisted is
    /// recorded, and a block action is returned exactly for records that
    /// did not exist before. An inert stream drains nothing.
    #[verifier::loop_isolation(false)]
    pub fn handle_modified(
        &mut self,
        entry: &Entry,
        state: &mut State,
        lines: &Vec<String>,
        now: i64,
    ) -> (actions: Vec<Target>)
        requires
            old(self).wf(),
            entry.wf(),
            now + entry.rule.timeout <= i64::MAX,
        ensures
            final(self).wf(),
            final(self).whitelist == old(self).whitelist,
            final(self).last_unblock == old(self).last_unblock,
            final(state).lines_open == old(state).lines_open,
            final(state).time >= old(state).time,
            !old(state).lines_open ==> final(self).storage == old(self).storage && *final(state)
                == *old(state) && actions@.len() == 0,
            old(state).lines_open ==> ({
                let pass = spec_drain(
                    entry,
                    old(self).whitelist@,
                    old(self).storage.seq_view(),
                    now as int,
                    old(state).time as int,
                    strings_view(lines@),
                );
                &&& final(self).storage.seq_view() == pass.0
                &&& actions@.map_values(|t: Target| t.ip) == pass.1
                &&& final(state).time as int == pass.2
                &&& forall|k: int|
                    0 <= k < actions@.len() ==> (#[trigger] actions@[k]).ports@
                        == entry.rule.ports@ && actions@[k].ip.wf()
            }),
    {
        let mut actions: Vec<Target> = Vec::new();
        if !state.lines_open {
            return actions;
        }
        let ghost all = strings_view(lines@);
        let ghost pass = spec_drain(
            entry,
            self.whitelist@,
            self.storage.seq_view(),
            now as int,
            state.time as int,
            all,
        );
        let matcher = Matcher::with(now);
        let mut i: usize = 0;
        assert(all.skip(0) =~= all);
        assert(actions@.map_values(|t: Target| t.ip) =~= Seq::<IpAddress>::empty());
        while i < lines.len()
            invariant
                i <= lines@.len(),
                self.wf(),
                self.whitelist == old(self).whitelist,
                self.last_unblock == old(self).last_unblock,
                state.lines_open == old(state).lines_open,
                state.time >= old(state).time,
                now + entry.rule.timeout <= i64::MAX,
                pass == ({
                    let rest = spec_drain(
                        entry,
                        self.whitelist@,
                        self.storage.seq_view(),
                        now as int,
                        state.time as int,
                        all.skip(i as int),
                    );
                    (rest.0, actions@.map_values(|t: Target| t.ip) + rest.1, rest.2)
                }),
                forall|k: int|
                    0 <= k < actions@.len() ==> (#[trigger] actions@[k]).ports@
                        == entry.rule.ports@ && actions@[k].ip.wf(),
            decreases lines@.len() - i,
        {
            let ghost tail = all.skip(i as int);
            assert(tail[0] == lines@[i as int]@);
            assert(tail.drop_first() =~= all.skip(i + 1));
            let verdict = matcher.find(entry, &mut state.time, lines[i].as_str());
            match verdict {
                None => {},
                Some(addr) => {
                    if is_whitelisted(&self.whitelist, &addr) {
                        // skip whitelisted hosts, keep draining
                    } else {
                        let until = now + entry.rule.timeout;
                        let existed = self.storage.upsert(addr, until, entry.rule.file.as_str());
                        if !existed {
                            let ghost pre = actions@;
                            let mut ports: Vec<u16> = Vec::new();
                            let mut pi: usize = 0;
                            while pi < entry.rule.ports.len()
                                invariant
                                    pi <= entry.rule.ports@.len(),
                                    ports@ == entry.rule.ports@.subrange(0, pi as int),
                                decreases entry.rule.ports@.len() - pi,
                            {
                                ports.push(entry.rule.ports[pi]);
                                pi = pi + 1;
                                assert(ports@ =~= entry.rule.ports@.subrange(0, pi as int));
                            }
                            assert(ports@ =~= entry.rule.ports@);
                            actions.push(Target { ip: addr, ports });
                            proof {
                                assert(actions@.map_values(|t: Target| t.ip) =~= pre.map_values(
                                    |t: Target| t.ip,
                                ).push(addr));
                            }
                        }
                    }
                },
            }
            i = i + 1;
            proof {
                let rest = spec_drain(
                    entry,
                    self.whitelist@,
                    self.storage.seq_view(),
                    now as int,
                    state.time as int,
                    all.skip(i as int),
                );
                let av = actions@.map_values(|t: Target| t.ip);
                match verdict {
                    Some(addr) => {
                        if !spec_whitelisted(self.whitelist@, addr) {
                            assert(av + (seq![addr] + rest.1) =~= av.push(addr) + rest.1);
                        }
                    },
                    None => {},
                }
            }
        }
        assert(all.skip(all.len() as int).len() == 0);
        assert(actions@.map_values(|t: Target| t.ip) + Seq::<IpAddress>::empty()
            =~= actions@.map_values(|t: Target| t.ip));
        actions
    }
}

/// The ports of the entry owning `file`: first match decides, none means
/// an empty list.
pub open spec fn spec_ports_of(known: Seq<(Seq<char>, Seq<u16>)>, file: Seq<char>) -> Seq<u16>
    decreases known.len(),
{
    if known.len() == 0 {
        Seq::empty()
    } else if known[0].0 == file {
        known[0].1
    } else {
        spec_ports_of(known.drop_first(), file)
    }
}

pub open spec fn known_view(v: Seq<(String, Vec<u16>)>) -> Seq<(Seq<char>, Seq<u16>)> {
    v.map_values(|p: (String, Vec<u16>)| (p.0@, p.1@))
}

pub open spec fn known_files(v: Seq<(Seq<char>, Seq<u16>)>) -> Seq<Seq<char>> {
    v.map_values(|p: (Seq<char>, Seq<u16>)| p.0)
}

fn ports_of(known: &Vec<(String, Vec<u16>)>, file: &str) -> (r: Vec<u16>)
    ensures
        r@ == spec_ports_of(known_view(known@), file@),
{
    let ghost view = known_view(known@);
    let mut i: usize = 0;
    assert(view.skip(0) =~= view);
    while i < known.len()
        invariant
            i <= known@.len(),
            view == known_view(known@),
            spec_ports_of(view, file@) == spec_ports_of(view.skip(i as int), file@),
        decreases known@.len() - i,
    {
        let ghost tail = view.skip(i as int);
        assert(tail[0] == view[i as int]);
        assert(tail.drop_first() =~= view.skip(i + 1));
        if str_eq(known[i].0.as_str(), file) {
            let mut r: Vec<u16> = Vec::new();
            let mut j: usize = 0;
            while j < known[i].1.len()
                invariant
                    0 <= i < known@.len(),
                    j <= known@[i as int].1@.len(),
                    r@ == known@[i as int].1@.subrange(0, j as int),
                decreases known@[i as int].1@.len() - j,
            {
                r.push(known[i].1[j]);
                j = j + 1;
                assert(r@ =~= known@[i as int].1@.subrange(0, j as int));
            }
            assert(r@ =~= known@[i as int].1@);
            assert(spec_ports_of(tail, file@) == tail[0].1);
            return r;
        }
        assert(tail[0].0 != file@);
        i = i + 1;
    }
    assert(view.skip(view.len() as int).len() == 0);
    Vec::new()
}

fn file_names(known: &Vec<(String, Vec<u16>)>) -> (r: Vec<String>)
    ensures
        strings_view(r@) == known_files(known_view(known@)),
{
    let mut r: Vec<String> = Vec::new();
    let mut i: usize = 0;
    while i < known.len()
        invariant
            i <= known@.len(),
            strings_view(r@) == known_files(known_view(known@)).subrange(0, i as int),
        decreases known@.len() - i,
    {
        let ghost pre = strings_view(r@);
        r.push(known[i].0.clone());
        proof {
            assert(strings_view(r@) =~= pre.push(known@[i as int].0@));
            assert(known_files(known_view(known@))[i as int] == known@[i as int].0@);
            assert(pre.push(known@[i as int].0@) =~= known_files(known_view(known@)).subrange(
                0,
                i + 1,
            ));
        }
        i = i + 1;
    }
    assert(known_files(known_view(known@)).subrange(0, known@.len() as int) =~= known_files(
        known_view(known@),
    ));
    r
}

impl Handler {
    /// The file went away: its stream becomes inert; the watermark stays.
    pub fn handle_removed(&self, state: &mut State)
        ensures
            !final(state).lines_open,
            final(state).time == old(state).time,
    {
        state.lines_open = false;
    }

    /// The file reappeared: the stream restarts from the beginning; the
    /// watermark is kept, so historical replays stay filtered.
    pub fn handle_created(&self, state: &mut State)
        ensures
            final(state).lines_open,
            final(state).time == old(state).time,
    {
        state.lines_open = true;
    }

    /// One unblock tick: at most once per instant, every expired record
    /// still active whose file is watched is marked inactive and turned
    /// into an unblock action carrying its rule's ports. Records of
    /// unwatched files stay active for later ticks.
    #[verifier::loop_isolation(false)]
    pub fn handle_unblock(&mut self, known: &Vec<(String, Vec<u16>)>, now: i64) -> (actions: Vec<
        Target,
    >)
        requires
            old(self).wf(),
        ensures
            final(self).wf(),
            final(self).whitelist == old(self).whitelist,
            old(self).last_unblock >= now ==> *final(self) == *old(self) && actions@.len() == 0,
            old(self).last_unblock < now ==> ({
                let files = known_files(known_view(known@));
                let acts = spec_outdated_actions(old(self).storage.seq_view(), now as int, files);
                &&& final(self).storage.seq_view() == spec_outdated_effect(
                    old(self).storage.seq_view(),
                    now as int,
                    files,
                )
                &&& final(self).last_unblock == now
                &&& actions@.len() == acts.len()
                &&& forall|k: int|
                    0 <= k < acts.len() ==> (#[trigger] actions@[k]).ip == acts[k].0
                        && actions@[k].ports@ == spec_ports_of(known_view(known@), acts[k].1)
            }),
    {
        let mut actions: Vec<Target> = Vec::new();
        if self.last_unblock >= now {
            return actions;
        }
        let names = file_names(known);
        let released = self.storage.iter_outdated(now, &names);
        let ghost acts = spec_outdated_actions(
            old(self).storage.seq_view(),
            now as int,
            known_files(known_view(known@)),
        );
        let mut i: usize = 0;
        while i < released.len()
            invariant
                i <= released@.len(),
                crate::ledger::targets_view(released@) == acts,
                actions@.len() == i,
                forall|k: int|
                    0 <= k < i ==> (#[trigger] actions@[k]).ip == acts[k].0 && actions@[k].ports@
                        == spec_ports_of(known_view(known@), acts[k].1),
            decreases released@.len() - i,
        {
            let ports = ports_of(known, released[i].1.as_str());
            assert(acts[i as int] == (released@[i as int].0, released@[i as int].1@));
            actions.push(Target { ip: released[i].0, ports });
            i = i + 1;
        }
        self.last_unblock = now;
        actions
    }

    /// The recovery pass at startup: every record whose sentence still
    /// runs and whose file is watched becomes a block action again, so
    /// the firewall is rebuilt before any new line is read.
    #[verifier::loop_isolation(false)]
    pub fn startup_blocks(&self, known: &Vec<(String, Vec<u16>)>, now: i64) -> (actions: Vec<
        Target,
    >)
        ensures
            ({
                let still = spec_active(self.storage.seq_view(), now as int);
                let watched = known_files(known_view(known@));
                let kept = spec_kept(still, watched);
                &&& actions@.len() == kept.len()
                &&& forall|k: int|
                    0 <= k < actions@.len() ==> (#[trigger] actions@[k]).ip == kept[k].0
                        && actions@[k].ports@ == spec_ports_of(known_view(known@), kept[k].1)
            }),
    {
        let ghost watched = known_files(known_view(known@));
        let names = file_names(known);
        let still = self.storage.iter_active(now);
        let ghost sv = crate::ledger::targets_view(still@);
        let mut actions: Vec<Target> = Vec::new();
        let ghost mut done: Seq<(IpAddress, Seq<char>)> = Seq::empty();
        let mut i: usize = 0;
        assert(sv.skip(0) =~= sv);
        assert(done + spec_kept(sv.skip(0), watched) =~= spec_kept(sv, watched));
        while i < still.len()
            invariant
                i <= still@.len(),
                sv == crate::ledger::targets_view(still@),
                spec_kept(sv, watched) == done + spec_kept(sv.skip(i as int), watched),
                actions@.len() == done.len(),
                forall|k: int|
                    0 <= k < actions@.len() ==> (#[trigger] actions@[k]).ip == done[k].0
                        && actions@[k].ports@ == spec_ports_of(known_view(known@), done[k].1),
            decreases still@.len() - i,
        {
            let ghost tail = sv.skip(i as int);
            assert(tail[0] == sv[i as int]);
            assert(tail.drop_first() =~= sv.skip(i + 1));
            assert(sv[i as int] == (still@[i as int].0, still@[i as int].1@));
            let known_file = crate::ledger::contains_string(&names, still[i].1.as_str());
            if known_file {
                let ports = ports_of(known, still[i].1.as_str());
                actions.push(Target { ip: still[i].0, ports });
                proof {
                    done = done.push(sv[i as int]);
                    assert(done + spec_kept(sv.skip(i + 1), watched) =~= done.drop_last() + (seq![
                        sv[i as int],
                    ] + spec_kept(sv.skip(i + 1), watched)));
                }
            } else {
                assert(!watched.contains(sv[i as int].1));
            }
            i = i + 1;
        }
        assert(sv.skip(sv.len() as int).len() == 0);
        assert(done =~= spec_kept(sv, watched));
        actions
    }
}

/// The active records whose files are watched, in ledger order.
pub open spec fn spec_kept(
    still: Seq<(IpAddress, Seq<char>)>,
    watched: Seq<Seq<char>>,
) -> Seq<(IpAddress, Seq<char>)>
    decreases still.len(),
{
    if still.len() == 0 {
        Seq::empty()
    } else {
        let rest = spec_kept(still.drop_first(), watched);
        if watched.contains(still[0].1) {
            seq![still[0]] + rest
        } else {
            rest
        }
    }
}

} // verus!
