//! The block ledger: every address ever blocked, with the file it came
//! from, its sentence deadline, whether the firewall is expected to hold
//! it, and how often it was blocked. Insertion order is kept.

use vstd::prelude::*;

use crate::ip::IpAddress;
use crate::strutil::str_eq;

verus! {

/// One sentence: where it came from, until when it runs, whether the
/// firewall is expected to enforce it still, and how often it recurred.
pub struct BlockRecord {
    pub file: String,
    pub until: i64,
    pub active: bool,
    pub hits: u8,
}

/// The mathematical shape of a record.
pub ghost struct RecordModel {
    pub file: Seq<char>,
    pub until: int,
    pub active: bool,
    pub hits: int,
}

impl BlockRecord {
    pub open spec fn model(&self) -> RecordModel {
        RecordModel {
            file: self.file@,
            until: self.until as int,
            active: self.active,
            hits: self.hits as int,
        }
    }
}

pub open spec fn strings_view(v: Seq<String>) -> Seq<Seq<char>> {
    v.map_values(|s: String| s@)
}

pub open spec fn targets_view(v: Seq<(IpAddress, String)>) -> Seq<(IpAddress, Seq<char>)> {
    v.map_values(|p: (IpAddress, String)| (p.0, p.1@))
}

/// The record of `ip`, first hit decides; with distinct keys, the only one.
pub open spec fn spec_lookup(s: Seq<(IpAddress, RecordModel)>, ip: IpAddress) -> Option<
    RecordModel,
>
    decreases s.len(),
{
    if s.len() == 0 {
        None
    } else if s[0].0 == ip {
        Some(s[0].1)
    } else {
        spec_lookup(s.drop_first(), ip)
    }
}

pub open spec fn contains_ip(s: Seq<(IpAddress, RecordModel)>, ip: IpAddress) -> bool {
    spec_lookup(s, ip) is Some
}

pub open spec fn distinct_keys(s: Seq<(IpAddress, RecordModel)>) -> bool {
    forall|i: int, j: int| 0 <= i < j < s.len() ==> (#[trigger] s[i]).0 != (#[trigger] s[j]).0
}

/// An upsert, in place: an existing record keeps its file and hit count
/// but takes the new deadline and is re-armed; a fresh one starts at the
/// end with no hits.
pub open spec fn spec_upsert(
    s: Seq<(IpAddress, RecordModel)>,
    ip: IpAddress,
    until: int,
    file: Seq<char>,
) -> Seq<(IpAddress, RecordModel)>
    decreases s.len(),
{
    if s.len() == 0 {
        seq![(ip, RecordModel { file, until, active: true, hits: 0 })]
    } else if s[0].0 == ip {
        seq![(ip, RecordModel { file: s[0].1.file, until, active: true, hits: s[0].1.hits })]
            + s.drop_first()
    } else {
        seq![s[0]] + spec_upsert(s.drop_first(), ip, until, file)
    }
}

/// A removal of the record of `ip`, if any.
pub open spec fn spec_remove(s: Seq<(IpAddress, RecordModel)>, ip: IpAddress) -> Seq<
    (IpAddress, RecordModel),
>
    decreases s.len(),
{
    if s.len() == 0 {
        Seq::empty()
    } else if s[0].0 == ip {
        s.drop_first()
    } else {
        seq![s[0]] + spec_remove(s.drop_first(), ip)
    }
}

/// The records still in their sentence: `until` at or past now.
pub open spec fn spec_active(s: Seq<(IpAddress, RecordModel)>, now: int) -> Seq<
    (IpAddress, Seq<char>),
>
    decreases s.len(),
{
    if s.len() == 0 {
        Seq::empty()
    } else {
        let rest = spec_active(s.drop_first(), now);
        if s[0].1.until >= now {
            seq![(s[0].0, s[0].1.file)] + rest
        } else {
            rest
        }
    }
}

pub open spec fn outdated_hit(p: (IpAddress, RecordModel), now: int, files: Seq<Seq<char>>) -> bool {
    p.1.until < now && p.1.active && files.contains(p.1.file)
}

/// The unblock actions of one pass: every expired record still active
/// whose file the caller knows.
pub open spec fn spec_outdated_actions(
    s: Seq<(IpAddress, RecordModel)>,
    now: int,
    files: Seq<Seq<char>>,
) -> Seq<(IpAddress, Seq<char>)>
    decreases s.len(),
{
    if s.len() == 0 {
        Seq::empty()
    } else {
        let rest = spec_outdated_actions(s.drop_first(), now, files);
        if outdated_hit(s[0], now, files) {
            seq![(s[0].0, s[0].1.file)] + rest
        } else {
            rest
        }
    }
}

pub open spec fn outdated_elem(
    p: (IpAddress, RecordModel),
    now: int,
    files: Seq<Seq<char>>,
) -> (IpAddress, RecordModel) {
    if outdated_hit(p, now, files) {
        (p.0, RecordModel { active: false, ..p.1 })
    } else {
        p
    }
}

/// The ledger after one unblock pass: released records become inactive,
/// everything else stands; no record leaves.
pub open spec fn spec_outdated_effect(
    s: Seq<(IpAddress, RecordModel)>,
    now: int,
    files: Seq<Seq<char>>,
) -> Seq<(IpAddress, RecordModel)> {
    s.map_values(|p: (IpAddress, RecordModel)| outdated_elem(p, now, files))
}

/// The ledger itself, with the flag that tells the persistence worker
/// whether a snapshot is due.
pub struct Ledger {
    entries: Vec<(IpAddress, BlockRecord)>,
    dirty: bool,
}

impl Ledger {
    pub closed spec fn seq_view(&self) -> Seq<(IpAddress, RecordModel)> {
        self.entries@.map_values(|p: (IpAddress, BlockRecord)| (p.0, p.1.model()))
    }

    /// Whether a snapshot is due.
    pub closed spec fn spec_dirty(&self) -> bool {
        self.dirty
    }

    /// Whether a snapshot is due, as the persistence worker reads it.
    pub fn is_dirty(&self) -> (r: bool)
        ensures
            r == self.spec_dirty(),
    {
        self.dirty
    }

    /// Distinct well-formed keys.
    pub open spec fn wf(&self) -> bool {
        &&& distinct_keys(self.seq_view())
        &&& forall|i: int| 0 <= i < self.seq_view().len() ==> (#[trigger] self.seq_view()[i]).0.wf()
    }

    /// An empty ledger, clean.
    pub fn new() -> (l: Ledger)
        ensures
            l.seq_view() =~= Seq::<(IpAddress, RecordModel)>::empty(),
            l.wf(),
            !l.spec_dirty(),
    {
        let l = Ledger { entries: Vec::new(), dirty: false };
        assert(l.seq_view() =~= Seq::<(IpAddress, RecordModel)>::empty());
        l
    }

    /// The snapshot was written: nothing is pending.
    pub fn mark_clean(&mut self)
        ensures
            final(self).seq_view() == old(self).seq_view(),
            !final(self).spec_dirty(),
    {
        self.dirty = false;
    }

    /// The index of `ip`, scanning from the front.
    fn find_index(&self, ip: &IpAddress) -> (r: Option<usize>)
        ensures
            ({
                let s = self.seq_view();
                match r {
                    Some(i) => i < s.len() && s[i as int].0 == *ip && (forall|j: int|
                        0 <= j < i ==> (#[trigger] s[j]).0 != *ip),
                    None => forall|j: int| 0 <= j < s.len() ==> (#[trigger] s[j]).0 != *ip,
                }
            }),
    {
        let ghost s = self.seq_view();
        let mut i: usize = 0;
        while i < self.entries.len()
            invariant
                i <= s.len(),
                s == self.seq_view(),
                s.len() == self.entries@.len(),
                forall|j: int| 0 <= j < i ==> (#[trigger] s[j]).0 != *ip,
            decreases s.len() - i,
        {
            let e = &self.entries[i];
            if e.0.v6 == ip.v6 && e.0.value == ip.value {
                assert(s[i as int].0 == *ip);
                return Some(i);
            }
            assert(s[i as int].0 != *ip);
            i = i + 1;
        }
        None
    }

    /// The record of `ip`, if any.
    pub fn lookup(&self, ip: &IpAddress) -> (r: Option<&BlockRecord>)
        ensures
            ({
                let f = spec_lookup(self.seq_view(), *ip);
                match r {
                    Some(rec) => f == Some(rec.model()),
                    None => f is None,
                }
            }),
    {
        let ghost s = self.seq_view();
        match self.find_index(ip) {
            Some(i) => {
                proof {
                    lemma_lookup_at(s, *ip, i as int);
                }
                Some(&self.entries[i].1)
            },
            None => {
                proof {
                    lemma_lookup_at_end(s, *ip);
                }
                None
            },
        }
    }

    /// Inserts or refreshes the sentence of `ip` and reports whether a
    /// record already existed; the ledger becomes dirty either way.
    pub fn upsert(&mut self, ip: IpAddress, until: i64, file: &str) -> (existed: bool)
        requires
            old(self).wf(),
            ip.wf(),
        ensures
            final(self).wf(),
            existed == contains_ip(old(self).seq_view(), ip),
            final(self).seq_view() == spec_upsert(old(self).seq_view(), ip, until as int, file@),
            final(self).spec_dirty(),
    {
        let ghost s = self.seq_view();
        let idx = self.find_index(&ip);
        self.dirty = true;
        match idx {
            Some(i) => {
                proof {
                    lemma_lookup_at(s, ip, i as int);
                    lemma_upsert_at(s, ip, until as int, file@, i as int);
                }
                let old_entry = self.entries.remove(i);
                let updated = BlockRecord {
                    file: old_entry.1.file,
                    until,
                    active: true,
                    hits: old_entry.1.hits,
                };
                self.entries.insert(i, (ip, updated));
                proof {
                    assert(self.seq_view() =~= s.update(
                        i as int,
                        (
                            ip,
                            RecordModel {
                                file: s[i as int].1.file,
                                until: until as int,
                                active: true,
                                hits: s[i as int].1.hits,
                            },
                        ),
                    ));
                    lemma_upsert_distinct(s, ip, until as int, file@);
                }
                true
            },
            None => {
                proof {
                    lemma_lookup_at_end(s, ip);
                    lemma_upsert_missing(s, ip, until as int, file@);
                }
                self.entries.push(
                    (ip, BlockRecord { file: file.to_owned(), until, active: true, hits: 0 }),
                );
                proof {
                    assert(self.seq_view() =~= s.push(
                        (
                            ip,
                            RecordModel {
                                file: file@,
                                until: until as int,
                                active: true,
                                hits: 0,
                            },
                        ),
                    ));
                    lemma_upsert_distinct(s, ip, until as int, file@);
                }
                false
            },
        }
    }

    /// Deletes the record of `ip`, if present; dirty exactly when one was.
    pub fn remove(&mut self, ip: IpAddress)
        requires
            old(self).wf(),
        ensures
            final(self).wf(),
            final(self).seq_view() == spec_remove(old(self).seq_view(), ip),
            final(self).spec_dirty() == (old(self).spec_dirty() || contains_ip(
                old(self).seq_view(),
                ip,
            )),
    {
        let ghost s = self.seq_view();
        match self.find_index(&ip) {
            Some(i) => {
                proof {
                    lemma_lookup_at(s, ip, i as int);
                    lemma_remove_at(s, ip, i as int);
                }
                self.entries.remove(i);
                self.dirty = true;
                proof {
                    assert(self.seq_view() =~= s.remove(i as int));
                    lemma_remove_distinct(s, ip);
                }
            },
            None => {
                proof {
                    lemma_lookup_at_end(s, ip);
                    lemma_remove_missing(s, ip);
                }
            },
        }
    }
}

pub open spec fn entries_view(v: Seq<(IpAddress, BlockRecord)>) -> Seq<(IpAddress, RecordModel)> {
    v.map_values(|p: (IpAddress, BlockRecord)| (p.0, p.1.model()))
}

impl Ledger {
    /// The records as stored, for the snapshot writer.
    pub fn records(&self) -> (r: &Vec<(IpAddress, BlockRecord)>)
        ensures
            entries_view(r@) == self.seq_view(),
    {
        &self.entries
    }

    /// A ledger over the given records, as the snapshot reader builds it.
    pub fn from_entries(entries: Vec<(IpAddress, BlockRecord)>) -> (l: Ledger)
        requires
            distinct_keys(entries_view(entries@)),
            forall|i: int|
                0 <= i < entries_view(entries@).len() ==> (#[trigger] entries_view(
                    entries@,
                )[i]).0.wf(),
        ensures
            l.seq_view() == entries_view(entries@),
            l.wf(),
            !l.spec_dirty(),
    {
        Ledger { entries, dirty: false }
    }
}

/// Whether `f` is among `files`.
pub fn contains_string(files: &Vec<String>, f: &str) -> (r: bool)
    ensures
        r == strings_view(files@).contains(f@),
{
    let ghost view = strings_view(files@);
    let mut i: usize = 0;
    while i < files.len()
        invariant
            i <= files@.len(),
            view == strings_view(files@),
            forall|j: int| 0 <= j < i ==> view[j] != f@,
        decreases files@.len() - i,
    {
        if str_eq(files[i].as_str(), f) {
            assert(view[i as int] == f@);
            return true;
        }
        assert(view[i as int] != f@);
        i = i + 1;
    }
    assert(!view.contains(f@));
    false
}

impl Ledger {
    /// Every record whose sentence still runs at `now`, with its file,
    /// in ledger order: what a restart re-issues block commands from.
    #[verifier::loop_isolation(false)]
    pub fn iter_active(&self, now: i64) -> (r: Vec<(IpAddress, String)>)
        ensures
            targets_view(r@) == spec_active(self.seq_view(), now as int),
    {
        let ghost full = self.seq_view();
        let mut out: Vec<(IpAddress, String)> = Vec::new();
        let mut i: usize = 0;
        assert(full.skip(0) =~= full);
        assert(targets_view(out@) =~= Seq::<(IpAddress, Seq<char>)>::empty());
        while i < self.entries.len()
            invariant
                i <= full.len(),
                full.len() == self.entries@.len(),
                spec_active(full, now as int) == targets_view(out@) + spec_active(
                    full.skip(i as int),
                    now as int,
                ),
            decreases full.len() - i,
        {
            let ghost tail = full.skip(i as int);
            let ghost pre = out@;
            assert(tail[0] == full[i as int]);
            assert(tail.drop_first() =~= full.skip(i + 1));
            let e = &self.entries[i];
            if e.1.until >= now {
                out.push((e.0, e.1.file.clone()));
                assert(targets_view(out@) =~= targets_view(pre) + seq![
                    (full[i as int].0, full[i as int].1.file),
                ]);
            }
            i = i + 1;
        }
        assert(full.skip(full.len() as int).len() == 0);
        assert(targets_view(out@) =~= spec_active(full, now as int));
        out
    }

    /// One unblock pass: every expired record still active whose file
    /// stands among `known_files` is reported and marked inactive; every
    /// other record is untouched, and none leaves the ledger. Dirty is
    /// set exactly when a record changed.
    #[verifier::loop_isolation(false)]
    #[verifier::rlimit(50)]
    pub fn iter_outdated(&mut self, now: i64, known_files: &Vec<String>) -> (r: Vec<
        (IpAddress, String),
    >)
        requires
            old(self).wf(),
        ensures
            final(self).wf(),
            final(self).seq_view() == spec_outdated_effect(
                old(self).seq_view(),
                now as int,
                strings_view(known_files@),
            ),
            targets_view(r@) == spec_outdated_actions(
                old(self).seq_view(),
                now as int,
                strings_view(known_files@),
            ),
            final(self).spec_dirty() == (old(self).spec_dirty() || r@.len() > 0),
    {
        let ghost full = old(self).seq_view();
        let ghost files = strings_view(known_files@);
        let mut out: Vec<(IpAddress, String)> = Vec::new();
        let mut i: usize = 0;
        assert(full.skip(0) =~= full);
        assert(targets_view(out@) =~= Seq::<(IpAddress, Seq<char>)>::empty());
        while i < self.entries.len()
            invariant
                i <= full.len(),
                full.len() == self.entries@.len(),
                self.seq_view().len() == full.len(),
                forall|j: int|
                    0 <= j < i ==> #[trigger] self.seq_view()[j] == outdated_elem(
                        full[j],
                        now as int,
                        files,
                    ),
                forall|j: int| i <= j < full.len() ==> #[trigger] self.seq_view()[j] == full[j],
                spec_outdated_actions(full, now as int, files) == targets_view(out@)
                    + spec_outdated_actions(full.skip(i as int), now as int, files),
                self.spec_dirty() == (old(self).spec_dirty() || out@.len() > 0),
            decreases full.len() - i,
        {
            let ghost tail = full.skip(i as int);
            let ghost pre = out@;
            assert(tail[0] == full[i as int]);
            assert(tail.drop_first() =~= full.skip(i + 1));
            proof {
                assert(self.seq_view()[i as int] == (
                    self.entries@[i as int].0,
                    self.entries@[i as int].1.model(),
                ));
                assert(self.seq_view()[i as int] == full[i as int]);
            }
            let hit = self.entries[i].1.until < now && self.entries[i].1.active
                && contains_string(known_files, self.entries[i].1.file.as_str());
            assert(hit == outdated_hit(full[i as int], now as int, files));
            if hit {
                let ghost before = self.entries@;
                let ghost prev = self.seq_view();
                let entry = self.entries.remove(i);
                proof {
                    assert(entry == before[i as int]);
                    assert((entry.0, entry.1.model()) == full[i as int]);
                }
                out.push((entry.0, entry.1.file.clone()));
                let released = BlockRecord { active: false, ..entry.1 };
                self.entries.insert(i, (entry.0, released));
                self.dirty = true;
                proof {
                    assert(targets_view(out@) =~= targets_view(pre) + seq![
                        (full[i as int].0, full[i as int].1.file),
                    ]);
                    assert(self.entries@ =~= before.remove(i as int).insert(
                        i as int,
                        (entry.0, released),
                    ));
                    assert forall|j: int| 0 <= j < full.len() implies #[trigger] self.seq_view()[j]
                        == (if j == i as int {
                        outdated_elem(full[j], now as int, files)
                    } else {
                        prev[j]
                    }) by {
                        let s1 = before.remove(i as int);
                        let s2 = s1.insert(i as int, (entry.0, released));
                        assert(self.seq_view()[j] == (s2[j].0, s2[j].1.model()));
                        if j < i as int {
                            assert(s2[j] == s1[j] && s1[j] == before[j]);
                            assert(prev[j] == (before[j].0, before[j].1.model()));
                        } else if j == i as int {
                            assert(s2[j] == (entry.0, released));
                            assert(released.model() == RecordModel {
                                active: false,
                                ..full[j].1
                            });
                        } else {
                            assert(s2[j] == s1[j - 1] && s1[j - 1] == before[j]);
                            assert(prev[j] == (before[j].0, before[j].1.model()));
                        }
                    }
                }
            }
            i = i + 1;
        }
        assert(full.skip(full.len() as int).len() == 0);
        assert(targets_view(out@) =~= spec_outdated_actions(full, now as int, files));
        proof {
            assert(self.seq_view() =~= spec_outdated_effect(full, now as int, files));
            assert forall|a: int, b: int|
                0 <= a < b < self.seq_view().len() implies (#[trigger] self.seq_view()[a]).0 != (
            #[trigger] self.seq_view()[b]).0 by {
                assert(self.seq_view()[a].0 == full[a].0 && self.seq_view()[b].0 == full[b].0);
            }
            assert forall|a: int|
                0 <= a < self.seq_view().len() implies (#[trigger] self.seq_view()[a]).0.wf() by {
                assert(self.seq_view()[a].0 == full[a].0);
            }
        }
        out
    }
}

/// Upserting an address twice leaves exactly the state of one upsert with
/// the later deadline: one record, re-armed, its file and hit count those
/// the first upsert would give. And after the first upsert the record
/// exists, so the second reports it and its caller requests no second
/// firewall block.
pub proof fn lemma_upsert_idempotent(
    s: Seq<(IpAddress, RecordModel)>,
    ip: IpAddress,
    t1: int,
    t2: int,
    f1: Seq<char>,
    f2: Seq<char>,
)
    ensures
        spec_upsert(spec_upsert(s, ip, t1, f1), ip, t2, f2) =~= spec_upsert(s, ip, t2, f1),
        contains_ip(spec_upsert(s, ip, t1, f1), ip),
    decreases s.len(),
{
    let once = spec_upsert(s, ip, t1, f1);
    if s.len() == 0 {
        assert(once[0].0 == ip);
        assert(spec_upsert(once, ip, t2, f2) =~= spec_upsert(s, ip, t2, f1));
    } else if s[0].0 == ip {
        assert(once[0].0 == ip);
        assert(once.drop_first() =~= s.drop_first());
        assert(spec_upsert(once, ip, t2, f2) =~= spec_upsert(s, ip, t2, f1));
    } else {
        lemma_upsert_idempotent(s.drop_first(), ip, t1, t2, f1, f2);
        assert(once[0] == s[0]);
        assert(once.drop_first() =~= spec_upsert(s.drop_first(), ip, t1, f1));
        assert(spec_upsert(once, ip, t2, f2) =~= seq![s[0]] + spec_upsert(
            once.drop_first(),
            ip,
            t2,
            f2,
        ));
        assert(spec_lookup(once, ip) == spec_lookup(once.drop_first(), ip));
    }
}

/// An upsert of one address leaves every other address's record alone.
pub proof fn lemma_upsert_other(
    s: Seq<(IpAddress, RecordModel)>,
    ip: IpAddress,
    until: int,
    file: Seq<char>,
    other: IpAddress,
)
    requires
        other != ip,
    ensures
        spec_lookup(spec_upsert(s, ip, until, file), other) == spec_lookup(s, other),
    decreases s.len(),
{
    let r = spec_upsert(s, ip, until, file);
    if s.len() == 0 {
        assert(r.len() == 1 && r[0].0 == ip);
        assert(r.drop_first() =~= Seq::<(IpAddress, RecordModel)>::empty());
        assert(spec_lookup(r, other) == spec_lookup(r.drop_first(), other));
    } else if s[0].0 == ip {
        assert(r[0].0 == ip);
        assert(r.drop_first() =~= s.drop_first());
        assert(spec_lookup(r, other) == spec_lookup(r.drop_first(), other));
        assert(spec_lookup(s, other) == spec_lookup(s.drop_first(), other));
    } else {
        lemma_upsert_other(s.drop_first(), ip, until, file, other);
        assert(r[0] == s[0]);
        assert(r.drop_first() =~= spec_upsert(s.drop_first(), ip, until, file));
        if s[0].0 == other {
            assert(spec_lookup(r, other) == Some(r[0].1));
            assert(spec_lookup(s, other) == Some(s[0].1));
        } else {
            assert(spec_lookup(r, other) == spec_lookup(r.drop_first(), other));
            assert(spec_lookup(s, other) == spec_lookup(s.drop_first(), other));
        }
    }
}

/// The record of `ip` after an unblock pass: the same record, released
/// when the pass hit it, untouched otherwise.
proof fn lemma_lookup_effect(
    s: Seq<(IpAddress, RecordModel)>,
    now: int,
    files: Seq<Seq<char>>,
    ip: IpAddress,
)
    ensures
        spec_lookup(spec_outdated_effect(s, now, files), ip) == (match spec_lookup(s, ip) {
            Some(r) => Some(outdated_elem((ip, r), now, files).1),
            None => None::<RecordModel>,
        }),
    decreases s.len(),
{
    let eff = spec_outdated_effect(s, now, files);
    if s.len() > 0 {
        assert(eff[0] == outdated_elem(s[0], now, files));
        assert(eff.drop_first() =~= spec_outdated_effect(s.drop_first(), now, files));
        if s[0].0 == ip {
            assert(eff[0].0 == ip);
        } else {
            assert(eff[0].0 == s[0].0);
            lemma_lookup_effect(s.drop_first(), now, files, ip);
        }
    }
}

/// A hit record's release is reported by the pass.
proof fn lemma_actions_contains(
    s: Seq<(IpAddress, RecordModel)>,
    now: int,
    files: Seq<Seq<char>>,
    ip: IpAddress,
    r: RecordModel,
)
    requires
        spec_lookup(s, ip) == Some(r),
        outdated_hit((ip, r), now, files),
    ensures
        spec_outdated_actions(s, now, files).contains((ip, r.file)),
    decreases s.len(),
{
    let acts = spec_outdated_actions(s, now, files);
    if s.len() > 0 {
        if s[0].0 == ip {
            assert(s[0].1 == r);
            assert(acts[0] == (ip, r.file));
        } else {
            lemma_actions_contains(s.drop_first(), now, files, ip, r);
            let rest = spec_outdated_actions(s.drop_first(), now, files);
            let k = choose|k: int| 0 <= k < rest.len() && rest[k] == (ip, r.file);
            if outdated_hit(s[0], now, files) {
                assert(acts[k + 1] == (ip, r.file));
            } else {
                assert(acts[k] == (ip, r.file));
            }
        }
    }
}

/// A pass reports nothing for an address whose records are all inactive.
proof fn lemma_actions_skip_inactive(
    s: Seq<(IpAddress, RecordModel)>,
    now: int,
    files: Seq<Seq<char>>,
    ip: IpAddress,
)
    requires
        forall|i: int| 0 <= i < s.len() && (#[trigger] s[i]).0 == ip ==> !s[i].1.active,
    ensures
        forall|k: int|
            0 <= k < spec_outdated_actions(s, now, files).len() ==> (
            #[trigger] spec_outdated_actions(s, now, files)[k]).0 != ip,
    decreases s.len(),
{
    let acts = spec_outdated_actions(s, now, files);
    if s.len() > 0 {
        let rest = s.drop_first();
        assert(forall|i: int|
            0 <= i < rest.len() && (#[trigger] rest[i]).0 == ip ==> rest[i] == s[i + 1] && !s[i
                + 1].1.active);
        lemma_actions_skip_inactive(rest, now, files, ip);
        let racts = spec_outdated_actions(rest, now, files);
        if outdated_hit(s[0], now, files) {
            assert(s[0].1.active);
            assert(s[0].0 != ip);
            assert(forall|k: int| 1 <= k < acts.len() ==> #[trigger] acts[k] == racts[k - 1]);
        } else {
            assert(forall|k: int| 0 <= k < acts.len() ==> #[trigger] acts[k] == racts[k]);
        }
    }
}

/// An expired record, still active and owned by a watched file, is
/// released by one unblock pass: it stays in the ledger with only its
/// active flag cleared, the pass reports exactly it, and a later pass
/// reports nothing for its address, whatever instant or file set that
/// later pass runs with; only an explicit removal deletes it.
pub proof fn lemma_expiry_preservation(
    s: Seq<(IpAddress, RecordModel)>,
    now: int,
    files: Seq<Seq<char>>,
    ip: IpAddress,
    now2: int,
    files2: Seq<Seq<char>>,
)
    requires
        distinct_keys(s),
        spec_lookup(s, ip) matches Some(r) && r.until < now && r.active && files.contains(r.file),
    ensures
        spec_lookup(s, ip) matches Some(r) ==> spec_lookup(
            spec_outdated_effect(s, now, files),
            ip,
        ) == Some(RecordModel { active: false, ..r }),
        spec_lookup(s, ip) matches Some(r) ==> spec_outdated_actions(s, now, files).contains(
            (ip, r.file),
        ),
        forall|k: int|
            0 <= k < spec_outdated_actions(
                spec_outdated_effect(s, now, files),
                now2,
                files2,
            ).len() ==> (#[trigger] spec_outdated_actions(
                spec_outdated_effect(s, now, files),
                now2,
                files2,
            )[k]).0 != ip,
{
    let r = spec_lookup(s, ip)->Some_0;
    lemma_lookup_effect(s, now, files, ip);
    lemma_actions_contains(s, now, files, ip, r);
    let eff = spec_outdated_effect(s, now, files);
    assert forall|i: int| 0 <= i < eff.len() && (#[trigger] eff[i]).0 == ip implies !eff[i].1.active by {
        assert(eff[i] == outdated_elem(s[i], now, files));
        assert(s[i].0 == ip);
        lemma_lookup_unique(s, ip, i);
        assert(s[i].1 == r);
    }
    lemma_actions_skip_inactive(eff, now2, files2, ip);
}

/// With distinct keys, any entry holding `ip` is the looked-up one.
proof fn lemma_lookup_unique(s: Seq<(IpAddress, RecordModel)>, ip: IpAddress, i: int)
    requires
        distinct_keys(s),
        0 <= i < s.len(),
        s[i].0 == ip,
    ensures
        spec_lookup(s, ip) == Some(s[i].1),
    decreases i,
{
    assert(forall|j: int| 0 <= j < i ==> (#[trigger] s[j]).0 != ip);
    lemma_lookup_at(s, ip, i);
}

/// A found index pins the lookup.
proof fn lemma_lookup_at(s: Seq<(IpAddress, RecordModel)>, ip: IpAddress, i: int)
    requires
        0 <= i < s.len(),
        s[i].0 == ip,
        forall|j: int| 0 <= j < i ==> (#[trigger] s[j]).0 != ip,
    ensures
        spec_lookup(s, ip) == Some(s[i].1),
    decreases i,
{
    if i > 0 {
        let rest = s.drop_first();
        assert(forall|j: int| 0 <= j < i - 1 ==> (#[trigger] rest[j]).0 == s[j + 1].0);
        lemma_lookup_at(rest, ip, i - 1);
    }
}

proof fn lemma_lookup_at_end(s: Seq<(IpAddress, RecordModel)>, ip: IpAddress)
    requires
        forall|j: int| 0 <= j < s.len() ==> (#[trigger] s[j]).0 != ip,
    ensures
        spec_lookup(s, ip) is None,
    decreases s.len(),
{
    if s.len() > 0 {
        let rest = s.drop_first();
        assert(forall|j: int| 0 <= j < rest.len() ==> (#[trigger] rest[j]).0 == s[j + 1].0);
        lemma_lookup_at_end(rest, ip);
    }
}

/// An upsert at a found index is an in-place update.
proof fn lemma_upsert_at(
    s: Seq<(IpAddress, RecordModel)>,
    ip: IpAddress,
    until: int,
    file: Seq<char>,
    i: int,
)
    requires
        0 <= i < s.len(),
        s[i].0 == ip,
        forall|j: int| 0 <= j < i ==> (#[trigger] s[j]).0 != ip,
    ensures
        spec_upsert(s, ip, until, file) =~= s.update(
            i,
            (
                ip,
                RecordModel { file: s[i].1.file, until, active: true, hits: s[i].1.hits },
            ),
        ),
    decreases i,
{
    if i == 0 {
        assert(spec_upsert(s, ip, until, file) =~= s.update(
            0,
            (
                ip,
                RecordModel { file: s[0].1.file, until, active: true, hits: s[0].1.hits },
            ),
        ));
    } else {
        let rest = s.drop_first();
        assert(forall|j: int| 0 <= j < i - 1 ==> (#[trigger] rest[j]).0 == s[j + 1].0);
        lemma_upsert_at(rest, ip, until, file, i - 1);
        assert(seq![s[0]] + rest.update(
            i - 1,
            (
                ip,
                RecordModel { file: rest[i - 1].1.file, until, active: true, hits: rest[i - 1].1.hits },
            ),
        ) =~= s.update(
            i,
            (
                ip,
                RecordModel { file: s[i].1.file, until, active: true, hits: s[i].1.hits },
            ),
        ));
    }
}

/// An upsert of an absent key appends.
proof fn lemma_upsert_missing(
    s: Seq<(IpAddress, RecordModel)>,
    ip: IpAddress,
    until: int,
    file: Seq<char>,
)
    requires
        forall|j: int| 0 <= j < s.len() ==> (#[trigger] s[j]).0 != ip,
    ensures
        spec_upsert(s, ip, until, file) =~= s.push(
            (ip, RecordModel { file, until, active: true, hits: 0 }),
        ),
    decreases s.len(),
{
    if s.len() > 0 {
        let rest = s.drop_first();
        assert(forall|j: int| 0 <= j < rest.len() ==> (#[trigger] rest[j]).0 == s[j + 1].0);
        lemma_upsert_missing(rest, ip, until, file);
        assert(seq![s[0]] + rest.push((ip, RecordModel { file, until, active: true, hits: 0 }))
            =~= s.push((ip, RecordModel { file, until, active: true, hits: 0 })));
    }
}

/// Upserts keep the keys distinct.
proof fn lemma_upsert_distinct(
    s: Seq<(IpAddress, RecordModel)>,
    ip: IpAddress,
    until: int,
    file: Seq<char>,
)
    requires
        distinct_keys(s),
    ensures
        distinct_keys(spec_upsert(s, ip, until, file)),
        contains_ip(spec_upsert(s, ip, until, file), ip),
    decreases s.len(),
{
    let r = spec_upsert(s, ip, until, file);
    if s.len() == 0 {
        assert(r.len() == 1 && r[0].0 == ip);
        assert(spec_lookup(r, ip) is Some);
    } else if s[0].0 == ip {
        assert(r[0].0 == ip);
        assert(spec_lookup(r, ip) is Some);
        assert(r =~= seq![
            (ip, RecordModel { file: s[0].1.file, until, active: true, hits: s[0].1.hits }),
        ] + s.drop_first());
        assert forall|i: int, j: int| 0 <= i < j < r.len() implies (#[trigger] r[i]).0 != (
        #[trigger] r[j]).0 by {
            if i == 0 {
                assert(r[j].0 == s[j].0 && s[0].0 != s[j].0);
            } else {
                assert(r[i].0 == s[i].0 && r[j].0 == s[j].0);
            }
        }
    } else {
        let rest = s.drop_first();
        assert(distinct_keys(rest)) by {
            assert(forall|i: int, j: int|
                0 <= i < j < rest.len() ==> (#[trigger] rest[i]).0 == s[i + 1].0 && (
                #[trigger] rest[j]).0 == s[j + 1].0);
        }
        lemma_upsert_distinct(rest, ip, until, file);
        let rr = spec_upsert(rest, ip, until, file);
        assert(r =~= seq![s[0]] + rr);
        // the new key list is the old one, possibly with ip appended
        assert forall|k: int| 0 <= k < rr.len() implies rr[k].0 == ip || contains_key_at(rest, rr[k].0) by {
            lemma_upsert_keys(rest, ip, until, file, k);
        }
        assert forall|i: int, j: int| 0 <= i < j < r.len() implies (#[trigger] r[i]).0 != (
        #[trigger] r[j]).0 by {
            if i == 0 {
                lemma_upsert_keys(rest, ip, until, file, j - 1);
                if rr[j - 1].0 == ip {
                    assert(s[0].0 != ip);
                } else {
                    let w = choose|w: int| 0 <= w < rest.len() && rest[w].0 == rr[j - 1].0;
                    assert(s[0].0 != s[w + 1].0);
                }
            }
        }
        assert(r.drop_first() =~= rr);
        assert(spec_lookup(r, ip) == spec_lookup(rr, ip));
    }
}

pub open spec fn contains_key_at(s: Seq<(IpAddress, RecordModel)>, ip: IpAddress) -> bool {
    exists|w: int| 0 <= w < s.len() && s[w].0 == ip
}

/// Every key after an upsert is an old key or the upserted one.
proof fn lemma_upsert_keys(
    s: Seq<(IpAddress, RecordModel)>,
    ip: IpAddress,
    until: int,
    file: Seq<char>,
    k: int,
)
    requires
        0 <= k < spec_upsert(s, ip, until, file).len(),
    ensures
        spec_upsert(s, ip, until, file)[k].0 == ip || contains_key_at(
            s,
            spec_upsert(s, ip, until, file)[k].0,
        ),
    decreases s.len(),
{
    let r = spec_upsert(s, ip, until, file);
    if s.len() == 0 {
        assert(r.len() == 1 && r[0].0 == ip);
        assert(spec_lookup(r, ip) is Some);
    } else if s[0].0 == ip {
        assert(r[0].0 == ip);
        assert(spec_lookup(r, ip) is Some);
        if k > 0 {
            assert(r[k] == s[k]);
        }
    } else {
        if k == 0 {
            assert(r[0] == s[0]);
        } else {
            let rest = s.drop_first();
            lemma_upsert_keys(rest, ip, until, file, k - 1);
            assert(r[k] == spec_upsert(rest, ip, until, file)[k - 1]);
            if spec_upsert(rest, ip, until, file)[k - 1].0 != ip {
                let w = choose|w: int|
                    0 <= w < rest.len() && rest[w].0 == spec_upsert(rest, ip, until, file)[k
                        - 1].0;
                assert(s[w + 1].0 == r[k].0);
            }
        }
    }
}

/// A removal at a found index deletes exactly that entry.
proof fn lemma_remove_at(s: Seq<(IpAddress, RecordModel)>, ip: IpAddress, i: int)
    requires
        0 <= i < s.len(),
        s[i].0 == ip,
        forall|j: int| 0 <= j < i ==> (#[trigger] s[j]).0 != ip,
    ensures
        spec_remove(s, ip) =~= s.remove(i),
    decreases i,
{
    if i == 0 {
        assert(spec_remove(s, ip) =~= s.remove(0));
    } else {
        let rest = s.drop_first();
        assert(forall|j: int| 0 <= j < i - 1 ==> (#[trigger] rest[j]).0 == s[j + 1].0);
        lemma_remove_at(rest, ip, i - 1);
        assert(seq![s[0]] + rest.remove(i - 1) =~= s.remove(i));
    }
}

proof fn lemma_remove_missing(s: Seq<(IpAddress, RecordModel)>, ip: IpAddress)
    requires
        forall|j: int| 0 <= j < s.len() ==> (#[trigger] s[j]).0 != ip,
    ensures
        spec_remove(s, ip) =~= s,
    decreases s.len(),
{
    if s.len() > 0 {
        let rest = s.drop_first();
        assert(forall|j: int| 0 <= j < rest.len() ==> (#[trigger] rest[j]).0 == s[j + 1].0);
        lemma_remove_missing(rest, ip);
        assert(seq![s[0]] + rest =~= s);
    }
}

/// Removals keep the keys distinct.
proof fn lemma_remove_distinct(s: Seq<(IpAddress, RecordModel)>, ip: IpAddress)
    requires
        distinct_keys(s),
    ensures
        distinct_keys(spec_remove(s, ip)),
    decreases s.len(),
{
    if s.len() > 0 {
        let rest = s.drop_first();
        assert(distinct_keys(rest)) by {
            assert(forall|i: int, j: int|
                0 <= i < j < rest.len() ==> (#[trigger] rest[i]).0 == s[i + 1].0 && (
                #[trigger] rest[j]).0 == s[j + 1].0);
        }
        if s[0].0 == ip {
        } else {
            lemma_remove_distinct(rest, ip);
            let rr = spec_remove(rest, ip);
            assert forall|k: int| 0 <= k < rr.len() implies contains_key_at(rest, rr[k].0) by {
                lemma_remove_keys(rest, ip, k);
            }
            assert forall|i: int, j: int|
                0 <= i < j < spec_remove(s, ip).len() implies (#[trigger] spec_remove(s, ip)[i]).0
                != (#[trigger] spec_remove(s, ip)[j]).0 by {
                if i == 0 {
                    lemma_remove_keys(rest, ip, j - 1);
                    let w = choose|w: int| 0 <= w < rest.len() && rest[w].0 == rr[j - 1].0;
                    assert(s[0].0 != s[w + 1].0);
                    assert(spec_remove(s, ip)[j].0 == rr[j - 1].0);
                } else {
                    assert(spec_remove(s, ip)[i].0 == rr[i - 1].0);
                    assert(spec_remove(s, ip)[j].0 == rr[j - 1].0);
                }
            }
        }
    }
}

/// Every key after a removal was a key before.
proof fn lemma_remove_keys(s: Seq<(IpAddress, RecordModel)>, ip: IpAddress, k: int)
    requires
        0 <= k < spec_remove(s, ip).len(),
    ensures
        contains_key_at(s, spec_remove(s, ip)[k].0),
    decreases s.len(),
{
    let r = spec_remove(s, ip);
    if s.len() == 0 {
    } else if s[0].0 == ip {
        assert(r[k] == s[k + 1]);
    } else {
        if k == 0 {
            assert(r[0] == s[0]);
        } else {
            let rest = s.drop_first();
            lemma_remove_keys(rest, ip, k - 1);
            assert(r[k] == spec_remove(rest, ip)[k - 1]);
            let w = choose|w: int|
                0 <= w < rest.len() && rest[w].0 == spec_remove(rest, ip)[k - 1].0;
            assert(s[w + 1].0 == r[k].0);
        }
    }
}

} // verus!
