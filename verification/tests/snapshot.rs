//! The ledger, its snapshot round trip, and the firewall boundary pieces.

use veto::codec::{restore, snapshot};
use veto::firewall::{is_expected_error, is_missing_rule_error, IpSet, IpTables, IptablesTarget,
    RunType, Target};
use veto::ip::parse_ip;
use veto::ledger::Ledger;
use veto::notifier::{collapse, EventType, RawEvent};

#[test]
fn upsert_and_lookup() {
    let mut l = Ledger::new();
    let a = parse_ip("1.2.3.4").unwrap();
    assert!(!l.upsert(a, 100, "/var/log/x"));
    assert!(l.is_dirty());
    let rec = l.lookup(&a).unwrap();
    assert_eq!(rec.until, 100);
    assert!(rec.active);
    assert_eq!(rec.hits, 0);
    // the second upsert refreshes in place
    assert!(l.upsert(a, 200, "/somewhere/else"));
    let rec = l.lookup(&a).unwrap();
    assert_eq!(rec.until, 200);
    assert_eq!(rec.file, "/var/log/x");
    l.remove(a);
    assert!(l.lookup(&a).is_none());
}

#[test]
fn snapshot_roundtrip() {
    let mut l = Ledger::new();
    l.upsert(parse_ip("1.2.3.4").unwrap(), 100, "/var/log/x");
    l.upsert(parse_ip("::1").unwrap(), -50, "/var/log/y");
    l.upsert(parse_ip("9.9.9.9").unwrap(), i64::MAX, "");
    l.upsert(parse_ip("8.8.4.4").unwrap(), 7, "/var/log/\u{65e5}\u{8a8c}.log");
    let bytes = snapshot(&l);
    let back = restore(&bytes);
    for ip in ["1.2.3.4", "::1", "9.9.9.9", "8.8.4.4"] {
        let a = parse_ip(ip).unwrap();
        let orig = l.lookup(&a).unwrap();
        let read = back.lookup(&a).unwrap();
        assert_eq!(orig.file, read.file);
        assert_eq!(orig.until, read.until);
        assert_eq!(orig.active, read.active);
        assert_eq!(orig.hits, read.hits);
    }
    assert!(back.lookup(&parse_ip("8.8.8.8").unwrap()).is_none());
}

#[test]
fn damaged_snapshot_resets_to_empty() {
    let garbage: Vec<u8> = vec![9, 9, 9, 9];
    let l = restore(&garbage);
    assert!(l.lookup(&parse_ip("1.2.3.4").unwrap()).is_none());
    assert!(!l.is_dirty());

    // valid compression around malformed contents resets too
    let mut valid = snapshot(&Ledger::new());
    valid.push(0);
    let l = restore(&valid);
    assert!(l.lookup(&parse_ip("1.2.3.4").unwrap()).is_none());
}

#[test]
fn active_and_outdated_passes() {
    let mut l = Ledger::new();
    let fresh = parse_ip("1.1.1.1").unwrap();
    let stale = parse_ip("2.2.2.2").unwrap();
    l.upsert(fresh, 1000, "/a");
    l.upsert(stale, 10, "/a");
    let active = l.iter_active(500);
    assert_eq!(active.len(), 1);
    assert_eq!(active[0].0, fresh);

    l.mark_clean();
    let files = vec!["/a".to_owned()];
    let released = l.iter_outdated(500, &files);
    assert_eq!(released.len(), 1);
    assert_eq!(released[0].0, stale);
    assert!(l.is_dirty());
    assert!(!l.lookup(&stale).unwrap().active);
    assert!(l.lookup(&fresh).unwrap().active);

    // nothing left to release
    l.mark_clean();
    let released = l.iter_outdated(500, &files);
    assert_eq!(released.len(), 0);
    assert!(!l.is_dirty());
}

#[test]
fn expected_set_errors() {
    assert!(is_expected_error(
        "ipset v7.1: Element cannot be added to the set: it's already added\n",
        RunType::Add,
    ));
    assert!(is_expected_error(
        "ipset v7.1: Element cannot be deleted from the set: it's not added",
        RunType::Delete,
    ));
    assert!(!is_expected_error(
        "ipset v7.1: Element cannot be added to the set: it's already added",
        RunType::Delete,
    ));
    assert!(!is_expected_error(
        "ipset v7.1: The set with the given name does not exist",
        RunType::Add,
    ));
    assert!(!is_expected_error("something else entirely", RunType::Add));
    assert!(!is_expected_error("", RunType::Add));
}

#[test]
fn tolerated_uninstall_errors() {
    assert!(is_missing_rule_error("iptables: Bad rule (does a matching rule exist?)"));
    assert!(is_missing_rule_error("ip6tables: No chain/target/match by that name."));
    assert!(!is_missing_rule_error("iptables: Permission denied"));
}

#[test]
fn event_collapse_table() {
    assert_eq!(collapse(RawEvent::DataModification, true), Some(EventType::Modified));
    assert_eq!(collapse(RawEvent::DataModification, false), Some(EventType::Modified));
    assert_eq!(collapse(RawEvent::NameModification, true), Some(EventType::Created));
    assert_eq!(collapse(RawEvent::NameModification, false), Some(EventType::Removed));
    assert_eq!(collapse(RawEvent::Remove, true), Some(EventType::Removed));
    assert_eq!(collapse(RawEvent::Create, false), Some(EventType::Created));
    assert_eq!(collapse(RawEvent::Other, true), None);
    assert_eq!(collapse(RawEvent::Other, false), None);
}

#[test]
fn set_backed_commands() {
    let fw = IpSet::new(IptablesTarget::Drop);
    assert_eq!(fw.name, "veto");
    assert_eq!(fw.name_v6, "veto_v6");
    let v4 = parse_ip("1.2.3.4").unwrap();
    let v6 = parse_ip("2001:db8::1").unwrap();
    assert_eq!(fw.block_args(&v4), vec!["add", "veto", "1.2.3.4"]);
    assert_eq!(fw.block_args(&v6), vec!["add", "veto_v6", "2001:db8:0:0:0:0:0:1"]);
    assert_eq!(fw.unblock_args(&v4), vec!["del", "veto", "1.2.3.4"]);
    assert_eq!(
        IpSet::rule_line("INPUT", "veto", IptablesTarget::Tarpit),
        "-A INPUT -p tcp -m multiport --dports 80,443 -m set --match-set veto src -j TARPIT --tarpit",
    );
    assert_eq!(
        IpSet::insert_rule_args("FORWARD", "veto", IptablesTarget::Reject),
        vec![
            "-I", "FORWARD", "-p", "tcp", "-m", "multiport", "--dports", "80,443", "-m", "set",
            "--match-set", "veto", "src", "-j", "REJECT",
        ],
    );
    assert_eq!(IpSet::create_set_args("veto", "inet"), vec![
        "create", "veto", "hash:ip", "family", "inet",
    ]);
    assert_eq!(IpSet::list_sets_args(), vec!["list", "-n"]);
    assert_eq!(IpSet::destroy_args("veto_v6"), vec!["destroy", "veto_v6"]);
}

#[test]
fn rule_backed_commands() {
    let fw = IpTables::new("/usr/sbin/iptables".to_owned(), "/usr/sbin/ip6tables".to_owned());
    let target = Target { ip: parse_ip("1.2.3.4").unwrap(), ports: vec![80, 443] };
    assert_eq!(fw.block_cmd(&target), vec![
        "-I", "veto", "-s", "1.2.3.4", "-p", "tcp", "-m", "multiport", "--dports", "80,443", "-j",
        "REJECT", "--reject-with", "tcp-reset",
    ]);
    let bare = Target { ip: parse_ip("1.2.3.4").unwrap(), ports: vec![] };
    assert_eq!(fw.unblock_cmd(&bare), vec![
        "-D", "veto", "-s", "1.2.3.4", "-p", "tcp", "-j", "REJECT", "--reject-with", "tcp-reset",
    ]);
    assert_eq!(fw.select_path(false), "/usr/sbin/iptables");
    assert_eq!(fw.select_path(true), "/usr/sbin/ip6tables");
    let install = fw.install_cmds();
    assert_eq!(install.len(), 3);
    assert_eq!(install[0], vec!["-N", "veto"]);
    let uninstall = fw.uninstall_cmds();
    assert_eq!(uninstall[1], vec!["-F", "veto"]);
}

#[test]
fn storage_location_default() {
    assert_eq!(veto::get_location(None), "/var/lib/veto/storage.bin");
    assert_eq!(veto::get_location(Some("/tmp/s.bin".to_owned())), "/tmp/s.bin");
}
