//! End-to-end passes over one compiled rule: block, skip, whitelist,
//! unblock and recovery.

use veto::firewall::Target;
use veto::handler::{Handler, State};
use veto::ip::{parse_ip, parse_network};
use veto::ledger::Ledger;
use veto::rules::{prepare_rule, Rule};

fn web_rule() -> Rule {
    Rule {
        file: "/tmp/a.log".to_owned(),
        filters: vec![
            r#"^<HOST> .* "<METHOD> (?P<path>[^ ]+) <VERSION>" \[<TIME>\]"#.to_owned(),
        ],
        ports: vec![80, 443],
        timeout: 3600,
        blacklists: vec![("path".to_owned(), vec!["/admin".to_owned()])],
    }
}

// 2020-07-04T11:22:40Z
const NOW: i64 = 1593861760;

const HIT: &str = r#"1.2.3.4 - - "GET /admin HTTP/1.1" [04/Jul/2020:11:22:33 +0000]"#;

fn fresh() -> (Handler, State) {
    let handler = Handler { whitelist: vec![], storage: Ledger::new(), last_unblock: 0 };
    let state = State { lines_open: true, time: 0 };
    (handler, state)
}

#[test]
fn basic_block() {
    let entry = prepare_rule("web".to_owned(), web_rule()).unwrap();
    let (mut handler, mut state) = fresh();
    let lines = vec![HIT.to_owned()];
    let actions = handler.handle_modified(&entry, &mut state, &lines, NOW);
    assert_eq!(actions.len(), 1);
    let culprit = parse_ip("1.2.3.4").unwrap();
    assert_eq!(actions[0].ip, culprit);
    assert_eq!(actions[0].ports, vec![80, 443]);
    let rec = handler.storage.lookup(&culprit).unwrap();
    assert_eq!(rec.until, NOW + 3600);
    assert!(rec.active);
    assert_eq!(rec.file, "/tmp/a.log");
    assert_eq!(rec.hits, 0);
    // the watermark took the conviction timestamp
    assert_eq!(state.time, 1593861753);
}

#[test]
fn outdated_line_ignored() {
    let entry = prepare_rule("web".to_owned(), web_rule()).unwrap();
    let (mut handler, mut state) = fresh();
    let lines =
        vec![r#"1.2.3.4 - - "GET /admin HTTP/1.1" [04/Jul/2019:00:00:00 +0000]"#.to_owned()];
    let actions = handler.handle_modified(&entry, &mut state, &lines, NOW);
    assert_eq!(actions.len(), 0);
    assert!(handler.storage.lookup(&parse_ip("1.2.3.4").unwrap()).is_none());
}

#[test]
fn whitelist_skip() {
    let entry = prepare_rule("web".to_owned(), web_rule()).unwrap();
    let (mut handler, mut state) = fresh();
    handler.whitelist = vec![parse_network("1.2.3.0/24").unwrap()];
    let lines = vec![HIT.to_owned()];
    let actions = handler.handle_modified(&entry, &mut state, &lines, NOW);
    assert_eq!(actions.len(), 0);
    assert!(handler.storage.lookup(&parse_ip("1.2.3.4").unwrap()).is_none());
    assert!(!handler.storage.is_dirty());
}

#[test]
fn blacklist_miss() {
    let entry = prepare_rule("web".to_owned(), web_rule()).unwrap();
    let (mut handler, mut state) = fresh();
    let lines =
        vec![r#"1.2.3.4 - - "GET /public HTTP/1.1" [04/Jul/2020:11:22:33 +0000]"#.to_owned()];
    let actions = handler.handle_modified(&entry, &mut state, &lines, NOW);
    assert_eq!(actions.len(), 0);
    assert!(handler.storage.lookup(&parse_ip("1.2.3.4").unwrap()).is_none());
}

#[test]
fn repeat_offender_blocks_once() {
    let entry = prepare_rule("web".to_owned(), web_rule()).unwrap();
    let (mut handler, mut state) = fresh();
    let lines = vec![HIT.to_owned()];
    let first = handler.handle_modified(&entry, &mut state, &lines, NOW);
    assert_eq!(first.len(), 1);
    let second = handler.handle_modified(&entry, &mut state, &lines, NOW + 5);
    // the record exists already: refreshed, no second block action
    assert_eq!(second.len(), 0);
    let rec = handler.storage.lookup(&parse_ip("1.2.3.4").unwrap()).unwrap();
    assert_eq!(rec.until, NOW + 5 + 3600);
    assert!(rec.active);
}

#[test]
fn inert_stream_drains_nothing() {
    let entry = prepare_rule("web".to_owned(), web_rule()).unwrap();
    let (mut handler, mut state) = fresh();
    handler.handle_removed(&mut state);
    let lines = vec![HIT.to_owned()];
    let actions = handler.handle_modified(&entry, &mut state, &lines, NOW);
    assert_eq!(actions.len(), 0);
    handler.handle_created(&mut state);
    let actions = handler.handle_modified(&entry, &mut state, &lines, NOW);
    assert_eq!(actions.len(), 1);
}

fn known_files() -> Vec<(String, Vec<u16>)> {
    vec![("/tmp/a.log".to_owned(), vec![80, 443])]
}

#[test]
fn unblock_cycle() {
    let entry = prepare_rule("web".to_owned(), web_rule()).unwrap();
    let (mut handler, mut state) = fresh();
    let lines = vec![HIT.to_owned()];
    handler.handle_modified(&entry, &mut state, &lines, NOW);
    let culprit = parse_ip("1.2.3.4").unwrap();

    // past the deadline: exactly one unblock, the record released
    let later = NOW + 3601;
    let released = handler.handle_unblock(&known_files(), later);
    assert_eq!(released.len(), 1);
    assert_eq!(released[0].ip, culprit);
    assert_eq!(released[0].ports, vec![80, 443]);
    let rec = handler.storage.lookup(&culprit).unwrap();
    assert!(!rec.active);
    assert_eq!(rec.until, NOW + 3600);

    // a second tick issues nothing further
    let again = handler.handle_unblock(&known_files(), later + 60);
    assert_eq!(again.len(), 0);
}

#[test]
fn unknown_file_stays_armed() {
    let entry = prepare_rule("web".to_owned(), web_rule()).unwrap();
    let (mut handler, mut state) = fresh();
    let lines = vec![HIT.to_owned()];
    handler.handle_modified(&entry, &mut state, &lines, NOW);
    // the owning file is not watched: no unblock, the record stays active
    let other: Vec<(String, Vec<u16>)> = vec![("/tmp/b.log".to_owned(), vec![])];
    let released = handler.handle_unblock(&other, NOW + 9999);
    assert_eq!(released.len(), 0);
    let rec = handler.storage.lookup(&parse_ip("1.2.3.4").unwrap()).unwrap();
    assert!(rec.active);
}

#[test]
fn recovery() {
    let entry = prepare_rule("web".to_owned(), web_rule()).unwrap();
    let (mut handler, mut state) = fresh();
    let lines = vec![HIT.to_owned()];
    handler.handle_modified(&entry, &mut state, &lines, NOW);

    // the process dies; the snapshot comes back from disk
    let stored = veto::codec::snapshot(&handler.storage);
    let restored = veto::codec::restore(&stored);
    let reborn = Handler { whitelist: vec![], storage: restored, last_unblock: 0 };

    let blocks: Vec<Target> = reborn.startup_blocks(&known_files(), NOW + 10);
    assert_eq!(blocks.len(), 1);
    assert_eq!(blocks[0].ip, parse_ip("1.2.3.4").unwrap());
    assert_eq!(blocks[0].ports, vec![80, 443]);
}

#[test]
fn expired_record_not_reblocked_at_startup() {
    let entry = prepare_rule("web".to_owned(), web_rule()).unwrap();
    let (mut handler, mut state) = fresh();
    let lines = vec![HIT.to_owned()];
    handler.handle_modified(&entry, &mut state, &lines, NOW);
    let blocks = handler.startup_blocks(&known_files(), NOW + 7200);
    assert_eq!(blocks.len(), 0);
}

#[test]
fn analyze_reports_the_match() {
    let entry = prepare_rule("web".to_owned(), web_rule()).unwrap();
    let matcher = veto::matcher::Matcher::with(NOW);
    let analysis = matcher.find_analyze(&entry, HIT);
    assert_eq!(analysis.matches.len(), 1);
    let (filter, matched) = &analysis.matches[0];
    assert_eq!(filter, &web_rule().filters[0]);
    let m = matched.as_ref().unwrap();
    assert_eq!(m.time, Some((1593861753, false)));
    assert_eq!(m.host, Some(parse_ip("1.2.3.4").unwrap()));
    assert_eq!(m.blacklists.len(), 1);
    assert_eq!(m.blacklists[0].0, "path");
    assert_eq!(m.blacklists[0].1, "/admin");
    let path_cap = m.captures.iter().find(|c| c.0 == "path").unwrap();
    assert_eq!(path_cap.1.as_deref(), Some("/admin"));

    let missed = matcher.find_analyze(&entry, "no match here");
    assert!(missed.matches[0].1.is_none());
}

#[test]
fn blacklists_match_case_insensitively() {
    let entry = prepare_rule("web".to_owned(), web_rule()).unwrap();
    let (mut handler, mut state) = fresh();
    let lines =
        vec![r#"1.2.3.4 - - "GET /ADMIN HTTP/1.1" [04/Jul/2020:11:22:33 +0000]"#.to_owned()];
    let actions = handler.handle_modified(&entry, &mut state, &lines, NOW);
    assert_eq!(actions.len(), 1);
}

#[test]
fn invalid_filter_is_rejected() {
    let mut rule = web_rule();
    rule.filters = vec!["(unclosed".to_owned()];
    match prepare_rule("web".to_owned(), rule) {
        Err(veto::rules::ConfigError::InvalidPattern { rule, filter }) => {
            assert_eq!(rule, "web");
            assert_eq!(filter, "(unclosed");
        }
        _ => panic!("an invalid pattern must be refused"),
    }
}
