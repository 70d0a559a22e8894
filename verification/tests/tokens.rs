//! The built-in macro tokens: each expansion compiles and matches its
//! canonical example, and the captured text parses.

use regex::Regex;
use time::format_description::well_known::{Rfc2822, Rfc3339};
use time::{Date, Month, OffsetDateTime, UtcOffset};

use veto::rules::token_expansion;

#[test]
fn valid_host_match() {
    let r = Regex::new(&token_expansion("<HOST>").unwrap()).unwrap();
    assert!(r.is_match("127.0.0.1"));
    assert!(r.is_match("::1"));
}

#[test]
fn valid_time_match() {
    let r = Regex::new(&token_expansion("<TIME>").unwrap()).unwrap();
    assert!(r.is_match("04/Jul/2020:11:22:33 +0000"));
}

#[test]
fn valid_time_rfc2822_match() {
    let r = Regex::new(&token_expansion("<TIME_RFC2822>").unwrap()).unwrap();
    assert!(r.is_match("Fri, 28 Nov 2014 21:00:09 +0900"));

    let value = r
        .captures("Fri, 28 Nov 2014 21:00:09 +0900")
        .unwrap()
        .name("time_rfc2822")
        .unwrap();

    let got = OffsetDateTime::parse(value.as_str(), &Rfc2822).unwrap();

    let expect = Date::from_calendar_date(2014, Month::November, 28)
        .unwrap()
        .with_hms(21, 0, 9)
        .unwrap()
        .assume_offset(UtcOffset::from_hms(9, 0, 0).unwrap());

    assert_eq!(expect, got);
}

#[test]
fn valid_time_rfc3339_match() {
    let r = Regex::new(&token_expansion("<TIME_RFC3339>").unwrap()).unwrap();
    assert!(r.is_match("2014-11-28T21:00:09+09:00"));

    let value = r
        .captures("2014-11-28T21:00:09+09:00")
        .unwrap()
        .name("time_rfc3339")
        .unwrap();

    let got = OffsetDateTime::parse(value.as_str(), &Rfc3339).unwrap();

    let expect = Date::from_calendar_date(2014, Month::November, 28)
        .unwrap()
        .with_hms(21, 0, 9)
        .unwrap()
        .assume_offset(UtcOffset::from_hms(9, 0, 0).unwrap());

    assert_eq!(expect, got);
}

#[test]
fn valid_method_match() {
    let r = Regex::new(&token_expansion("<METHOD>").unwrap()).unwrap();
    assert!(r.is_match("GET"));
}

#[test]
fn valid_version_match() {
    let r = Regex::new(&token_expansion("<VERSION>").unwrap()).unwrap();
    assert!(r.is_match("HTTP/1.0"));
    assert!(r.is_match("HTTP/1.1"));
    assert!(r.is_match("HTTP/2"));
}

#[test]
fn filters_expand_textually() {
    let host = token_expansion("<HOST>").unwrap();
    let time = token_expansion("<TIME>").unwrap();
    let expanded = veto::rules::expand_filter("^<HOST> x \\[<TIME>\\]$");
    assert_eq!(expanded, format!("^{} x \\[{}\\]$", host, time));
    // tokens are case-sensitive and must match exactly
    assert_eq!(veto::rules::expand_filter("<host> <TIME2>"), "<host> <TIME2>");
    assert_eq!(veto::rules::expand_filter(""), "");
    assert_eq!(
        veto::rules::expand_filter("<HOST><HOST>"),
        format!("{}{}", host, host)
    );
}

#[test]
fn unknown_token_has_no_expansion() {
    assert!(token_expansion("<UNKNOWN>").is_none());
    assert!(token_expansion("").is_none());
}

#[test]
fn canonical_time_parses_via_the_parser() {
    // the capture of the canonical example runs through the library's own
    // time parser
    let r = Regex::new(&token_expansion("<TIME>").unwrap()).unwrap();
    let caps = r.captures("x 04/Jul/2020:11:22:33 +0000 y").unwrap();
    let text = caps.name("time").unwrap().as_str();
    assert_eq!(veto::clock::parse_log_time(text), Some(1593861753));
}

#[test]
fn canonical_hosts_parse_via_the_parser() {
    let r = Regex::new(&token_expansion("<HOST>").unwrap()).unwrap();
    for sample in ["127.0.0.1", "::1"] {
        let caps = r.captures(sample).unwrap();
        let text = caps.name("host").unwrap().as_str();
        assert!(veto::ip::parse_ip(text).is_some());
    }
}
