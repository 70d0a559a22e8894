//! The verified parsers and renderers on concrete values.

use veto::clock::parse_log_time;
use veto::ip::{format_ip, parse_ip, parse_ipv4, parse_ipv6, parse_network, IpAddress};
use veto::strutil::{dec_string, has_line, join_dec};

#[test]
fn dotted_quads() {
    assert_eq!(parse_ipv4("1.2.3.4"), Some(0x01020304));
    assert_eq!(parse_ipv4("255.255.255.255"), Some(0xffffffff));
    assert_eq!(parse_ipv4("0.0.0.0"), Some(0));
    assert_eq!(parse_ipv4("256.1.1.1"), None);
    assert_eq!(parse_ipv4("01.1.1.1"), None);
    assert_eq!(parse_ipv4("1.2.3"), None);
    assert_eq!(parse_ipv4("1.2.3.4.5"), None);
    assert_eq!(parse_ipv4(""), None);
    assert_eq!(parse_ipv4("1.2.3.x"), None);
}

#[test]
fn v6_groups() {
    assert_eq!(parse_ipv6("::1"), Some(1));
    assert_eq!(parse_ipv6("::"), Some(0));
    assert_eq!(
        parse_ipv6("2001:db8::1"),
        Some(0x2001_0db8_0000_0000_0000_0000_0000_0001)
    );
    assert_eq!(
        parse_ipv6("1:2:3:4:5:6:7:8"),
        Some(0x0001_0002_0003_0004_0005_0006_0007_0008)
    );
    assert_eq!(parse_ipv6("1:2:3:4:5:6:7:8:9"), None);
    assert_eq!(parse_ipv6("1::2::3"), None);
    assert_eq!(parse_ipv6("1:::2"), None);
    assert_eq!(parse_ipv6("fffff::"), None);
    assert_eq!(parse_ipv6(""), None);
    assert_eq!(parse_ipv6("1:2:3:4:5:6:7::8"), None);
    assert_eq!(parse_ipv6("1:2:3:4:5:6:7::"), Some(0x0001_0002_0003_0004_0005_0006_0007_0000));
}

#[test]
fn parse_dispatch() {
    let v4 = parse_ip("1.2.3.4").unwrap();
    assert!(!v4.v6);
    assert_eq!(v4.value, 0x01020304);
    let v6 = parse_ip("::1").unwrap();
    assert!(v6.v6);
    assert_eq!(v6.value, 1);
    assert!(parse_ip("not an address").is_none());
}

#[test]
fn rendering() {
    let v4 = IpAddress { v6: false, value: 0x01020304 };
    assert_eq!(format_ip(&v4), "1.2.3.4");
    let v6 = IpAddress { v6: true, value: 0x2001_0db8_0000_0000_0000_0000_0000_0001 };
    assert_eq!(format_ip(&v6), "2001:db8:0:0:0:0:0:1");
    let zero = IpAddress { v6: false, value: 0 };
    assert_eq!(format_ip(&zero), "0.0.0.0");
}

#[test]
fn networks() {
    let net = parse_network("1.2.3.0/24").unwrap();
    assert!(!net.addr.v6);
    assert_eq!(net.prefix, 24);
    assert!(net.contains(&parse_ip("1.2.3.4").unwrap()));
    assert!(!net.contains(&parse_ip("1.2.4.4").unwrap()));
    assert!(!net.contains(&parse_ip("::1").unwrap()));

    let bare = parse_network("10.0.0.1").unwrap();
    assert_eq!(bare.prefix, 32);
    assert!(bare.contains(&parse_ip("10.0.0.1").unwrap()));
    assert!(!bare.contains(&parse_ip("10.0.0.2").unwrap()));

    let all = parse_network("0.0.0.0/0").unwrap();
    assert!(all.contains(&parse_ip("9.9.9.9").unwrap()));

    let v6net = parse_network("2001:db8::/32").unwrap();
    assert!(v6net.contains(&parse_ip("2001:db8::42").unwrap()));
    assert!(!v6net.contains(&parse_ip("2001:db9::42").unwrap()));

    assert!(parse_network("1.2.3.0/33").is_none());
    assert!(parse_network("1.2.3.0/").is_none());
    assert!(parse_network("junk/24").is_none());
}

#[test]
fn log_times() {
    assert_eq!(parse_log_time("04/Jul/2020:11:22:33 +0000"), Some(1593861753));
    assert_eq!(parse_log_time("01/Jan/1970:00:00:00 +0000"), Some(0));
    assert_eq!(parse_log_time("01/Jan/1970:01:00:00 +0100"), Some(0));
    assert_eq!(parse_log_time("31/Dec/1969:23:00:00 -0100"), Some(0));
    assert_eq!(parse_log_time("04/Jul/2019:00:00:00 +0000"), Some(1562198400));
    // malformed shapes and impossible fields
    assert_eq!(parse_log_time("4/Jul/2020:11:22:33 +0000"), None);
    assert_eq!(parse_log_time("04/Zzz/2020:11:22:33 +0000"), None);
    assert_eq!(parse_log_time("30/Feb/2020:11:22:33 +0000"), None);
    assert_eq!(parse_log_time("29/Feb/2020:11:22:33 +0000"), Some(1582975353));
    assert_eq!(parse_log_time("29/Feb/2019:11:22:33 +0000"), None);
    assert_eq!(parse_log_time("04/Jul/2020:24:22:33 +0000"), None);
    assert_eq!(parse_log_time("04/Jul/2020:11:22:33 0000"), None);
    assert_eq!(parse_log_time(""), None);
}

#[test]
fn decimal_rendering() {
    assert_eq!(dec_string(0), "0");
    assert_eq!(dec_string(7), "7");
    assert_eq!(dec_string(65535), "65535");
    let ports: Vec<u16> = vec![80, 443];
    assert_eq!(join_dec(&ports, ','), "80,443");
    let one: Vec<u16> = vec![22];
    assert_eq!(join_dec(&one, ','), "22");
    let none: Vec<u16> = vec![];
    assert_eq!(join_dec(&none, ','), "");
}

#[test]
fn listing_lines() {
    assert!(has_line("veto\nveto_v6\n", "veto"));
    assert!(has_line("veto\nveto_v6\n", "veto_v6"));
    assert!(!has_line("veto\nveto_v6\n", "veto_v"));
    assert!(!has_line("", "veto"));
    assert!(has_line("a\r\nb", "a"));
    assert!(has_line("a\r\nb", "b"));
    assert!(!has_line("ab", "a"));
}
