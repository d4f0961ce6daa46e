use anchor_tray_app::stack::expand_home;
use anchor_tray_app::text::{chars_of, decimal_string, parse_port, replace_all};

#[test]
fn decimal_numerals() {
    assert_eq!(decimal_string(0), "0");
    assert_eq!(decimal_string(7), "7");
    assert_eq!(decimal_string(10), "10");
    assert_eq!(decimal_string(3001), "3001");
    assert_eq!(decimal_string(65535), "65535");
    assert_eq!(decimal_string(u64::MAX), u64::MAX.to_string());
}

#[test]
fn port_parsing_matches_std() {
    for s in ["3001", "+3001", "0003001", "0", "65535", "65536", "", "+", "-1", "-0", "30a1", " 3001", "3001 ", "++1", "99999999999999999999", "٣"] {
        assert_eq!(parse_port(s), s.parse::<u16>().ok(), "input {:?}", s);
    }
}

#[test]
fn every_port_round_trips() {
    for p in 0..=u16::MAX {
        assert_eq!(parse_port(&decimal_string(p as u64)), Some(p));
    }
}

#[test]
fn replacing_matches_std() {
    let cases = [
        ("${HOME}/anchor", "${HOME}", "/home/ann"),
        ("a${HOME}b${HOME}c", "${HOME}", "X"),
        ("${HOME}${HOME}", "${HOME}", ""),
        ("no pattern here", "${HOME}", "/h"),
        ("${HOM", "${HOME}", "/h"),
        ("aaaa", "aa", "b"),
        ("aaa", "aa", "b"),
        ("é${HOME}ü", "${HOME}", "日本"),
        ("", "x", "y"),
        ("abc", "", "X"),
        ("", "", "X"),
        ("añ", "", "-"),
    ];
    for (s, p, r) in cases {
        assert_eq!(replace_all(s, p, r), s.replace(p, r), "input {:?}", s);
    }
}

#[test]
fn home_is_expanded_everywhere() {
    assert_eq!(expand_home("${HOME}/anchor/dist/index.js", "/Users/me"), "/Users/me/anchor/dist/index.js");
    assert_eq!(expand_home("--db=${HOME}/a:${HOME}/b", "/h"), "--db=/h/a:/h/b");
    assert_eq!(expand_home("plain", "/h"), "plain");
    assert_eq!(expand_home("$HOME/x", "/h"), "$HOME/x");
}

#[test]
fn chars_are_listed_in_order() {
    assert_eq!(chars_of("añb"), vec!['a', 'ñ', 'b']);
    assert!(chars_of("").is_empty());
}
