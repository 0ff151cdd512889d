use mfa_creds::codec::{parse_store, serialize_store, split_lines};
use mfa_creds::store::{Entry, Store};

fn entry(k: &str, v: &str) -> Entry {
    Entry { key: String::from(k), value: String::from(v) }
}

fn parse_ok(text: &str) -> Store {
    match parse_store(text) {
        Ok(s) => s,
        Err(e) => panic!("expected a parse, got error: {}", e.message()),
    }
}

#[test]
fn split_lines_basic() {
    let lines = split_lines("a\nbc\n");
    assert_eq!(lines, vec![String::from("a"), String::from("bc")]);
    let lines = split_lines("a\nbc");
    assert_eq!(lines, vec![String::from("a"), String::from("bc")]);
    let lines = split_lines("");
    assert!(lines.is_empty());
    let lines = split_lines("\n");
    assert_eq!(lines, vec![String::from("")]);
}

#[test]
fn parse_empty_is_empty_store() {
    let s = parse_ok("");
    assert_eq!(s.sections.len(), 0);
}

#[test]
fn parse_two_sections() {
    let s = parse_ok("[alpha]\nk1=v1\nk2=v2\n\n[beta]\nk1=other\n");
    assert_eq!(s.sections.len(), 2);
    assert_eq!(s.sections[0].name, "alpha");
    assert_eq!(s.sections[0].entries.len(), 2);
    assert_eq!(s.sections[0].entries[0].key, "k1");
    assert_eq!(s.sections[0].entries[0].value, "v1");
    assert_eq!(s.sections[1].name, "beta");
    assert_eq!(s.sections[1].entries[0].value, "other");
}

#[test]
fn parse_value_may_contain_equals() {
    let s = parse_ok("[p]\ntoken=abc=def==\n");
    assert_eq!(s.sections[0].entries[0].key, "token");
    assert_eq!(s.sections[0].entries[0].value, "abc=def==");
}

#[test]
fn parse_rejects_bare_word() {
    assert!(parse_store("[p]\nnot a pair\n").is_err());
}

#[test]
fn parse_rejects_entry_before_section() {
    assert!(parse_store("k=v\n[p]\n").is_err());
}

#[test]
fn parse_rejects_unclosed_header() {
    assert!(parse_store("[p\nk=v\n").is_err());
}

#[test]
fn parse_rejects_duplicate_section() {
    assert!(parse_store("[p]\n[q]\n[p]\n").is_err());
}

#[test]
fn parse_rejects_duplicate_key() {
    assert!(parse_store("[p]\nk=1\nk=2\n").is_err());
}

#[test]
fn parse_rejects_empty_key() {
    assert!(parse_store("[p]\n=v\n").is_err());
}

#[test]
fn parse_skips_comment_lines() {
    let s = parse_ok("; leading comment\n[p]\n# another comment\nk=v\n  ; indented comment\n");
    assert_eq!(s.sections.len(), 1);
    assert_eq!(s.sections[0].entries.len(), 1);
    assert_eq!(s.sections[0].entries[0].key, "k");
    assert_eq!(s.sections[0].entries[0].value, "v");
}

#[test]
fn parse_trims_blank_space() {
    let s = parse_ok("[ default ]\naws_access_key_id = AKIA \n\tk2\t=  spaced value  \n");
    assert_eq!(s.sections[0].name, "default");
    assert_eq!(s.sections[0].entries[0].key, "aws_access_key_id");
    assert_eq!(s.sections[0].entries[0].value, "AKIA");
    assert_eq!(s.sections[0].entries[1].key, "k2");
    assert_eq!(s.sections[0].entries[1].value, "spaced value");
}

#[test]
fn parse_trims_carriage_returns() {
    let s = parse_ok("[p]\r\nk=v\r\n");
    assert_eq!(s.sections[0].name, "p");
    assert_eq!(s.sections[0].entries[0].value, "v");
}

#[test]
fn spaced_key_is_the_same_key() {
    let mut s = parse_ok("[default]\naws_access_key_id = OLD\n");
    let fields = vec![entry("aws_access_key_id", "NEW")];
    s.set_section_fields("default", &fields);
    assert_eq!(serialize_store(&s), "[default]\naws_access_key_id=NEW\n");
}

#[test]
fn parse_rejects_duplicate_key_after_trimming() {
    assert!(parse_store("[p]\nk=1\n k =2\n").is_err());
}

#[test]
fn serialize_round_trip() {
    let text = "[alpha]\nk1=v1\nk2=v2\n[beta]\nx=y\n";
    let s = parse_ok(text);
    assert_eq!(serialize_store(&s), text);
}

#[test]
fn set_section_fields_overwrites_in_place() {
    let mut s = parse_ok("[p]\nextra=keep\nk=old\ntail=stay\n");
    let fields = vec![entry("k", "new")];
    s.set_section_fields("p", &fields);
    assert_eq!(serialize_store(&s), "[p]\nextra=keep\nk=new\ntail=stay\n");
}

#[test]
fn set_section_fields_appends_new_section() {
    let mut s = parse_ok("[other]\na=1\n");
    let fields = vec![entry("k1", "v1"), entry("k2", "v2")];
    s.set_section_fields("fresh", &fields);
    assert_eq!(serialize_store(&s), "[other]\na=1\n[fresh]\nk1=v1\nk2=v2\n");
}

#[test]
fn set_section_fields_twice_is_once() {
    let mut once = parse_ok("[p]\nk=old\n");
    let fields = vec![entry("k", "new"), entry("k2", "v2")];
    once.set_section_fields("p", &fields);
    let expected = serialize_store(&once);
    once.set_section_fields("p", &fields);
    assert_eq!(serialize_store(&once), expected);
}

#[test]
fn find_section_reports_first_index() {
    let s = parse_ok("[a]\n[b]\n[c]\n");
    assert_eq!(s.find_section("b"), Some(1));
    assert_eq!(s.find_section("missing"), None);
}
