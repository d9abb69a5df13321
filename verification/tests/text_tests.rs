use rds_cgi::strmap::StrMap;
use rds_cgi::text::{
    chars_to_string, eq_str, lex_le_str, parse_u32, parse_u64, sort_by_key, split_chars,
    split_once_char, starts_with_str, strip_prefix_or_keep_str, trim, trim_quotes, u64_to_padded,
    u64_to_string, words_of,
};

#[test]
fn numbers_to_text() {
    assert_eq!(u64_to_string(0), "0");
    assert_eq!(u64_to_string(18446744073709551615), "18446744073709551615");
    assert_eq!(u64_to_padded(7, 3), "007");
    assert_eq!(u64_to_padded(12345, 2), "12345");
}

#[test]
fn numbers_from_text() {
    assert_eq!(parse_u32("42"), Some(42));
    assert_eq!(parse_u32("+7"), Some(7));
    assert_eq!(parse_u32("0042"), Some(42));
    assert_eq!(parse_u32("4294967295"), Some(4294967295));
    assert_eq!(parse_u32("4294967296"), None);
    assert_eq!(parse_u32(""), None);
    assert_eq!(parse_u32("+"), None);
    assert_eq!(parse_u32("-1"), None);
    assert_eq!(parse_u32("1a"), None);
    assert_eq!(parse_u64("18446744073709551615"), Some(18446744073709551615));
    assert_eq!(parse_u64("18446744073709551616"), None);
    assert_eq!(parse_u64("99999999999999999999999"), None);
}

#[test]
fn trimming() {
    assert_eq!(trim("  a b \t\n"), "a b");
    assert_eq!(trim("\u{3000}x\u{A0}"), "x");
    assert_eq!(trim("   "), "");
    assert_eq!(trim_quotes("\"'ls -l'\""), "ls -l");
    assert_eq!(trim_quotes("\"\""), "");
}

#[test]
fn splitting() {
    assert_eq!(split_chars("a,,b", ','), vec!["a", "", "b"]);
    assert_eq!(split_chars("", ','), vec![""]);
    assert_eq!(split_once_char("k=v=w", '='), Some(("k".to_string(), "v=w".to_string())));
    assert_eq!(split_once_char("kv", '='), None);
    assert_eq!(words_of("  ls  -l\t-a ", true), vec!["ls", "-l", "-a"]);
    assert_eq!(words_of("x\u{A0}y", true), vec!["x\u{A0}y"]);
    assert_eq!(words_of("x\u{A0}y", false), vec!["x", "y"]);
}

#[test]
fn prefixes_and_equality() {
    assert!(starts_with_str("webId-7", "webId-"));
    assert!(!starts_with_str("web", "webId-"));
    assert_eq!(strip_prefix_or_keep_str("webId-7", "webId-"), "7");
    assert_eq!(strip_prefix_or_keep_str("7", "webId-"), "7");
    assert!(eq_str("a", "a"));
    assert!(!eq_str("a", "b"));
    assert_eq!(chars_to_string(&vec!['h', 'é']), "hé");
}

#[test]
fn ordering_of_keys() {
    assert!(lex_le_str("a", "b"));
    assert!(lex_le_str("a", "ab"));
    assert!(!lex_le_str("b", "a"));
    assert!(lex_le_str("Z", "a"));
    let v = vec![("b".to_string(), 1), ("a".to_string(), 2), ("c".to_string(), 3), ("a".to_string(), 4)];
    let s = sort_by_key(v);
    let keys: Vec<&str> = s.iter().map(|p| p.0.as_str()).collect();
    assert_eq!(keys, vec!["a", "a", "b", "c"]);
}

#[test]
fn string_map_last_write_wins() {
    let mut m = StrMap::new();
    m.insert("k".to_string(), "1".to_string());
    m.insert("j".to_string(), "2".to_string());
    m.insert("k".to_string(), "3".to_string());
    assert_eq!(m.get("k"), Some("3".to_string()));
    assert_eq!(m.get("j"), Some("2".to_string()));
    assert_eq!(m.get("x"), None);
    assert_eq!(m.len(), 3);
    assert_eq!(m.entry(0), ("k".to_string(), "1".to_string()));
}
