use rds_cgi::terminal::{
    esc_string, initial_dir, parse_aliases, parse_session_line, session_kept, session_line_ok,
    session_record, session_target, SessionLine, SESSION_LIFETIME,
};

#[test]
fn escaping() {
    assert_eq!(esc_string("C:\\Users\\me my!".to_string()), "C\\:\\\\Users\\\\me\\ my\\!");
    assert_eq!(esc_string("/plain/path".to_string()), "/plain/path");
}

#[test]
fn session_targets() {
    assert_eq!(session_target("/proj/webId-abc"), (Some("proj".to_string()), "abc".to_string()));
    assert_eq!(session_target("proj/xyz"), (Some("proj".to_string()), "xyz".to_string()));
    assert_eq!(session_target("/proj"), (None, "".to_string()));
    assert_eq!(session_target("/a/b/c"), (Some("a".to_string()), "b/c".to_string()));
}

#[test]
fn initial_dirs() {
    assert_eq!(initial_dir("/home/u/"), "/home/u");
    assert_eq!(initial_dir("/home/u"), "/home/u");
}

#[test]
fn session_lines() {
    assert_eq!(parse_session_line(""), SessionLine::Skip);
    assert_eq!(parse_session_line("# WebSocket sessions"), SessionLine::Skip);
    assert_eq!(parse_session_line("novalue"), SessionLine::InvalidDefinition);
    assert_eq!(parse_session_line("k=nocwd"), SessionLine::InvalidValue);
    assert_eq!(
        parse_session_line("zKMf=2025-04-26T17\\:38\\:36.2465801;C\\:\\\\Users\\\\sunil"),
        SessionLine::Entry {
            key: "zKMf".to_string(),
            date: Some((2025, 4, 26)),
            cwd: "C\\:\\\\Users\\\\sunil".to_string()
        }
    );
    assert_eq!(
        parse_session_line("k=xx-yy-zz;/tmp"),
        SessionLine::Entry { key: "k".to_string(), date: None, cwd: "/tmp".to_string() }
    );
    assert_eq!(
        parse_session_line("k=yy-m-dTnow;/tmp"),
        SessionLine::Entry { key: "k".to_string(), date: Some((2025, 1, 2)), cwd: "/tmp".to_string() }
    );
    assert!(session_line_ok("k=2025-04T1;/tmp") == false);
    assert!(session_line_ok("k=2025-04-01T1;/tmp"));
}

#[test]
fn session_records() {
    let line = session_record("abc", 2025, 4, 6, 7, 8, 9, "/home/u p".to_string());
    assert_eq!(line, "abc=2025-04-06T07\\:08\\:09.0000000;/home/u\\ p");
    assert_eq!(
        parse_session_line(&line),
        SessionLine::Entry { key: "abc".to_string(), date: Some((2025, 4, 6)), cwd: "/home/u\\ p".to_string() }
    );
}

#[test]
fn session_lifetime() {
    let now = 2_000_000_000u64;
    assert!(session_kept(now - 10, now, true));
    assert!(!session_kept(now - 10, now, false));
    assert!(!session_kept(now - SESSION_LIFETIME, now, true));
    assert!(session_kept(now - SESSION_LIFETIME + 1, now, true));
}

#[test]
fn aliases() {
    let lines: Vec<String> = vec![
        "# aliases",
        "  alias ll = \"ls -l  -a\"",
        "alias g='git status'",
        "export X=1",
        "",
        "alias ll=ls",
        "aliasx=1",
    ]
    .into_iter()
    .map(String::from)
    .collect();
    let defs = parse_aliases(&lines);
    assert_eq!(
        defs,
        vec![
            ("ll".to_string(), vec!["\"ls".to_string(), "-l".to_string(), "-a".to_string()]),
            ("g".to_string(), vec!["git".to_string(), "status".to_string()]),
            ("ll".to_string(), vec!["ls".to_string()]),
        ]
    );
}

#[test]
fn escaping_keeps_paths_apart() {
    let a = esc_string("a:b".to_string());
    let b = esc_string("a\\:b".to_string());
    assert_eq!(a, "a\\:b");
    assert_eq!(b, "a\\\\\\:b");
    assert_ne!(a, b);
}
