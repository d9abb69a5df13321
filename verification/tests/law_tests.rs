use rds_cgi::web::Menu as MenuEntry;
use rds_cgi::config::read_props;
use rds_cgi::crossref::{scan, Reader, RefType};
use rds_cgi::modes::{editor_file_json, save_decision, SaveOutcome};
use rds_cgi::text::u64_to_string;
use rds_cgi::web::{html_encode, json_encode, props_text};

#[test]
fn property_file_reads_back() {
    let pairs = vec![
        ("project_home".to_string(), "/w/p".to_string()),
        ("proj_conf".to_string(), "{\"a\":1}".to_string()),
        ("".to_string(), "empty name".to_string()),
        ("user".to_string(), "x=y".to_string()),
    ];
    let text = props_text("01-02-2025 Thursday, 10:00:00 00100", &pairs);
    let lines: Vec<String> = text.lines().map(String::from).collect();
    let props = read_props(&lines);
    assert_eq!(props.len(), pairs.len());
    for (i, p) in pairs.iter().enumerate() {
        assert_eq!(&props.entry(i), p);
    }
}

#[test]
fn unchanged_file_saves() {
    for m in [0u64, 7, 1700000000, u64::MAX] {
        assert_eq!(
            save_decision(m, Some(u64_to_string(m)), true),
            SaveOutcome::Write { create_dirs: m == 0 }
        );
    }
    assert!(editor_file_json(1700000000, "a", "b", "c").contains("\"modified\":1700000000,"));
}

#[test]
fn encoded_text_is_safe() {
    let html = html_encode("<script>alert('x' + \"y\")</script>");
    assert!(!html.contains('<') && !html.contains('>') && !html.contains('"') && !html.contains('\''));
    let json = json_encode("line\nnext\t\"quoted\"\r");
    assert!(!json.contains('\n') && !json.contains('\r') && !json.contains('\t'));
    let chars: Vec<char> = json.chars().collect();
    for i in 0..chars.len() {
        if chars[i] == '"' {
            assert!(i > 0 && chars[i - 1] == '\\');
        }
    }
}

#[test]
fn scanned_references_are_well_formed() {
    let src = "fn a() {}\nstruct S {}\nfn b() { a(); c::d(); }\n";
    let mut r = Reader::new("/p/f.rs".to_string(), src.as_bytes().to_vec());
    let refs = scan(&mut r);
    assert!(!refs.is_empty());
    let mut last = 0;
    for x in &refs {
        assert_eq!(x.src, "/p/f.rs");
        assert!(x.line >= 1 && x.line >= last);
        last = x.line;
        assert!(matches!(x.type_of_use, RefType::Function | RefType::Access | RefType::Data));
        assert!(x.name.chars().all(|c| c.is_ascii_alphanumeric() || c == '_'));
        if x.scope.is_some() {
            assert_eq!(x.type_of_use, RefType::Function);
        }
    }
}

#[test]
fn reader_gives_decoded_characters_and_counts_lines() {
    let text = "a\u{e9}\n\u{20ac}\r\n\u{1F600}x";
    let mut r = Reader::new("f".to_string(), text.as_bytes().to_vec());
    let mut got = Vec::new();
    let mut line = r.line_number();
    while let Some(c) = r.next() {
        let now = r.line_number();
        assert_eq!(now, if c == '\n' { line + 1 } else { line });
        line = now;
        got.push(c);
    }
    assert_eq!(got, text.chars().collect::<Vec<char>>());
    assert_eq!(r.next(), None);
    assert_eq!(r.next(), None);
    assert_eq!(r.line_number(), 3);
}

#[test]
fn scan_reads_to_the_end() {
    let mut r = Reader::new("/p/f.rs".to_string(), "fn a() {}\nfn b() {}\n".as_bytes().to_vec());
    let refs = scan(&mut r);
    assert!(refs.iter().all(|x| x.line >= 1));
    assert_eq!(r.next(), None);
    assert_eq!(r.line_number(), 3);
}

#[test]
fn query_parameters_last_decodable_piece_wins() {
    let p = rds_cgi::param::Param::new(Some("a=1&b=x%20y+z&flag&c=%zz&a=2&a=%zz".to_string()), None, None);
    assert_eq!(p.param("a"), Some("2".to_string()));
    assert_eq!(p.param("b"), Some("x y z".to_string()));
    assert_eq!(p.param("flag"), None);
    assert_eq!(p.param("c"), None);
}

#[test]
fn main_menu_is_well_nested() {
    let nav = rds_cgi::docgi::PageFile::default()
        .get_nav(&vec!["settings-x.prop".to_string()], "")
        .unwrap();
    assert_eq!(nav[0], MenuEntry::MenuBox { title: "File".to_string(), hint: None, icon: None });
    let mut depth = 0i32;
    let (mut boxes, mut ends) = (0, 0);
    for m in &nav {
        match m {
            MenuEntry::MenuBox { .. } => { depth += 1; boxes += 1; }
            MenuEntry::MenuEnd => { depth -= 1; ends += 1; }
            _ => {}
        }
        assert!(depth >= 0);
    }
    assert_eq!(depth, 0);
    assert_eq!((boxes, ends), (11, 11));
}
