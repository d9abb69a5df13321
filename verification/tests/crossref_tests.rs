use rds_cgi::crossref::{line_separator, scan, Reader, RefType, Reference, Scope, ScopeType};

fn scan_text(text: &str) -> Vec<Reference> {
    let mut r = Reader::new("/p/src/main.rs".to_string(), text.as_bytes().to_vec());
    scan(&mut r)
}

#[test]
fn reader_positions() {
    let mut r = Reader::new("f".to_string(), "a\n\u{e9}".as_bytes().to_vec());
    assert_eq!(r.line_number(), 1);
    assert_eq!(r.next(), Some('a'));
    assert_eq!((r.line_number(), r.column()), (1, 2));
    assert_eq!(r.next(), Some('\n'));
    assert_eq!((r.line_number(), r.column()), (2, 0));
    assert_eq!(r.next(), Some('\u{e9}'));
    assert_eq!((r.line_number(), r.column()), (2, 2));
    assert_eq!(r.next(), None);
    assert_eq!(line_separator(), b'\n');
}

#[test]
fn reader_replaces_bad_sequences() {
    let mut r = Reader::new("f".to_string(), vec![0xED, 0xA0, 0x80, b'x']);
    assert_eq!(r.next(), Some('\u{FFFD}'));
    assert_eq!(r.next(), Some('x'));
    let mut cut = Reader::new("f".to_string(), vec![0xE2, 0x82]);
    assert_eq!(cut.next(), None);
}

#[test]
fn scan_definitions_and_calls() {
    let refs = scan_text("fn main() {\n    foo();\n}\n");
    assert_eq!(refs.len(), 2);
    assert_eq!(refs[0].name, "main");
    assert_eq!(refs[0].type_of_use, RefType::Function);
    assert_eq!((refs[0].line, refs[0].column), (1, 16));
    assert!(refs[0].scope.is_none());
    assert_eq!(refs[0].src, "/p/src/main.rs");
    assert_eq!(refs[1].name, "foo");
    assert_eq!(refs[1].type_of_use, RefType::Access);
    assert_eq!((refs[1].line, refs[1].column), (2, 16));
}

#[test]
fn scan_data_and_scopes() {
    let refs = scan_text("struct Point { x: i32 }\nimpl Foo {\n    fn bar() {}\n}\n");
    assert_eq!(refs.len(), 2);
    assert_eq!(refs[0].name, "P");
    assert_eq!(refs[0].type_of_use, RefType::Data);
    assert_eq!((refs[0].line, refs[0].column), (1, 28));
    assert_eq!(refs[1].name, "bar");
    assert_eq!(refs[1].type_of_use, RefType::Function);
    assert_eq!(refs[1].line, 3);
    let scope = refs[1].scope.as_ref().unwrap();
    assert_eq!(scope.name, "Foo");
    assert_eq!(scope.name_for, None);
    assert_eq!(scope.type_of_scope, ScopeType::SelfImpl);
}

#[test]
fn scan_empty_source() {
    assert!(scan_text("").is_empty());
    let _s = Scope { name: String::new(), name_for: None, type_of_scope: ScopeType::Trait };
}
