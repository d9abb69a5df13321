use rds_cgi::param::{to_web_separator, url_decode, wants_form_body, Param};

#[test]
fn query_and_form_parameters() {
    let p = Param::new(
        Some("mode=tree&session=my+proj&name=a%2Fb.rs&bad=%zz&noeq&x=1".to_string()),
        Some("sid=abc; theme=dark".to_string()),
        Some("x=2&data=hello%20world".to_string()),
    );
    assert_eq!(p.param("mode"), Some("tree".to_string()));
    assert_eq!(p.param("session"), Some("my proj".to_string()));
    assert_eq!(p.param("name"), Some("a/b.rs".to_string()));
    assert_eq!(p.param("bad"), None);
    assert_eq!(p.param("noeq"), None);
    assert_eq!(p.param("x"), Some("2".to_string()));
    assert_eq!(p.param("data"), Some("hello world".to_string()));
    assert_eq!(p.cookie("sid"), Some("abc".to_string()));
    assert_eq!(p.cookie("theme"), Some("dark".to_string()));
    assert_eq!(p.cookie("none"), None);
}

#[test]
fn no_request_data() {
    let p = Param::new(None, None, None);
    assert_eq!(p.param("mode"), None);
    assert_eq!(p.cookie("sid"), None);
}

#[test]
fn component_decoding() {
    let p = Param::new(None, None, None);
    assert_eq!(p.url_comp_decode("a%41%6a+b"), Some("aAj b".to_string()));
    assert_eq!(p.url_comp_decode("%c3%a9"), Some("é".to_string()));
    assert_eq!(p.url_comp_decode("%C3%A9"), Some("é".to_string()));
    assert_eq!(p.url_comp_decode("%c3"), None);
    assert_eq!(p.url_comp_decode("%4"), None);
    assert_eq!(p.url_comp_decode("é"), None);
    assert_eq!(url_decode(""), Some("".to_string()));
}

#[test]
fn decode_inverts_encode() {
    let s = "a b/ü€~";
    let e = rds_cgi::web::url_encode(s);
    assert_eq!(url_decode(&e), Some(s.to_string()));
}

#[test]
fn form_body_only_for_posted_forms() {
    assert!(wants_form_body("POST", "application/x-www-form-urlencoded"));
    assert!(!wants_form_body("GET", "application/x-www-form-urlencoded"));
    assert!(!wants_form_body("POST", "multipart/form-data"));
}

#[test]
fn web_separators() {
    assert_eq!(to_web_separator("a\\b\\c.rs".to_string()), "a/b/c.rs");
    assert_eq!(to_web_separator("a/b".to_string()), "a/b");
}
