use rds_cgi::has_root_with;
use rds_cgi::has_root;
use rds_cgi::web::{
    contains_str, err_out_text, form_nav, format_system_time, get_hint, get_img, get_short,
    git_cover_step, html_encode, json_encode, listed_file, new_cookie_header, page_head,
    props_text, sanitize_path, url_encode, GitStep, Menu,
};

#[test]
fn html_encode_escapes_markup() {
    assert_eq!(html_encode("<a href=\"x\">Tom's & Jerry</a>"),
        "&lt;a href=&quot;x&quot;&gt;Tom&#39;s &amp; Jerry&lt;/a&gt;");
    assert_eq!(html_encode(""), "");
    assert_eq!(html_encode("plain ü"), "plain ü");
}

#[test]
fn json_encode_escapes_specials() {
    assert_eq!(json_encode("a\"b\\c\nd\re\tf"), "a\\\"b\\\\c\\nd\\re\\tf");
    assert_eq!(json_encode("ok"), "ok");
}

#[test]
fn url_encode_keeps_unreserved() {
    assert_eq!(url_encode("Az09-._~"), "Az09-._~");
    assert_eq!(url_encode("a b/c"), "a%20b%2fc");
    assert_eq!(url_encode("é"), "%c3%a9");
    assert_eq!(url_encode("€"), "%e2%82%ac");
}

#[test]
fn sanitize_path_refuses_parent_steps() {
    assert_eq!(sanitize_path("src/main.rs"), Ok("src/main.rs"));
    assert_eq!(sanitize_path("src/../etc"), Err(".. isn't allowed in a path"));
    assert_eq!(sanitize_path("a..b"), Err(".. isn't allowed in a path"));
    assert_eq!(sanitize_path("a.b"), Ok("a.b"));
}

#[test]
fn hint_img_short() {
    assert_eq!(get_hint(&Some("a<b".to_string())), " alt=\"a&lt;b\" title=\"a&lt;b\"");
    assert_eq!(get_hint(&None), "");
    assert_eq!(get_img(&Some("i.png".to_string())), "<img src=\"i.png\">");
    assert_eq!(get_img(&None), "");
    assert_eq!(get_short(&Some("^S".to_string())), "<span style=\"float:right\">^S</span>");
    assert_eq!(get_short(&None), "");
}

#[test]
fn form_nav_without_items() {
    assert_eq!(form_nav(None), "    <menu>   </menu>");
    assert_eq!(form_nav(Some(vec![Menu::Separator])), "    <menu>   </menu>");
}

#[test]
fn form_nav_with_items() {
    let items = vec![
        Menu::MenuBox { title: "File".to_string(), hint: None, icon: None },
        Menu::MenuItem {
            link: "javascript:save()".to_string(),
            title: "Save".to_string(),
            short: Some("^S".to_string()),
            hint: None,
            icon: None,
        },
        Menu::MenuEnd,
    ];
    let expected = String::from("    <menu>")
        + "\n        <menuitem>\n            <a >File</a>\n            <menu>\n                "
        + "\n                <menuitem>\n                    <a href=\"javascript:save()\" >Save<span style=\"float:right\">^S</span></a>\n                </menuitem>\n                "
        + "\n            </menu>\n        </menuitem>\n"
        + "   </menu>";
    assert_eq!(form_nav(Some(items)), expected);
}

#[test]
fn cookie_header() {
    let n = "sid".to_string();
    let v = "42".to_string();
    assert_eq!(new_cookie_header(&n, &v, None), ("Set-Cookie".to_string(), "sid=42".to_string()));
    assert_eq!(
        new_cookie_header(&n, &v, Some("Wed, 21 Oct 2026 07:28:00 GMT".to_string())),
        ("Set-Cookie".to_string(), "sid=42; Expires=Wed, 21 Oct 2026 07:28:00 GMT".to_string())
    );
}

#[test]
fn system_time_format() {
    assert_eq!(format_system_time(2025, 4, 6, 7, 8, 9, "Sunday", -420), "04-06-2025 Sunday, 07:08:09 -0700");
    assert_eq!(format_system_time(5, 12, 31, 23, 59, 0, "Monday", 330), "12-31-05 Monday, 23:59:00 00530");
    assert_eq!(format_system_time(2024, 1, 1, 0, 0, 0, "Friday", -30), "01-01-2024 Friday, 00:00:00 000-30");
    assert_eq!(format_system_time(2024, 1, 1, 0, 0, 0, "Friday", 0), "01-01-2024 Friday, 00:00:00 00000");
}

#[test]
fn listed_files_by_extension() {
    let exts = ".java.rs.txt.md";
    assert!(listed_file("/p/src/main.rs", exts));
    assert!(listed_file("notes.md", exts));
    assert!(!listed_file("/p/Cargo.toml", exts));
    assert!(!listed_file("/p/.rs", exts));
    assert!(!listed_file("/p/README", exts));
    assert!(listed_file("/p/a.r", exts));
    assert!(contains_str("abc", "bc"));
    assert!(contains_str("abc", ""));
    assert!(!contains_str("ab", "abc"));
}

#[test]
fn git_cover_steps() {
    assert_eq!(git_cover_step("/w/p", false, Some(true)), GitStep::Covered("/w/p".to_string()));
    assert_eq!(git_cover_step("/w/p", false, Some(false)), GitStep::NotCovered);
    assert_eq!(git_cover_step("/w", true, None), GitStep::NotCovered);
    assert_eq!(git_cover_step("/w/p", false, None), GitStep::Up);
}

#[test]
fn error_answer_counts_bytes() {
    assert_eq!(err_out_text("bad é"),
        "Status: 501 Internal Server Error\r\nContent-length: 6\r\nContent-type: text/plain\r\n\r\nbad é");
}

#[test]
fn page_head_lines() {
    assert_eq!(page_head(None, None, "text/html"), "Content-type: text/html\r\n\r\n");
    assert_eq!(
        page_head(Some((302, "Found")), Some(vec![("Location".to_string(), "/x".to_string())]), "text/html"),
        "Status: 302 Found\r\nLocation: /x\r\nContent-type: text/html\r\n\r\n"
    );
}

#[test]
fn property_file_text() {
    let props = vec![("a".to_string(), "1".to_string()), ("b".to_string(), "".to_string())];
    assert_eq!(props_text("now", &props), "# property file on now\na=1\nb=\n");
}

#[test]
fn absolute_paths() {
    assert!(has_root("/home"));
    assert!(!has_root("home"));
    assert!(!has_root(""));
}

#[test]
fn roots_per_separator() {
    assert!(has_root_with("/home", '/'));
    assert!(!has_root_with("C:\\x", '/'));
    assert!(has_root_with("C:\\x", '\\'));
    assert!(has_root_with("\\x", '\\'));
    assert!(!has_root_with("C:\\", '\\'));
    assert!(!has_root_with("/x", '\\'));
    assert!(!has_root_with("C:x", '\\'));
    assert!(!has_root_with("", '\\'));
}
