use rds_cgi::docgi::{crossref_json_with, refs_to_json_with};
use rds_cgi::docgi::{vcs_line_checked, vcs_output_ok};
use rds_cgi::crossref::{RefType, Reference, Scope, ScopeType};
use rds_cgi::docgi::{
    check_settings_names, crossref_json, dirs_json, recurse_dirs, recurse_files, refs_to_json,
    session_name, sessions_json, tabs_json, vcs_list_json, write_json_list, DirNode, FileKind,
    FileNode, JsonSettings, PageFile, Redirect,
};
use rds_cgi::strmap::StrMap;
use rds_cgi::web::Menu;

fn names(v: &[&str]) -> Vec<String> {
    v.iter().map(|s| s.to_string()).collect()
}

#[test]
fn vcs_listing() {
    let out = "M  src/a.rs\n M b.txt\n?? \"a b.txt\"\nD  x\n".to_string();
    assert_eq!(
        vcs_list_json(Some(out)),
        "[{\"path\":\"src/a.rs\",\"name\":\"a.rs\",\"status\":\"staged\"},\
{\"path\":\"b.txt\",\"name\":\"b.txt\",\"status\":\"modified\"},\
{\"path\":\"a b.txt\",\"name\":\"a b.txt\",\"status\":\"unversioned\"},\
{\"path\":\"x\",\"name\":\"x\",\"status\":\"unknown\"}]"
    );
    assert_eq!(vcs_list_json(None), "[]");
    assert_eq!(vcs_list_json(Some("".to_string())), "[]");
}

#[test]
fn sessions_listing() {
    let files = names(&["settings.prop", "settings-demo.prop", "settingsX.prop", "other.txt"]);
    assert!(check_settings_names(&files));
    assert_eq!(sessions_json(&files), "[\"\",\"demo\"]");
    assert_eq!(session_name("settings-demo.prop"), Some("demo".to_string()));
    assert_eq!(session_name("settings.prop"), Some("".to_string()));
    assert_eq!(session_name("settingsX.prop"), None);
    assert_eq!(session_name("notes.txt"), None);
}

#[test]
fn json_lists() {
    assert_eq!(tabs_json("a\tb\t\tc"), "[\"a\",\"b\",\"c\"]");
    assert_eq!(tabs_json(""), "[]");
    assert_eq!(dirs_json(&names(&["b", ".git", "a"])), "[\"a\",\"b\"]");
    assert_eq!(write_json_list(&names(&["q\"uote"])), "[\"q\\\"uote\"]");
}

#[test]
fn settings_defaults() {
    let js = JsonSettings { file: PageFile::default(), home_len: 5 };
    assert_eq!(
        js.settings_json(&StrMap::new()),
        "{\"project_home\":\"\", \"theme\":\"light\", \"autosave\" : \"no\",\n            \
\"projectnp\":\"no\", \"user\":\"\", \"persist_tabs\":\"no\",\n            \
\"home_len\":5, \"proj_conf\":{}, \"ai_server_url\":\"\",\n            \
\"colapsed_dirs\":\"\"\n        }"
    );
    let mut props = StrMap::new();
    props.insert("theme".to_string(), "dark".to_string());
    props.insert("user".to_string(), "A \"B\"".to_string());
    let s = js.settings_json(&props);
    assert!(s.contains("\"theme\":\"dark\""));
    assert!(s.contains("\"user\":\"A \\\"B\\\"\""));
}

#[test]
fn redirect_page() {
    let r = Redirect { session: Some("my proj".to_string()) };
    assert_eq!(r.status(), Some((302, "Found")));
    assert_eq!(r.name(), "None");
    assert_eq!(
        r.get_extra("abc123", "/x"),
        Some(vec![("Location".to_string(), "/rustcgi/rustcgi/x?session=my%20proj&id=abc123".to_string())])
    );
    let none = Redirect { session: None };
    assert_eq!(
        none.get_extra("i", ""),
        Some(vec![("Location".to_string(), "/rustcgi/rustcgi?session=&id=i".to_string())])
    );
}

#[test]
fn main_page_names() {
    let p = PageFile { file_name: "main.html".to_string(), session: Some("s1".to_string()), id: Some("7".to_string()), home: String::new() };
    assert_eq!(p.name(), "s1");
    assert_eq!(
        p.apply_specific(),
        vec![
            ("session".to_string(), "s1".to_string()),
            ("windows".to_string(), "false".to_string()),
            ("id".to_string(), "7".to_string())
        ]
    );
    let q = PageFile { session: Some(String::new()), ..PageFile::default() };
    assert_eq!(q.name(), "Main");
    assert_eq!(PageFile::default().name(), "Main");
}

#[test]
fn main_menu_projects() {
    let p = PageFile::default();
    let files = names(&["settings.prop", "settings-b.prop", "settings-a.prop", "x"]);
    let nav = p.get_nav(&files, "").unwrap();
    assert_eq!(nav[0], Menu::MenuBox { title: "File".to_string(), hint: None, icon: None });
    assert_eq!(nav[4], Menu::MenuItem { title: "New...".to_string(), link: "javascript:newProject()".to_string(), hint: None, icon: None, short: None });
    assert_eq!(nav[5], Menu::MenuItem { title: "default".to_string(), link: "/rustcgi/rustcgi?session=\" target=\"_blank".to_string(), hint: None, icon: None, short: None });
    assert_eq!(nav[6], Menu::MenuItem { title: "a".to_string(), link: "/rustcgi/rustcgi?session=a\" target=\"_blank".to_string(), hint: None, icon: None, short: None });
    assert_eq!(nav[7], Menu::MenuItem { title: "b".to_string(), link: "/rustcgi/rustcgi?session=b\" target=\"_blank".to_string(), hint: None, icon: None, short: None });
    assert_eq!(nav[8], Menu::MenuEnd);
    let base = p.get_nav(&vec![], "").unwrap();
    assert_eq!(nav.len(), base.len() + 3);
    assert_eq!(base[5], Menu::MenuEnd);
    assert_eq!(base[base.len() - 1], Menu::MenuEnd);
}

#[test]
fn project_tree() {
    let tree = FileNode {
        name: "proj".to_string(),
        kind: FileKind::Dir,
        children: vec![
            FileNode { name: "b.rs".to_string(), kind: FileKind::File, children: vec![] },
            FileNode {
                name: "a".to_string(),
                kind: FileKind::Dir,
                children: vec![FileNode { name: "x.txt".to_string(), kind: FileKind::File, children: vec![] }],
            },
            FileNode { name: ".git".to_string(), kind: FileKind::Dir, children: vec![] },
            FileNode { name: "link".to_string(), kind: FileKind::Dead, children: vec![] },
        ],
    };
    assert_eq!(
        recurse_files(&tree),
        "{\"name\": \"proj\", \"type\": \"folder\", \"children\": [\
{\"name\": \".git\", \"type\": \"dead\"},\
{\"name\": \"a\", \"type\": \"folder\", \"children\": [{\"name\": \"x.txt\", \"type\": \"file\"}]},\
{\"name\": \"b.rs\", \"type\": \"file\"},\
{\"name\": \"link\", \"type\": \"dead\"}]}"
    );
}

#[test]
fn project_dirs() {
    let tree = DirNode {
        name: "proj".to_string(),
        is_dir: true,
        children: vec![
            DirNode {
                name: "src".to_string(),
                is_dir: true,
                children: vec![DirNode { name: "bin".to_string(), is_dir: true, children: vec![] }],
            },
            DirNode { name: ".git".to_string(), is_dir: true, children: vec![] },
            DirNode { name: "README".to_string(), is_dir: false, children: vec![] },
            DirNode { name: "doc".to_string(), is_dir: true, children: vec![] },
        ],
    };
    assert_eq!(recurse_dirs(&tree, None), "\"src\",\"src/bin\",\"doc\"");
    let file = DirNode { name: "f".to_string(), is_dir: false, children: vec![] };
    assert_eq!(recurse_dirs(&file, None), "");
}

fn reference(name: &str, src: &str, line: usize, column: u16, t: RefType, scope: Option<Scope>) -> Reference {
    Reference { name: name.to_string(), src: src.to_string(), line, column, type_of_use: t, scope }
}

#[test]
fn cross_references() {
    let all = vec![
        reference("main", "/p/src/main.rs", 1, 16, RefType::Function, None),
        reference("helper", "/p/src/main.rs", 2, 10, RefType::Access, None),
        reference(
            "helper",
            "/p/src/lib.rs",
            3,
            12,
            RefType::Function,
            Some(Scope { name: "Foo".to_string(), name_for: Some("Bar".to_string()), type_of_scope: ScopeType::TraitFor }),
        ),
        reference("out", "/q/x.rs", 1, 2, RefType::Function, None),
    ];
    assert_eq!(
        crossref_json(&all, "/p"),
        "[{\"name\":\"main\",\"path\":\"src/main.rs\",\"line\":1, \"col\":16, \"use\":[]},\
{\"name\":\"helper\",\"path\":\"src/lib.rs\",\"trait\":\"Foo\", \"data\":\"Bar\",\"line\":3, \"col\":12, \
\"use\":[{\"name\":\"helper\",\"path\":\"src/main.rs\",\"line\":2,\"pos\":10}]}]"
    );
    let uses = vec![
        reference("a", "/p/x.rs", 4, 6, RefType::Access, None),
        reference("b", "/p/y.rs", 5, 8, RefType::Access, None),
    ];
    assert_eq!(
        refs_to_json(&uses, 2),
        "{\"name\":\"a\",\"path\":\"x.rs\",\"line\":4,\"pos\":6},{\"name\":\"b\",\"path\":\"y.rs\",\"line\":5,\"pos\":8}"
    );
    assert_eq!(refs_to_json(&vec![], 2), "");
}

#[test]
fn vcs_output_checks() {
    assert!(vcs_output_ok("M  a.rs\n?? \"b c\"\n"));
    assert!(vcs_output_ok(""));
    assert!(!vcs_output_ok("é  a.rs\n"));
    assert!(vcs_line_checked("?? \"\""));
    assert!(vcs_line_checked("ab"));
    assert!(!vcs_line_checked("?? \"é\""));
    assert!(!vcs_line_checked("?? \"aé\""));
}

#[test]
fn windows_paths_and_flags() {
    let p = PageFile { session: Some("s".to_string()), ..PageFile::default() };
    assert_eq!(p.apply_specific_with('\\')[1], ("windows".to_string(), "true".to_string()));
    assert_eq!(p.apply_specific_with('/')[1], ("windows".to_string(), "false".to_string()));
    let all = vec![
        reference("main", "C:\\p\\src\\main.rs", 1, 16, RefType::Function, None),
        reference("main", "C:\\p\\src\\x.rs", 2, 4, RefType::Access, None),
    ];
    assert_eq!(
        crossref_json_with(&all, "C:\\p", '\\'),
        "[{\"name\":\"main\",\"path\":\"src/main.rs\",\"line\":1, \"col\":16, \
\"use\":[{\"name\":\"main\",\"path\":\"src/x.rs\",\"line\":2,\"pos\":4}]}]"
    );
    assert_eq!(
        crossref_json_with(&all, "C:\\p", '/'),
        "[{\"name\":\"main\",\"path\":\"src\\\\main.rs\",\"line\":1, \"col\":16, \
\"use\":[{\"name\":\"main\",\"path\":\"src\\\\x.rs\",\"line\":2,\"pos\":4}]}]"
    );
    let uses = vec![reference("a", "C:\\p\\a\\b.rs", 4, 6, RefType::Access, None)];
    assert_eq!(refs_to_json_with(&uses, 4, '\\'), "{\"name\":\"a\",\"path\":\"a/b.rs\",\"line\":4,\"pos\":6}");
    assert_eq!(rds_cgi::docgi::rel_web_path("/p/src/a.rs", 2), "src/a.rs");
}
