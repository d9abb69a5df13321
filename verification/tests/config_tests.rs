use rds_cgi::config::{
    extension_of, project_home, push_path, read_props, set_extension, workspace_file, Config,
    SETTINGS_PREF,
};

fn config() -> Config {
    Config::new("/home/u/.rds".to_string(), "/w".to_string())
}

#[test]
fn config_file_paths() {
    let c = config();
    assert_eq!(c.get_config_path(&Some("demo".to_string()), SETTINGS_PREF, "prop"), "/home/u/.rds/settings-demo.prop");
    assert_eq!(c.get_config_path(&Some("default".to_string()), SETTINGS_PREF, "prop"), "/home/u/.rds/settings.prop");
    assert_eq!(c.get_config_path(&Some("".to_string()), "notepad", "txt"), "/home/u/.rds/notepad.txt");
    assert_eq!(c.get_config_path(&None, "webdata", "properties"), "/home/u/.rds/webdata.properties");
    assert_eq!(c.get_config_path(&Some("v1.2".to_string()), "tabs", "sto"), "/home/u/.rds/tabs-v1.sto");
}

#[test]
fn real_paths() {
    let c = config();
    assert_eq!(c.to_real_path("/proj", None), "/w/proj");
    assert_eq!(c.to_real_path("proj", Some(&"src/main.rs".to_string())), "/w/proj/src/main.rs");
    assert_eq!(c.to_real_path("proj", Some(&"/etc".to_string())), "/etc");
    assert_eq!(c.to_real_path("", None), "/w/");
}

#[test]
fn path_pushing() {
    let mut p = "/a".to_string();
    push_path(&mut p, "b");
    assert_eq!(p, "/a/b");
    push_path(&mut p, "/c");
    assert_eq!(p, "/c");
    let mut q = "/a/".to_string();
    push_path(&mut q, "b");
    assert_eq!(q, "/a/b");
}

#[test]
fn extensions() {
    assert_eq!(set_extension("a/b.txt", "md"), "a/b.md");
    assert_eq!(set_extension("a/b", "md"), "a/b.md");
    assert_eq!(set_extension("a/.bashrc", "x"), "a/.bashrc.x");
    assert_eq!(set_extension("a/b.txt", ""), "a/b");
    assert_eq!(set_extension("a/..", "x"), "a/..");
    assert_eq!(set_extension("a/b/", "x"), "a/b.x");
    assert_eq!(extension_of("a/b.tar.gz"), Some("gz".to_string()));
    assert_eq!(extension_of("a/.profile"), None);
    assert_eq!(extension_of("a/b."), Some("".to_string()));
    assert_eq!(extension_of("noext"), None);
}

#[test]
fn properties() {
    let lines: Vec<String> = vec!["# comment", "a=1", "bad", "b=x=y", "a=2", "project_home=~/p"]
        .into_iter().map(String::from).collect();
    let props = read_props(&lines);
    assert_eq!(props.get("a"), Some("2".to_string()));
    assert_eq!(props.get("b"), Some("x=y".to_string()));
    assert_eq!(props.get("bad"), None);
    assert_eq!(project_home(&props), Some("/p".to_string()));
    let none = read_props(&vec![]);
    assert_eq!(project_home(&none), None);
}

#[test]
fn configured_root() {
    let c = Config::from_root("/home/u", None);
    assert_eq!(c.config_dir, "/home/u/.rds");
    assert_eq!(c.workspace_dir, "/home/u");
    let c = Config::from_root("/home/u", Some("/work".to_string()));
    assert_eq!(c.workspace_dir, "/work");
    assert_eq!(workspace_file("/home/u"), "/home/u/.rds/.workspace");
}
