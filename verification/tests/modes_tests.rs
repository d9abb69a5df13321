use rds_cgi::modes::{commit_next, CommitNext, GitRun};
use rds_cgi::modes::{needs_post, not_post_text};
use rds_cgi::lookup::lookup;
use rds_cgi::modes::{
    apply_settings, author_arg, commit_error, editor_file_json, file_list, finding_json, info_json,
    mode_of, no_project_json, notepad_project, op_result_text, save_decision, saved_text,
    too_old_text, unknown_mode_text, Mode, SaveOutcome,
};
use rds_cgi::param::Param;
use rds_cgi::strmap::StrMap;

#[test]
fn modes() {
    assert_eq!(mode_of(None, false), Mode::Redirect);
    assert_eq!(mode_of(None, true), Mode::MainPage);
    assert_eq!(mode_of(Some("tree".to_string()), false), Mode::Tree);
    assert_eq!(mode_of(Some("editor-file".to_string()), true), Mode::EditorFile);
    assert_eq!(mode_of(Some("savenp".to_string()), false), Mode::SaveNotepad);
    assert_eq!(mode_of(Some("load-bookmark".to_string()), false), Mode::LoadBookmark);
    assert_eq!(mode_of(Some("crossref-list".to_string()), false), Mode::CrossrefList);
    assert_eq!(mode_of(Some("Tree".to_string()), false), Mode::Unknown("Tree".to_string()));
    assert_eq!(mode_of(Some("".to_string()), false), Mode::Unknown("".to_string()));
}

#[test]
fn save_decisions() {
    assert_eq!(save_decision(100, Some("100".to_string()), true), SaveOutcome::Write { create_dirs: false });
    assert_eq!(save_decision(0, None, true), SaveOutcome::Write { create_dirs: true });
    assert_eq!(save_decision(5, Some("9".to_string()), false), SaveOutcome::NoContent);
    assert_eq!(save_decision(10, Some("9".to_string()), true), SaveOutcome::TooOld { modified: 10, remote: 9 });
    assert_eq!(save_decision(10, Some("soon".to_string()), true), SaveOutcome::TooOld { modified: 10, remote: 0 });
    assert_eq!(too_old_text(10, 9), "Err: file is too old 10 vs 9");
    assert_eq!(saved_text(1700000000), "Ok 1700000000");
}

#[test]
fn settings_form() {
    let params = Param::new(Some("theme=dark&user=me&other=x&theme=light".to_string()), None, None);
    let mut props = StrMap::new();
    props.insert("theme".to_string(), "old".to_string());
    apply_settings(&mut props, &params);
    assert_eq!(props.get("theme"), Some("light".to_string()));
    assert_eq!(props.get("user"), Some("me".to_string()));
    assert_eq!(props.get("other"), None);
    assert_eq!(props.len(), 3);
}

#[test]
fn notepads_and_authors() {
    let mut props = StrMap::new();
    assert_eq!(notepad_project(&props, Some("p".to_string())), None);
    assert_eq!(author_arg(&props), None);
    props.insert("projectnp".to_string(), "true".to_string());
    props.insert("user".to_string(), "Ann <a@b>".to_string());
    assert_eq!(notepad_project(&props, Some("p".to_string())), Some("p".to_string()));
    assert_eq!(author_arg(&props), Some("--author=Ann <a@b>".to_string()));
    props.insert("projectnp".to_string(), "yes".to_string());
    assert_eq!(notepad_project(&props, Some("p".to_string())), None);
}

#[test]
fn commit_answers() {
    assert_eq!(commit_error("".to_string()), "nothing to commit");
    assert_eq!(commit_error("fatal".to_string()), "fatal");
    assert_eq!(op_result_text(Ok(())), "Ok");
    assert_eq!(op_result_text(Err("bad".to_string())), "Err : bad");
    assert_eq!(file_list("a.rs\t\tb.rs\t"), vec!["a.rs", "b.rs"]);
    assert!(file_list("").is_empty());
}

#[test]
fn json_answers() {
    assert_eq!(editor_file_json(12, "m.rs", "src", "fn main() {\n}"),
        "{\"modified\":12, \"name\":\"m.rs\", \"path\":\"src\", \"content\": \"fn main() {\\n}\"}");
    assert_eq!(info_json("1.2", "Sim\"Http"),
        "{\"version\":\"1.2\", \"server\": \"Sim\\\"Http\", \"author\": \"D Rogatkin\"}");
    assert_eq!(unknown_mode_text("x", "1.2"), "Err: The mode &quot;x&quot; is not implemented in ver 1.2.");
    assert_eq!(finding_json("src/a.rs", 3, 7, "a.rs"), "{\"path\":\"src/a.rs\",\"line\":3,\"col\":7,\"name\":\"a.rs\"}");
    assert_eq!(no_project_json(), "{\"name\":\"No correct project HOME is set yet\", \"type\":\"file\"}");
}

#[test]
fn subsystem_lookup() {
    let lines: Vec<String> = vec![
        "# Rust subsystems",
        "## Collections ",
        "Vec HashMap  BTreeMap",
        "## Sync",
        "Mutex Arc",
    ]
    .into_iter()
    .map(String::from)
    .collect();
    assert_eq!(lookup(&lines, "HashMap"), Some("Collections".to_string()));
    assert_eq!(lookup(&lines, "Arc"), Some("Sync".to_string()));
    assert_eq!(lookup(&lines, "Sync"), Some("Sync".to_string()));
    assert_eq!(lookup(&lines, "Rc"), None);
    assert_eq!(lookup(&lines, "Rust"), None);
    let orphan: Vec<String> = vec!["Box".to_string()];
    assert_eq!(lookup(&orphan, "Box"), None);
}

#[test]
fn post_only_pages() {
    assert!(needs_post(&Mode::Save));
    assert!(needs_post(&Mode::VcsStage));
    assert!(!needs_post(&Mode::Tree));
    assert!(!needs_post(&Mode::LoadBookmark));
    assert_eq!(not_post_text(&Mode::Save), "Err : not a POST");
    assert_eq!(not_post_text(&Mode::PersistTab), "Err: not a POST");
    assert_eq!(not_post_text(&Mode::SaveBookmark), "Err: not a POST");
    assert_eq!(rds_cgi::docgi::no_vcs_text(), "No VCS established for the repository yet. Try 'git init' first.");
}

#[test]
fn commit_steps() {
    assert_eq!(commit_next(true, true, None), CommitNext::Run(GitRun::Reset));
    assert_eq!(commit_next(false, true, None), CommitNext::Run(GitRun::Add));
    assert_eq!(commit_next(false, false, None), CommitNext::Run(GitRun::Commit));
    assert_eq!(commit_next(true, true, Some((GitRun::Reset, Ok(())))), CommitNext::Run(GitRun::Add));
    assert_eq!(commit_next(true, false, Some((GitRun::Reset, Ok(())))), CommitNext::Run(GitRun::Commit));
    assert_eq!(
        commit_next(true, true, Some((GitRun::Reset, Err("bad path".to_string())))),
        CommitNext::Finish(Err("bad path".to_string()))
    );
    assert_eq!(
        commit_next(false, true, Some((GitRun::Add, Err("fatal".to_string())))),
        CommitNext::Finish(Err("nothing to commit".to_string()))
    );
    assert_eq!(commit_next(false, true, Some((GitRun::Add, Ok(())))), CommitNext::Run(GitRun::Commit));
    assert_eq!(
        commit_next(false, false, Some((GitRun::Commit, Err("".to_string())))),
        CommitNext::Finish(Err("nothing to commit".to_string()))
    );
    assert_eq!(
        commit_next(false, false, Some((GitRun::Commit, Err("hook failed".to_string())))),
        CommitNext::Finish(Err("hook failed".to_string()))
    );
    assert_eq!(commit_next(false, false, Some((GitRun::Commit, Ok(())))), CommitNext::Finish(Ok(())));
}
