//! The requests that the studio's CGI program serves: which page a request
//! asks for, and the rules and answers of the requests that change files.
use vstd::prelude::*;

use crate::docgi::non_empty;
use crate::param::Param;
use crate::strmap::{StrMap, lookup, opt_string_view};
use crate::text::{
    dec_digits, eq_str, law_decimal_reads_back, parse_u64, spec_parse_u64, split_chars, split_on, strs_view,
    u64_to_string,
};
use crate::web::{json_encode, spec_json_encode};

verus! {

broadcast use vstd::string::group_string_axioms;

/// The page that a request asks for.
#[derive(Debug, PartialEq, Eq)]
pub enum Mode {
    /// No mode and no page id: redirect to a new session's main page.
    Redirect,
    /// No mode, a page id: the main page.
    MainPage,
    Tree,
    EditorFile,
    Save,
    SettingsProject,
    SaveSettingsProject,
    DirList,
    ProjectDirList,
    DelProject,
    InfoAbout,
    SessionList,
    SaveNotepad,
    Delete,
    LoadNotepad,
    VcsList,
    VcsCommit,
    VcsRestore,
    VcsStage,
    LoadPersistTab,
    PersistTab,
    CrossrefList,
    SearchList,
    SaveBookmark,
    LoadBookmark,
    /// A mode that is not served.
    Unknown(String),
}

pub enum ModeView {
    Redirect,
    MainPage,
    Tree,
    EditorFile,
    Save,
    SettingsProject,
    SaveSettingsProject,
    DirList,
    ProjectDirList,
    DelProject,
    InfoAbout,
    SessionList,
    SaveNotepad,
    Delete,
    LoadNotepad,
    VcsList,
    VcsCommit,
    VcsRestore,
    VcsStage,
    LoadPersistTab,
    PersistTab,
    CrossrefList,
    SearchList,
    SaveBookmark,
    LoadBookmark,
    Unknown(Seq<char>),
}

impl View for Mode {
    type V = ModeView;

    open spec fn view(&self) -> ModeView {
        match self {
            Mode::Redirect => ModeView::Redirect,
            Mode::MainPage => ModeView::MainPage,
            Mode::Tree => ModeView::Tree,
            Mode::EditorFile => ModeView::EditorFile,
            Mode::Save => ModeView::Save,
            Mode::SettingsProject => ModeView::SettingsProject,
            Mode::SaveSettingsProject => ModeView::SaveSettingsProject,
            Mode::DirList => ModeView::DirList,
            Mode::ProjectDirList => ModeView::ProjectDirList,
            Mode::DelProject => ModeView::DelProject,
            Mode::InfoAbout => ModeView::InfoAbout,
            Mode::SessionList => ModeView::SessionList,
            Mode::SaveNotepad => ModeView::SaveNotepad,
            Mode::Delete => ModeView::Delete,
            Mode::LoadNotepad => ModeView::LoadNotepad,
            Mode::VcsList => ModeView::VcsList,
            Mode::VcsCommit => ModeView::VcsCommit,
            Mode::VcsRestore => ModeView::VcsRestore,
            Mode::VcsStage => ModeView::VcsStage,
            Mode::LoadPersistTab => ModeView::LoadPersistTab,
            Mode::PersistTab => ModeView::PersistTab,
            Mode::CrossrefList => ModeView::CrossrefList,
            Mode::SearchList => ModeView::SearchList,
            Mode::SaveBookmark => ModeView::SaveBookmark,
            Mode::LoadBookmark => ModeView::LoadBookmark,
            Mode::Unknown(m) => ModeView::Unknown(m@),
        }
    }
}

/// The page for the value of parameter `mode`, or, with no mode, for whether
/// parameter `id` is given.
pub open spec fn spec_mode(mode: Option<Seq<char>>, has_id: bool) -> ModeView {
    match mode {
        None => if has_id {
            ModeView::MainPage
        } else {
            ModeView::Redirect
        },
        Some(m) => if m == "tree"@ {
            ModeView::Tree
        } else if m == "editor-file"@ {
            ModeView::EditorFile
        } else if m == "save"@ {
            ModeView::Save
        } else if m == "settings-project"@ {
            ModeView::SettingsProject
        } else if m == "save-settings-project"@ {
            ModeView::SaveSettingsProject
        } else if m == "dir-list"@ {
            ModeView::DirList
        } else if m == "project-dir-list"@ {
            ModeView::ProjectDirList
        } else if m == "del-project"@ {
            ModeView::DelProject
        } else if m == "info-about"@ {
            ModeView::InfoAbout
        } else if m == "session-list"@ {
            ModeView::SessionList
        } else if m == "savenp"@ {
            ModeView::SaveNotepad
        } else if m == "delete"@ {
            ModeView::Delete
        } else if m == "loadnp"@ {
            ModeView::LoadNotepad
        } else if m == "vcs-list"@ {
            ModeView::VcsList
        } else if m == "vcs-commit"@ {
            ModeView::VcsCommit
        } else if m == "vcs-restore"@ {
            ModeView::VcsRestore
        } else if m == "vcs-stage"@ {
            ModeView::VcsStage
        } else if m == "load-persist-tab"@ {
            ModeView::LoadPersistTab
        } else if m == "persist-tab"@ {
            ModeView::PersistTab
        } else if m == "crossref-list"@ {
            ModeView::CrossrefList
        } else if m == "search-list"@ {
            ModeView::SearchList
        } else if m == "save-bookmark"@ {
            ModeView::SaveBookmark
        } else if m == "load-bookmark"@ {
            ModeView::LoadBookmark
        } else {
            ModeView::Unknown(m)
        },
    }
}

/// Decides which page a request asks for.
pub fn mode_of(mode: Option<String>, has_id: bool) -> (r: Mode)
    ensures
        r@ == spec_mode(opt_string_view(mode), has_id),
{
    match mode {
        None => if has_id {
            Mode::MainPage
        } else {
            Mode::Redirect
        },
        Some(m) => {
            let s = m.as_str();
            if eq_str(s, "tree") {
                Mode::Tree
            } else if eq_str(s, "editor-file") {
                Mode::EditorFile
            } else if eq_str(s, "save") {
                Mode::Save
            } else if eq_str(s, "settings-project") {
                Mode::SettingsProject
            } else if eq_str(s, "save-settings-project") {
                Mode::SaveSettingsProject
            } else if eq_str(s, "dir-list") {
                Mode::DirList
            } else if eq_str(s, "project-dir-list") {
                Mode::ProjectDirList
            } else if eq_str(s, "del-project") {
                Mode::DelProject
            } else if eq_str(s, "info-about") {
                Mode::InfoAbout
            } else if eq_str(s, "session-list") {
                Mode::SessionList
            } else if eq_str(s, "savenp") {
                Mode::SaveNotepad
            } else if eq_str(s, "delete") {
                Mode::Delete
            } else if eq_str(s, "loadnp") {
                Mode::LoadNotepad
            } else if eq_str(s, "vcs-list") {
                Mode::VcsList
            } else if eq_str(s, "vcs-commit") {
                Mode::VcsCommit
            } else if eq_str(s, "vcs-restore") {
                Mode::VcsRestore
            } else if eq_str(s, "vcs-stage") {
                Mode::VcsStage
            } else if eq_str(s, "load-persist-tab") {
                Mode::LoadPersistTab
            } else if eq_str(s, "persist-tab") {
                Mode::PersistTab
            } else if eq_str(s, "crossref-list") {
                Mode::CrossrefList
            } else if eq_str(s, "search-list") {
                Mode::SearchList
            } else if eq_str(s, "save-bookmark") {
                Mode::SaveBookmark
            } else if eq_str(s, "load-bookmark") {
                Mode::LoadBookmark
            } else {
                Mode::Unknown(m)
            }
        },
    }
}

/// The modification time that a save request claims: parameter `modified`
/// read as a number, `0` where it is absent or no number.
pub open spec fn spec_remote_modified(remote: Option<Seq<char>>) -> u64 {
    match spec_parse_u64(
        match remote {
            Some(r) => r,
            None => "0"@,
        },
    ) {
        Some(v) => v,
        None => 0,
    }
}

/// What a save request does.
#[derive(Debug, PartialEq, Eq)]
pub enum SaveOutcome {
    /// Write the content; where the file does not exist yet (its time is
    /// `0`), create its directory first.
    Write { create_dirs: bool },
    /// The request brought no content.
    NoContent,
    /// The file changed after the version the request was made from.
    TooOld { modified: u64, remote: u64 },
}

/// Decides a save request from the file's modification time, parameter
/// `modified` and whether parameter `data` is given: a file may be written
/// only where it is not newer than the version the request was made from.
pub fn save_decision(modified: u64, remote: Option<String>, has_data: bool) -> (r: SaveOutcome)
    ensures
        ({
            let rm = spec_remote_modified(opt_string_view(remote));
            if modified <= rm {
                if has_data {
                    r == (SaveOutcome::Write { create_dirs: modified == 0 })
                } else {
                    r == SaveOutcome::NoContent
                }
            } else {
                r == (SaveOutcome::TooOld { modified, remote: rm })
            }
        }),
{
    let text = match remote {
        Some(r) => r,
        None => String::from_str("0"),
    };
    let rm = match parse_u64(text.as_str()) {
        Some(v) => v,
        None => 0,
    };
    if modified <= rm {
        if has_data {
            SaveOutcome::Write { create_dirs: modified == 0 }
        } else {
            SaveOutcome::NoContent
        }
    } else {
        SaveOutcome::TooOld { modified, remote: rm }
    }
}

/// The answer to a save that was refused because the file is newer.
pub fn too_old_text(modified: u64, remote: u64) -> (r: String)
    ensures
        r@ == "Err: file is too old "@ + dec_digits(modified as nat) + " vs "@ + dec_digits(
            remote as nat,
        ),
{
    let mut r = String::from_str("Err: file is too old ");
    r.append(u64_to_string(modified).as_str());
    r.append(" vs ");
    r.append(u64_to_string(remote).as_str());
    r
}

/// The answer to a save that wrote the file, with its new modification time.
pub fn saved_text(modified: u64) -> (r: String)
    ensures
        r@ == "Ok "@ + dec_digits(modified as nat),
{
    let mut r = String::from_str("Ok ");
    r.append(u64_to_string(modified).as_str());
    r
}

/// The settings that a settings form may set, in the order they are set.
pub open spec fn setting_keys() -> Seq<Seq<char>> {
    seq![
        "project_home"@,
        "theme"@,
        "autosave"@,
        "projectnp"@,
        "user"@,
        "persist_tabs"@,
        "proj_conf"@,
        "ai_server_url"@,
        "colapsed_dirs"@,
    ]
}

/// The inserts that the settings form makes: each key, in order, that the
/// request gives a value for, with that value.
pub open spec fn setting_inserts(keys: Seq<Seq<char>>, params: Seq<(Seq<char>, Seq<char>)>) -> Seq<
    (Seq<char>, Seq<char>),
>
    decreases keys.len(),
{
    if keys.len() == 0 {
        seq![]
    } else {
        let init = setting_inserts(keys.drop_last(), params);
        match lookup(params, keys.last()) {
            Some(v) => init.push((keys.last(), v)),
            None => init,
        }
    }
}

/// Sets each setting that the request gives a value for.
pub fn apply_settings(props: &mut StrMap, params: &Param)
    ensures
        final(props)@ == old(props)@ + setting_inserts(setting_keys(), params.params_view()),
{
    let keys: Vec<&str> = vec![
        "project_home",
        "theme",
        "autosave",
        "projectnp",
        "user",
        "persist_tabs",
        "proj_conf",
        "ai_server_url",
        "colapsed_dirs",
    ];
    let ghost kv = Seq::new(keys@.len(), |i: int| keys@[i]@);
    assert(kv =~= setting_keys());
    let mut i: usize = 0;
    assert(setting_inserts(kv.take(0), params.params_view()) =~= Seq::<(Seq<char>, Seq<char>)>::empty());
    assert(props@ =~= old(props)@ + Seq::<(Seq<char>, Seq<char>)>::empty());
    while i < keys.len()
        invariant
            i <= keys.len(),
            kv == Seq::new(keys@.len(), |i: int| keys@[i]@),
            props@ == old(props)@ + setting_inserts(kv.take(i as int), params.params_view()),
        decreases keys.len() - i,
    {
        let key = keys[i];
        assert(kv.take(i + 1).drop_last() =~= kv.take(i as int));
        assert(kv.take(i + 1).last() == key@);
        match params.param(key) {
            Some(val) => {
                props.insert(key.to_owned(), val);
            },
            None => {},
        }
        i = i + 1;
        assert(props@ =~= old(props)@ + setting_inserts(kv.take(i as int), params.params_view()));
    }
    assert(kv.take(keys.len() as int) =~= kv);
}

/// The project whose notepad a request uses: the session's own where the
/// settings set `projectnp` to `true`, else the common one.
pub open spec fn spec_notepad_project(props: Seq<(Seq<char>, Seq<char>)>, session: Option<Seq<char>>) -> Option<
    Seq<char>,
> {
    if lookup(props, "projectnp"@) == Some("true"@) {
        session
    } else {
        None
    }
}

pub fn notepad_project(props: &StrMap, session: Option<String>) -> (r: Option<String>)
    ensures
        opt_string_view(r) == spec_notepad_project(props@, opt_string_view(session)),
{
    match props.get("projectnp") {
        Some(v) => if eq_str(v.as_str(), "true") {
            session
        } else {
            None
        },
        None => None,
    }
}

/// The author argument of a commit: `--author=` and setting `user`, where set.
pub fn author_arg(props: &StrMap) -> (r: Option<String>)
    ensures
        opt_string_view(r) == match lookup(props@, "user"@) {
            Some(u) => Some("--author="@ + u),
            None => None,
        },
{
    match props.get("user") {
        Some(u) => {
            let mut a = String::from_str("--author=");
            a.append(u.as_str());
            Some(a)
        },
        None => None,
    }
}

/// What a failed commit reports: its error output, or `nothing to commit`
/// where that is empty.
pub fn commit_error(stderr: String) -> (r: String)
    ensures
        r@ == if stderr@.len() == 0 {
            "nothing to commit"@
        } else {
            stderr@
        },
{
    if stderr.unicode_len() == 0 {
        String::from_str("nothing to commit")
    } else {
        stderr
    }
}

/// A run of git in the commit of a project's changes.
#[derive(Debug, PartialEq, Eq, Clone, Copy)]
pub enum GitRun {
    /// `git reset` of the files that leave the index.
    Reset,
    /// `git add` of the files to commit.
    Add,
    /// `git commit`.
    Commit,
}

/// What the commit of a project's changes does next.
#[derive(Debug, PartialEq, Eq)]
pub enum CommitNext {
    Run(GitRun),
    Finish(Result<(), String>),
}

pub enum CommitNextView {
    Run(GitRun),
    Finish(Result<(), Seq<char>>),
}

impl View for CommitNext {
    type V = CommitNextView;

    open spec fn view(&self) -> CommitNextView {
        match self {
            CommitNext::Run(g) => CommitNextView::Run(*g),
            CommitNext::Finish(Ok(())) => CommitNextView::Finish(Ok(())),
            CommitNext::Finish(Err(e)) => CommitNextView::Finish(Err(e@)),
        }
    }
}

/// The steps of a commit: reset the files to reset, where there are any; if
/// that succeeds, add the files to add, where there are any; if that
/// succeeds, commit. A failed reset reports its error output, a failed add
/// `nothing to commit`, a failed commit its error output or `nothing to
/// commit` where that is empty.
pub open spec fn spec_commit_next(has_reset: bool, has_add: bool, done: Option<(GitRun, Result<(), Seq<char>>)>) -> CommitNextView {
    match done {
        None => if has_reset {
            CommitNextView::Run(GitRun::Reset)
        } else if has_add {
            CommitNextView::Run(GitRun::Add)
        } else {
            CommitNextView::Run(GitRun::Commit)
        },
        Some((GitRun::Reset, Err(e))) => CommitNextView::Finish(Err(e)),
        Some((GitRun::Reset, Ok(()))) => if has_add {
            CommitNextView::Run(GitRun::Add)
        } else {
            CommitNextView::Run(GitRun::Commit)
        },
        Some((GitRun::Add, Err(_))) => CommitNextView::Finish(Err("nothing to commit"@)),
        Some((GitRun::Add, Ok(()))) => CommitNextView::Run(GitRun::Commit),
        Some((GitRun::Commit, Err(e))) => CommitNextView::Finish(
            Err(
                if e.len() == 0 {
                    "nothing to commit"@
                } else {
                    e
                },
            ),
        ),
        Some((GitRun::Commit, Ok(()))) => CommitNextView::Finish(Ok(())),
    }
}

/// Decides the next step of a commit, given whether there are files to reset
/// and to add, and the last run of git with its outcome (none at the start).
pub fn commit_next(has_reset: bool, has_add: bool, done: Option<(GitRun, Result<(), String>)>) -> (r: CommitNext)
    ensures
        r@ == spec_commit_next(
            has_reset,
            has_add,
            match done {
                Some((g, Ok(()))) => Some((g, Ok(()))),
                Some((g, Err(e))) => Some((g, Err(e@))),
                None => None,
            },
        ),
{
    match done {
        None => if has_reset {
            CommitNext::Run(GitRun::Reset)
        } else if has_add {
            CommitNext::Run(GitRun::Add)
        } else {
            CommitNext::Run(GitRun::Commit)
        },
        Some((GitRun::Reset, Err(e))) => CommitNext::Finish(Err(e)),
        Some((GitRun::Reset, Ok(()))) => if has_add {
            CommitNext::Run(GitRun::Add)
        } else {
            CommitNext::Run(GitRun::Commit)
        },
        Some((GitRun::Add, Err(_))) => CommitNext::Finish(Err(String::from_str("nothing to commit"))),
        Some((GitRun::Add, Ok(()))) => CommitNext::Run(GitRun::Commit),
        Some((GitRun::Commit, Err(e))) => CommitNext::Finish(Err(commit_error(e))),
        Some((GitRun::Commit, Ok(()))) => CommitNext::Finish(Ok(())),
    }
}

/// The answer of a version control operation.
pub fn op_result_text(result: Result<(), String>) -> (r: String)
    ensures
        r@ == match result {
            Ok(()) => "Ok"@,
            Err(msg) => "Err : "@ + msg@,
        },
{
    match result {
        Ok(()) => String::from_str("Ok"),
        Err(msg) => {
            let mut r = String::from_str("Err : ");
            r.append(msg.as_str());
            r
        },
    }
}

/// The files that a tab-separated list names: its non-empty fields.
pub fn file_list(list: &str) -> (r: Vec<String>)
    ensures
        strs_view(r@) == non_empty(split_on(list@, '\t')),
{
    let parts = split_chars(list, '\t');
    let ghost pv = strs_view(parts@);
    let mut out: Vec<String> = Vec::new();
    let mut i: usize = 0;
    assert(pv.take(0) =~= Seq::<Seq<char>>::empty());
    assert(strs_view(out@) =~= Seq::<Seq<char>>::empty());
    while i < parts.len()
        invariant
            pv == strs_view(parts@),
            i <= parts.len(),
            strs_view(out@) == non_empty(pv.take(i as int)),
        decreases parts.len() - i,
    {
        assert(pv.take(i + 1).drop_last() =~= pv.take(i as int));
        assert(pv.take(i + 1).last() == parts@[i as int]@);
        if parts[i].unicode_len() > 0 {
            let ghost before = strs_view(out@);
            out.push(parts[i].clone());
            assert(strs_view(out@) =~= before.push(parts@[i as int]@));
        }
        i = i + 1;
    }
    assert(pv.take(parts.len() as int) =~= pv);
    out
}

/// The answer of the editor: the file's modification time, name, path in the
/// project and content.
pub open spec fn spec_editor_file_json(modified: u64, name: Seq<char>, path: Seq<char>, content: Seq<char>) -> Seq<char> {
    "{\"modified\":"@ + dec_digits(modified as nat) + ", \"name\":\""@ + spec_json_encode(name)
        + "\", \"path\":\""@ + spec_json_encode(path) + "\", \"content\": \""@ + spec_json_encode(
        content,
    ) + "\"}"@
}

pub fn editor_file_json(modified: u64, name: &str, path: &str, content: &str) -> (r: String)
    ensures
        r@ == spec_editor_file_json(modified, name@, path@, content@),
{
    let mut r = String::from_str("{\"modified\":");
    r.append(u64_to_string(modified).as_str());
    r.append(", \"name\":\"");
    r.append(json_encode(name).as_str());
    r.append("\", \"path\":\"");
    r.append(json_encode(path).as_str());
    r.append("\", \"content\": \"");
    r.append(json_encode(content).as_str());
    r.append("\"}");
    r
}

/// The answer about the program: its version, the web server and the author.
pub fn info_json(version: &str, server: &str) -> (r: String)
    ensures
        r@ == "{\"version\":\""@ + version@ + "\", \"server\": \""@ + spec_json_encode(server@)
            + "\", \"author\": \"D Rogatkin\"}"@,
{
    let mut r = String::from_str("{\"version\":\"");
    r.append(version);
    r.append("\", \"server\": \"");
    r.append(json_encode(server).as_str());
    r.append("\", \"author\": \"D Rogatkin\"}");
    r
}

/// The answer to a mode that is not served.
pub fn unknown_mode_text(mode: &str, version: &str) -> (r: String)
    ensures
        r@ == "Err: The mode &quot;"@ + mode@ + "&quot; is not implemented in ver "@ + version@
            + "."@,
{
    let mut r = String::from_str("Err: The mode &quot;");
    r.append(mode);
    r.append("&quot; is not implemented in ver ");
    r.append(version);
    r.append(".");
    r
}

/// One finding of a text search: the file's path in the project, where the
/// text was found, and the file's name.
pub fn finding_json(path: &str, line: u64, col: u64, name: &str) -> (r: String)
    ensures
        r@ == "{\"path\":\""@ + spec_json_encode(path@) + "\",\"line\":"@ + dec_digits(line as nat)
            + ",\"col\":"@ + dec_digits(col as nat) + ",\"name\":\""@ + spec_json_encode(name@)
            + "\"}"@,
{
    let mut r = String::from_str("{\"path\":\"");
    r.append(json_encode(path).as_str());
    r.append("\",\"line\":");
    r.append(u64_to_string(line).as_str());
    r.append(",\"col\":");
    r.append(u64_to_string(col).as_str());
    r.append(",\"name\":\"");
    r.append(json_encode(name).as_str());
    r.append("\"}");
    r
}

/// Whether a page is one that only a `POST` request may ask for.
pub open spec fn spec_needs_post(mode: ModeView) -> bool {
    match mode {
        ModeView::Save | ModeView::SaveSettingsProject | ModeView::DelProject | ModeView::SaveNotepad
        | ModeView::Delete | ModeView::VcsCommit | ModeView::VcsRestore | ModeView::VcsStage
        | ModeView::PersistTab | ModeView::SaveBookmark => true,
        _ => false,
    }
}

/// Whether a page changes files, so that only a `POST` request may ask for it.
pub fn needs_post(mode: &Mode) -> (r: bool)
    ensures
        r == spec_needs_post(mode@),
{
    match mode {
        Mode::Save | Mode::SaveSettingsProject | Mode::DelProject | Mode::SaveNotepad | Mode::Delete
        | Mode::VcsCommit | Mode::VcsRestore | Mode::VcsStage | Mode::PersistTab
        | Mode::SaveBookmark => true,
        _ => false,
    }
}

/// The answer to a page that only a `POST` request may ask for, asked by
/// another: the tabs and bookmark pages write `Err: not a POST`, the others
/// `Err : not a POST`.
pub fn not_post_text(mode: &Mode) -> (r: String)
    ensures
        r@ == if mode@ is PersistTab || mode@ is SaveBookmark {
            "Err: not a POST"@
        } else {
            "Err : not a POST"@
        },
{
    match mode {
        Mode::PersistTab | Mode::SaveBookmark => String::from_str("Err: not a POST"),
        _ => String::from_str("Err : not a POST"),
    }
}

/// The tree answer where no project home is set.
pub fn no_project_json() -> (r: String)
    ensures
        r@ == "{\"name\":\"No correct project HOME is set yet\", \"type\":\"file\"}"@,
{
    String::from_str("{\"name\":\"No correct project HOME is set yet\", \"type\":\"file\"}")
}

/// A save request that carries the modification time which the editor's
/// answer wrote reads it back unchanged, so the save is not refused as too
/// old while the file keeps that time.
pub proof fn law_unchanged_file_saves(modified: u64)
    ensures
        spec_remote_modified(Some(dec_digits(modified as nat))) == modified,
{
    law_decimal_reads_back(modified);
}

proof fn lemma_lookup_skip(pairs: Seq<(Seq<char>, Seq<char>)>, p: (Seq<char>, Seq<char>), k: Seq<char>)
    requires
        p.0 != k,
    ensures
        lookup(pairs.push(p), k) == lookup(pairs, k),
{
    assert(pairs.push(p).drop_last() =~= pairs);
}

proof fn lemma_settings_prefix(
    props: Seq<(Seq<char>, Seq<char>)>,
    keys: Seq<Seq<char>>,
    params: Seq<(Seq<char>, Seq<char>)>,
    k: Seq<char>,
)
    ensures
        lookup(props + setting_inserts(keys, params), k) == if keys.contains(k) {
            match lookup(params, k) {
                Some(v) => Some(v),
                None => lookup(props, k),
            }
        } else {
            lookup(props, k)
        },
    decreases keys.len(),
{
    if keys.len() == 0 {
        assert(props + setting_inserts(keys, params) =~= props);
        assert(!keys.contains(k));
    } else {
        let init = keys.drop_last();
        lemma_settings_prefix(props, init, params, k);
        assert(keys.contains(k) <==> (init.contains(k) || keys.last() == k)) by {
            if keys.contains(k) {
                let j = choose|j: int| 0 <= j < keys.len() && keys[j] == k;
                if j < keys.len() - 1 {
                    assert(init[j] == k);
                }
            }
            if init.contains(k) {
                let j = choose|j: int| 0 <= j < init.len() && init[j] == k;
                assert(keys[j] == k);
            }
            if keys.last() == k {
                assert(keys[keys.len() - 1] == k);
            }
        }
        match lookup(params, keys.last()) {
            Some(v) => {
                assert(props + setting_inserts(keys, params) =~= (props + setting_inserts(init, params)).push(
                    (keys.last(), v),
                ));
                if keys.last() != k {
                    lemma_lookup_skip(props + setting_inserts(init, params), (keys.last(), v), k);
                } else {
                    assert((props + setting_inserts(init, params)).push((keys.last(), v)).drop_last()
                        =~= props + setting_inserts(init, params));
                }
            },
            None => {},
        }
    }
}

/// After a settings form, each setting it may set reads as the value the
/// request gave for it, or as before where the request gave none.
pub proof fn law_settings_form_sets(
    props: Seq<(Seq<char>, Seq<char>)>,
    params: Seq<(Seq<char>, Seq<char>)>,
    k: Seq<char>,
)
    requires
        setting_keys().contains(k),
    ensures
        lookup(props + setting_inserts(setting_keys(), params), k) == match lookup(params, k) {
            Some(v) => Some(v),
            None => lookup(props, k),
        },
{
    lemma_settings_prefix(props, setting_keys(), params, k);
}

} // verus!
