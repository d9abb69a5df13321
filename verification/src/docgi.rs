//! The pages and JSON answers of the studio's CGI program.
use vstd::prelude::*;

use crate::crossref::{RefType, RefView, Reference, opt_scope_view};
use crate::param::{spec_web_separator, to_web_separator, Param};
use crate::strmap::{StrMap, lookup, opt_string_view};
use crate::text::{dec_digits, lex_le_str, u64_to_string,
    keys_sorted, lemma_multiset_map, lex_le, sort_by_key, split_chars, split_on, str_chars,
    starts_with_str, strs_view, sub_chars,
};
use crate::web::{Menu, MenuView, json_encode, menus_view, spec_json_encode, spec_url_encode, url_encode};

verus! {

broadcast use vstd::string::group_string_axioms;

pub open spec fn is_ascii_char(c: char) -> bool {
    (c as u32) < 128
}

/// Number of bytes of the UTF-8 encoding of a text.
pub open spec fn utf8_len(s: Seq<char>) -> int {
    vstd::utf8::encode_utf8(s).len() as int
}

/// A line of `git status --porcelain` output that the listing can take apart:
/// where it is longer than three bytes, its first three characters are ASCII,
/// and a quoted path holds at least one character and ends in an ASCII one.
pub open spec fn vcs_line_ok(l: Seq<char>) -> bool {
    utf8_len(l) > 3 ==> {
        &&& l.len() >= 3
        &&& is_ascii_char(l[0]) && is_ascii_char(l[1]) && is_ascii_char(l[2])
        &&& (l.len() >= 4 && l[3] == '"' && l.last() == '"') ==> (l.len() >= 5 && is_ascii_char(
            l[l.len() - 2],
        ))
    }
}

/// The path of a status line: after the two status letters and a blank, without
/// the quotes that git puts around some paths.
pub open spec fn vcs_path(l: Seq<char>) -> Seq<char> {
    if l[3] == '"' && l.last() == '"' {
        l.subrange(4, l.len() - 1)
    } else {
        l.skip(3)
    }
}

/// Index of the last `/` in `s`.
pub open spec fn last_slash(s: Seq<char>) -> Option<int>
    decreases s.len(),
{
    if s.len() == 0 {
        None
    } else if s.last() == '/' {
        Some(s.len() - 1)
    } else {
        last_slash(s.drop_last())
    }
}

/// The file name of a path: what follows its last `/`, unless the path ends in `/`.
pub open spec fn vcs_name(path: Seq<char>) -> Seq<char> {
    match last_slash(path) {
        Some(j) => if j < path.len() - 1 {
            path.skip(j + 1)
        } else {
            path
        },
        None => path,
    }
}

pub open spec fn vcs_status(l: Seq<char>) -> Seq<char> {
    if l[0] == 'M' {
        "staged"@
    } else if l[1] == 'M' || l[1] == 'U' || l[1] == 'D' {
        "modified"@
    } else if l[1] == '?' {
        "unversioned"@
    } else {
        "unknown"@
    }
}

pub open spec fn vcs_entry(l: Seq<char>) -> Seq<char> {
    "{\"path\":\""@ + spec_json_encode(vcs_path(l)) + "\",\"name\":\""@ + spec_json_encode(
        vcs_name(vcs_path(l)),
    ) + "\",\"status\":\""@ + vcs_status(l) + "\"}"@
}

/// The first part of the JSON entry of a status line: its path and file name.
pub open spec fn vcs_entry_head(l: Seq<char>) -> Seq<char> {
    "{\"path\":\""@ + spec_json_encode(vcs_path(l)) + "\",\"name\":\""@ + spec_json_encode(
        vcs_name(vcs_path(l)),
    )
}

/// How a status line of `git status --porcelain` is listed: a change staged in
/// the index (`M` first) as `staged`; else a file modified, unmerged or
/// deleted in the work tree (`M`, `U` or `D` second) as `modified`; else an
/// untracked file (`?` second) as `unversioned`; anything else as `unknown`.
pub proof fn law_vcs_status_of_line(l: Seq<char>)
    requires
        l.len() >= 2,
    ensures
        l[0] == 'M' ==> vcs_entry(l) == vcs_entry_head(l) + "\",\"status\":\""@ + "staged"@ + "\"}"@,
        l[0] != 'M' && (l[1] == 'M' || l[1] == 'U' || l[1] == 'D') ==> vcs_entry(l) == vcs_entry_head(l)
            + "\",\"status\":\""@ + "modified"@ + "\"}"@,
        l[0] != 'M' && l[1] == '?' ==> vcs_entry(l) == vcs_entry_head(l) + "\",\"status\":\""@
            + "unversioned"@ + "\"}"@,
        l[0] != 'M' && l[1] != 'M' && l[1] != 'U' && l[1] != 'D' && l[1] != '?' ==> vcs_entry(l)
            == vcs_entry_head(l) + "\",\"status\":\""@ + "unknown"@ + "\"}"@,
{
}

proof fn lemma_last_slash(s: Seq<char>)
    ensures
        last_slash(s) matches Some(j) ==> 0 <= j < s.len() && s[j] == '/' && forall|k: int|
            j < k < s.len() ==> s[k] != '/',
        last_slash(s) is None ==> forall|k: int| 0 <= k < s.len() ==> s[k] != '/',
    decreases s.len(),
{
    if s.len() > 0 {
        lemma_last_slash(s.drop_last());
        assert forall|k: int| 0 <= k < s.len() - 1 implies s[k] == s.drop_last()[k] by {}
    }
}

/// The file name that a status line lists for a path is its last part: a
/// suffix of the path without `/`, which is the whole path or follows a `/`.
/// A path that ends in `/` is listed whole.
pub proof fn law_vcs_name_is_last_part(path: Seq<char>)
    ensures
        vcs_name(path).is_suffix_of(path),
        (path.len() == 0 || path.last() != '/') ==> !vcs_name(path).contains('/'),
        (path.len() == 0 || path.last() != '/') && vcs_name(path).len() < path.len() ==> path[path.len()
            - vcs_name(path).len() - 1] == '/',
        (path.len() > 0 && path.last() == '/') ==> vcs_name(path) == path,
{
    lemma_last_slash(path);
    let nm = vcs_name(path);
    match last_slash(path) {
        Some(j) => {
            if j < path.len() - 1 {
                assert(nm =~= path.subrange(path.len() - nm.len(), path.len() as int));
                assert(!nm.contains('/')) by {
                    if nm.contains('/') {
                        let k = choose|k: int| 0 <= k < nm.len() && nm[k] == '/';
                        assert(path[j + 1 + k] == '/');
                    }
                }
            }
        },
        None => {
            assert(nm =~= path.subrange(0, path.len() as int));
            assert(!nm.contains('/')) by {
                if nm.contains('/') {
                    let k = choose|k: int| 0 <= k < nm.len() && nm[k] == '/';
                    assert(path[k] == '/');
                }
            }
        },
    }
}

/// The entries of the status lines, separated by commas.
pub open spec fn vcs_entries(ls: Seq<Seq<char>>) -> Seq<char>
    decreases ls.len(),
{
    if ls.len() == 0 {
        seq![]
    } else {
        let acc = vcs_entries(ls.drop_last());
        let l = ls.last();
        if utf8_len(l) > 3 {
            if acc.len() > 0 {
                acc + ","@ + vcs_entry(l)
            } else {
                vcs_entry(l)
            }
        } else {
            acc
        }
    }
}

/// The JSON list of changed files of a repository, from the output of
/// `git status --porcelain`, or `[]` where git failed.
pub open spec fn spec_vcs_list(out: Option<Seq<char>>) -> Seq<char> {
    match out {
        Some(o) => "["@ + vcs_entries(split_on(o, '\n')) + "]"@,
        None => "[]"@,
    }
}

proof fn lemma_encode_utf8_len(s: Seq<char>)
    ensures
        utf8_len(s) >= s.len(),
        s.len() >= 3 && is_ascii_char(s[0]) && is_ascii_char(s[1]) && is_ascii_char(s[2])
            ==> utf8_len(s) == 3 + utf8_len(s.skip(3)),
    decreases s.len(),
{
    if s.len() > 0 {
        lemma_encode_utf8_len(s.drop_first());
        vstd::utf8::char_is_scalar(s[0]);
        if s.len() >= 3 && is_ascii_char(s[0]) && is_ascii_char(s[1]) && is_ascii_char(s[2]) {
            let t = s.drop_first();
            let u = t.drop_first();
            lemma_encode_utf8_len(u);
            lemma_encode_utf8_len(u.drop_first());
            vstd::utf8::char_is_scalar(t[0]);
            vstd::utf8::char_is_scalar(u[0]);
            assert(u.drop_first() =~= s.skip(3));
        }
    }
}

/// Number of UTF-8 bytes of a character.
pub open spec fn char_width(c: char) -> int {
    if (c as u32) <= 0x7F {
        1
    } else if (c as u32) <= 0x7FF {
        2
    } else if (c as u32) <= 0xFFFF {
        3
    } else {
        4
    }
}

proof fn lemma_utf8_len_cons(s: Seq<char>)
    requires
        s.len() > 0,
    ensures
        utf8_len(s) == char_width(s[0]) + utf8_len(s.drop_first()),
{
    vstd::utf8::char_is_scalar(s[0]);
}

proof fn lemma_utf8_len_empty()
    ensures
        utf8_len(Seq::<char>::empty()) == 0,
{
}

/// Whether the UTF-8 encoding of `s` is longer than three bytes (`str::len() > 3`).
fn utf8_len_over_3(s: &str) -> (r: bool)
    ensures
        r == (utf8_len(s@) > 3),
{
    let v = str_chars(s);
    proof {
        lemma_encode_utf8_len(s@);
    }
    if v.len() >= 4 {
        return true;
    }
    let mut total: u32 = 0;
    let mut i: usize = 0;
    assert(s@.skip(0) =~= s@);
    while i < v.len()
        invariant
            v@ == s@,
            v.len() <= 3,
            i <= v.len(),
            total <= 4 * i,
            utf8_len(s@) == total + utf8_len(s@.skip(i as int)),
        decreases v.len() - i,
    {
        proof {
            lemma_utf8_len_cons(s@.skip(i as int));
            assert(s@.skip(i as int).drop_first() =~= s@.skip(i + 1));
        }
        let c = v[i] as u32;
        let w: u32 = if c <= 0x7F {
            1
        } else if c <= 0x7FF {
            2
        } else if c <= 0xFFFF {
            3
        } else {
            4
        };
        total = total + w;
        i = i + 1;
    }
    proof {
        assert(s@.skip(v.len() as int) =~= Seq::<char>::empty());
        lemma_utf8_len_empty();
    }
    total > 3
}

proof fn lemma_last_slash_bound(s: Seq<char>)
    ensures
        last_slash(s) matches Some(j) ==> 0 <= j < s.len() && s[j] == '/',
    decreases s.len(),
{
    if s.len() > 0 {
        lemma_last_slash_bound(s.drop_last());
    }
}

fn last_slash_index(v: &Vec<char>) -> (r: Option<usize>)
    ensures
        match last_slash(v@) {
            Some(j) => r == Some(j as usize),
            None => r is None,
        },
        r matches Some(j) ==> j < v.len(),
{
    let mut k = v.len();
    assert(v@.take(k as int) =~= v@);
    while k > 0 && v[k - 1] != '/'
        invariant
            k <= v.len(),
            last_slash(v@) == last_slash(v@.take(k as int)),
        decreases k,
    {
        assert(v@.take(k as int).drop_last() =~= v@.take(k - 1));
        k = k - 1;
    }
    if k > 0 {
        Some(k - 1)
    } else {
        None
    }
}

fn vcs_entry_of(line: &str) -> (r: String)
    requires
        vcs_line_ok(line@),
        utf8_len(line@) > 3,
    ensures
        r@ == vcs_entry(line@),
{
    let v = str_chars(line);
    proof {
        lemma_encode_utf8_len(line@);
        if line@.len() == 3 {
            lemma_encode_utf8_len(line@.skip(3));
            assert(line@.skip(3).len() == 0);
            assert(vstd::utf8::encode_utf8(line@.skip(3)) =~= Seq::<u8>::empty());
        }
    }
    let n = v.len();
    let path = if v[3] == '"' && v[n - 1] == '"' {
        sub_chars(&v, 4, n - 1)
    } else {
        sub_chars(&v, 3, n)
    };
    assert(path@ == vcs_path(line@));
    let pv = str_chars(path.as_str());
    assert(pv@ == path@);
    proof {
        lemma_last_slash_bound(path@);
    }
    let name = match last_slash_index(&pv) {
        Some(j) => if j + 1 < pv.len() {
            let nm = sub_chars(&pv, j + 1, pv.len());
            assert(nm@ =~= path@.skip(j + 1));
            nm
        } else {
            path.clone()
        },
        None => path.clone(),
    };
    assert(name@ == vcs_name(path@));
    let mut r = String::from_str("{\"path\":\"");
    r.append(json_encode(path.as_str()).as_str());
    r.append("\",\"name\":\"");
    r.append(json_encode(name.as_str()).as_str());
    r.append("\",\"status\":\"");
    if v[0] == 'M' {
        r.append("staged");
    } else if v[1] == 'M' || v[1] == 'U' || v[1] == 'D' {
        r.append("modified");
    } else if v[1] == '?' {
        r.append("unversioned");
    } else {
        r.append("unknown");
    }
    r.append("\"}");
    r
}

/// Whether a line of `git status --porcelain` output can be taken apart.
pub fn vcs_line_checked(line: &str) -> (r: bool)
    ensures
        r == vcs_line_ok(line@),
{
    if !utf8_len_over_3(line) {
        return true;
    }
    let c = str_chars(line);
    let n = c.len();
    if n < 3 || !((c[0] as u32) < 128 && (c[1] as u32) < 128 && (c[2] as u32) < 128) {
        return false;
    }
    if n >= 4 && c[3] == '"' && c[n - 1] == '"' {
        return n >= 5 && (c[n - 2] as u32) < 128;
    }
    true
}

/// Whether every line of `git status --porcelain` output can be taken apart,
/// as `vcs_list_json` needs.
pub fn vcs_output_ok(out: &str) -> (r: bool)
    ensures
        r == forall|i: int| 0 <= i < split_on(out@, '\n').len() ==> vcs_line_ok(#[trigger] split_on(out@, '\n')[i]),
{
    let parts = split_chars(out, '\n');
    let ghost pv = strs_view(parts@);
    assert(pv =~= split_on(out@, '\n'));
    let mut i: usize = 0;
    while i < parts.len()
        invariant
            pv == strs_view(parts@),
            pv == split_on(out@, '\n'),
            i <= parts.len(),
            forall|j: int| 0 <= j < i ==> vcs_line_ok(#[trigger] pv[j]),
        decreases parts.len() - i,
    {
        assert(pv[i as int] == parts@[i as int]@);
        if !vcs_line_checked(parts[i].as_str()) {
            return false;
        }
        i = i + 1;
    }
    true
}

/// The JSON list of changed files, from the output of `git status --porcelain`
/// (`None` where git failed).
pub fn vcs_list_json(out: Option<String>) -> (r: String)
    requires
        out matches Some(o) ==> forall|i: int|
            0 <= i < split_on(o@, '\n').len() ==> vcs_line_ok(#[trigger] split_on(o@, '\n')[i]),
    ensures
        r@ == spec_vcs_list(match out {
            Some(o) => Some(o@),
            None => None,
        }),
{
    match out {
        None => String::from_str("[]"),
        Some(o) => {
            let parts = split_chars(o.as_str(), '\n');
            let ghost pv = strs_view(parts@);
            let mut acc = String::new();
            let mut i: usize = 0;
            assert(pv.take(0) =~= Seq::<Seq<char>>::empty());
            while i < parts.len()
                invariant
                    pv == strs_view(parts@),
                    pv == split_on(o@, '\n'),
                    forall|k: int| 0 <= k < pv.len() ==> vcs_line_ok(#[trigger] pv[k]),
                    i <= parts.len(),
                    acc@ == vcs_entries(pv.take(i as int)),
                decreases parts.len() - i,
            {
                assert(pv.take(i + 1).drop_last() =~= pv.take(i as int));
                assert(pv.take(i + 1).last() == parts@[i as int]@);
                assert(vcs_line_ok(pv[i as int]));
                let line = parts[i].as_str();
                if utf8_len_over_3(line) {
                    let e = vcs_entry_of(line);
                    if acc.unicode_len() > 0 {
                        acc.append(",");
                    }
                    acc.append(e.as_str());
                }
                i = i + 1;
            }
            assert(pv.take(parts.len() as int) =~= pv);
            let mut r = String::from_str("[");
            r.append(acc.as_str());
            r.append("]");
            r
        },
    }
}


/// A menu box with a title and maybe a tool tip.
fn menu_box(title: &str, hint: Option<&str>) -> (m: Menu)
    ensures
        m@ == (MenuView::MenuBox {
            title: title@,
            hint: match hint {
                Some(h) => Some(h@),
                None => None,
            },
            icon: None,
        }),
{
    Menu::MenuBox {
        title: title.to_owned(),
        hint: match hint {
            Some(h) => Some(h.to_owned()),
            None => None,
        },
        icon: None,
    }
}

/// A menu entry with a title, a link and maybe a tool tip and a short cut.
fn menu_item(title: &str, link: &str, hint: Option<&str>, short: Option<&str>) -> (m: Menu)
    ensures
        m@ == (MenuView::MenuItem {
            link: link@,
            title: title@,
            short: match short {
                Some(h) => Some(h@),
                None => None,
            },
            hint: match hint {
                Some(h) => Some(h@),
                None => None,
            },
            icon: None,
        }),
{
    Menu::MenuItem {
        link: link.to_owned(),
        title: title.to_owned(),
        short: match short {
            Some(h) => Some(h.to_owned()),
            None => None,
        },
        hint: match hint {
            Some(h) => Some(h.to_owned()),
            None => None,
        },
        icon: None,
    }
}

/// Entries 0 to 4 of the main menu.
pub open spec fn main_menu_0() -> Seq<MenuView> {
    seq![
        MenuView::MenuBox { title: "File"@, hint: None, icon: None },
        MenuView::MenuItem { link: "javascript:newFile()"@, title: "New..."@, short: None, hint: None, icon: None },
        MenuView::Separator,
        MenuView::MenuBox { title: "Project"@, hint: None, icon: None },
        MenuView::MenuItem { link: "javascript:newProject()"@, title: "New..."@, short: None, hint: None, icon: None },
    ]
}

fn push_main_menu_0(v: &mut Vec<Menu>)
    ensures
        menus_view(final(v)@) == menus_view(old(v)@) + main_menu_0(),
{
    let ghost start = menus_view(v@);
    v.push(menu_box("File", None));
    v.push(menu_item("New...", "javascript:newFile()", None, None));
    v.push(Menu::Separator);
    v.push(menu_box("Project", None));
    v.push(menu_item("New...", "javascript:newProject()", None, None));
    assert(menus_view(v@) =~= start + main_menu_0());
}

/// Entries 5 to 12 of the main menu.
pub open spec fn main_menu_1() -> Seq<MenuView> {
    seq![
        MenuView::MenuEnd,
        MenuView::Separator,
        MenuView::MenuItem { link: "javascript:saveCurrent()"@, title: "Save"@, short: Some("^S"@), hint: None, icon: None },
        MenuView::MenuItem { link: "javascript:saveCurrentAs()"@, title: "Save As..."@, short: None, hint: None, icon: None },
        MenuView::MenuItem { link: "javascript:closeCurrent()"@, title: "Close"@, short: None, hint: None, icon: None },
        MenuView::Separator,
        MenuView::MenuItem { link: "javascript:deleteCurrent()"@, title: "Delete"@, short: None, hint: None, icon: None },
        MenuView::Separator,
    ]
}

fn push_main_menu_1(v: &mut Vec<Menu>)
    ensures
        menus_view(final(v)@) == menus_view(old(v)@) + main_menu_1(),
{
    let ghost start = menus_view(v@);
    v.push(Menu::MenuEnd);
    v.push(Menu::Separator);
    v.push(menu_item("Save", "javascript:saveCurrent()", None, Some("^S")));
    v.push(menu_item("Save As...", "javascript:saveCurrentAs()", None, None));
    v.push(menu_item("Close", "javascript:closeCurrent()", None, None));
    v.push(Menu::Separator);
    v.push(menu_item("Delete", "javascript:deleteCurrent()", None, None));
    v.push(Menu::Separator);
    assert(menus_view(v@) =~= start + main_menu_1());
}

/// Entries 13 to 20 of the main menu.
pub open spec fn main_menu_2() -> Seq<MenuView> {
    seq![
        MenuView::MenuItem { link: "javascript:saveAll()"@, title: "Save All"@, short: None, hint: None, icon: None },
        MenuView::MenuItem { link: "javascript:closeAllTab()"@, title: "Close All"@, short: None, hint: None, icon: None },
        MenuView::MenuEnd,
        MenuView::MenuBox { title: "Edit"@, hint: None, icon: None },
        MenuView::MenuItem { link: "javascript:undoEdit()"@, title: "Undo"@, short: Some("^Z"@), hint: None, icon: None },
        MenuView::MenuItem { link: "javascript:redoEdit()"@, title: "Redo"@, short: Some("^Y"@), hint: None, icon: None },
        MenuView::Separator,
        MenuView::MenuBox { title: "Change to"@, hint: None, icon: None },
    ]
}

fn push_main_menu_2(v: &mut Vec<Menu>)
    ensures
        menus_view(final(v)@) == menus_view(old(v)@) + main_menu_2(),
{
    let ghost start = menus_view(v@);
    v.push(menu_item("Save All", "javascript:saveAll()", None, None));
    v.push(menu_item("Close All", "javascript:closeAllTab()", None, None));
    v.push(Menu::MenuEnd);
    v.push(menu_box("Edit", None));
    v.push(menu_item("Undo", "javascript:undoEdit()", None, Some("^Z")));
    v.push(menu_item("Redo", "javascript:redoEdit()", None, Some("^Y")));
    v.push(Menu::Separator);
    v.push(menu_box("Change to", None));
    assert(menus_view(v@) =~= start + main_menu_2());
}

/// Entries 21 to 28 of the main menu.
pub open spec fn main_menu_3() -> Seq<MenuView> {
    seq![
        MenuView::MenuItem { link: "javascript:lower()"@, title: "Lower"@, short: None, hint: Some("Change case to lower"@), icon: None },
        MenuView::MenuItem { link: "javascript:upper()"@, title: "Upper"@, short: None, hint: Some("Change case to upper"@), icon: None },
        MenuView::MenuItem { link: "javascript:snake()"@, title: "Snake"@, short: None, hint: Some("Change style to snake"@), icon: None },
        MenuView::MenuItem { link: "javascript:camel()"@, title: "Camel"@, short: None, hint: Some("Change style to Camel"@), icon: None },
        MenuView::MenuItem { link: "javascript:utf16()"@, title: "UTF-16 surrogate"@, short: None, hint: Some("Unicode 32 bit hex to two 16 bit surrogates"@), icon: None },
        MenuView::MenuItem { link: "javascript:fromNotepad()"@, title: "From NP"@, short: None, hint: Some("Replace highlighted by the notepad highlighted"@), icon: None },
        MenuView::MenuEnd,
        MenuView::MenuItem { link: "javascript:copySelected()"@, title: "To Notepad"@, short: None, hint: Some("Copy selected to notepad"@), icon: None },
    ]
}

fn push_main_menu_3(v: &mut Vec<Menu>)
    ensures
        menus_view(final(v)@) == menus_view(old(v)@) + main_menu_3(),
{
    let ghost start = menus_view(v@);
    v.push(menu_item("Lower", "javascript:lower()", Some("Change case to lower"), None));
    v.push(menu_item("Upper", "javascript:upper()", Some("Change case to upper"), None));
    v.push(menu_item("Snake", "javascript:snake()", Some("Change style to snake"), None));
    v.push(menu_item("Camel", "javascript:camel()", Some("Change style to Camel"), None));
    v.push(menu_item("UTF-16 surrogate", "javascript:utf16()", Some("Unicode 32 bit hex to two 16 bit surrogates"), None));
    v.push(menu_item("From NP", "javascript:fromNotepad()", Some("Replace highlighted by the notepad highlighted"), None));
    v.push(Menu::MenuEnd);
    v.push(menu_item("To Notepad", "javascript:copySelected()", Some("Copy selected to notepad"), None));
    assert(menus_view(v@) =~= start + main_menu_3());
}

/// Entries 29 to 36 of the main menu.
pub open spec fn main_menu_4() -> Seq<MenuView> {
    seq![
        MenuView::MenuItem { link: "javascript:saveNotepad()"@, title: "Save Notepad"@, short: None, hint: None, icon: None },
        MenuView::Separator,
        MenuView::MenuItem { link: "javascript:reloadCurrent()"@, title: "Reload"@, short: None, hint: Some("Drop changes and Reload the currently edited file"@), icon: None },
        MenuView::MenuItem { link: "javascript:refresh()"@, title: "Refresh Proj"@, short: None, hint: Some("Refresh the list of the project files"@), icon: None },
        MenuView::MenuEnd,
        MenuView::MenuBox { title: "Source"@, hint: Some("The source navigation, compose and refactoring"@), icon: None },
        MenuView::MenuItem { link: "javascript:searchStr()"@, title: "Search..."@, short: Some("^M"@), hint: Some("Search for a string in the project files"@), icon: None },
        MenuView::MenuItem { link: "javascript:scanXRef()"@, title: "Scan"@, short: None, hint: Some("Scan for cross references"@), icon: None },
    ]
}

fn push_main_menu_4(v: &mut Vec<Menu>)
    ensures
        menus_view(final(v)@) == menus_view(old(v)@) + main_menu_4(),
{
    let ghost start = menus_view(v@);
    v.push(menu_item("Save Notepad", "javascript:saveNotepad()", None, None));
    v.push(Menu::Separator);
    v.push(menu_item("Reload", "javascript:reloadCurrent()", Some("Drop changes and Reload the currently edited file"), None));
    v.push(menu_item("Refresh Proj", "javascript:refresh()", Some("Refresh the list of the project files"), None));
    v.push(Menu::MenuEnd);
    v.push(menu_box("Source", Some("The source navigation, compose and refactoring")));
    v.push(menu_item("Search...", "javascript:searchStr()", Some("Search for a string in the project files"), Some("^M")));
    v.push(menu_item("Scan", "javascript:scanXRef()", Some("Scan for cross references"), None));
    assert(menus_view(v@) =~= start + main_menu_4());
}

/// Entries 37 to 44 of the main menu.
pub open spec fn main_menu_5() -> Seq<MenuView> {
    seq![
        MenuView::MenuItem { link: "javascript:toggleBookmark()"@, title: "\u{23FC} bookmark"@, short: Some("^B"@), hint: Some("Bookmark current edited line after selected bookmark"@), icon: None },
        MenuView::MenuItem { link: "javascript:promptAI()"@, title: "Prompt AI"@, short: None, hint: Some("Consider the current selection as a prompt"@), icon: None },
        MenuView::MenuEnd,
        MenuView::MenuBox { title: "Project"@, hint: None, icon: None },
        MenuView::MenuBox { title: "Build"@, hint: None, icon: None },
        MenuView::MenuItem { link: "javascript:build_debug()"@, title: "Debug"@, short: None, hint: Some("Build debug version of the project"@), icon: None },
        MenuView::MenuItem { link: "javascript:build_release()"@, title: "Release"@, short: None, hint: Some("Build a release version of the project"@), icon: None },
        MenuView::MenuEnd,
    ]
}

fn push_main_menu_5(v: &mut Vec<Menu>)
    ensures
        menus_view(final(v)@) == menus_view(old(v)@) + main_menu_5(),
{
    let ghost start = menus_view(v@);
    v.push(menu_item("\u{23FC} bookmark", "javascript:toggleBookmark()", Some("Bookmark current edited line after selected bookmark"), Some("^B")));
    v.push(menu_item("Prompt AI", "javascript:promptAI()", Some("Consider the current selection as a prompt"), None));
    v.push(Menu::MenuEnd);
    v.push(menu_box("Project", None));
    v.push(menu_box("Build", None));
    v.push(menu_item("Debug", "javascript:build_debug()", Some("Build debug version of the project"), None));
    v.push(menu_item("Release", "javascript:build_release()", Some("Build a release version of the project"), None));
    v.push(Menu::MenuEnd);
    assert(menus_view(v@) =~= start + main_menu_5());
}

/// Entries 45 to 52 of the main menu.
pub open spec fn main_menu_6() -> Seq<MenuView> {
    seq![
        MenuView::MenuBox { title: "Run"@, hint: None, icon: None },
        MenuView::MenuItem { link: "javascript:run_debug()"@, title: "Debug"@, short: None, hint: Some("Run debug version of the project"@), icon: None },
        MenuView::MenuItem { link: "javascript:run_release()"@, title: "Release"@, short: None, hint: Some("Run a release version of the project"@), icon: None },
        MenuView::MenuItem { link: "javascript:test_app()"@, title: "Test"@, short: None, hint: Some("Run unit tests for the project"@), icon: None },
        MenuView::MenuEnd,
        MenuView::MenuItem { link: "javascript:package()"@, title: "Package"@, short: None, hint: None, icon: None },
        MenuView::MenuBox { title: "VCS"@, hint: None, icon: None },
        MenuView::MenuItem { link: "javascript:vcsPull()"@, title: "Pull"@, short: None, hint: Some("Pull changes in the project"@), icon: None },
    ]
}

fn push_main_menu_6(v: &mut Vec<Menu>)
    ensures
        menus_view(final(v)@) == menus_view(old(v)@) + main_menu_6(),
{
    let ghost start = menus_view(v@);
    v.push(menu_box("Run", None));
    v.push(menu_item("Debug", "javascript:run_debug()", Some("Run debug version of the project"), None));
    v.push(menu_item("Release", "javascript:run_release()", Some("Run a release version of the project"), None));
    v.push(menu_item("Test", "javascript:test_app()", Some("Run unit tests for the project"), None));
    v.push(Menu::MenuEnd);
    v.push(menu_item("Package", "javascript:package()", None, None));
    v.push(menu_box("VCS", None));
    v.push(menu_item("Pull", "javascript:vcsPull()", Some("Pull changes in the project"), None));
    assert(menus_view(v@) =~= start + main_menu_6());
}

/// Entries 53 to 60 of the main menu.
pub open spec fn main_menu_7() -> Seq<MenuView> {
    seq![
        MenuView::MenuItem { link: "javascript:vcsPush()"@, title: "Push"@, short: None, hint: Some("Push changes of the project in a remote repository"@), icon: None },
        MenuView::MenuEnd,
        MenuView::MenuItem { link: "javascript:config_project()"@, title: "Config..."@, short: None, hint: None, icon: None },
        MenuView::MenuEnd,
        MenuView::MenuBox { title: "VCS"@, hint: Some("Version Control System"@), icon: None },
        MenuView::MenuItem { link: "javascript:vcsStatus()"@, title: "Status"@, short: None, hint: None, icon: None },
        MenuView::Separator,
        MenuView::MenuItem { link: "javascript:vcsCommit()"@, title: "Commit..."@, short: None, hint: None, icon: None },
    ]
}

fn push_main_menu_7(v: &mut Vec<Menu>)
    ensures
        menus_view(final(v)@) == menus_view(old(v)@) + main_menu_7(),
{
    let ghost start = menus_view(v@);
    v.push(menu_item("Push", "javascript:vcsPush()", Some("Push changes of the project in a remote repository"), None));
    v.push(Menu::MenuEnd);
    v.push(menu_item("Config...", "javascript:config_project()", None, None));
    v.push(Menu::MenuEnd);
    v.push(menu_box("VCS", Some("Version Control System")));
    v.push(menu_item("Status", "javascript:vcsStatus()", None, None));
    v.push(Menu::Separator);
    v.push(menu_item("Commit...", "javascript:vcsCommit()", None, None));
    assert(menus_view(v@) =~= start + main_menu_7());
}

/// Entries 61 to 68 of the main menu.
pub open spec fn main_menu_8() -> Seq<MenuView> {
    seq![
        MenuView::Separator,
        MenuView::MenuItem { link: "javascript:vcsRestore()"@, title: "Restore"@, short: None, hint: Some("Restore the current file content from VCS"@), icon: None },
        MenuView::MenuItem { link: "javascript:vcsStage()"@, title: "Stage"@, short: None, hint: Some("Stage the current file"@), icon: None },
        MenuView::MenuEnd,
        MenuView::MenuItem { link: "javascript:showSettings()"@, title: "Settings"@, short: None, hint: None, icon: None },
        MenuView::MenuBox { title: "Help"@, hint: None, icon: None },
        MenuView::MenuItem { link: "/cgires/resource/documentation.html\" target=\"help"@, title: "Documentation"@, short: None, hint: None, icon: None },
        MenuView::MenuItem { link: "javascript:about()"@, title: "About..."@, short: None, hint: None, icon: None },
    ]
}

fn push_main_menu_8(v: &mut Vec<Menu>)
    ensures
        menus_view(final(v)@) == menus_view(old(v)@) + main_menu_8(),
{
    let ghost start = menus_view(v@);
    v.push(Menu::Separator);
    v.push(menu_item("Restore", "javascript:vcsRestore()", Some("Restore the current file content from VCS"), None));
    v.push(menu_item("Stage", "javascript:vcsStage()", Some("Stage the current file"), None));
    v.push(Menu::MenuEnd);
    v.push(menu_item("Settings", "javascript:showSettings()", None, None));
    v.push(menu_box("Help", None));
    v.push(menu_item("Documentation", "/cgires/resource/documentation.html\" target=\"help", None, None));
    v.push(menu_item("About...", "javascript:about()", None, None));
    assert(menus_view(v@) =~= start + main_menu_8());
}

/// Entries 69 to 69 of the main menu.
pub open spec fn main_menu_9() -> Seq<MenuView> {
    seq![
        MenuView::MenuEnd,
    ]
}

fn push_main_menu_9(v: &mut Vec<Menu>)
    ensures
        menus_view(final(v)@) == menus_view(old(v)@) + main_menu_9(),
{
    let ghost start = menus_view(v@);
    v.push(Menu::MenuEnd);
    assert(menus_view(v@) =~= start + main_menu_9());
}

/// The static part of the main menu after the list of projects.
pub open spec fn main_menu_rest() -> Seq<MenuView> {
    main_menu_1() + main_menu_2() + main_menu_3() + main_menu_4() + main_menu_5() + main_menu_6()
        + main_menu_7() + main_menu_8() + main_menu_9()
}

/// What an entry does to the nesting depth: a box opens a level, an end
/// closes one.
pub open spec fn depth_step(m: MenuView) -> int {
    match m {
        MenuView::MenuBox { .. } => 1,
        MenuView::MenuEnd => -1,
        _ => 0,
    }
}

/// The nesting depth after the entries: boxes less ends.
pub open spec fn menu_depth(s: Seq<MenuView>) -> int
    decreases s.len(),
{
    if s.len() == 0 {
        0
    } else {
        menu_depth(s.drop_last()) + depth_step(s.last())
    }
}

/// The least depth that any prefix of the entries reaches.
pub open spec fn min_depth(s: Seq<MenuView>) -> int
    decreases s.len(),
{
    if s.len() == 0 {
        0
    } else {
        let m = min_depth(s.drop_last());
        let d = menu_depth(s);
        if d < m { d } else { m }
    }
}

/// Number of boxes among the entries.
pub open spec fn box_count(s: Seq<MenuView>) -> nat
    decreases s.len(),
{
    if s.len() == 0 {
        0
    } else {
        box_count(s.drop_last()) + if s.last() is MenuBox { 1nat } else { 0nat }
    }
}

/// Number of ends among the entries.
pub open spec fn end_count(s: Seq<MenuView>) -> nat
    decreases s.len(),
{
    if s.len() == 0 {
        0
    } else {
        end_count(s.drop_last()) + if s.last() is MenuEnd { 1nat } else { 0nat }
    }
}

proof fn lemma_menu_concat(a: Seq<MenuView>, b: Seq<MenuView>)
    ensures
        menu_depth(a + b) == menu_depth(a) + menu_depth(b),
        min_depth(a + b) == if menu_depth(a) + min_depth(b) < min_depth(a) {
            menu_depth(a) + min_depth(b)
        } else {
            min_depth(a)
        },
        box_count(a + b) == box_count(a) + box_count(b),
        end_count(a + b) == end_count(a) + end_count(b),
    decreases b.len(),
{
    if b.len() == 0 {
        assert(a + b =~= a);
    } else {
        lemma_menu_concat(a, b.drop_last());
        assert((a + b).drop_last() =~= a + b.drop_last());
        assert((a + b).last() == b.last());
    }
}

proof fn lemma_min_depth_prefix(s: Seq<MenuView>, k: int)
    requires
        0 <= k <= s.len(),
    ensures
        min_depth(s) <= menu_depth(s.take(k)),
        min_depth(s) <= 0,
    decreases s.len(),
{
    if s.len() > 0 {
        if k == s.len() {
            assert(s.take(k) =~= s);
            lemma_min_depth_prefix(s.drop_last(), 0);
        } else {
            lemma_min_depth_prefix(s.drop_last(), k);
            assert(s.drop_last().take(k) =~= s.take(k));
        }
    } else {
        assert(s.take(k) =~= s);
    }
}

proof fn lemma_plain_items_flat(s: Seq<MenuView>)
    requires
        forall|i: int| 0 <= i < s.len() ==> is_plain_item(#[trigger] s[i]),
    ensures
        menu_depth(s) == 0,
        min_depth(s) == 0,
        box_count(s) == 0,
        end_count(s) == 0,
    decreases s.len(),
{
    if s.len() > 0 {
        assert forall|i: int| 0 <= i < s.drop_last().len() implies is_plain_item(#[trigger] s.drop_last()[i]) by {
            assert(s.drop_last()[i] == s[i]);
        }
        lemma_plain_items_flat(s.drop_last());
        assert(is_plain_item(s[s.len() - 1]));
    }
}

proof fn lemma_main_menu_rest_nesting()
    ensures
        menu_depth(main_menu_rest()) == -2,
        min_depth(main_menu_rest()) == -2,
        box_count(main_menu_rest()) == 9,
        end_count(main_menu_rest()) == 11,
{
    let c1 = main_menu_1();
    let c2 = main_menu_2();
    let c3 = main_menu_3();
    let c4 = main_menu_4();
    let c5 = main_menu_5();
    let c6 = main_menu_6();
    let c7 = main_menu_7();
    let c8 = main_menu_8();
    let c9 = main_menu_9();
    assert(menu_depth(c1) == -1 && min_depth(c1) == -1 && box_count(c1) == 0 && end_count(c1) == 1) by {
        reveal_with_fuel(menu_depth, 9);
        reveal_with_fuel(min_depth, 9);
        reveal_with_fuel(box_count, 9);
        reveal_with_fuel(end_count, 9);
    }
    assert(menu_depth(c2) == 1 && min_depth(c2) == -1 && box_count(c2) == 2 && end_count(c2) == 1) by {
        reveal_with_fuel(menu_depth, 9);
        reveal_with_fuel(min_depth, 9);
        reveal_with_fuel(box_count, 9);
        reveal_with_fuel(end_count, 9);
    }
    assert(menu_depth(c3) == -1 && min_depth(c3) == -1 && box_count(c3) == 0 && end_count(c3) == 1) by {
        reveal_with_fuel(menu_depth, 9);
        reveal_with_fuel(min_depth, 9);
        reveal_with_fuel(box_count, 9);
        reveal_with_fuel(end_count, 9);
    }
    assert(menu_depth(c4) == 0 && min_depth(c4) == -1 && box_count(c4) == 1 && end_count(c4) == 1) by {
        reveal_with_fuel(menu_depth, 9);
        reveal_with_fuel(min_depth, 9);
        reveal_with_fuel(box_count, 9);
        reveal_with_fuel(end_count, 9);
    }
    assert(menu_depth(c5) == 0 && min_depth(c5) == -1 && box_count(c5) == 2 && end_count(c5) == 2) by {
        reveal_with_fuel(menu_depth, 9);
        reveal_with_fuel(min_depth, 9);
        reveal_with_fuel(box_count, 9);
        reveal_with_fuel(end_count, 9);
    }
    assert(menu_depth(c6) == 1 && min_depth(c6) == 0 && box_count(c6) == 2 && end_count(c6) == 1) by {
        reveal_with_fuel(menu_depth, 9);
        reveal_with_fuel(min_depth, 9);
        reveal_with_fuel(box_count, 9);
        reveal_with_fuel(end_count, 9);
    }
    assert(menu_depth(c7) == -1 && min_depth(c7) == -2 && box_count(c7) == 1 && end_count(c7) == 2) by {
        reveal_with_fuel(menu_depth, 9);
        reveal_with_fuel(min_depth, 9);
        reveal_with_fuel(box_count, 9);
        reveal_with_fuel(end_count, 9);
    }
    assert(menu_depth(c8) == 0 && min_depth(c8) == -1 && box_count(c8) == 1 && end_count(c8) == 1) by {
        reveal_with_fuel(menu_depth, 9);
        reveal_with_fuel(min_depth, 9);
        reveal_with_fuel(box_count, 9);
        reveal_with_fuel(end_count, 9);
    }
    assert(menu_depth(c9) == -1 && min_depth(c9) == -1 && box_count(c9) == 0 && end_count(c9) == 1) by {
        reveal_with_fuel(menu_depth, 2);
        reveal_with_fuel(min_depth, 2);
        reveal_with_fuel(box_count, 2);
        reveal_with_fuel(end_count, 2);
    }
    lemma_menu_concat(c1, c2);
    lemma_menu_concat(c1 + c2, c3);
    lemma_menu_concat(c1 + c2 + c3, c4);
    lemma_menu_concat(c1 + c2 + c3 + c4, c5);
    lemma_menu_concat(c1 + c2 + c3 + c4 + c5, c6);
    lemma_menu_concat(c1 + c2 + c3 + c4 + c5 + c6, c7);
    lemma_menu_concat(c1 + c2 + c3 + c4 + c5 + c6 + c7, c8);
    lemma_menu_concat(c1 + c2 + c3 + c4 + c5 + c6 + c7 + c8, c9);
}

/// The main menu is a well nested tree: it opens with the `File` box, has
/// eleven boxes and eleven ends, and no prefix closes more boxes than it opens.
proof fn lemma_main_menu_nested(v: Seq<MenuView>, pv: Seq<MenuView>)
    requires
        v == main_menu_0() + pv + main_menu_rest(),
        forall|i: int| 0 <= i < pv.len() ==> is_plain_item(#[trigger] pv[i]),
    ensures
        v[0] == (MenuView::MenuBox { title: "File"@, hint: None, icon: None }),
        menu_depth(v) == 0,
        forall|k: int| 0 <= k <= v.len() ==> menu_depth(#[trigger] v.take(k)) >= 0,
        box_count(v) == 11,
        end_count(v) == 11,
{
    let c0 = main_menu_0();
    assert(menu_depth(c0) == 2 && min_depth(c0) == 0 && box_count(c0) == 2 && end_count(c0) == 0) by {
        reveal_with_fuel(menu_depth, 6);
        reveal_with_fuel(min_depth, 6);
        reveal_with_fuel(box_count, 6);
        reveal_with_fuel(end_count, 6);
    }
    lemma_plain_items_flat(pv);
    lemma_main_menu_rest_nesting();
    lemma_menu_concat(c0, pv);
    lemma_menu_concat(c0 + pv, main_menu_rest());
    assert forall|k: int| 0 <= k <= v.len() implies menu_depth(#[trigger] v.take(k)) >= 0 by {
        lemma_min_depth_prefix(v, k);
    }
    assert(v[0] == c0[0]);
}

/// The project that a settings file belongs to: `settings.prop` is the default
/// project (named by the empty text), `settings-NAME.prop` project `NAME`.
pub open spec fn session_of(name: Seq<char>) -> Option<Seq<char>> {
    if name.len() >= 13 && name.take(8) == seq!['s', 'e', 't', 't', 'i', 'n', 'g', 's']
        && name.skip(name.len() - 5) == seq!['.', 'p', 'r', 'o', 'p'] {
        let mid = name.subrange(8, name.len() - 5);
        if mid.len() == 0 {
            Some(mid)
        } else if mid[0] == '-' {
            Some(mid.drop_first())
        } else {
            None
        }
    } else {
        None
    }
}

/// Whether a file name can be looked at as a settings file name: where it has
/// the form `settingsMIDDLE.prop` with a non-empty middle, the middle starts
/// with an ASCII character.
pub open spec fn settings_name_ok(name: Seq<char>) -> bool {
    (name.len() > 13 && name.take(8) == seq!['s', 'e', 't', 't', 'i', 'n', 'g', 's']
        && name.skip(name.len() - 5) == seq!['.', 'p', 'r', 'o', 'p']) ==> is_ascii_char(name[8])
}

pub open spec fn settings_names_ok(names: Seq<Seq<char>>) -> bool {
    forall|i: int| 0 <= i < names.len() ==> settings_name_ok(#[trigger] names[i])
}

/// Whether every name can be looked at as a settings file name.
pub fn check_settings_names(names: &Vec<String>) -> (r: bool)
    ensures
        r == settings_names_ok(strs_view(names@)),
{
    let mut i: usize = 0;
    while i < names.len()
        invariant
            i <= names.len(),
            forall|j: int| 0 <= j < i ==> settings_name_ok(#[trigger] strs_view(names@)[j]),
        decreases names.len() - i,
    {
        let ok = settings_name_ok_str(names[i].as_str());
        assert(strs_view(names@)[i as int] == names@[i as int]@);
        if !ok {
            return false;
        }
        i = i + 1;
    }
    true
}

fn settings_name_ok_str(name: &str) -> (r: bool)
    ensures
        r == settings_name_ok(name@),
{
    let v = str_chars(name);
    let n = v.len();
    if n <= 13 {
        return true;
    }
    let s = session_name_shape(&v);
    if s {
        (v[8] as u32) < 128
    } else {
        true
    }
}

/// Whether `v` starts with `settings` and ends with `.prop` (and is at least 13 long).
fn session_name_shape(v: &Vec<char>) -> (r: bool)
    ensures
        r == (v@.len() >= 13 && v@.take(8) == seq!['s', 'e', 't', 't', 'i', 'n', 'g', 's']
            && v@.skip(v@.len() - 5) == seq!['.', 'p', 'r', 'o', 'p']),
{
    let n = v.len();
    if n < 13 {
        return false;
    }
    let pre = ['s', 'e', 't', 't', 'i', 'n', 'g', 's'];
    let suf = ['.', 'p', 'r', 'o', 'p'];
    let mut ok = true;
    let mut i: usize = 0;
    while i < 8
        invariant
            n == v@.len(),
            n >= 13,
            i <= 8,
            pre@ == seq!['s', 'e', 't', 't', 'i', 'n', 'g', 's'],
            ok == (forall|j: int| 0 <= j < i ==> v@[j] == pre@[j]),
        decreases 8 - i,
    {
        ok = ok && v[i] == pre[i];
        i = i + 1;
    }
    let mut k: usize = 0;
    while k < 5
        invariant
            n == v@.len(),
            n >= 13,
            k <= 5,
            suf@ == seq!['.', 'p', 'r', 'o', 'p'],
            ok == ((forall|j: int| 0 <= j < 8 ==> v@[j] == pre@[j]) && forall|j: int|
                0 <= j < k ==> v@[n - 5 + j] == suf@[j]),
        decreases 5 - k,
    {
        ok = ok && v[n - 5 + k] == suf[k];
        k = k + 1;
    }
    proof {
        if ok {
            assert(v@.take(8) =~= pre@);
            assert(v@.skip(n - 5) =~= suf@);
        } else {
            if v@.take(8) == pre@ {
                assert forall|j: int| 0 <= j < 8 implies v@[j] == pre@[j] by {
                    assert(v@.take(8)[j] == v@[j]);
                }
            }
            if v@.skip(n - 5) == suf@ {
                assert forall|j: int| 0 <= j < 5 implies v@[n - 5 + j] == suf@[j] by {
                    assert(v@.skip(n - 5)[j] == v@[n - 5 + j]);
                }
            }
        }
    }
    ok
}

/// The project of a settings file name, if it is one.
pub fn session_name(file_name: &str) -> (r: Option<String>)
    requires
        settings_name_ok(file_name@),
    ensures
        match r {
            Some(s) => session_of(file_name@) == Some(s@),
            None => session_of(file_name@) is None,
        },
{
    let v = str_chars(file_name);
    let n = v.len();
    if !session_name_shape(&v) {
        return None;
    }
    if n == 13 {
        let r = String::new();
        assert(r@ =~= file_name@.subrange(8, n - 5));
        return Some(r);
    }
    if v[8] == '-' {
        let r = sub_chars(&v, 9, n - 5);
        assert(r@ =~= file_name@.subrange(8, n - 5).drop_first());
        Some(r)
    } else {
        None
    }
}

/// The link that opens project `session` in a new window.
pub open spec fn project_link(path_info: Seq<char>, session: Seq<char>) -> Seq<char> {
    "/rustcgi/rustcgi"@ + path_info + "?session="@ + spec_url_encode(session) + "\" target=\"_blank"@
}

pub open spec fn project_title(session: Seq<char>) -> Seq<char> {
    if session.len() == 0 {
        "default"@
    } else {
        session
    }
}

/// Link and title of each project among the files of the configuration directory.
pub open spec fn project_pairs(files: Seq<Seq<char>>, path_info: Seq<char>) -> Seq<(Seq<char>, Seq<char>)>
    decreases files.len(),
{
    if files.len() == 0 {
        seq![]
    } else {
        let init = project_pairs(files.drop_last(), path_info);
        match session_of(files.last()) {
            Some(s) => init.push((project_link(path_info, s), project_title(s))),
            None => init,
        }
    }
}

pub open spec fn project_entry(p: (Seq<char>, Seq<char>)) -> MenuView {
    MenuView::MenuItem { link: p.0, title: p.1, short: None, hint: None, icon: None }
}

pub open spec fn pair_entry(p: (String, String)) -> MenuView {
    project_entry((p.0@, p.1@))
}

pub open spec fn pair_views(v: Seq<(String, String)>) -> Seq<(Seq<char>, Seq<char>)> {
    Seq::new(v.len(), |i: int| (v[i].0@, v[i].1@))
}

pub open spec fn is_plain_item(m: MenuView) -> bool {
    match m {
        MenuView::MenuItem { short, hint, icon, .. } => short is None && hint is None && icon is None,
        _ => false,
    }
}

pub open spec fn link_of(m: MenuView) -> Seq<char> {
    match m {
        MenuView::MenuItem { link, .. } => link,
        _ => seq![],
    }
}

/// The entries of the projects: each a menu entry without tool tip, icon or
/// short cut, in the order of their links.
pub open spec fn projects_ok(p: Seq<MenuView>, files: Seq<Seq<char>>, path_info: Seq<char>) -> bool {
    &&& p.len() == project_pairs(files, path_info).len()
    &&& forall|i: int| 0 <= i < p.len() ==> is_plain_item(#[trigger] p[i])
    &&& forall|i: int, j: int|
        0 <= i < j < p.len() ==> lex_le(link_of(#[trigger] p[i]), link_of(#[trigger] p[j]))
    &&& p.to_multiset() == project_pairs(files, path_info).map_values(|q: (Seq<char>, Seq<char>)| project_entry(q)).to_multiset()
}

/// The menu of the projects found among `files`, ordered by link.
pub fn project_menu(files: &Vec<String>, path_info: &str) -> (r: Vec<Menu>)
    requires
        settings_names_ok(strs_view(files@)),
    ensures
        projects_ok(menus_view(r@), strs_view(files@), path_info@),
{
    let mut items: Vec<(String, String)> = Vec::new();
    let ghost fv = strs_view(files@);
    let mut i: usize = 0;
    assert(fv.take(0) =~= Seq::<Seq<char>>::empty());
    assert(pair_views(items@) =~= Seq::<(Seq<char>, Seq<char>)>::empty());
    while i < files.len()
        invariant
            fv == strs_view(files@),
            settings_names_ok(fv),
            i <= files.len(),
            pair_views(items@) == project_pairs(fv.take(i as int), path_info@),
        decreases files.len() - i,
    {
        assert(fv.take(i + 1).drop_last() =~= fv.take(i as int));
        assert(fv.take(i + 1).last() == files@[i as int]@);
        assert(settings_name_ok(fv[i as int]));
        match session_name(files[i].as_str()) {
            Some(s) => {
                let mut link = String::from_str("/rustcgi/rustcgi");
                link.append(path_info);
                link.append("?session=");
                link.append(url_encode(s.as_str()).as_str());
                link.append("\" target=\"_blank");
                let title = if s.unicode_len() == 0 {
                    String::from_str("default")
                } else {
                    s
                };
                let ghost before = pair_views(items@);
                items.push((link, title));
                assert(pair_views(items@) =~= before.push((link@, title@)));
            },
            None => {},
        }
        i = i + 1;
    }
    assert(fv.take(files.len() as int) =~= fv);
    let ghost unsorted = items@;
    let sorted = sort_by_key(items);
    let mut r: Vec<Menu> = Vec::new();
    let mut k: usize = 0;
    while k < sorted.len()
        invariant
            k <= sorted.len(),
            r@.len() == k,
            forall|j: int| 0 <= j < k ==> #[trigger] r@[j]@ == pair_entry(sorted@[j]),
        decreases sorted.len() - k,
    {
        let (link, title) = (sorted[k].0.clone(), sorted[k].1.clone());
        r.push(Menu::MenuItem { link, title, short: None, hint: None, icon: None });
        k = k + 1;
    }
    assert(menus_view(r@) =~= sorted@.map_values(|q: (String, String)| pair_entry(q)));
    proof {
        broadcast use vstd::seq_lib::group_to_multiset_ensures;
        let mv = menus_view(r@);
        let pp = project_pairs(strs_view(files@), path_info@);
        assert(sorted@.len() == unsorted.len()) by {
            assert(sorted@.to_multiset().len() == unsorted.to_multiset().len());
        }
        assert(pair_views(unsorted).len() == pp.len());
        assert forall|a: int| 0 <= a < mv.len() implies is_plain_item(#[trigger] mv[a]) by {
            assert(mv[a] == pair_entry(sorted@[a]));
        }
        assert forall|a: int, b: int| 0 <= a < b < mv.len() implies lex_le(
            link_of(#[trigger] mv[a]),
            link_of(#[trigger] mv[b]),
        ) by {
            assert(mv[a] == pair_entry(sorted@[a]));
            assert(mv[b] == pair_entry(sorted@[b]));
            assert(lex_le(sorted@[a].0@, sorted@[b].0@));
        }
        lemma_multiset_map(sorted@, unsorted, |q: (String, String)| pair_entry(q));
        assert forall|a: int| 0 <= a < pp.len() implies #[trigger] pp[a] == (unsorted[a].0@, unsorted[a].1@) by {
            assert(pair_views(unsorted)[a] == pp[a]);
        }
        assert(unsorted.map_values(|q: (String, String)| pair_entry(q)) =~= project_pairs(
            strs_view(files@),
            path_info@,
        ).map_values(|q: (Seq<char>, Seq<char>)| project_entry(q)));
    }
    r
}

/// A page read from a file of the studio's resources.
#[derive(Debug)]
pub struct PageFile {
    pub file_name: String,
    pub session: Option<String>,
    pub id: Option<String>,
    pub home: String,
}

impl Default for PageFile {
    fn default() -> (r: PageFile)
        ensures
            r.file_name@ == Seq::<char>::empty(),
            r.session is None,
            r.id is None,
            r.home@ == Seq::<char>::empty(),
    {
        PageFile { file_name: String::new(), session: None, id: None, home: String::new() }
    }
}

impl PageFile {
    /// The name of the page: the project, or `Main`.
    pub fn name(&self) -> (r: String)
        ensures
            r@ == match self.session {
                Some(s) => if s@.len() > 0 {
                    s@
                } else {
                    "Main"@
                },
                None => "Main"@,
            },
    {
        match &self.session {
            Some(s) => if s.unicode_len() > 0 {
                s.clone()
            } else {
                String::from_str("Main")
            },
            None => String::from_str("Main"),
        }
    }

    /// The values that the page template receives besides the common ones; on
    /// the target, `windows` tells whether it is Windows.
    pub fn apply_specific(&self) -> (r: Vec<(String, String)>)
        ensures
            pair_views(r@) == self.spec_specific('/') || pair_views(r@) == self.spec_specific('\\'),
    {
        self.apply_specific_with(crate::main_separator())
    }

    /// The values that the page template receives besides the common ones:
    /// the session, whether the target is Windows (its path separator `sep` is
    /// a backslash), and the page id.
    pub open spec fn spec_specific(&self, sep: char) -> Seq<(Seq<char>, Seq<char>)> {
        seq![
            ("session"@, match self.session { Some(s) => s@, None => Seq::<char>::empty() }),
            ("windows"@, if sep == '\\' { "true"@ } else { "false"@ }),
            ("id"@, match self.id { Some(s) => s@, None => Seq::<char>::empty() }),
        ]
    }

    /// The values that the page template receives, where `sep` separates path
    /// components.
    pub fn apply_specific_with(&self, sep: char) -> (r: Vec<(String, String)>)
        ensures
            pair_views(r@) == self.spec_specific(sep),
    {
        let session = match &self.session {
            Some(s) => s.clone(),
            None => String::new(),
        };
        let id = match &self.id {
            Some(s) => s.clone(),
            None => String::new(),
        };
        let windows = if sep == '\\' {
            String::from_str("true")
        } else {
            String::from_str("false")
        };
        let mut r: Vec<(String, String)> = Vec::new();
        r.push((String::from_str("session"), session));
        r.push((String::from_str("windows"), windows));
        r.push((String::from_str("id"), id));
        assert(pair_views(r@) =~= self.spec_specific(sep));
        r
    }

    /// The main menu: the static entries, with the projects found among the
    /// files of the configuration directory after the fifth entry.
    pub fn get_nav(&self, home_files: &Vec<String>, path_info: &str) -> (r: Option<Vec<Menu>>)
        requires
            settings_names_ok(strs_view(home_files@)),
        ensures
            r matches Some(m) && {
                let v = menus_view(m@);
                let k = project_pairs(strs_view(home_files@), path_info@).len() as int;
                &&& v.len() == 5 + k + main_menu_rest().len()
                &&& v.take(5) == main_menu_0()
                &&& projects_ok(v.subrange(5, 5 + k), strs_view(home_files@), path_info@)
                &&& v.skip(5 + k) == main_menu_rest()
                &&& v[0] == (MenuView::MenuBox { title: "File"@, hint: None, icon: None })
                &&& box_count(v) == 11
                &&& end_count(v) == 11
                &&& menu_depth(v) == 0
                &&& forall|j: int| 0 <= j <= v.len() ==> menu_depth(#[trigger] v.take(j)) >= 0
            },
    {
        let projs = project_menu(home_files, path_info);
        let ghost pv = menus_view(projs@);
        let mut res: Vec<Menu> = Vec::new();
        push_main_menu_0(&mut res);
        let mut projs = projs;
        let ghost head = menus_view(res@);
        assert(head =~= main_menu_0());
        let n = projs.len();
        let ghost before = res@;
        res.append(&mut projs);
        assert(menus_view(res@) =~= head + pv);
        let ghost mid = menus_view(res@);
        push_main_menu_1(&mut res);
        push_main_menu_2(&mut res);
        push_main_menu_3(&mut res);
        push_main_menu_4(&mut res);
        push_main_menu_5(&mut res);
        push_main_menu_6(&mut res);
        push_main_menu_7(&mut res);
        push_main_menu_8(&mut res);
        push_main_menu_9(&mut res);
        let ghost v = menus_view(res@);
        assert(v =~= head + pv + main_menu_rest());
        assert(v.take(5) =~= main_menu_0());
        assert(v.subrange(5, 5 + n) =~= pv);
        assert(v.skip(5 + n) =~= main_menu_rest());
        proof {
            lemma_main_menu_nested(v, pv);
        }
        Some(res)
    }
}


/// The texts as JSON strings, separated by commas.
pub open spec fn quoted_list(ss: Seq<Seq<char>>) -> Seq<char>
    decreases ss.len(),
{
    if ss.len() == 0 {
        seq![]
    } else {
        let acc = quoted_list(ss.drop_last());
        (if acc.len() > 0 {
            acc + ","@
        } else {
            acc
        }) + "\""@ + spec_json_encode(ss.last()) + "\""@
    }
}

/// A JSON array of the texts.
pub open spec fn json_list(ss: Seq<Seq<char>>) -> Seq<char> {
    "["@ + quoted_list(ss) + "]"@
}

fn push_quoted(acc: &mut String, s: &str)
    ensures
        final(acc)@ == (if old(acc)@.len() > 0 {
            old(acc)@ + ","@
        } else {
            old(acc)@
        }) + "\""@ + spec_json_encode(s@) + "\""@,
{
    if acc.unicode_len() > 0 {
        acc.append(",");
    }
    acc.append("\"");
    acc.append(json_encode(s).as_str());
    acc.append("\"");
}

/// Writes a JSON array of the texts.
pub fn write_json_list(ss: &Vec<String>) -> (r: String)
    ensures
        r@ == json_list(strs_view(ss@)),
{
    let mut acc = String::new();
    let ghost sv = strs_view(ss@);
    let mut i: usize = 0;
    assert(sv.take(0) =~= Seq::<Seq<char>>::empty());
    while i < ss.len()
        invariant
            sv == strs_view(ss@),
            i <= ss.len(),
            acc@ == quoted_list(sv.take(i as int)),
        decreases ss.len() - i,
    {
        assert(sv.take(i + 1).drop_last() =~= sv.take(i as int));
        assert(sv.take(i + 1).last() == ss@[i as int]@);
        push_quoted(&mut acc, ss[i].as_str());
        i = i + 1;
    }
    assert(sv.take(ss.len() as int) =~= sv);
    let mut r = String::from_str("[");
    r.append(acc.as_str());
    r.append("]");
    r
}

/// The projects of the settings files among `names`.
pub open spec fn session_list(names: Seq<Seq<char>>) -> Seq<Seq<char>>
    decreases names.len(),
{
    if names.len() == 0 {
        seq![]
    } else {
        let init = session_list(names.drop_last());
        match session_of(names.last()) {
            Some(s) => init.push(s),
            None => init,
        }
    }
}

/// The JSON array of the projects whose settings files are among `names`, in
/// the order of the names; the default project is the empty string.
pub fn sessions_json(names: &Vec<String>) -> (r: String)
    requires
        settings_names_ok(strs_view(names@)),
    ensures
        r@ == json_list(session_list(strs_view(names@))),
{
    let ghost nv = strs_view(names@);
    let mut out: Vec<String> = Vec::new();
    let mut i: usize = 0;
    assert(nv.take(0) =~= Seq::<Seq<char>>::empty());
    assert(strs_view(out@) =~= Seq::<Seq<char>>::empty());
    while i < names.len()
        invariant
            nv == strs_view(names@),
            settings_names_ok(nv),
            i <= names.len(),
            strs_view(out@) == session_list(nv.take(i as int)),
        decreases names.len() - i,
    {
        assert(nv.take(i + 1).drop_last() =~= nv.take(i as int));
        assert(nv.take(i + 1).last() == names@[i as int]@);
        assert(settings_name_ok(nv[i as int]));
        match session_name(names[i].as_str()) {
            Some(sn) => {
                let ghost before = strs_view(out@);
                out.push(sn);
                assert(strs_view(out@) =~= before.push(sn@));
            },
            None => {},
        }
        i = i + 1;
    }
    assert(nv.take(names.len() as int) =~= nv);
    write_json_list(&out)
}

/// The non-empty pieces of a text split at tabs.
pub open spec fn non_empty(ss: Seq<Seq<char>>) -> Seq<Seq<char>>
    decreases ss.len(),
{
    if ss.len() == 0 {
        seq![]
    } else {
        let init = non_empty(ss.drop_last());
        if ss.last().len() > 0 {
            init.push(ss.last())
        } else {
            init
        }
    }
}

/// The JSON array of the open tabs that a tab file lists, separated by tabs.
pub fn tabs_json(content: &str) -> (r: String)
    ensures
        r@ == json_list(non_empty(split_on(content@, '\t'))),
{
    write_json_list(&crate::modes::file_list(content))
}

/// The names without `.git`.
pub open spec fn without_git(names: Seq<Seq<char>>) -> Seq<Seq<char>>
    decreases names.len(),
{
    if names.len() == 0 {
        seq![]
    } else {
        let init = without_git(names.drop_last());
        if names.last() != ".git"@ {
            init.push(names.last())
        } else {
            init
        }
    }
}

pub open spec fn key_views<T>(v: Seq<(String, T)>) -> Seq<Seq<char>> {
    Seq::new(v.len(), |i: int| v[i].0@)
}

/// The JSON array of the directories among `names` but `.git`, in lexicographic order.
pub fn dirs_json(names: &Vec<String>) -> (r: String)
    ensures
        exists|s: Seq<Seq<char>>|
            {
                &&& #[trigger] s.to_multiset() == without_git(strs_view(names@)).to_multiset()
                &&& forall|i: int, j: int| 0 <= i < j < s.len() ==> lex_le(#[trigger] s[i], #[trigger] s[j])
                &&& r@ == json_list(s)
            },
{
    let ghost nv = strs_view(names@);
    let git = String::from_str(".git");
    let mut keyed: Vec<(String, ())> = Vec::new();
    let mut i: usize = 0;
    assert(nv.take(0) =~= Seq::<Seq<char>>::empty());
    assert(key_views(keyed@) =~= Seq::<Seq<char>>::empty());
    while i < names.len()
        invariant
            nv == strs_view(names@),
            git@ == ".git"@,
            i <= names.len(),
            key_views(keyed@) == without_git(nv.take(i as int)),
        decreases names.len() - i,
    {
        assert(nv.take(i + 1).drop_last() =~= nv.take(i as int));
        assert(nv.take(i + 1).last() == names@[i as int]@);
        if !(names[i] == git) {
            let ghost before = key_views(keyed@);
            keyed.push((names[i].clone(), ()));
            assert(key_views(keyed@) =~= before.push(names@[i as int]@));
        }
        i = i + 1;
    }
    assert(nv.take(names.len() as int) =~= nv);
    let ghost unsorted = keyed@;
    let sorted = sort_by_key(keyed);
    let mut out: Vec<String> = Vec::new();
    let mut k: usize = 0;
    while k < sorted.len()
        invariant
            k <= sorted.len(),
            out@.len() == k,
            forall|j: int| 0 <= j < k ==> #[trigger] out@[j]@ == sorted@[j].0@,
        decreases sorted.len() - k,
    {
        out.push(sorted[k].0.clone());
        k = k + 1;
    }
    proof {
        let s = key_views(sorted@);
        assert(strs_view(out@) =~= s);
        lemma_multiset_map(sorted@, unsorted, |q: (String, ())| q.0@);
        assert(s =~= sorted@.map_values(|q: (String, ())| q.0@));
        assert(key_views(unsorted) =~= unsorted.map_values(|q: (String, ())| q.0@));
        assert forall|a: int, b: int| 0 <= a < b < s.len() implies lex_le(#[trigger] s[a], #[trigger] s[b]) by {
            assert(lex_le(sorted@[a].0@, sorted@[b].0@));
        }
        assert(s.to_multiset() == without_git(strs_view(names@)).to_multiset());
    }
    write_json_list(&out)
}

/// The value of a setting, or its default.
pub open spec fn setting(props: Seq<(Seq<char>, Seq<char>)>, key: Seq<char>, dflt: Seq<char>) -> Seq<char> {
    match lookup(props, key) {
        Some(v) => v,
        None => dflt,
    }
}

/// The JSON object of the settings of a project.
pub open spec fn spec_settings_json(props: Seq<(Seq<char>, Seq<char>)>, home_len: u16) -> Seq<char> {
    "{\"project_home\":\""@ + setting(props, "project_home"@, ""@) + "\", \"theme\":\""@ + setting(
        props,
        "theme"@,
        "light"@,
    ) + "\", \"autosave\" : \""@ + setting(props, "autosave"@, "no"@)
        + "\",\n            \"projectnp\":\""@ + setting(props, "projectnp"@, "no"@)
        + "\", \"user\":\""@ + spec_json_encode(setting(props, "user"@, ""@))
        + "\", \"persist_tabs\":\""@ + setting(props, "persist_tabs"@, "no"@)
        + "\",\n            \"home_len\":"@ + dec_digits(home_len as nat) + ", \"proj_conf\":"@
        + setting(props, "proj_conf"@, "{}"@) + ", \"ai_server_url\":\""@ + spec_json_encode(
        setting(props, "ai_server_url"@, ""@),
    ) + "\",\n            \"colapsed_dirs\":\""@ + spec_json_encode(
        setting(props, "colapsed_dirs"@, ""@),
    ) + "\"\n        }"@
}

fn get_setting(props: &StrMap, key: &str, dflt: &str) -> (r: String)
    ensures
        r@ == setting(props@, key@, dflt@),
{
    match props.get(key) {
        Some(v) => v,
        None => dflt.to_owned(),
    }
}

/// The settings page of a project.
pub struct JsonSettings {
    pub file: PageFile,
    pub home_len: u16,
}

impl JsonSettings {
    /// The JSON object of the settings read from the project's settings file.
    pub fn settings_json(&self, props: &StrMap) -> (r: String)
        ensures
            r@ == spec_settings_json(props@, self.home_len),
    {
        let mut r = String::from_str("{\"project_home\":\"");
        r.append(get_setting(props, "project_home", "").as_str());
        r.append("\", \"theme\":\"");
        r.append(get_setting(props, "theme", "light").as_str());
        r.append("\", \"autosave\" : \"");
        r.append(get_setting(props, "autosave", "no").as_str());
        r.append("\",\n            \"projectnp\":\"");
        r.append(get_setting(props, "projectnp", "no").as_str());
        r.append("\", \"user\":\"");
        r.append(json_encode(get_setting(props, "user", "").as_str()).as_str());
        r.append("\", \"persist_tabs\":\"");
        r.append(get_setting(props, "persist_tabs", "no").as_str());
        r.append("\",\n            \"home_len\":");
        r.append(u64_to_string(self.home_len as u64).as_str());
        r.append(", \"proj_conf\":");
        r.append(get_setting(props, "proj_conf", "{}").as_str());
        r.append(", \"ai_server_url\":\"");
        r.append(json_encode(get_setting(props, "ai_server_url", "").as_str()).as_str());
        r.append("\",\n            \"colapsed_dirs\":\"");
        r.append(json_encode(get_setting(props, "colapsed_dirs", "").as_str()).as_str());
        r.append("\"\n        }");
        r
    }
}


/// A plain text answer.
#[derive(Debug)]
pub struct PageStuff {
    pub content: String,
}

impl PageStuff {
    pub fn main_load(&self) -> (r: Result<String, String>)
        ensures
            r matches Ok(c) && c@ == self.content@,
    {
        Ok(self.content.clone())
    }

    pub fn content_type(&self) -> (r: String)
        ensures
            r@ == "text/plain"@,
    {
        String::from_str("text/plain")
    }

    pub fn name(&self) -> (r: String)
        ensures
            r@ == "None"@,
    {
        String::from_str("None")
    }
}

/// A plain text answer that reports a missing page.
#[derive(Debug)]
pub struct PageStuffE {
    pub content: String,
}

impl PageStuffE {
    pub fn main_load(&self) -> (r: Result<String, String>)
        ensures
            r matches Ok(c) && c@ == self.content@,
    {
        Ok(self.content.clone())
    }

    pub fn status(&self) -> (r: Option<(u16, &'static str)>)
        ensures
            r matches Some((code, text)) && code == 404 && text@ == "Not found"@,
    {
        Some((404, "Not found"))
    }

    pub fn content_type(&self) -> (r: String)
        ensures
            r@ == "text/plain"@,
    {
        String::from_str("text/plain")
    }

    pub fn name(&self) -> (r: String)
        ensures
            r@ == "None"@,
    {
        String::from_str("None")
    }
}

/// A JSON answer with a name.
pub struct JsonStuff {
    pub json: String,
    pub name: String,
}

impl JsonStuff {
    pub fn main_load(&self) -> (r: Result<String, String>)
        ensures
            r matches Ok(c) && c@ == self.json@,
    {
        Ok(self.json.clone())
    }

    pub fn name(&self) -> (r: String)
        ensures
            r@ == self.name@,
    {
        self.name.clone()
    }

    pub fn content_type(&self) -> (r: String)
        ensures
            r@ == "application/json"@,
    {
        String::from_str("application/json")
    }
}

/// The JSON tree of the files of a project.
#[derive(Debug)]
pub struct JsonData {
    pub file: PageFile,
}

/// The JSON list of the projects.
#[derive(Debug)]
pub struct JsonSess {
    pub file: PageFile,
}

/// The JSON list of the directories of a directory.
#[derive(Debug)]
pub struct JsonDirs {
    pub file: PageFile,
}

/// The JSON list of the directories of a project.
#[derive(Debug)]
pub struct JsonProj {
    pub file: PageFile,
}

/// The JSON list of the changed files of a project under git.
#[derive(Debug)]
pub struct JsonVCS {
    pub dir: PageFile,
    pub home: String,
}

/// The error of the changed-files list where no git work tree covers the project.
pub fn no_vcs_text() -> (r: String)
    ensures
        r@ == "No VCS established for the repository yet. Try 'git init' first."@,
{
    String::from_str("No VCS established for the repository yet. Try 'git init' first.")
}

/// The content type of the JSON answers.
pub fn json_content_type() -> (r: String)
    ensures
        r@ == "application/json"@,
{
    String::from_str("application/json")
}

/// The content type of pages that do not name one.
pub fn default_content_type() -> (r: String)
    ensures
        r@ == "text/html"@,
{
    String::from_str("text/html")
}

/// A part of a page, answered without template processing.
#[derive(Debug)]
pub struct PageFrag {
    pub fragment: PageStuff,
    pub params: Param,
}

impl PageFrag {
    pub fn main_load(&self) -> (r: Result<String, String>)
        ensures
            r matches Ok(c) && c@ == self.fragment.content@,
    {
        Ok(self.fragment.content.clone())
    }

    /// The name of the fragment: request parameter `name`, or empty.
    pub fn name(&self) -> (r: String)
        ensures
            r@ == match lookup(self.params.params_view(), "name"@) {
                Some(n) => n,
                None => Seq::<char>::empty(),
            },
    {
        match self.params.param("name") {
            Some(n) => n,
            None => String::new(),
        }
    }
}

/// A redirection to the main page of a session.
#[derive(Debug)]
pub struct Redirect {
    pub session: Option<String>,
}

/// The place a new session of the main page is opened at.
pub open spec fn spec_location(path_info: Seq<char>, session: Option<Seq<char>>, id: Seq<char>) -> Seq<char> {
    "/rustcgi/rustcgi"@ + path_info + "?session="@ + spec_url_encode(
        match session {
            Some(s) => s,
            None => Seq::<char>::empty(),
        },
    ) + "&id="@ + id
}

impl Redirect {
    pub fn main_load(&self) -> (r: Result<String, String>)
        ensures
            r matches Ok(c) && c@ == "redirect"@,
    {
        Ok(String::from_str("redirect"))
    }

    /// The `Location` header, given the random page id and the request's path info.
    pub fn get_extra(&self, id: &str, path_info: &str) -> (r: Option<Vec<(String, String)>>)
        ensures
            r matches Some(v) && pair_views(v@) == seq![
                ("Location"@, spec_location(path_info@, opt_string_view(self.session), id@)),
            ],
    {
        let s = match &self.session {
            Some(s) => s.clone(),
            None => String::new(),
        };
        let mut loc = String::from_str("/rustcgi/rustcgi");
        loc.append(path_info);
        loc.append("?session=");
        loc.append(url_encode(s.as_str()).as_str());
        loc.append("&id=");
        loc.append(id);
        let mut v: Vec<(String, String)> = Vec::new();
        v.push((String::from_str("Location"), loc));
        assert(pair_views(v@) =~= seq![
            ("Location"@, spec_location(path_info@, opt_string_view(self.session), id@)),
        ]);
        Some(v)
    }

    pub fn status(&self) -> (r: Option<(u16, &'static str)>)
        ensures
            r matches Some((code, text)) && code == 302 && text@ == "Found"@,
    {
        Some((302, "Found"))
    }

    pub fn name(&self) -> (r: String)
        ensures
            r@ == "None"@,
    {
        String::from_str("None")
    }
}


/// The path of `src` after the first `n` bytes and one more (the separator),
/// as byte slicing gives it.
pub open spec fn rel_path(src: Seq<char>, n: int) -> Seq<char> {
    let b = vstd::utf8::encode_utf8(src);
    vstd::utf8::decode_utf8(b.subrange(n + 1, b.len() as int))
}

/// Whether a path can be cut after its first `n + 1` bytes.
pub open spec fn cut_ok(src: Seq<char>, n: int) -> bool {
    vstd::utf8::is_char_boundary(vstd::utf8::encode_utf8(src), n + 1)
}

/// The path after the first `n + 1` bytes (`&src[n + 1..]`).
fn cut_path(src: &str, n: usize) -> (r: String)
    requires
        cut_ok(src@, n as int),
        n < usize::MAX,
    ensures
        r@ == rel_path(src@, n as int),
{
    let (_a, b) = src.split_at(n + 1);
    proof {
        vstd::utf8::encode_utf8_decode_utf8(b@);
    }
    b.to_owned()
}

/// The path of `src` below a directory whose path is `n` bytes long, as the
/// web writes it: where `sep` is a backslash (Windows), each backslash turned into `/`.
pub open spec fn web_rel_path(src: Seq<char>, n: int, sep: char) -> Seq<char> {
    if sep == '\\' {
        spec_web_separator(rel_path(src, n))
    } else {
        rel_path(src, n)
    }
}

/// The path after the first `n + 1` bytes, as the web writes it where `sep`
/// separates path components.
fn web_path(src: &str, n: usize, sep: char) -> (r: String)
    requires
        cut_ok(src@, n as int),
        n < usize::MAX,
    ensures
        r@ == web_rel_path(src@, n as int, sep),
{
    let rel = cut_path(src, n);
    if sep == '\\' {
        to_web_separator(rel)
    } else {
        rel
    }
}

/// The path of a file below a directory whose path is `n` bytes long
/// (`&src[n + 1..]`), as the web writes paths on the target: on Windows with
/// `/` in place of each backslash.
pub fn rel_web_path(src: &str, n: usize) -> (r: String)
    requires
        cut_ok(src@, n as int),
        n < usize::MAX,
    ensures
        r@ == web_rel_path(src@, n as int, '/') || r@ == web_rel_path(src@, n as int, '\\'),
{
    web_path(src, n, crate::main_separator())
}

/// One use point of a name as a JSON object.
pub open spec fn use_json(r: RefView, n: int, sep: char) -> Seq<char> {
    "{\"name\":\""@ + spec_json_encode(r.name) + "\",\"path\":\""@ + spec_json_encode(
        web_rel_path(r.src, n, sep),
    ) + "\",\"line\":"@ + dec_digits(r.line as nat) + ",\"pos\":"@ + dec_digits(r.column as nat)
        + "}"@
}

/// Use points as JSON objects separated by commas.
pub open spec fn uses_json(refs: Seq<RefView>, n: int, sep: char) -> Seq<char>
    decreases refs.len(),
{
    if refs.len() == 0 {
        seq![]
    } else if refs.len() == 1 {
        use_json(refs[0], n, sep)
    } else {
        uses_json(refs.drop_last(), n, sep) + ","@ + use_json(refs.last(), n, sep)
    }
}

pub open spec fn ref_views(v: Seq<Reference>) -> Seq<RefView> {
    Seq::new(v.len(), |i: int| v[i]@)
}

fn push_use(acc: &mut String, r: &Reference, n: usize, sep: char)
    requires
        cut_ok(r.src@, n as int),
        n < usize::MAX,
    ensures
        final(acc)@ == old(acc)@ + use_json(r@, n as int, sep),
{
    acc.append("{\"name\":\"");
    acc.append(json_encode(r.name.as_str()).as_str());
    acc.append("\",\"path\":\"");
    let rel = web_path(r.src.as_str(), n, sep);
    acc.append(json_encode(rel.as_str()).as_str());
    acc.append("\",\"line\":");
    acc.append(u64_to_string(r.line as u64).as_str());
    acc.append(",\"pos\":");
    acc.append(u64_to_string(r.column as u64).as_str());
    acc.append("}");
}

/// The use points of a name as JSON objects, their paths relative to a directory
/// whose path is `exemp_len` bytes long, written as the web writes paths on the
/// target: on Windows with `/` in place of each backslash.
pub fn refs_to_json(refs: &Vec<Reference>, exemp_len: usize) -> (r: String)
    requires
        exemp_len < usize::MAX,
        forall|i: int| 0 <= i < refs@.len() ==> cut_ok(#[trigger] refs@[i].src@, exemp_len as int),
    ensures
        r@ == uses_json(ref_views(refs@), exemp_len as int, '/') || r@ == uses_json(
            ref_views(refs@),
            exemp_len as int,
            '\\',
        ),
{
    refs_to_json_with(refs, exemp_len, crate::main_separator())
}

/// The use points of a name as JSON objects, where `sep` separates path components.
pub fn refs_to_json_with(refs: &Vec<Reference>, exemp_len: usize, sep: char) -> (r: String)
    requires
        exemp_len < usize::MAX,
        forall|i: int| 0 <= i < refs@.len() ==> cut_ok(#[trigger] refs@[i].src@, exemp_len as int),
    ensures
        r@ == uses_json(ref_views(refs@), exemp_len as int, sep),
{
    let ghost rv = ref_views(refs@);
    let mut acc = String::new();
    let mut i: usize = 0;
    assert(rv.take(0) =~= Seq::<RefView>::empty());
    while i < refs.len()
        invariant
            rv == ref_views(refs@),
            exemp_len < usize::MAX,
            forall|k: int| 0 <= k < refs@.len() ==> cut_ok(#[trigger] refs@[k].src@, exemp_len as int),
            i <= refs.len(),
            acc@ == uses_json(rv.take(i as int), exemp_len as int, sep),
        decreases refs.len() - i,
    {
        assert(rv.take(i + 1).drop_last() =~= rv.take(i as int));
        assert(rv.take(i + 1).last() == refs@[i as int]@);
        assert(cut_ok(refs@[i as int].src@, exemp_len as int));
        if i > 0 {
            acc.append(",");
        }
        push_use(&mut acc, &refs[i], exemp_len, sep);
        i = i + 1;
    }
    assert(rv.take(refs.len() as int) =~= rv);
    acc
}

/// The access references named `key`, in order.
pub open spec fn uses_of(refs: Seq<RefView>, key: Seq<char>) -> Seq<RefView>
    decreases refs.len(),
{
    if refs.len() == 0 {
        seq![]
    } else {
        let init = uses_of(refs.drop_last(), key);
        let r = refs.last();
        if r.type_of_use == RefType::Access && r.name == key {
            init.push(r)
        } else {
            init
        }
    }
}

/// Whether a reference is a call site of the name `key`.
pub open spec fn is_use_of(key: Seq<char>) -> spec_fn(RefView) -> bool {
    |r: RefView| r.type_of_use == RefType::Access && r.name == key
}

/// The use points listed for a name are all the call sites of that name, in
/// input order, none dropped and none added: exactly the references that are
/// accesses named `key`. So the "use" array of a listed function holds one
/// object for each access in the input whose name is the function's encoded
/// name.
pub proof fn law_uses_are_all_call_sites(refs: Seq<RefView>, key: Seq<char>)
    ensures
        uses_of(refs, key) == refs.filter(is_use_of(key)),
        uses_of(refs, key).len() == refs.filter(is_use_of(key)).len(),
    decreases refs.len(),
{
    reveal_with_fuel(Seq::filter, 1);
    if refs.len() > 0 {
        law_uses_are_all_call_sites(refs.drop_last(), key);
    }
}

/// Whether a function definition is listed: it lies below `dir` and has a name.
pub open spec fn listed(r: RefView, dir: Seq<char>) -> bool {
    &&& r.type_of_use == RefType::Function
    &&& r.src.len() >= dir.len()
    &&& r.src.take(dir.len() as int) == dir
    &&& r.name.len() > 0
}

pub open spec fn scope_json(r: RefView) -> Seq<char> {
    match r.scope {
        Some(sc) => ",\"trait\":\""@ + sc.name + "\", \"data\":\""@ + match sc.name_for {
            Some(f) => f,
            None => Seq::<char>::empty(),
        } + "\""@,
        None => seq![],
    }
}

/// A function definition with its use points as a JSON object.
pub open spec fn fn_json(r: RefView, all: Seq<RefView>, n: int, sep: char) -> Seq<char> {
    "{\"name\":\""@ + spec_json_encode(r.name) + "\",\"path\":\""@ + spec_json_encode(
        web_rel_path(r.src, n, sep),
    ) + "\""@ + scope_json(r) + ",\"line\":"@ + dec_digits(r.line as nat) + ", \"col\":"@
        + dec_digits(r.column as nat) + ", \"use\":["@ + uses_json(
        uses_of(all, spec_json_encode(r.name)),
        n,
        sep,
    ) + "]}"@
}

/// The listed function definitions among `fns` as JSON objects separated by commas.
pub open spec fn fns_json(fns: Seq<RefView>, all: Seq<RefView>, dir: Seq<char>, sep: char) -> Seq<char>
    decreases fns.len(),
{
    if fns.len() == 0 {
        seq![]
    } else {
        let acc = fns_json(fns.drop_last(), all, dir, sep);
        let r = fns.last();
        if listed(r, dir) {
            (if acc.len() > 0 {
                acc + ","@
            } else {
                acc
            }) + fn_json(r, all, utf8_len(dir), sep)
        } else {
            acc
        }
    }
}

/// The cross reference list of a project: each function definition below `dir`
/// with the places its name is used at.
pub open spec fn spec_crossref_json(all: Seq<RefView>, dir: Seq<char>, sep: char) -> Seq<char> {
    "["@ + fns_json(all, all, dir, sep) + "]"@
}

/// What the cross reference list needs of its input: the paths that it cuts
/// below `dir` can be cut there.
pub open spec fn crossref_input_ok(all: Seq<RefView>, dir: Seq<char>) -> bool {
    &&& utf8_len(dir) < usize::MAX
    &&& forall|i: int| 0 <= i < all.len() && listed(#[trigger] all[i], dir) ==> {
        &&& cut_ok(all[i].src, utf8_len(dir))
        &&& forall|j: int|
            0 <= j < all.len() && all[j].type_of_use == RefType::Access && all[j].name
                == spec_json_encode(all[i].name) ==> cut_ok(#[trigger] all[j].src, utf8_len(dir))
    }
}

/// Every access named `key` can be cut after `n + 1` bytes.
pub open spec fn uses_ok(refs: Seq<RefView>, key: Seq<char>, n: int) -> bool {
    forall|j: int|
        0 <= j < refs.len() && refs[j].type_of_use == RefType::Access && refs[j].name == key
            ==> cut_ok(#[trigger] refs[j].src, n)
}

proof fn lemma_uses_of_cut(refs: Seq<RefView>, key: Seq<char>, n: int)
    requires
        uses_ok(refs, key, n),
    ensures
        forall|k: int| 0 <= k < uses_of(refs, key).len() ==> cut_ok(#[trigger] uses_of(refs, key)[k].src, n),
    decreases refs.len(),
{
    if refs.len() > 0 {
        let init = refs.drop_last();
        assert forall|j: int|
            0 <= j < init.len() && init[j].type_of_use == RefType::Access && init[j].name == key
                implies cut_ok(#[trigger] init[j].src, n) by {
            assert(init[j] == refs[j]);
        }
        lemma_uses_of_cut(init, key, n);
        let u = uses_of(refs, key);
        assert forall|k: int| 0 <= k < u.len() implies cut_ok(#[trigger] u[k].src, n) by {
            if k < uses_of(init, key).len() {
                assert(u[k] == uses_of(init, key)[k]);
            } else {
                assert(u[k] == refs[refs.len() - 1]);
            }
        }
    }
}

fn uses_of_exec(refs: &Vec<Reference>, key: &str) -> (r: Vec<Reference>)
    ensures
        ref_views(r@) == uses_of(ref_views(refs@), key@),
{
    let ghost rv = ref_views(refs@);
    let k = key.to_owned();
    let mut out: Vec<Reference> = Vec::new();
    let mut i: usize = 0;
    assert(rv.take(0) =~= Seq::<RefView>::empty());
    assert(ref_views(out@) =~= Seq::<RefView>::empty());
    while i < refs.len()
        invariant
            rv == ref_views(refs@),
            k@ == key@,
            i <= refs.len(),
            ref_views(out@) == uses_of(rv.take(i as int), key@),
        decreases refs.len() - i,
    {
        assert(rv.take(i + 1).drop_last() =~= rv.take(i as int));
        assert(rv.take(i + 1).last() == refs@[i as int]@);
        if refs[i].type_of_use == RefType::Access && refs[i].name == k {
            let ghost before = ref_views(out@);
            let c = copy_reference(&refs[i]);
            out.push(c);
            assert(ref_views(out@) =~= before.push(refs@[i as int]@));
        }
        i = i + 1;
    }
    assert(rv.take(refs.len() as int) =~= rv);
    out
}

fn copy_opt(o: &Option<String>) -> (r: Option<String>)
    ensures
        opt_string_view(r) == opt_string_view(*o),
{
    match o {
        Some(s) => Some(s.clone()),
        None => None,
    }
}

/// A copy of a reference.
pub fn copy_reference(r: &Reference) -> (c: Reference)
    ensures
        c@ == r@,
{
    let scope = match &r.scope {
        Some(sc) => Some(
            crate::crossref::Scope {
                name: sc.name.clone(),
                name_for: copy_opt(&sc.name_for),
                type_of_scope: sc.type_of_scope,
            },
        ),
        None => None,
    };
    Reference {
        name: r.name.clone(),
        src: r.src.clone(),
        line: r.line,
        column: r.column,
        type_of_use: r.type_of_use,
        scope,
    }
}

fn push_fn_head(acc: &mut String, r: &Reference, n: usize, sep: char)
    requires
        n < usize::MAX,
        cut_ok(r@.src, n as int),
    ensures
        final(acc)@ == old(acc)@ + "{\"name\":\""@ + spec_json_encode(r@.name) + "\",\"path\":\""@
            + spec_json_encode(web_rel_path(r@.src, n as int, sep)) + "\""@ + scope_json(r@),
{
    acc.append("{\"name\":\"");
    acc.append(json_encode(r.name.as_str()).as_str());
    acc.append("\",\"path\":\"");
    let rel = web_path(r.src.as_str(), n, sep);
    acc.append(json_encode(rel.as_str()).as_str());
    acc.append("\"");
    let ghost mid = acc@;
    match &r.scope {
        Some(sc) => {
            acc.append(",\"trait\":\"");
            acc.append(sc.name.as_str());
            acc.append("\", \"data\":\"");
            match &sc.name_for {
                Some(f) => {
                    acc.append(f.as_str());
                },
                None => {},
            }
            acc.append("\"");
        },
        None => {},
    }
    assert(acc@ =~= mid + scope_json(r@));
}

#[verifier::rlimit(40)]
fn push_fn_json(acc: &mut String, r: &Reference, all: &Vec<Reference>, n: usize, sep: char)
    requires
        n < usize::MAX,
        cut_ok(r@.src, n as int),
        uses_ok(ref_views(all@), spec_json_encode(r@.name), n as int),
    ensures
        final(acc)@ == old(acc)@ + fn_json(r@, ref_views(all@), n as int, sep),
{
    push_fn_head(acc, r, n, sep);
    let ghost head = acc@;
    acc.append(",\"line\":");
    acc.append(u64_to_string(r.line as u64).as_str());
    acc.append(", \"col\":");
    acc.append(u64_to_string(r.column as u64).as_str());
    acc.append(", \"use\":[");
    let enc = json_encode(r.name.as_str());
    let uses = uses_of_exec(all, enc.as_str());
    proof {
        lemma_uses_of_cut(ref_views(all@), enc@, n as int);
        assert forall|k: int| 0 <= k < uses@.len() implies cut_ok(#[trigger] uses@[k].src@, n as int) by {
            assert(ref_views(uses@)[k] == uses@[k]@);
            assert(uses_of(ref_views(all@), enc@)[k] == uses@[k]@);
            assert(0 <= k < uses_of(ref_views(all@), enc@).len());
            assert(cut_ok(uses_of(ref_views(all@), enc@)[k].src, n as int));
            assert(uses@[k]@.src == uses@[k].src@);
        }
    }
    let uj = refs_to_json_with(&uses, n, sep);
    acc.append(uj.as_str());
    acc.append("]}");
    assert(acc@ =~= head + ",\"line\":"@ + dec_digits(r@.line as nat) + ", \"col\":"@ + dec_digits(
        r@.column as nat,
    ) + ", \"use\":["@ + uses_json(uses_of(ref_views(all@), spec_json_encode(r@.name)), n as int, sep)
        + "]}"@);
}

/// The cross reference list of a project from the references of all its files:
/// the function definitions below `dir`, each with its use points, their paths
/// written as the web writes paths on the target (on Windows with `/` in place
/// of each backslash).
pub fn crossref_json(all: &Vec<Reference>, dir: &str) -> (r: String)
    requires
        crossref_input_ok(ref_views(all@), dir@),
    ensures
        r@ == spec_crossref_json(ref_views(all@), dir@, '/') || r@ == spec_crossref_json(
            ref_views(all@),
            dir@,
            '\\',
        ),
{
    crossref_json_with(all, dir, crate::main_separator())
}

/// The cross reference list, where `sep` separates path components.
pub fn crossref_json_with(all: &Vec<Reference>, dir: &str, sep: char) -> (r: String)
    requires
        crossref_input_ok(ref_views(all@), dir@),
    ensures
        r@ == spec_crossref_json(ref_views(all@), dir@, sep),
{
    let ghost av = ref_views(all@);
    let n = dir.len();
    let mut acc = String::new();
    let mut i: usize = 0;
    assert(av.take(0) =~= Seq::<RefView>::empty());
    while i < all.len()
        invariant
            av == ref_views(all@),
            n == utf8_len(dir@),
            crossref_input_ok(av, dir@),
            i <= all.len(),
            acc@ == fns_json(av.take(i as int), av, dir@, sep),
        decreases all.len() - i,
    {
        assert(av.take(i + 1).drop_last() =~= av.take(i as int));
        assert(av.take(i + 1).last() == all@[i as int]@);
        let r = &all[i];
        let is_listed = r.type_of_use == RefType::Function && starts_with_str(r.src.as_str(), dir)
            && r.name.unicode_len() > 0;
        if is_listed {
            assert(listed(av[i as int], dir@));
            assert(uses_ok(av, spec_json_encode(av[i as int].name), n as int));
            if acc.unicode_len() > 0 {
                acc.append(",");
            }
            push_fn_json(&mut acc, r, all, n, sep);
        }
        i = i + 1;
    }
    assert(av.take(all.len() as int) =~= av);
    let mut res = String::from_str("[");
    res.append(acc.as_str());
    res.append("]");
    res
}


/// A directory and its sub-directories, as read from the file system.
pub struct DirNode {
    pub name: String,
    pub is_dir: bool,
    pub children: Vec<DirNode>,
}

/// The entries of a directory listed in the directory list of a project.
pub open spec fn dir_listed(c: DirNode) -> bool {
    c.is_dir && c.name@ != ".git"@
}

pub open spec fn with_parent(parent: Option<Seq<char>>, name: Seq<char>) -> Seq<char> {
    match parent {
        Some(p) => p + "/"@ + name,
        None => name,
    }
}

/// The listed entries of `cs` and of their sub-directories, separated by commas.
pub open spec fn dir_list(cs: Seq<DirNode>, parent: Option<Seq<char>>) -> Seq<char>
    decreases cs,
{
    if cs.len() == 0 {
        seq![]
    } else {
        let acc = dir_list(cs.subrange(0, cs.len() - 1), parent);
        let c = cs[cs.len() - 1];
        if dir_listed(c) {
            (if acc.len() > 0 {
                acc + ","@
            } else {
                acc
            }) + dir_entry(c, parent)
        } else {
            acc
        }
    }
}

/// A listed directory: its path as a JSON string, then its sub-directories.
pub open spec fn dir_entry(c: DirNode, parent: Option<Seq<char>>) -> Seq<char>
    decreases c,
{
    let sub = dir_list(c.children@, Some(with_parent(parent, c.name@)));
    "\""@ + match parent {
        Some(p) => p + "/"@,
        None => Seq::<char>::empty(),
    } + spec_json_encode(c.name@) + "\""@ + if sub.len() > 0 {
        ","@ + sub
    } else {
        Seq::<char>::empty()
    }
}


/// Paths as JSON strings, separated by commas.
pub open spec fn quoted_join(ps: Seq<Seq<char>>) -> Seq<char>
    decreases ps.len(),
{
    if ps.len() == 0 {
        seq![]
    } else {
        let a = quoted_join(ps.drop_last());
        (if a.len() > 0 {
            a + ","@
        } else {
            a
        }) + "\""@ + ps.last() + "\""@
    }
}

/// The paths listed for the directories `cs` below `parent`, in listing
/// order: each listed directory's full path from the listed root, followed by
/// those of its own sub-directories.
pub open spec fn dir_paths(cs: Seq<DirNode>, parent: Option<Seq<char>>) -> Seq<Seq<char>>
    decreases cs,
{
    if cs.len() == 0 {
        seq![]
    } else {
        let acc = dir_paths(cs.subrange(0, cs.len() - 1), parent);
        let c = cs[cs.len() - 1];
        if dir_listed(c) {
            acc + dir_node_paths(c, parent)
        } else {
            acc
        }
    }
}

/// The paths listed for a directory: its own, then its sub-directories'.
pub open spec fn dir_node_paths(c: DirNode, parent: Option<Seq<char>>) -> Seq<Seq<char>>
    decreases c,
{
    seq![
        match parent {
            Some(p) => p + "/"@,
            None => Seq::<char>::empty(),
        } + spec_json_encode(c.name@),
    ] + dir_paths(c.children@, Some(with_parent(parent, c.name@)))
}

proof fn lemma_quoted_join_concat(a: Seq<Seq<char>>, b: Seq<Seq<char>>)
    ensures
        quoted_join(a + b) == if a.len() > 0 && b.len() > 0 {
            quoted_join(a) + ","@ + quoted_join(b)
        } else {
            quoted_join(a) + quoted_join(b)
        },
        quoted_join(a).len() > 0 <==> a.len() > 0,
    decreases b.len(),
{
    reveal_strlit("\"");
    reveal_strlit(",");
    if b.len() == 0 {
        assert(a + b =~= a);
        lemma_quoted_join_nonempty(a);
    } else {
        lemma_quoted_join_concat(a, b.drop_last());
        assert((a + b).drop_last() =~= a + b.drop_last());
        assert((a + b).last() == b.last());
        lemma_quoted_join_nonempty(a);
        lemma_quoted_join_nonempty(b.drop_last());
        lemma_quoted_join_nonempty(b);
        lemma_quoted_join_nonempty(a + b.drop_last());
        if a.len() > 0 && b.drop_last().len() > 0 {
            assert(quoted_join(a + b) =~= quoted_join(a) + ","@ + quoted_join(b));
        } else if a.len() > 0 {
            assert(b.drop_last() =~= Seq::<Seq<char>>::empty());
            assert(quoted_join(a + b) =~= quoted_join(a) + ","@ + quoted_join(b));
        } else {
            assert(quoted_join(a + b) =~= quoted_join(a) + quoted_join(b));
        }
    }
}

proof fn lemma_quoted_join_nonempty(a: Seq<Seq<char>>)
    ensures
        quoted_join(a).len() > 0 <==> a.len() > 0,
{
    reveal_strlit("\"");
}

proof fn lemma_dir_list_paths(cs: Seq<DirNode>, parent: Option<Seq<char>>)
    ensures
        dir_list(cs, parent) == quoted_join(dir_paths(cs, parent)),
    decreases cs,
{
    if cs.len() > 0 {
        let init = cs.subrange(0, cs.len() - 1);
        let c = cs[cs.len() - 1];
        lemma_dir_list_paths(init, parent);
        if dir_listed(c) {
            lemma_dir_entry_paths(c, parent);
            lemma_quoted_join_concat(dir_paths(init, parent), dir_node_paths(c, parent));
        }
    }
}

proof fn lemma_dir_entry_paths(c: DirNode, parent: Option<Seq<char>>)
    ensures
        dir_entry(c, parent) == quoted_join(dir_node_paths(c, parent)),
    decreases c,
{
    reveal_strlit("\"");
    let q = Some(with_parent(parent, c.name@));
    lemma_dir_list_paths(c.children@, q);
    let first = match parent {
        Some(p) => p + "/"@,
        None => Seq::<char>::empty(),
    } + spec_json_encode(c.name@);
    let rest = dir_paths(c.children@, q);
    lemma_quoted_join_concat(seq![first], rest);
    assert(seq![first].drop_last() =~= Seq::<Seq<char>>::empty());
    assert(quoted_join(Seq::<Seq<char>>::empty()) == Seq::<char>::empty());
    assert(seq![first].last() == first);
    assert(quoted_join(seq![first]) == Seq::<char>::empty() + "\""@ + first + "\""@);
    assert(quoted_join(seq![first]) =~= "\""@ + first + "\""@);
    assert(dir_entry(c, parent) =~= quoted_join(seq![first] + rest));
}

proof fn lemma_dir_paths_prefix(cs: Seq<DirNode>, p: Seq<char>)
    ensures
        forall|i: int|
            0 <= i < dir_paths(cs, Some(p)).len() ==> (p + "/"@).is_prefix_of(
                #[trigger] dir_paths(cs, Some(p))[i],
            ),
    decreases cs,
{
    if cs.len() > 0 {
        let init = cs.subrange(0, cs.len() - 1);
        let c = cs[cs.len() - 1];
        lemma_dir_paths_prefix(init, p);
        if dir_listed(c) {
            lemma_dir_node_prefix(c, p);
            let a = dir_paths(init, Some(p));
            let b = dir_node_paths(c, Some(p));
            assert forall|i: int| 0 <= i < (a + b).len() implies (p + "/"@).is_prefix_of(
                #[trigger] (a + b)[i],
            ) by {
                if i < a.len() {
                    assert((a + b)[i] == a[i]);
                } else {
                    assert((a + b)[i] == b[i - a.len()]);
                }
            }
        }
    }
}

proof fn lemma_dir_node_prefix(c: DirNode, p: Seq<char>)
    ensures
        forall|i: int|
            0 <= i < dir_node_paths(c, Some(p)).len() ==> (p + "/"@).is_prefix_of(
                #[trigger] dir_node_paths(c, Some(p))[i],
            ),
    decreases c,
{
    reveal_strlit("/");
    let q = p + "/"@ + c.name@;
    lemma_dir_paths_prefix(c.children@, q);
    let first = p + "/"@ + spec_json_encode(c.name@);
    let rest = dir_paths(c.children@, Some(q));
    let all = dir_node_paths(c, Some(p));
    assert(all == seq![first] + rest);
    assert forall|i: int| 0 <= i < all.len() implies (p + "/"@).is_prefix_of(#[trigger] all[i]) by {
        let pre = p + "/"@;
        if i == 0 {
            assert(all[0] == first);
            assert(pre =~= first.subrange(0, pre.len() as int));
        } else {
            let s = rest[i - 1];
            assert(all[i] == s);
            assert((q + "/"@).is_prefix_of(s));
            assert(q + "/"@ =~= s.subrange(0, q.len() as int + 1));
            assert(pre =~= (q + "/"@).subrange(0, pre.len() as int));
            assert(pre =~= s.subrange(0, pre.len() as int));
        }
    }
}

/// The directory list gives each listed directory's full path from the listed
/// root: the text is the JSON strings of `dir_paths`, in order, and every path
/// listed below a directory `p` starts with `p/`, at every depth. So the entry
/// of a sub-directory starts with its parent's full path and `/`.
pub proof fn law_dir_list_full_paths(cs: Seq<DirNode>, parent: Option<Seq<char>>)
    ensures
        dir_list(cs, parent) == quoted_join(dir_paths(cs, parent)),
        parent matches Some(p) ==> forall|i: int|
            0 <= i < dir_paths(cs, parent).len() ==> (p + "/"@).is_prefix_of(
                #[trigger] dir_paths(cs, parent)[i],
            ),
        forall|k: int, i: int|
            0 <= k < cs.len() && dir_listed(cs[k]) && 0 <= i < dir_paths(
                cs[k].children@,
                Some(with_parent(parent, cs[k].name@)),
            ).len() ==> (with_parent(parent, cs[k].name@) + "/"@).is_prefix_of(
                #[trigger] dir_paths(cs[k].children@, Some(with_parent(parent, cs[k].name@)))[i],
            ),
{
    lemma_dir_list_paths(cs, parent);
    if let Some(p) = parent {
        lemma_dir_paths_prefix(cs, p);
    }
    assert forall|k: int, i: int|
        0 <= k < cs.len() && dir_listed(cs[k]) && 0 <= i < dir_paths(
            cs[k].children@,
            Some(with_parent(parent, cs[k].name@)),
        ).len() implies (with_parent(parent, cs[k].name@) + "/"@).is_prefix_of(
        #[trigger] dir_paths(cs[k].children@, Some(with_parent(parent, cs[k].name@)))[i],
    ) by {
        lemma_dir_paths_prefix(cs[k].children@, with_parent(parent, cs[k].name@));
    }
}

pub open spec fn opt_ref_string(o: Option<&String>) -> Option<Seq<char>> {
    match o {
        Some(p) => Some(p@),
        None => None,
    }
}

fn dir_list_exec(cs: &Vec<DirNode>, parent: Option<&String>) -> (r: String)
    ensures
        r@ == dir_list(cs@, opt_ref_string(parent)),
    decreases cs@,
{
    let ghost pv = opt_ref_string(parent);
    let mut acc = String::new();
    let mut i: usize = 0;
    while i < cs.len()
        invariant
            i <= cs.len(),
            pv == opt_ref_string(parent),
            acc@ == dir_list(cs@.subrange(0, i as int), pv),
        decreases cs.len() - i,
    {
        let ghost sub = cs@.subrange(0, i + 1);
        assert(sub.subrange(0, sub.len() - 1) =~= cs@.subrange(0, i as int));
        assert(sub[sub.len() - 1] == cs@[i as int]);
        let c = &cs[i];
        let git = String::from_str(".git");
        if c.is_dir && !(c.name == git) {
            let e = dir_entry_exec(c, parent);
            if acc.unicode_len() > 0 {
                acc.append(",");
            }
            acc.append(e.as_str());
        }
        i = i + 1;
    }
    assert(cs@.subrange(0, cs.len() as int) =~= cs@);
    acc
}

fn dir_entry_exec(c: &DirNode, parent: Option<&String>) -> (r: String)
    ensures
        r@ == dir_entry(*c, opt_ref_string(parent)),
    decreases *c,
{
    let mut path = match parent {
        Some(p) => {
            let mut s = p.clone();
            s.append("/");
            s
        },
        None => String::new(),
    };
    let mut r = String::from_str("\"");
    r.append(path.as_str());
    r.append(json_encode(c.name.as_str()).as_str());
    r.append("\"");
    path.append(c.name.as_str());
    let sub = dir_list_exec(&c.children, Some(&path));
    if sub.unicode_len() > 0 {
        r.append(",");
        r.append(sub.as_str());
    }
    r
}

/// The JSON list of the directories of a project: each directory below `node`,
/// but `.git`, as its path relative to `node` (the path to its parent as it is,
/// its own name JSON-encoded), in the order in which the tree lists them.
pub fn recurse_dirs(node: &DirNode, parent: Option<&String>) -> (r: String)
    ensures
        r@ == if dir_listed(*node) {
            dir_list(node.children@, opt_ref_string(parent))
        } else {
            Seq::<char>::empty()
        },
{
    let git = String::from_str(".git");
    if node.is_dir && !(node.name == git) {
        dir_list_exec(&node.children, parent)
    } else {
        String::new()
    }
}


/// What the file system says a path is.
#[derive(Debug, PartialEq, Eq, Structural, Clone, Copy)]
pub enum FileKind {
    Dead,
    File,
    Dir,
}

/// A file or directory of a project, as read from the file system.
pub struct FileNode {
    pub name: String,
    pub kind: FileKind,
    pub children: Vec<FileNode>,
}

pub open spec fn depth(n: FileNode) -> nat
    decreases n,
{
    1 + max_depth(n.children@)
}

pub open spec fn max_depth(cs: Seq<FileNode>) -> nat
    decreases cs,
{
    if cs.len() == 0 {
        0
    } else {
        let a = max_depth(cs.subrange(0, cs.len() - 1));
        let b = depth(cs[cs.len() - 1]);
        if a >= b {
            a
        } else {
            b
        }
    }
}

pub open spec fn node_names(cs: Seq<FileNode>) -> Seq<Seq<char>> {
    Seq::new(cs.len(), |i: int| cs[i].name@)
}

/// Number of leading indices in `order` whose key comes at or before `k`.
pub open spec fn count_le(order: Seq<usize>, keys: Seq<Seq<char>>, k: Seq<char>) -> nat
    decreases order.len(),
{
    if order.len() > 0 && lex_le(keys[order[0] as int], k) {
        1 + count_le(order.drop_first(), keys, k)
    } else {
        0
    }
}

/// The first `n` indices of `keys`, sorted by key; among equal keys an earlier
/// index comes first (insertion of each index after those that come at or
/// before it).
pub open spec fn sort_order(keys: Seq<Seq<char>>, n: nat) -> Seq<usize>
    decreases n,
{
    if n == 0 {
        seq![]
    } else {
        let t = sort_order(keys, (n - 1) as nat);
        t.insert(count_le(t, keys, keys[n - 1]) as int, (n - 1) as usize)
    }
}

/// The entries of a directory in the order of their names.
pub open spec fn sorted_children(cs: Seq<FileNode>) -> Seq<FileNode> {
    let o = sort_order(node_names(cs), cs.len());
    Seq::new(o.len(), |k: int| cs[o[k] as int])
}

pub open spec fn file_head(n: FileNode) -> Seq<char> {
    "{\"name\": \""@ + spec_json_encode(n.name@) + "\", \"type\": \""@
}

pub open spec fn is_folder(n: FileNode) -> bool {
    n.kind == FileKind::Dir && n.name@ != ".git"@
}

/// The JSON tree of a file or directory, with `f` levels to go.
pub open spec fn file_json_f(n: FileNode, f: nat) -> Seq<char>
    decreases f, 0nat,
{
    if is_folder(n) {
        if f == 0 {
            seq![]
        } else {
            file_head(n) + "folder\", \"children\": ["@ + files_join_f(
                sorted_children(n.children@),
                (f - 1) as nat,
            ) + "]}"@
        }
    } else if n.kind == FileKind::File {
        file_head(n) + "file\"}"@
    } else {
        file_head(n) + "dead\"}"@
    }
}

pub open spec fn files_join_f(cs: Seq<FileNode>, f: nat) -> Seq<char>
    decreases f, cs.len() + 1,
{
    if cs.len() == 0 {
        seq![]
    } else {
        let acc = files_join_f(cs.drop_last(), f);
        (if acc.len() > 0 {
            acc + ","@
        } else {
            acc
        }) + file_json_f(cs.last(), f)
    }
}

/// The JSON tree of a file or directory: name and type; a directory (but
/// `.git`) also lists its entries, in the order of their names.
pub open spec fn file_json(n: FileNode) -> Seq<char> {
    file_json_f(n, depth(n))
}

proof fn lemma_depth_member(cs: Seq<FileNode>, j: int)
    requires
        0 <= j < cs.len(),
    ensures
        depth(cs[j]) <= max_depth(cs),
    decreases cs.len(),
{
    if j < cs.len() - 1 {
        lemma_depth_member(cs.subrange(0, cs.len() - 1), j);
        assert(cs.subrange(0, cs.len() - 1)[j] == cs[j]);
    }
}

proof fn lemma_count_le_bound(order: Seq<usize>, keys: Seq<Seq<char>>, k: Seq<char>)
    ensures
        count_le(order, keys, k) <= order.len(),
    decreases order.len(),
{
    if order.len() > 0 {
        lemma_count_le_bound(order.drop_first(), keys, k);
    }
}

proof fn lemma_sort_order_range(keys: Seq<Seq<char>>, n: nat)
    ensures
        sort_order(keys, n).len() == n,
        forall|k: int| 0 <= k < n ==> #[trigger] sort_order(keys, n)[k] < n,
    decreases n,
{
    if n > 0 {
        let t = sort_order(keys, (n - 1) as nat);
        lemma_sort_order_range(keys, (n - 1) as nat);
        lemma_count_le_bound(t, keys, keys[n - 1]);
        let p = count_le(t, keys, keys[n - 1]) as int;
        assert forall|k: int| 0 <= k < n implies #[trigger] sort_order(keys, n)[k] < n by {
            if k < p {
                assert(sort_order(keys, n)[k] == t[k]);
            } else if k > p {
                assert(sort_order(keys, n)[k] == t[k - 1]);
            }
        }
    }
}

/// The order in which the entries of a directory are listed.
fn sort_order_exec(cs: &Vec<FileNode>) -> (r: Vec<usize>)
    ensures
        r@ == sort_order(node_names(cs@), cs@.len()),
{
    let ghost keys = node_names(cs@);
    let mut order: Vec<usize> = Vec::new();
    let mut i: usize = 0;
    while i < cs.len()
        invariant
            keys == node_names(cs@),
            i <= cs.len(),
            order@ == sort_order(keys, i as nat),
        decreases cs.len() - i,
    {
        proof {
            lemma_sort_order_range(keys, i as nat);
        }
        let mut p: usize = 0;
        assert(order@.skip(0) =~= order@);
        while p < order.len() && lex_le_str(cs[order[p]].name.as_str(), cs[i].name.as_str())
            invariant
                keys == node_names(cs@),
                i < cs.len(),
                order@ == sort_order(keys, i as nat),
                order@.len() == i,
                forall|k: int| 0 <= k < i ==> #[trigger] order@[k] < i,
                p <= order.len(),
                count_le(order@, keys, keys[i as int]) == p + count_le(order@.skip(p as int), keys, keys[i as int]),
            decreases order.len() - p,
        {
            assert(order@.skip(p as int).drop_first() =~= order@.skip(p + 1));
            assert(order@.skip(p as int)[0] == order@[p as int]);
            p = p + 1;
        }
        proof {
            if p < order.len() {
                assert(order@.skip(p as int)[0] == order@[p as int]);
            }
        }
        order.insert(p, i);
        i = i + 1;
    }
    order
}

fn file_json_exec(n: &FileNode, Ghost(f): Ghost<nat>) -> (r: String)
    requires
        depth(*n) <= f,
    ensures
        r@ == file_json_f(*n, f),
    decreases f,
{
    let mut r = String::from_str("{\"name\": \"");
    r.append(json_encode(n.name.as_str()).as_str());
    r.append("\", \"type\": \"");
    let git = String::from_str(".git");
    if n.kind == FileKind::Dir && !(n.name == git) {
        r.append("folder\", \"children\": [");
        let order = sort_order_exec(&n.children);
        let ghost cs = n.children@;
        let ghost sc = sorted_children(cs);
        proof {
            lemma_sort_order_range(node_names(cs), cs.len());
        }
        let mut acc = String::new();
        let mut k: usize = 0;
        assert(sc.take(0) =~= Seq::<FileNode>::empty());
        while k < order.len()
            invariant
                cs == n.children@,
                sc == sorted_children(cs),
                order@ == sort_order(node_names(cs), cs.len()),
                order@.len() == cs.len(),
                forall|j: int| 0 <= j < cs.len() ==> #[trigger] order@[j] < cs.len(),
                depth(*n) <= f,
                f >= 1,
                k <= order.len(),
                acc@ == files_join_f(sc.take(k as int), (f - 1) as nat),
            decreases order.len() - k,
        {
            let idx = order[k];
            proof {
                lemma_depth_member(cs, idx as int);
                assert(sc[k as int] == cs[idx as int]);
                assert(sc.take(k + 1).drop_last() =~= sc.take(k as int));
                assert(sc.take(k + 1).last() == cs[idx as int]);
            }
            let e = file_json_exec(&n.children[idx], Ghost((f - 1) as nat));
            if acc.unicode_len() > 0 {
                acc.append(",");
            }
            acc.append(e.as_str());
            k = k + 1;
        }
        assert(sc.take(order.len() as int) =~= sc);
        r.append(acc.as_str());
        r.append("]}");
    } else if n.kind == FileKind::File {
        r.append("file\"}");
    } else {
        r.append("dead\"}");
    }
    r
}

/// The JSON tree of the files of a project.
pub fn recurse_files(n: &FileNode) -> (r: String)
    ensures
        r@ == file_json(*n),
{
    file_json_exec(n, Ghost(depth(*n)))
}

} // verus!
