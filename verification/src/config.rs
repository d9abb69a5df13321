//! Where the studio keeps its settings, and the paths of project files.
use vstd::prelude::*;

use crate::strmap::{StrMap, lookup, opt_string_view};
use crate::text::{
    joined_lines, lemma_lines_of_joined, lemma_no_char_concat, lemma_split_once_at, spec_lines,
    split_once, split_once_char, str_chars, strs_view, sub_chars,
};
use crate::web::prop_lines;

verus! {

broadcast use vstd::string::group_string_axioms;

/// Prefix of the names of project settings files.
pub const SETTINGS_PREF: &'static str = "settings";

/// Joins `p` onto `base` as `PathBuf::push` does on Unix: an absolute `p`
/// replaces `base`, else a `/` separates them where `base` does not end in one.
pub open spec fn path_push(base: Seq<char>, p: Seq<char>) -> Seq<char> {
    if p.len() > 0 && p[0] == '/' {
        p
    } else if base.len() > 0 && base.last() != '/' {
        base + seq!['/'] + p
    } else {
        base + p
    }
}

pub fn push_path(base: &mut String, p: &str)
    ensures
        final(base)@ == path_push(old(base)@, p@),
{
    let pv = str_chars(p);
    if pv.len() > 0 && pv[0] == '/' {
        *base = p.to_owned();
        return;
    }
    let bv = str_chars(base.as_str());
    if bv.len() > 0 && bv[bv.len() - 1] != '/' {
        base.append("/");
        proof {
            reveal_strlit("/");
            assert("/"@ =~= seq!['/']);
        }
    }
    base.append(p);
}

/// `s` without trailing separators and trailing `/.` parts, as path components see it.
pub open spec fn strip_tail(s: Seq<char>) -> Seq<char>
    decreases s.len(),
{
    if s.len() > 1 && s.last() == '/' {
        strip_tail(s.drop_last())
    } else if s.len() > 1 && s.last() == '.' && s[s.len() - 2] == '/' {
        strip_tail(s.drop_last())
    } else {
        s
    }
}

/// Index where the last part of `t` starts: just after its last `/`.
pub open spec fn last_sep_end(t: Seq<char>) -> int
    decreases t.len(),
{
    if t.len() == 0 {
        0
    } else if t.last() == '/' {
        t.len() as int
    } else {
        last_sep_end(t.drop_last())
    }
}

/// Index of the last `.` in `s`, if any.
pub open spec fn last_dot(s: Seq<char>) -> Option<int>
    decreases s.len(),
{
    if s.len() == 0 {
        None
    } else if s.last() == '.' {
        Some(s.len() - 1)
    } else {
        last_dot(s.drop_last())
    }
}

/// Where the file stem of path `s` ends, if the path has a file name.
pub open spec fn stem_end(s: Seq<char>) -> Option<int> {
    let t = strip_tail(s);
    let k = last_sep_end(t);
    let seg = t.skip(k);
    if seg.len() == 0 || seg == seq!['.'] || seg == seq!['.', '.'] {
        None
    } else {
        match last_dot(seg) {
            Some(d) => if d > 0 {
                Some(k + d)
            } else {
                Some(k + seg.len())
            },
            None => Some(k + seg.len()),
        }
    }
}

/// The path with its extension replaced by `ext` (`PathBuf::set_extension` on Unix).
pub open spec fn spec_set_extension(s: Seq<char>, ext: Seq<char>) -> Seq<char> {
    match stem_end(s) {
        Some(e) => s.take(e) + if ext.len() > 0 {
            seq!['.'] + ext
        } else {
            seq![]
        },
        None => s,
    }
}

proof fn lemma_last_dot_bound(s: Seq<char>)
    ensures
        last_dot(s) matches Some(d) ==> 0 <= d < s.len(),
    decreases s.len(),
{
    if s.len() > 0 {
        lemma_last_dot_bound(s.drop_last());
    }
}

proof fn lemma_strip_tail(s: Seq<char>)
    ensures
        strip_tail(s).len() <= s.len(),
        strip_tail(s) == s.take(strip_tail(s).len() as int),
    decreases s.len(),
{
    if s.len() > 1 && (s.last() == '/' || (s.last() == '.' && s[s.len() - 2] == '/')) {
        lemma_strip_tail(s.drop_last());
        assert(s.drop_last().take(strip_tail(s).len() as int) =~= s.take(strip_tail(s).len() as int));
    } else {
        assert(s.take(s.len() as int) =~= s);
    }
}

fn exec_strip_tail(v: &Vec<char>) -> (n: usize)
    ensures
        n <= v.len(),
        v@.take(n as int) == strip_tail(v@),
{
    let mut n = v.len();
    assert(v@.take(n as int) =~= v@);
    while n > 1 && (v[n - 1] == '/' || (v[n - 1] == '.' && v[n - 2] == '/'))
        invariant
            n <= v.len(),
            strip_tail(v@) == strip_tail(v@.take(n as int)),
        decreases n,
    {
        assert(v@.take(n as int).drop_last() =~= v@.take(n - 1));
        n = n - 1;
    }
    n
}

fn exec_last_sep_end(v: &Vec<char>, n: usize) -> (k: usize)
    requires
        n <= v.len(),
    ensures
        k <= n,
        k == last_sep_end(v@.take(n as int)),
{
    let mut k = n;
    while k > 0 && v[k - 1] != '/'
        invariant
            k <= n <= v.len(),
            last_sep_end(v@.take(n as int)) == last_sep_end(v@.take(k as int)),
        decreases k,
    {
        assert(v@.take(k as int).drop_last() =~= v@.take(k - 1));
        k = k - 1;
    }
    k
}

fn exec_last_dot(v: &Vec<char>, from: usize, to: usize) -> (r: Option<usize>)
    requires
        from <= to <= v.len(),
    ensures
        match last_dot(v@.subrange(from as int, to as int)) {
            Some(d) => r == Some((from + d) as usize),
            None => r is None,
        },
        r matches Some(j) ==> from <= j < to,
{
    let mut j = to;
    while j > from && v[j - 1] != '.'
        invariant
            from <= j <= to <= v.len(),
            last_dot(v@.subrange(from as int, to as int)) == last_dot(v@.subrange(from as int, j as int)),
        decreases j,
    {
        assert(v@.subrange(from as int, j as int).drop_last() =~= v@.subrange(from as int, j - 1));
        j = j - 1;
    }
    if j > from {
        Some(j - 1)
    } else {
        None
    }
}

/// Replaces the extension of a path.
pub fn set_extension(path: &str, ext: &str) -> (r: String)
    ensures
        r@ == spec_set_extension(path@, ext@),
{
    let v = str_chars(path);
    let n = exec_strip_tail(&v);
    let k = exec_last_sep_end(&v, n);
    let ghost t = strip_tail(v@);
    proof {
        lemma_strip_tail(v@);
        assert(t.skip(k as int) =~= v@.subrange(k as int, n as int));
    }
    let seg_len = n - k;
    let is_dot = seg_len == 1 && v[k] == '.';
    let is_dot_dot = seg_len == 2 && v[k] == '.' && v[k + 1] == '.';
    if seg_len == 0 || is_dot || is_dot_dot {
        proof {
            let seg = t.skip(k as int);
            if is_dot {
                assert(seg =~= seq!['.']);
            }
            if is_dot_dot {
                assert(seg =~= seq!['.', '.']);
            }
        }
        return path.to_owned();
    }
    proof {
        let seg = t.skip(k as int);
        if seg_len == 1 {
            assert(seg != seq!['.']) by {
                if seg == seq!['.'] {
                    assert(seg[0] == v@[k as int]);
                }
            }
        }
        if seg_len == 2 {
            assert(seg != seq!['.', '.']) by {
                if seg == seq!['.', '.'] {
                    assert(seg[0] == v@[k as int] && seg[1] == v@[k + 1]);
                }
            }
        }
        if seg_len != 1 {
            assert(seg.len() != seq!['.'].len());
        }
        if seg_len != 2 {
            assert(seg.len() != seq!['.', '.'].len());
        }
    }
    let end = match exec_last_dot(&v, k, n) {
        Some(d) => if d > k {
            d
        } else {
            n
        },
        None => n,
    };
    proof {
        let seg = t.skip(k as int);
        lemma_last_dot_bound(seg);
        assert(t == v@.take(n as int));
        assert(stem_end(path@) == Some(end as int));
    }
    let mut r = sub_chars(&v, 0, end);
    assert(r@ =~= path@.take(end as int));
    if ext.unicode_len() > 0 {
        r.append(".");
        r.append(ext);
        proof {
            reveal_strlit(".");
            assert(path@.take(end as int) + "."@ + ext@ =~= path@.take(end as int) + (seq!['.'] + ext@));
        }
    } else {
        assert(r@ =~= path@.take(end as int) + Seq::<char>::empty());
    }
    r
}

/// The extension of a path (`Path::extension`): what follows the last `.` of
/// its file name, where that `.` is not the name's first character.
pub open spec fn spec_extension(s: Seq<char>) -> Option<Seq<char>> {
    let t = strip_tail(s);
    match stem_end(s) {
        Some(e) => if e < t.len() {
            Some(t.subrange(e + 1, t.len() as int))
        } else {
            None
        },
        None => None,
    }
}

pub fn extension_of(path: &str) -> (r: Option<String>)
    ensures
        match r {
            Some(e) => spec_extension(path@) == Some(e@),
            None => spec_extension(path@) is None,
        },
{
    let v = str_chars(path);
    let n = exec_strip_tail(&v);
    let k = exec_last_sep_end(&v, n);
    let ghost t = strip_tail(v@);
    proof {
        lemma_strip_tail(v@);
        assert(t.skip(k as int) =~= v@.subrange(k as int, n as int));
    }
    let seg_len = n - k;
    let is_dot = seg_len == 1 && v[k] == '.';
    let is_dot_dot = seg_len == 2 && v[k] == '.' && v[k + 1] == '.';
    if seg_len == 0 || is_dot || is_dot_dot {
        proof {
            let seg = t.skip(k as int);
            if is_dot {
                assert(seg =~= seq!['.']);
            }
            if is_dot_dot {
                assert(seg =~= seq!['.', '.']);
            }
        }
        return None;
    }
    proof {
        let seg = t.skip(k as int);
        if seg_len == 1 {
            assert(seg != seq!['.']) by {
                if seg == seq!['.'] {
                    assert(seg[0] == v@[k as int]);
                }
            }
        }
        if seg_len == 2 {
            assert(seg != seq!['.', '.']) by {
                if seg == seq!['.', '.'] {
                    assert(seg[0] == v@[k as int] && seg[1] == v@[k + 1]);
                }
            }
        }
        if seg_len != 1 {
            assert(seg.len() != seq!['.'].len());
        }
        if seg_len != 2 {
            assert(seg.len() != seq!['.', '.'].len());
        }
    }
    let end = match exec_last_dot(&v, k, n) {
        Some(d) => if d > k {
            d
        } else {
            n
        },
        None => n,
    };
    proof {
        let seg = t.skip(k as int);
        lemma_last_dot_bound(seg);
        assert(t == v@.take(n as int));
        assert(stem_end(path@) == Some(end as int));
    }
    if end < n {
        let e = sub_chars(&v, end + 1, n);
        assert(e@ =~= t.subrange(end + 1, t.len() as int));
        Some(e)
    } else {
        None
    }
}

/// The directories of the studio.
pub struct Config {
    pub config_dir: String,
    pub workspace_dir: String,
}

/// The path of a file of a project: the project path (a leading `/` dropped)
/// below the workspace, then the path inside the project.
pub open spec fn spec_real_path(workspace: Seq<char>, project: Seq<char>, inner: Option<Seq<char>>) -> Seq<char> {
    let proj = if project.len() > 0 && project[0] == '/' {
        project.drop_first()
    } else {
        project
    };
    let base = path_push(workspace, proj);
    match inner {
        Some(p) => path_push(base, p),
        None => base,
    }
}

/// The name of a configuration file: `file-proj` for a named project other than
/// `default`, else `file`.
pub open spec fn config_file_name(proj: Option<Seq<char>>, file: Seq<char>) -> Seq<char> {
    match proj {
        Some(p) => if p.len() > 0 && p != "default"@ {
            file + seq!['-'] + p
        } else {
            file
        },
        None => file,
    }
}

pub open spec fn spec_config_path(config_dir: Seq<char>, proj: Option<Seq<char>>, file: Seq<char>, ext: Seq<char>) -> Seq<char> {
    spec_set_extension(path_push(config_dir, config_file_name(proj, file)), ext)
}

/// The directory of the studio's settings under the configured root.
pub open spec fn spec_config_dir(root: Seq<char>) -> Seq<char> {
    path_push(root, ".rds"@)
}

/// The file that may name the workspace directory.
pub open spec fn spec_workspace_file(root: Seq<char>) -> Seq<char> {
    path_push(spec_config_dir(root), ".workspace"@)
}

/// The file that may name the workspace directory under the configured root.
pub fn workspace_file(root: &str) -> (r: String)
    ensures
        r@ == spec_workspace_file(root@),
{
    let mut p = root.to_owned();
    push_path(&mut p, ".rds");
    push_path(&mut p, ".workspace");
    p
}

impl Config {
    /// The directories under the configured root: settings in `.rds`; the
    /// workspace where the workspace file names an existing directory (given
    /// trimmed), else the root itself.
    pub fn from_root(root: &str, workspace: Option<String>) -> (r: Config)
        ensures
            r.config_dir@ == spec_config_dir(root@),
            r.workspace_dir@ == match workspace {
                Some(w) => w@,
                None => root@,
            },
    {
        let mut config_dir = root.to_owned();
        push_path(&mut config_dir, ".rds");
        let workspace_dir = match workspace {
            Some(w) => w,
            None => root.to_owned(),
        };
        Config { config_dir, workspace_dir }
    }

    pub fn new(config_dir: String, workspace_dir: String) -> (r: Config)
        ensures
            r.config_dir@ == config_dir@,
            r.workspace_dir@ == workspace_dir@,
    {
        Config { config_dir, workspace_dir }
    }

    /// The path of `project_path` (and of `in_project_path` inside it) in the workspace.
    pub fn to_real_path(&self, project_path: &str, in_project_path: Option<&String>) -> (r: String)
        ensures
            r@ == spec_real_path(
                self.workspace_dir@,
                project_path@,
                match in_project_path {
                    Some(p) => Some(p@),
                    None => None,
                },
            ),
    {
        let mut res = self.workspace_dir.clone();
        let pv = str_chars(project_path);
        if pv.len() > 0 && pv[0] == '/' {
            let stripped = sub_chars(&pv, 1, pv.len());
            assert(stripped@ =~= project_path@.drop_first());
            push_path(&mut res, stripped.as_str());
        } else {
            push_path(&mut res, project_path);
        }
        if let Some(p) = in_project_path {
            push_path(&mut res, p.as_str());
        }
        res
    }

    /// The path of configuration file `file` of project `proj`, with extension `ext`.
    pub fn get_config_path(&self, proj: &Option<String>, file: &str, ext: &str) -> (r: String)
        ensures
            r@ == spec_config_path(
                self.config_dir@,
                match proj {
                    Some(p) => Some(p@),
                    None => None,
                },
                file@,
                ext@,
            ),
    {
        let mut res = self.config_dir.clone();
        let name = match proj {
            Some(p) => {
                let dflt = String::from_str("default");
                if p.unicode_len() > 0 && !(*p == dflt) {
                    let mut n = file.to_owned();
                    n.append("-");
                    n.append(p.as_str());
                    proof {
                        reveal_strlit("-");
                        assert("-"@ =~= seq!['-']);
                    }
                    n
                } else {
                    file.to_owned()
                }
            },
            None => file.to_owned(),
        };
        push_path(&mut res, name.as_str());
        set_extension(res.as_str(), ext)
    }
}

/// The properties that the lines of a properties file define: `name=value`,
/// split at the first `=`; lines that start with `#` are comments, lines without
/// `=` are skipped.
pub open spec fn prop_pairs(ls: Seq<Seq<char>>) -> Seq<(Seq<char>, Seq<char>)>
    decreases ls.len(),
{
    if ls.len() == 0 {
        seq![]
    } else {
        let init = prop_pairs(ls.drop_last());
        let l = ls.last();
        if l.len() > 0 && l[0] == '#' {
            init
        } else {
            match split_once(l, '=') {
                Some(p) => init.push(p),
                None => init,
            }
        }
    }
}

/// Reads the properties from the lines of a properties file.
pub fn read_props(lines: &Vec<String>) -> (r: StrMap)
    ensures
        r@ == prop_pairs(strs_view(lines@)),
{
    let ghost lv = strs_view(lines@);
    let mut props = StrMap::new();
    let mut i: usize = 0;
    while i < lines.len()
        invariant
            lv == strs_view(lines@),
            i <= lines.len(),
            props@ == prop_pairs(lv.take(i as int)),
        decreases lines.len() - i,
    {
        assert(lv.take(i + 1).drop_last() =~= lv.take(i as int));
        assert(lv.take(i + 1).last() == lines@[i as int]@);
        let line = &lines[i];
        let cv = str_chars(line.as_str());
        if cv.len() > 0 && cv[0] == '#' {
        } else {
            match split_once_char(line.as_str(), '=') {
                Some((name, val)) => {
                    props.insert(name, val);
                },
                None => {},
            }
        }
        i = i + 1;
    }
    assert(lv.take(lines.len() as int) =~= lv);
    props
}

/// The home of a project as its settings give it: property `project_home`,
/// with a leading `~` dropped.
pub open spec fn spec_project_home(props: Seq<(Seq<char>, Seq<char>)>) -> Option<Seq<char>> {
    match lookup(props, "project_home"@) {
        Some(h) => if h.len() > 0 && h[0] == '~' {
            Some(h.drop_first())
        } else {
            Some(h)
        },
        None => None,
    }
}

pub fn project_home(props: &StrMap) -> (r: Option<String>)
    ensures
        opt_string_view(r) == spec_project_home(props@),
{
    match props.get("project_home") {
        Some(h) => {
            let v = str_chars(h.as_str());
            if v.len() > 0 && v[0] == '~' {
                let r = sub_chars(&v, 1, v.len());
                assert(r@ =~= h@.drop_first());
                Some(r)
            } else {
                Some(h)
            }
        },
        None => None,
    }
}

/// A property that a property file can hold and give back: its name holds no
/// `=` and does not begin with `#`, and neither part holds a line break.
pub open spec fn prop_storable(p: (Seq<char>, Seq<char>)) -> bool {
    &&& !p.0.contains('=')
    &&& !(p.0.len() > 0 && p.0[0] == '#')
    &&& !p.0.contains('\n') && !p.0.contains('\r')
    &&& !p.1.contains('\n') && !p.1.contains('\r')
}

pub open spec fn prop_line(p: (Seq<char>, Seq<char>)) -> Seq<char> {
    p.0 + seq!['='] + p.1
}

pub open spec fn prop_line_seq(ps: Seq<(Seq<char>, Seq<char>)>) -> Seq<Seq<char>> {
    Seq::new(ps.len(), |i: int| prop_line(ps[i]))
}

proof fn lemma_prop_lines_joined(ps: Seq<(Seq<char>, Seq<char>)>)
    ensures
        prop_lines(ps) == joined_lines(prop_line_seq(ps)),
    decreases ps.len(),
{
    reveal_strlit("=");
    reveal_strlit("\n");
    if ps.len() > 0 {
        lemma_prop_lines_joined(ps.drop_last());
            assert(prop_line_seq(ps).drop_last() =~= prop_line_seq(ps.drop_last()));
        assert(prop_lines(ps) =~= joined_lines(prop_line_seq(ps)));
    } else {
        assert(joined_lines(prop_line_seq(ps)) =~= Seq::<char>::empty());
    }
}

proof fn lemma_prop_pairs_of_lines(hdr: Seq<char>, ps: Seq<(Seq<char>, Seq<char>)>)
    requires
        hdr.len() > 0 && hdr[0] == '#',
        forall|i: int| 0 <= i < ps.len() ==> prop_storable(#[trigger] ps[i]),
    ensures
        prop_pairs(seq![hdr] + prop_line_seq(ps)) == ps,
    decreases ps.len(),
{
    if ps.len() == 0 {
        let ls = seq![hdr] + prop_line_seq(ps);
        assert(ls =~= seq![hdr]);
        assert(ls.drop_last() =~= Seq::<Seq<char>>::empty());
        assert(ls.last() == hdr);
        assert(prop_pairs(ls.drop_last()) == Seq::<(Seq<char>, Seq<char>)>::empty());
        assert(prop_pairs(ls) == Seq::<(Seq<char>, Seq<char>)>::empty());
        assert(ps =~= Seq::<(Seq<char>, Seq<char>)>::empty());
    } else {
        let init = ps.drop_last();
        assert forall|i: int| 0 <= i < init.len() implies prop_storable(#[trigger] init[i]) by {
            assert(init[i] == ps[i]);
        }
        lemma_prop_pairs_of_lines(hdr, init);
        let ls = seq![hdr] + prop_line_seq(ps);
        assert(ls.drop_last() =~= seq![hdr] + prop_line_seq(init));
        let p = ps.last();
        assert(prop_storable(p)) by {
            assert(ps[ps.len() - 1] == p);
        }
        assert(ls.last() == prop_line(p));
        lemma_split_once_at(p.0, p.1, '=');
        if p.0.len() > 0 {
            assert(prop_line(p)[0] == p.0[0]);
        } else {
            assert(prop_line(p)[0] == '=');
        }
        assert(prop_pairs(ls) == init.push(p));
        assert(init.push(p) =~= ps);
    }
}

/// A property file written by `props_text` reads back, line by line, as the
/// properties it was written from.
pub proof fn law_props_read_back(stamp: Seq<char>, ps: Seq<(Seq<char>, Seq<char>)>)
    requires
        !stamp.contains('\n'),
        !stamp.contains('\r'),
        forall|i: int| 0 <= i < ps.len() ==> prop_storable(#[trigger] ps[i]),
    ensures
        prop_pairs(spec_lines("# property file on "@ + stamp + "\n"@ + prop_lines(ps))) == ps,
{
    reveal_strlit("# property file on ");
    reveal_strlit("\n");
    let hdr = "# property file on "@ + stamp;
    let ls = seq![hdr] + prop_line_seq(ps);
    lemma_prop_lines_joined(ps);
    assert("# property file on "@ + stamp + "\n"@ + prop_lines(ps) == joined_lines(ls)) by {
        lemma_joined_prepend(hdr, prop_line_seq(ps));
    }
    let title = "# property file on "@;
    assert(!title.contains('\n') && !title.contains('\r')) by {
        assert forall|i: int| 0 <= i < title.len() implies title[i] != '\n' && title[i] != '\r' by {}
    }
    lemma_no_char_concat(title, stamp, '\n');
    lemma_no_char_concat(title, stamp, '\r');
    assert forall|i: int| 0 <= i < ls.len() implies !(#[trigger] ls[i]).contains('\n') && !ls[i].contains('\r') by {
        if i == 0 {
            assert(ls[0] == hdr);
        } else {
            let p = ps[i - 1];
            assert(ls[i] == prop_line(p));
            assert(prop_storable(p));
            lemma_no_char_concat(p.0, seq!['='], '\n');
            lemma_no_char_concat(p.0 + seq!['='], p.1, '\n');
            lemma_no_char_concat(p.0, seq!['='], '\r');
            lemma_no_char_concat(p.0 + seq!['='], p.1, '\r');
            assert(!seq!['='].contains('\n')) by {
                assert(seq!['='][0] != '\n');
            }
            assert(!seq!['='].contains('\r')) by {
                assert(seq!['='][0] != '\r');
            }
        }
    }
    lemma_lines_of_joined(ls);
    assert(hdr[0] == '#');
    lemma_prop_pairs_of_lines(hdr, ps);
}

proof fn lemma_joined_prepend(h: Seq<char>, rest: Seq<Seq<char>>)
    ensures
        h + seq!['\n'] + joined_lines(rest) == joined_lines(seq![h] + rest),
    decreases rest.len(),
{
    if rest.len() == 0 {
        assert(seq![h] + rest =~= seq![h]);
        assert(seq![h].drop_last() =~= Seq::<Seq<char>>::empty());
        assert(seq![h].last() == h);
        assert(joined_lines(Seq::<Seq<char>>::empty()) == Seq::<char>::empty());
        assert(joined_lines(seq![h]) =~= h + seq!['\n']);
        assert(h + seq!['\n'] + joined_lines(rest) =~= joined_lines(seq![h]));
    } else {
        lemma_joined_prepend(h, rest.drop_last());
        assert((seq![h] + rest).drop_last() =~= seq![h] + rest.drop_last());
        assert((seq![h] + rest).last() == rest.last());
        assert(h + seq!['\n'] + joined_lines(rest) =~= joined_lines(seq![h] + rest));
    }
}

} // verus!
