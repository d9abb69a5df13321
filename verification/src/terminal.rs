//! The web terminal's own rules: which session a request names, the file of
//! saved sessions, and the alias definitions.
use vstd::prelude::*;

use crate::text::{
    all_digits, dec_digits, is_digit, lemma_no_char_concat, lemma_parse_padded, lemma_split_once_at,
    parse_u32, push_char, spec_parse_u32, spec_trim,
    spec_trim_quotes, split_once, split_once_char, starts_with_str, str_chars, strip_prefix_or_keep,
    strip_prefix_or_keep_str, strs_view, sub_chars, trim, trim_quotes, u64_to_padded, words, words_of, zero_pad,
};

verus! {

broadcast use vstd::string::group_string_axioms;

/// A character written with a backslash before it in the sessions file.
pub open spec fn needs_escape(c: char) -> bool {
    c == ':' || c == '\\' || c == ' ' || c == '!'
}

pub open spec fn esc_char(c: char) -> Seq<char> {
    if needs_escape(c) {
        seq!['\\', c]
    } else {
        seq![c]
    }
}

/// `s` with a backslash before each `:`, `\`, space and `!`.
pub open spec fn spec_esc(s: Seq<char>) -> Seq<char>
    decreases s.len(),
{
    if s.len() == 0 {
        seq![]
    } else {
        spec_esc(s.drop_last()) + esc_char(s.last())
    }
}

/// Escapes a path for the sessions file.
pub fn esc_string(string: String) -> (r: String)
    ensures
        r@ == spec_esc(string@),
{
    let mut res = String::new();
    for c in it: string.as_str().chars()
        invariant
            it.seq() == string@,
            res@ == spec_esc(it.seq().take(it.index() as int)),
    {
        let ghost before = it.seq().take(it.index() as int);
        if c == ':' || c == '\\' || c == ' ' || c == '!' {
            push_char(&mut res, '\\');
        }
        push_char(&mut res, c);
        assert(it.seq().take(it.index() + 1).drop_last() =~= before);
        assert(res@ =~= spec_esc(it.seq().take(it.index() + 1)));
    }
    assert(string@.take(string@.len() as int) =~= string@);
    res
}

/// Reads an escaped text back: a backslash stands for the character after it.
pub open spec fn spec_unesc(t: Seq<char>) -> Seq<char>
    decreases t.len(),
{
    if t.len() == 0 {
        seq![]
    } else if t[0] == '\\' && t.len() >= 2 {
        seq![t[1]] + spec_unesc(t.skip(2))
    } else {
        seq![t[0]] + spec_unesc(t.skip(1))
    }
}

proof fn lemma_esc_concat(a: Seq<char>, b: Seq<char>)
    ensures
        spec_esc(a + b) == spec_esc(a) + spec_esc(b),
    decreases b.len(),
{
    if b.len() == 0 {
        assert(a + b =~= a);
        assert(spec_esc(a) + spec_esc(b) =~= spec_esc(a));
    } else {
        lemma_esc_concat(a, b.drop_last());
        assert((a + b).drop_last() =~= a + b.drop_last());
        assert((a + b).last() == b.last());
        assert(spec_esc(a + b) =~= spec_esc(a) + spec_esc(b));
    }
}

proof fn lemma_unesc_esc(s: Seq<char>)
    ensures
        spec_unesc(spec_esc(s)) == s,
    decreases s.len(),
{
    if s.len() > 0 {
        let c = s[0];
        let rest = s.drop_first();
        assert(s =~= seq![c] + rest);
        lemma_esc_concat(seq![c], rest);
        assert(seq![c].drop_last() =~= Seq::<char>::empty());
        assert(seq![c].last() == c);
        assert(spec_esc(Seq::<char>::empty()) == Seq::<char>::empty());
        assert(spec_esc(seq![c]) == spec_esc(seq![c].drop_last()) + esc_char(c));
        assert(spec_esc(seq![c]) =~= esc_char(c));
        lemma_unesc_esc(rest);
        let t = esc_char(c) + spec_esc(rest);
        if needs_escape(c) {
            assert(t[0] == '\\' && t[1] == c);
            assert(t.skip(2) =~= spec_esc(rest));
        } else {
            assert(t[0] == c);
            assert(t.skip(1) =~= spec_esc(rest));
        }
        assert(spec_unesc(t) =~= s);
    }
}

/// Escaping loses nothing: a directory can be read back from the text that the
/// sessions file holds for it, so two directories never share one.
pub proof fn law_escape_reads_back(s: Seq<char>, other: Seq<char>)
    ensures
        spec_unesc(spec_esc(s)) == s,
        spec_esc(s) == spec_esc(other) ==> s == other,
{
    lemma_unesc_esc(s);
    lemma_unesc_esc(other);
}

/// The project and the session that a request path names: the path without
/// its leading `/` is split at its first `/`; a leading `webId-` of the
/// session is dropped. With no `/` there is no project and the session is empty.
pub open spec fn spec_session_target(path_info: Seq<char>) -> (Option<Seq<char>>, Seq<char>) {
    let b = if path_info.len() > 0 && path_info[0] == '/' {
        path_info.drop_first()
    } else {
        path_info
    };
    match split_once(b, '/') {
        Some((project, session)) => (Some(project), strip_prefix_or_keep(session, "webId-"@)),
        None => (None, seq![]),
    }
}

pub fn session_target(path_info: &str) -> (r: (Option<String>, String))
    ensures
        (match r.0 {
            Some(p) => Some(p@),
            None => None,
        }, r.1@) == spec_session_target(path_info@),
{
    let v = str_chars(path_info);
    let binding = if v.len() > 0 && v[0] == '/' {
        let b = sub_chars(&v, 1, v.len());
        assert(b@ =~= path_info@.drop_first());
        b
    } else {
        path_info.to_owned()
    };
    match split_once_char(binding.as_str(), '/') {
        Some((project, session)) => {
            let s = strip_prefix_or_keep_str(session.as_str(), "webId-");
            (Some(project), s)
        },
        None => (None, String::new()),
    }
}

/// The directory a saved session starts in: its path without one trailing `/`.
pub open spec fn spec_initial_dir(entry: Seq<char>) -> Seq<char> {
    if entry.len() > 0 && entry.last() == '/' {
        entry.drop_last()
    } else {
        entry
    }
}

pub fn initial_dir(entry: &str) -> (r: String)
    ensures
        r@ == spec_initial_dir(entry@),
{
    let v = str_chars(entry);
    if v.len() > 0 && v[v.len() - 1] == '/' {
        let r = sub_chars(&v, 0, v.len() - 1);
        assert(r@ =~= entry@.drop_last());
        r
    } else {
        entry.to_owned()
    }
}

/// What one line of the sessions file holds.
#[derive(Debug, PartialEq, Eq)]
pub enum SessionLine {
    /// An empty line or a comment.
    Skip,
    /// A line without `=`.
    InvalidDefinition,
    /// A value without `;`.
    InvalidValue,
    /// A session: its key, the year, month and day it was last used (when
    /// the date has a time part), and its directory as the file writes it.
    Entry { key: String, date: Option<(u32, u32, u32)>, cwd: String },
}

pub enum SessionLineView {
    Skip,
    InvalidDefinition,
    InvalidValue,
    Entry { key: Seq<char>, date: Option<(u32, u32, u32)>, cwd: Seq<char> },
}

impl View for SessionLine {
    type V = SessionLineView;

    open spec fn view(&self) -> SessionLineView {
        match self {
            SessionLine::Skip => SessionLineView::Skip,
            SessionLine::InvalidDefinition => SessionLineView::InvalidDefinition,
            SessionLine::InvalidValue => SessionLineView::InvalidValue,
            SessionLine::Entry { key, date, cwd } => SessionLineView::Entry {
                key: key@,
                date: *date,
                cwd: cwd@,
            },
        }
    }
}

/// The first three `-`-separated fields of a date (`splitn(3, '-')`), where
/// there are three.
pub open spec fn date_fields(date: Seq<char>) -> Option<(Seq<char>, Seq<char>, Seq<char>)> {
    match split_once(date, '-') {
        Some((y, rest)) => match split_once(rest, '-') {
            Some((m, d)) => Some((y, m, d)),
            None => None,
        },
        None => None,
    }
}

pub open spec fn parse_or(s: Seq<char>, default: u32) -> u32 {
    match spec_parse_u32(s) {
        Some(v) => v,
        None => default,
    }
}

/// The day of a saved session: the part of the stamp before `T`, read as
/// year, month and day, each with its default where it is no number.
pub open spec fn spec_session_date(stamp: Seq<char>) -> Option<(u32, u32, u32)> {
    match split_once(stamp, 'T') {
        Some((date, _time)) => match date_fields(date) {
            Some((y, m, d)) => Some((parse_or(y, 2025), parse_or(m, 1), parse_or(d, 2))),
            None => None,
        },
        None => None,
    }
}

pub open spec fn is_comment_or_empty(line: Seq<char>) -> bool {
    line.len() == 0 || line[0] == '#'
}

/// A line can be read where a stamp with a time part has a date of at least
/// three fields.
pub open spec fn spec_session_line_ok(line: Seq<char>) -> bool {
    is_comment_or_empty(line) || match split_once(line, '=') {
        Some((_key, val)) => match split_once(val, ';') {
            Some((stamp, _cwd)) => match split_once(stamp, 'T') {
                Some((date, _time)) => date_fields(date) is Some,
                None => true,
            },
            None => true,
        },
        None => true,
    }
}

pub open spec fn spec_session_line(line: Seq<char>) -> SessionLineView {
    if is_comment_or_empty(line) {
        SessionLineView::Skip
    } else {
        match split_once(line, '=') {
            Some((key, val)) => match split_once(val, ';') {
                Some((stamp, cwd)) => SessionLineView::Entry {
                    key,
                    date: spec_session_date(stamp),
                    cwd,
                },
                None => SessionLineView::InvalidValue,
            },
            None => SessionLineView::InvalidDefinition,
        }
    }
}

fn date_fields_of(date: &str) -> (r: Option<(String, String, String)>)
    ensures
        match r {
            Some((y, m, d)) => date_fields(date@) == Some((y@, m@, d@)),
            None => date_fields(date@) is None,
        },
{
    match split_once_char(date, '-') {
        Some((y, rest)) => match split_once_char(rest.as_str(), '-') {
            Some((m, d)) => Some((y, m, d)),
            None => None,
        },
        None => None,
    }
}

/// Whether `parse_session_line` can read the line.
pub fn session_line_ok(line: &str) -> (r: bool)
    ensures
        r == spec_session_line_ok(line@),
{
    let v = str_chars(line);
    if v.len() == 0 || v[0] == '#' {
        return true;
    }
    match split_once_char(line, '=') {
        Some((_key, val)) => match split_once_char(val.as_str(), ';') {
            Some((stamp, _cwd)) => match split_once_char(stamp.as_str(), 'T') {
                Some((date, _time)) => date_fields_of(date.as_str()).is_some(),
                None => true,
            },
            None => true,
        },
        None => true,
    }
}

fn parse_u32_or(s: &str, default: u32) -> (r: u32)
    ensures
        r == parse_or(s@, default),
{
    match parse_u32(s) {
        Some(v) => v,
        None => default,
    }
}

/// Reads one line of the sessions file.
pub fn parse_session_line(line: &str) -> (r: SessionLine)
    requires
        spec_session_line_ok(line@),
    ensures
        r@ == spec_session_line(line@),
{
    let v = str_chars(line);
    if v.len() == 0 || v[0] == '#' {
        return SessionLine::Skip;
    }
    match split_once_char(line, '=') {
        Some((key, val)) => match split_once_char(val.as_str(), ';') {
            Some((stamp, cwd)) => {
                let date = match split_once_char(stamp.as_str(), 'T') {
                    Some((date, _time)) => match date_fields_of(date.as_str()) {
                        Some((y, m, d)) => Some(
                            (
                                parse_u32_or(y.as_str(), 2025),
                                parse_u32_or(m.as_str(), 1),
                                parse_u32_or(d.as_str(), 2),
                            ),
                        ),
                        None => None,
                    },
                    None => None,
                };
                SessionLine::Entry { key, date, cwd }
            },
            None => SessionLine::InvalidValue,
        },
        None => SessionLine::InvalidDefinition,
    }
}

/// The line that saves a session: `key=YYYY-MM-DDThh\:mm\:ss.0000000;` and
/// the escaped directory.
pub open spec fn spec_session_record(
    key: Seq<char>,
    y: u32,
    m: u32,
    d: u32,
    h: u32,
    mm: u32,
    s: u32,
    cwd: Seq<char>,
) -> Seq<char> {
    key + "="@ + zero_pad(y as nat, 4) + "-"@ + zero_pad(m as nat, 2) + "-"@ + zero_pad(d as nat, 2)
        + "T"@ + zero_pad(h as nat, 2) + "\\:"@ + zero_pad(mm as nat, 2) + "\\:"@ + zero_pad(
        s as nat,
        2,
    ) + ".0000000;"@ + spec_esc(cwd)
}

pub fn session_record(
    key: &str,
    y: u32,
    m: u32,
    d: u32,
    h: u32,
    mm: u32,
    s: u32,
    cwd: String,
) -> (r: String)
    ensures
        r@ == spec_session_record(key@, y, m, d, h, mm, s, cwd@),
{
    let mut r = String::new();
    r.append(key);
    r.append("=");
    r.append(u64_to_padded(y as u64, 4).as_str());
    r.append("-");
    r.append(u64_to_padded(m as u64, 2).as_str());
    r.append("-");
    r.append(u64_to_padded(d as u64, 2).as_str());
    r.append("T");
    r.append(u64_to_padded(h as u64, 2).as_str());
    r.append("\\:");
    r.append(u64_to_padded(mm as u64, 2).as_str());
    r.append("\\:");
    r.append(u64_to_padded(s as u64, 2).as_str());
    r.append(".0000000;");
    r.append(esc_string(cwd).as_str());
    r
}

/// Two weeks in seconds.
pub const SESSION_LIFETIME: u64 = 1209600;

/// A session is saved again when it was used within the last two weeks and
/// its directory still is one.
pub fn session_kept(last: u64, now: u64, is_dir: bool) -> (r: bool)
    requires
        now >= SESSION_LIFETIME,
    ensures
        r == (last > now - SESSION_LIFETIME && is_dir),
{
    last > now - SESSION_LIFETIME && is_dir
}

/// The alias that one line of the aliases file defines: after trimming, a
/// line that is neither empty nor a comment, split at its first `=`, whose
/// name begins with `alias `; the name trimmed, the value without its quotes
/// split into words.
pub open spec fn spec_alias_of(line: Seq<char>) -> Option<(Seq<char>, Seq<Seq<char>>)> {
    let t = spec_trim(line);
    if t.len() == 0 || t[0] == '#' {
        None
    } else {
        match split_once(t, '=') {
            Some((name, value)) => if name.len() >= "alias "@.len() && name.take(
                "alias "@.len() as int,
            ) == "alias "@ {
                Some(
                    (
                        spec_trim(strip_prefix_or_keep(name, "alias "@)),
                        words(spec_trim_quotes(value), true),
                    ),
                )
            } else {
                None
            },
            None => None,
        }
    }
}

/// The aliases that the lines define, in order; a later one of a name
/// replaces an earlier one.
pub open spec fn spec_aliases(lines: Seq<Seq<char>>) -> Seq<(Seq<char>, Seq<Seq<char>>)>
    decreases lines.len(),
{
    if lines.len() == 0 {
        seq![]
    } else {
        match spec_alias_of(lines.last()) {
            Some(a) => spec_aliases(lines.drop_last()).push(a),
            None => spec_aliases(lines.drop_last()),
        }
    }
}

pub open spec fn aliases_view(v: Seq<(String, Vec<String>)>) -> Seq<(Seq<char>, Seq<Seq<char>>)> {
    Seq::new(v.len(), |i: int| (v[i].0@, strs_view(v[i].1@)))
}

fn alias_of(line: &str) -> (r: Option<(String, Vec<String>)>)
    ensures
        match r {
            Some((n, w)) => spec_alias_of(line@) == Some((n@, strs_view(w@))),
            None => spec_alias_of(line@) is None,
        },
{
    let t = trim(line);
    let v = str_chars(t.as_str());
    if v.len() == 0 || v[0] == '#' {
        return None;
    }
    match split_once_char(t.as_str(), '=') {
        Some((name, value)) => {
            if starts_with_str(name.as_str(), "alias ") {
                let n = strip_prefix_or_keep_str(name.as_str(), "alias ");
                let n = trim(n.as_str());
                let q = trim_quotes(value.as_str());
                let words = words_of(q.as_str(), true);
                Some((n, words))
            } else {
                None
            }
        },
        None => None,
    }
}

/// Reads the alias definitions of an aliases file, given as its lines.
pub fn parse_aliases(lines: &Vec<String>) -> (r: Vec<(String, Vec<String>)>)
    ensures
        aliases_view(r@) == spec_aliases(strs_view(lines@)),
{
    let ghost lv = strs_view(lines@);
    let mut res: Vec<(String, Vec<String>)> = Vec::new();
    let mut i: usize = 0;
    while i < lines.len()
        invariant
            lv == strs_view(lines@),
            i <= lines.len(),
            aliases_view(res@) == spec_aliases(lv.take(i as int)),
        decreases lines.len() - i,
    {
        assert(lv.take(i + 1).drop_last() =~= lv.take(i as int));
        assert(lv.take(i + 1).last() == lines@[i as int]@);
        match alias_of(lines[i].as_str()) {
            Some(a) => {
                let ghost before = aliases_view(res@);
                res.push(a);
                assert(aliases_view(res@) =~= before.push((a.0@, strs_view(a.1@))));
            },
            None => {},
        }
        i = i + 1;
    }
    assert(lv.take(lines.len() as int) =~= lv);
    res
}

proof fn lemma_digits_no(s: Seq<char>, c: char)
    requires
        all_digits(s),
        !is_digit(c),
    ensures
        !s.contains(c),
{
    if s.contains(c) {
        let i = choose|i: int| 0 <= i < s.len() && s[i] == c;
        assert(is_digit(s[i]));
    }
}

spec fn date_part(y: u32, m: u32, d: u32) -> Seq<char> {
    zero_pad(y as nat, 4) + seq!['-'] + zero_pad(m as nat, 2) + seq!['-'] + zero_pad(d as nat, 2)
}

spec fn time_part(h: u32, mm: u32, s: u32) -> Seq<char> {
    zero_pad(h as nat, 2) + seq!['\\', ':'] + zero_pad(mm as nat, 2) + seq!['\\', ':'] + zero_pad(
        s as nat,
        2,
    ) + seq!['.', '0', '0', '0', '0', '0', '0', '0']
}

proof fn lemma_one_char_no(a: char, c: char)
    requires
        a != c,
    ensures
        !seq![a].contains(c),
{
    if seq![a].contains(c) {
        assert(seq![a][0] == c);
    }
}

proof fn lemma_date_part(y: u32, m: u32, d: u32)
    ensures
        !date_part(y, m, d).contains(';'),
        !date_part(y, m, d).contains('T'),
        date_fields(date_part(y, m, d)) == Some(
            (zero_pad(y as nat, 4), zero_pad(m as nat, 2), zero_pad(d as nat, 2)),
        ),
{
    let zy = zero_pad(y as nat, 4);
    let zm = zero_pad(m as nat, 2);
    let zd = zero_pad(d as nat, 2);
    lemma_parse_padded(y, 4);
    lemma_parse_padded(m, 2);
    lemma_parse_padded(d, 2);
    lemma_one_char_no('-', ';');
    lemma_one_char_no('-', 'T');
    lemma_digits_no(zy, ';');
    lemma_digits_no(zm, ';');
    lemma_digits_no(zd, ';');
    lemma_digits_no(zy, 'T');
    lemma_digits_no(zm, 'T');
    lemma_digits_no(zd, 'T');
    lemma_digits_no(zy, '-');
    lemma_digits_no(zm, '-');
    lemma_no_char_concat(zy, seq!['-'], ';');
    lemma_no_char_concat(zy + seq!['-'], zm, ';');
    lemma_no_char_concat(zy + seq!['-'] + zm, seq!['-'], ';');
    lemma_no_char_concat(zy + seq!['-'] + zm + seq!['-'], zd, ';');
    lemma_no_char_concat(zy, seq!['-'], 'T');
    lemma_no_char_concat(zy + seq!['-'], zm, 'T');
    lemma_no_char_concat(zy + seq!['-'] + zm, seq!['-'], 'T');
    lemma_no_char_concat(zy + seq!['-'] + zm + seq!['-'], zd, 'T');
    assert(date_part(y, m, d) =~= zy + seq!['-'] + (zm + seq!['-'] + zd));
    lemma_split_once_at(zy, zm + seq!['-'] + zd, '-');
    lemma_split_once_at(zm, zd, '-');
}

proof fn lemma_time_part(h: u32, mm: u32, s: u32)
    ensures
        !time_part(h, mm, s).contains(';'),
{
    let zh = zero_pad(h as nat, 2);
    let zmm = zero_pad(mm as nat, 2);
    let zs = zero_pad(s as nat, 2);
    lemma_parse_padded(h, 2);
    lemma_parse_padded(mm, 2);
    lemma_parse_padded(s, 2);
    lemma_digits_no(zh, ';');
    lemma_digits_no(zmm, ';');
    lemma_digits_no(zs, ';');
    let sep = seq!['\\', ':'];
    assert(!sep.contains(';')) by {
        assert forall|i: int| 0 <= i < sep.len() implies sep[i] != ';' by {}
    }
    let dots = seq!['.', '0', '0', '0', '0', '0', '0', '0'];
    assert(!dots.contains(';')) by {
        assert forall|i: int| 0 <= i < dots.len() implies dots[i] != ';' by {}
    }
    lemma_no_char_concat(zh, sep, ';');
    lemma_no_char_concat(zh + sep, zmm, ';');
    lemma_no_char_concat(zh + sep + zmm, sep, ';');
    lemma_no_char_concat(zh + sep + zmm + sep, zs, ';');
    lemma_no_char_concat(zh + sep + zmm + sep + zs, dots, ';');
}

#[verifier::spinoff_prover]
#[verifier::rlimit(60)]
proof fn lemma_record_shape(key: Seq<char>, y: u32, m: u32, d: u32, h: u32, mm: u32, s: u32, cwd: Seq<char>)
    ensures
        spec_session_record(key, y, m, d, h, mm, s, cwd) == key + seq!['='] + ((date_part(y, m, d)
            + seq!['T'] + time_part(h, mm, s)) + seq![';'] + spec_esc(cwd)),
{
    reveal_strlit("=");
    reveal_strlit("-");
    reveal_strlit("T");
    reveal_strlit("\\:");
    reveal_strlit(".0000000;");
    assert(spec_session_record(key, y, m, d, h, mm, s, cwd) =~= key + seq!['='] + ((date_part(
        y,
        m,
        d,
    ) + seq!['T'] + time_part(h, mm, s)) + seq![';'] + spec_esc(cwd)));
}

/// What `parse_session_line` reads from a line that `session_record` wrote:
/// the key, the day of the stamp and the escaped directory, wherever the key
/// holds no `=` and does not begin with `#`.
pub proof fn law_session_record_read_back(
    key: Seq<char>,
    y: u32,
    m: u32,
    d: u32,
    h: u32,
    mm: u32,
    s: u32,
    cwd: Seq<char>,
)
    requires
        !key.contains('='),
        !(key.len() > 0 && key[0] == '#'),
    ensures
        spec_session_line_ok(spec_session_record(key, y, m, d, h, mm, s, cwd)),
        spec_session_line(spec_session_record(key, y, m, d, h, mm, s, cwd))
            == (SessionLineView::Entry { key, date: Some((y, m, d)), cwd: spec_esc(cwd) }),
{
    let date = date_part(y, m, d);
    let time = time_part(h, mm, s);
    let stamp = date + seq!['T'] + time;
    let esc = spec_esc(cwd);
    let val = stamp + seq![';'] + esc;
    let rec = spec_session_record(key, y, m, d, h, mm, s, cwd);
    lemma_record_shape(key, y, m, d, h, mm, s, cwd);
    lemma_date_part(y, m, d);
    lemma_time_part(h, mm, s);
    lemma_parse_padded(y, 4);
    lemma_parse_padded(m, 2);
    lemma_parse_padded(d, 2);
    lemma_split_once_at(key, val, '=');
    assert(rec.len() > 0 && rec[0] != '#') by {
        if key.len() == 0 {
            assert(rec[0] == '=');
        } else {
            assert(rec[0] == key[0]);
        }
    }
    lemma_one_char_no('T', ';');
    lemma_no_char_concat(date, seq!['T'], ';');
    lemma_no_char_concat(date + seq!['T'], time, ';');
    lemma_split_once_at(stamp, esc, ';');
    lemma_split_once_at(date, time, 'T');
}

} // verus!
