//! Finding the subsystem that a name belongs to in a knowledge file: `## `
//! lines name subsystems, the lines below one list the names that belong to
//! it, and `# ` lines are titles.
use vstd::prelude::*;

use crate::text::{
    eq_str, spec_trim, starts_with_str, strip_prefix_or_keep, strip_prefix_or_keep_str, strs_view,
    trim, words, words_of,
};

verus! {

broadcast use vstd::string::group_string_axioms;

pub open spec fn begins_with(s: Seq<char>, prefix: Seq<char>) -> bool {
    s.len() >= prefix.len() && s.take(prefix.len() as int) == prefix
}

/// The subsystem of `name` in `lines`, where `current` is the subsystem that
/// the lines before them opened: a subsystem title equal to `name` gives that
/// subsystem; a line that lists `name` among its words gives the open one.
pub open spec fn lookup_from(lines: Seq<Seq<char>>, name: Seq<char>, current: Option<Seq<char>>) -> Option<
    Seq<char>,
>
    decreases lines.len(),
{
    if lines.len() == 0 {
        None
    } else {
        let l = lines[0];
        let rest = lines.drop_first();
        if begins_with(l, "# "@) {
            lookup_from(rest, name, current)
        } else if begins_with(l, "## "@) {
            let sub = spec_trim(strip_prefix_or_keep(l, "## "@));
            if name == sub {
                Some(sub)
            } else {
                lookup_from(rest, name, Some(sub))
            }
        } else if words(l, false).contains(name) {
            current
        } else {
            lookup_from(rest, name, current)
        }
    }
}

fn contains_word(ws: &Vec<String>, name: &str) -> (r: bool)
    ensures
        r == strs_view(ws@).contains(name@),
{
    let mut i: usize = 0;
    while i < ws.len()
        invariant
            i <= ws.len(),
            forall|k: int| 0 <= k < i ==> strs_view(ws@)[k] != name@,
        decreases ws.len() - i,
    {
        if eq_str(ws[i].as_str(), name) {
            assert(strs_view(ws@)[i as int] == name@);
            return true;
        }
        i = i + 1;
    }
    false
}

/// The subsystem that `name` belongs to, given the lines of the knowledge file.
pub fn lookup(lines: &Vec<String>, name: &str) -> (r: Option<String>)
    ensures
        match r {
            Some(s) => lookup_from(strs_view(lines@), name@, None) == Some(s@),
            None => lookup_from(strs_view(lines@), name@, None) is None,
        },
{
    let ghost lv = strs_view(lines@);
    let mut current: Option<String> = None;
    let mut i: usize = 0;
    assert(lv.skip(0) =~= lv);
    while i < lines.len()
        invariant
            lv == strs_view(lines@),
            i <= lines.len(),
            lookup_from(lv, name@, None) == lookup_from(
                lv.skip(i as int),
                name@,
                match current {
                    Some(c) => Some(c@),
                    None => None,
                },
            ),
        decreases lines.len() - i,
    {
        let ghost rest = lv.skip(i as int);
        assert(rest[0] == lines@[i as int]@);
        assert(rest.drop_first() =~= lv.skip(i + 1));
        let line = lines[i].as_str();
        if starts_with_str(line, "# ") {
        } else if starts_with_str(line, "## ") {
            let sub = trim(strip_prefix_or_keep_str(line, "## ").as_str());
            if eq_str(name, sub.as_str()) {
                return Some(sub);
            }
            current = Some(sub);
        } else {
            let ws = words_of(line, false);
            if contains_word(&ws, name) {
                return current;
            }
        }
        i = i + 1;
    }
    None
}

} // verus!
