//! Encoders for HTML, JSON and URL components, path checks and the page menu.
use vstd::prelude::*;

use crate::config::{extension_of, spec_extension};
use crate::text::{dec_digits, exec_hex_lower, hex_lower, push_char, str_chars, u64_to_padded, u64_to_string, zero_pad};

verus! {

broadcast use vstd::string::group_string_axioms;

/// What `html_encode` writes for one character.
pub open spec fn html_char(c: char) -> Seq<char> {
    if c == '<' {
        seq!['&', 'l', 't', ';']
    } else if c == '>' {
        seq!['&', 'g', 't', ';']
    } else if c == '"' {
        seq!['&', 'q', 'u', 'o', 't', ';']
    } else if c == '\'' {
        seq!['&', '#', '3', '9', ';']
    } else if c == '&' {
        seq!['&', 'a', 'm', 'p', ';']
    } else {
        seq![c]
    }
}

pub open spec fn spec_html_encode(s: Seq<char>) -> Seq<char>
    decreases s.len(),
{
    if s.len() == 0 {
        seq![]
    } else {
        spec_html_encode(s.drop_last()) + html_char(s.last())
    }
}

fn push_all(res: &mut String, cs: &[char])
    ensures
        final(res)@ == old(res)@ + cs@,
{
    let mut i: usize = 0;
    while i < cs.len()
        invariant
            i <= cs.len(),
            res@ == old(res)@ + cs@.take(i as int),
        decreases cs.len() - i,
    {
        push_char(res, cs[i]);
        i = i + 1;
        assert(res@ =~= old(res)@ + cs@.take(i as int));
    }
    assert(cs@.take(cs.len() as int) =~= cs@);
}

fn push_html_char(res: &mut String, c: char)
    ensures
        final(res)@ == old(res)@ + html_char(c),
{
    if c == '<' {
        let a = ['&', 'l', 't', ';'];
        assert(a@ == seq!['&', 'l', 't', ';']);
        push_all(res, a.as_slice());
    } else if c == '>' {
        let a = ['&', 'g', 't', ';'];
        assert(a@ == seq!['&', 'g', 't', ';']);
        push_all(res, a.as_slice());
    } else if c == '"' {
        let a = ['&', 'q', 'u', 'o', 't', ';'];
        assert(a@ == seq!['&', 'q', 'u', 'o', 't', ';']);
        push_all(res, a.as_slice());
    } else if c == '\'' {
        let a = ['&', '#', '3', '9', ';'];
        assert(a@ == seq!['&', '#', '3', '9', ';']);
        push_all(res, a.as_slice());
    } else if c == '&' {
        let a = ['&', 'a', 'm', 'p', ';'];
        assert(a@ == seq!['&', 'a', 'm', 'p', ';']);
        push_all(res, a.as_slice());
    } else {
        push_char(res, c);
        assert(old(res)@.push(c) =~= old(res)@ + seq![c]);
    }
}

/// Escapes the five characters that HTML gives a meaning: `< > " ' &`.
pub fn html_encode(orig: &str) -> (res: String)
    ensures
        res@ == spec_html_encode(orig@),
{
    let mut res = String::new();
    for c in it: orig.chars()
        invariant
            it.seq() == orig@,
            res@ == spec_html_encode(it.seq().take(it.index() as int)),
    {
        assert(it.seq().take(it.index() + 1).drop_last() == it.seq().take(it.index() as int));
        push_html_char(&mut res, c);
    }
    assert(orig@.take(orig@.len() as int) == orig@);
    res
}

/// What `json_encode` writes for one character.
pub open spec fn json_char(c: char) -> Seq<char> {
    if c == '"' {
        seq!['\\', '"']
    } else if c == '\n' {
        seq!['\\', 'n']
    } else if c == '\r' {
        seq!['\\', 'r']
    } else if c == '\t' {
        seq!['\\', 't']
    } else if c == '\\' {
        seq!['\\', '\\']
    } else {
        seq![c]
    }
}

pub open spec fn spec_json_encode(s: Seq<char>) -> Seq<char>
    decreases s.len(),
{
    if s.len() == 0 {
        seq![]
    } else {
        spec_json_encode(s.drop_last()) + json_char(s.last())
    }
}

fn push_json_char(res: &mut String, c: char)
    ensures
        final(res)@ == old(res)@ + json_char(c),
{
    if c == '"' || c == '\n' || c == '\r' || c == '\t' || c == '\\' {
        push_char(res, '\\');
        let e = if c == '"' {
            '"'
        } else if c == '\n' {
            'n'
        } else if c == '\r' {
            'r'
        } else if c == '\t' {
            't'
        } else {
            '\\'
        };
        push_char(res, e);
    } else {
        push_char(res, c);
    }
    assert(final(res)@ =~= old(res)@ + json_char(c));
}

/// Escapes a string for a JSON string literal: quote, backslash, new line,
/// carriage return and tab.
pub fn json_encode(orig: &str) -> (res: String)
    ensures
        res@ == spec_json_encode(orig@),
{
    let mut res = String::new();
    for c in it: orig.chars()
        invariant
            it.seq() == orig@,
            res@ == spec_json_encode(it.seq().take(it.index() as int)),
    {
        assert(it.seq().take(it.index() + 1).drop_last() == it.seq().take(it.index() as int));
        push_json_char(&mut res, c);
    }
    assert(orig@.take(orig@.len() as int) == orig@);
    res
}

/// The characters that a URL component keeps as they are.
pub open spec fn is_unreserved(c: char) -> bool {
    ||| ('0' <= c && c <= '9')
    ||| ('A' <= c && c <= 'Z')
    ||| ('a' <= c && c <= 'z')
    ||| c == '-'
    ||| c == '.'
    ||| c == '_'
    ||| c == '~'
}

/// `%` and two lower-case hexadecimal digits of a byte.
pub open spec fn pct_byte(b: u8) -> Seq<char> {
    seq!['%', hex_lower(b / 16), hex_lower(b % 16)]
}

pub open spec fn pct_bytes(bs: Seq<u8>) -> Seq<char>
    decreases bs.len(),
{
    if bs.len() == 0 {
        seq![]
    } else {
        pct_byte(bs[0]) + pct_bytes(bs.drop_first())
    }
}

/// What `url_encode` writes for one character: the character itself where it is
/// unreserved, else each byte of its UTF-8 encoding as `%hh`.
pub open spec fn url_char(c: char) -> Seq<char> {
    if is_unreserved(c) {
        seq![c]
    } else {
        pct_bytes(vstd::utf8::encode_utf8(seq![c]))
    }
}

pub open spec fn spec_url_encode(s: Seq<char>) -> Seq<char>
    decreases s.len(),
{
    if s.len() == 0 {
        seq![]
    } else {
        spec_url_encode(s.drop_last()) + url_char(s.last())
    }
}

/// The UTF-8 encoding of one character.
pub fn encode_char(c: char) -> (r: Vec<u8>)
    ensures
        r@ == vstd::utf8::encode_utf8(seq![c]),
{
    let scalar = c as u32;
    proof {
        vstd::utf8::char_is_scalar(c);
        assert(seq![c].drop_first() =~= Seq::<char>::empty());
        assert(seq![c][0] == c);
        assert(vstd::utf8::encode_utf8(Seq::<char>::empty()) =~= Seq::<u8>::empty());
        assert(vstd::utf8::encode_utf8(seq![c]) == vstd::utf8::encode_scalar(scalar)
            + vstd::utf8::encode_utf8(seq![c].drop_first()));
        assert(vstd::utf8::encode_utf8(seq![c]) =~= vstd::utf8::encode_scalar(scalar));
    }
    let mut r: Vec<u8> = Vec::new();
    if scalar <= 0x7F {
        r.push((scalar & 0x7F) as u8);
    } else if scalar <= 0x7FF {
        r.push(0xC0 | ((scalar >> 6) & 0x1F) as u8);
        r.push(0x80 | (scalar & 0x3F) as u8);
    } else if scalar <= 0xFFFF {
        r.push(0xE0 | ((scalar >> 12) & 0x0F) as u8);
        r.push(0x80 | ((scalar >> 6) & 0x3F) as u8);
        r.push(0x80 | (scalar & 0x3F) as u8);
    } else {
        r.push(0xF0 | ((scalar >> 18) & 0x7) as u8);
        r.push(0x80 | ((scalar >> 12) & 0x3F) as u8);
        r.push(0x80 | ((scalar >> 6) & 0x3F) as u8);
        r.push(0x80 | (scalar & 0x3F) as u8);
    }
    assert(r@ =~= vstd::utf8::encode_scalar(scalar));
    r
}

fn push_pct_bytes(res: &mut String, bs: &Vec<u8>)
    ensures
        final(res)@ == old(res)@ + pct_bytes(bs@),
{
    let mut i: usize = 0;
    assert(bs@.skip(0) =~= bs@);
    while i < bs.len()
        invariant
            i <= bs.len(),
            res@ + pct_bytes(bs@.skip(i as int)) == old(res)@ + pct_bytes(bs@),
        decreases bs.len() - i,
    {
        let b = bs[i];
        let ghost before = res@;
        push_char(res, '%');
        push_char(res, exec_hex_lower(b / 16));
        push_char(res, exec_hex_lower(b % 16));
        assert(bs@.skip(i as int).drop_first() =~= bs@.skip(i + 1));
        assert(res@ =~= before + pct_byte(b));
        i = i + 1;
    }
    assert(bs@.skip(bs.len() as int) =~= Seq::<u8>::empty());
}

fn push_url_char(res: &mut String, c: char)
    ensures
        final(res)@ == old(res)@ + url_char(c),
{
    let unreserved = ('0' <= c && c <= '9') || ('A' <= c && c <= 'Z') || ('a' <= c && c <= 'z') || c
        == '-' || c == '.' || c == '_' || c == '~';
    if unreserved {
        push_char(res, c);
        assert(old(res)@.push(c) =~= old(res)@ + seq![c]);
    } else {
        let bytes = encode_char(c);
        push_pct_bytes(res, &bytes);
    }
}

/// Encodes a string as a URL component (as `encodeURIComponent` does, with
/// lower-case hexadecimal digits and `~` kept).
pub fn url_encode(orig: &str) -> (res: String)
    ensures
        res@ == spec_url_encode(orig@),
{
    let mut res = String::new();
    for c in it: orig.chars()
        invariant
            it.seq() == orig@,
            res@ == spec_url_encode(it.seq().take(it.index() as int)),
    {
        assert(it.seq().take(it.index() + 1).drop_last() == it.seq().take(it.index() as int));
        push_url_char(&mut res, c);
    }
    assert(orig@.take(orig@.len() as int) == orig@);
    res
}

/// Whether `s` holds two dots in a row.
pub open spec fn has_dot_dot(s: Seq<char>) -> bool {
    exists|i: int| 0 <= i < s.len() - 1 && #[trigger] s[i] == '.' && s[i + 1] == '.'
}

/// Refuses a path that holds `..`; hands any other path back.
pub fn sanitize_path(path: &str) -> (r: Result<&str, &'static str>)
    ensures
        r is Ok <==> !has_dot_dot(path@),
        r matches Ok(p) ==> p@ == path@,
        r matches Err(e) ==> e@ == ".. isn't allowed in a path"@,
{
    let mut prev_dot = false;
    for c in it: path.chars()
        invariant
            it.seq() == path@,
            prev_dot == (it.index() > 0 && it.seq()[it.index() - 1] == '.'),
            !has_dot_dot(it.seq().take(it.index() as int)),
    {
        if c == '.' && prev_dot {
            assert(path@[it.index() - 1] == '.' && path@[it.index() as int] == '.');
            return Err(".. isn't allowed in a path");
        }
        prev_dot = c == '.';
        assert forall|i: int| 0 <= i < it.index() as int implies !(#[trigger] it.seq().take(
            it.index() + 1,
        )[i] == '.' && it.seq().take(it.index() + 1)[i + 1] == '.') by {
            if i + 1 < it.index() {
                assert(it.seq().take(it.index() as int)[i] == it.seq()[i]);
                assert(it.seq().take(it.index() as int)[i + 1] == it.seq()[i + 1]);
            }
        }
    }
    assert(path@.take(path@.len() as int) == path@);
    Ok(path)
}


/// An entry of the page menu.
#[derive(Debug, PartialEq, Eq, PartialOrd, Ord)]
pub enum Menu {
    MenuBox { title: String, hint: Option<String>, icon: Option<String> },
    MenuItem {
        link: String,
        title: String,
        short: Option<String>,
        hint: Option<String>,
        icon: Option<String>,
    },
    MenuEnd,
    Separator,
}

/// The mathematical value of a [`Menu`] entry.
pub enum MenuView {
    MenuBox { title: Seq<char>, hint: Option<Seq<char>>, icon: Option<Seq<char>> },
    MenuItem {
        link: Seq<char>,
        title: Seq<char>,
        short: Option<Seq<char>>,
        hint: Option<Seq<char>>,
        icon: Option<Seq<char>>,
    },
    MenuEnd,
    Separator,
}

pub open spec fn ostr(o: Option<String>) -> Option<Seq<char>> {
    match o {
        Some(s) => Some(s@),
        None => None,
    }
}

impl View for Menu {
    type V = MenuView;

    open spec fn view(&self) -> MenuView {
        match self {
            Menu::MenuBox { title, hint, icon } => MenuView::MenuBox {
                title: title@,
                hint: ostr(*hint),
                icon: ostr(*icon),
            },
            Menu::MenuItem { link, title, short, hint, icon } => MenuView::MenuItem {
                link: link@,
                title: title@,
                short: ostr(*short),
                hint: ostr(*hint),
                icon: ostr(*icon),
            },
            Menu::MenuEnd => MenuView::MenuEnd,
            Menu::Separator => MenuView::Separator,
        }
    }
}

pub open spec fn menus_view(v: Seq<Menu>) -> Seq<MenuView> {
    Seq::new(v.len(), |i: int| v[i]@)
}

/// The attributes that give a menu entry its tool tip.
pub open spec fn spec_hint(hint: Option<Seq<char>>) -> Seq<char> {
    match hint {
        Some(h) => " alt=\""@ + spec_html_encode(h) + "\" title=\""@ + spec_html_encode(h) + "\""@,
        None => seq![],
    }
}

/// The image of a menu entry.
pub open spec fn spec_img(icon: Option<Seq<char>>) -> Seq<char> {
    match icon {
        Some(i) => "<img src=\""@ + i + "\">"@,
        None => seq![],
    }
}

/// The short cut shown at the right of a menu entry.
pub open spec fn spec_short(short: Option<Seq<char>>) -> Seq<char> {
    match short {
        Some(s) => "<span style=\"float:right\">"@ + spec_html_encode(s) + "</span>"@,
        None => seq![],
    }
}

pub fn get_hint(hint: &Option<String>) -> (r: String)
    ensures
        r@ == spec_hint(ostr(*hint)),
{
    match hint {
        Some(h) => {
            let e = html_encode(h.as_str());
            let mut r = String::from_str(" alt=\"");
            r.append(e.as_str());
            r.append("\" title=\"");
            r.append(e.as_str());
            r.append("\"");
            r
        },
        None => String::new(),
    }
}

pub fn get_img(icon: &Option<String>) -> (r: String)
    ensures
        r@ == spec_img(ostr(*icon)),
{
    match icon {
        Some(i) => {
            let mut r = String::from_str("<img src=\"");
            r.append(i.as_str());
            r.append("\">");
            r
        },
        None => String::new(),
    }
}

pub fn get_short(short: &Option<String>) -> (r: String)
    ensures
        r@ == spec_short(ostr(*short)),
{
    match short {
        Some(s) => {
            let e = html_encode(s.as_str());
            let mut r = String::from_str("<span style=\"float:right\">");
            r.append(e.as_str());
            r.append("</span>");
            r
        },
        None => String::new(),
    }
}

/// The HTML of one menu entry.
pub open spec fn nav_entry(m: MenuView) -> Seq<char> {
    match m {
        MenuView::MenuBox { title, hint, icon } => "\n        <menuitem>\n            <a "@ + spec_hint(
            hint,
        ) + ">"@ + spec_img(icon) + spec_html_encode(title)
            + "</a>\n            <menu>\n                "@,
        MenuView::MenuItem { link, title, short, hint, icon } =>
            "\n                <menuitem>\n                    <a href=\""@ + link + "\" "@
                + spec_hint(hint) + ">"@ + spec_img(icon) + spec_html_encode(title) + spec_short(
            short) + "</a>\n                </menuitem>\n                "@,
        MenuView::MenuEnd => "\n            </menu>\n        </menuitem>\n"@,
        MenuView::Separator => seq![],
    }
}

pub open spec fn nav_entries(items: Seq<MenuView>) -> Seq<char>
    decreases items.len(),
{
    if items.len() == 0 {
        seq![]
    } else {
        nav_entries(items.drop_last()) + nav_entry(items.last())
    }
}

/// The HTML menu of a page.
pub open spec fn spec_form_nav(items: Option<Seq<MenuView>>) -> Seq<char> {
    "    <menu>"@ + match items {
        Some(v) => nav_entries(v),
        None => seq![],
    } + "   </menu>"@
}

fn push_nav_entry(res: &mut String, item: &Menu)
    ensures
        final(res)@ == old(res)@ + nav_entry(item@),
{
    match item {
        Menu::MenuBox { title, hint, icon } => {
            res.append("\n        <menuitem>\n            <a ");
            res.append(get_hint(hint).as_str());
            res.append(">");
            res.append(get_img(icon).as_str());
            res.append(html_encode(title.as_str()).as_str());
            res.append("</a>\n            <menu>\n                ");
        },
        Menu::MenuItem { link, title, short, hint, icon } => {
            res.append("\n                <menuitem>\n                    <a href=\"");
            res.append(link.as_str());
            res.append("\" ");
            res.append(get_hint(hint).as_str());
            res.append(">");
            res.append(get_img(icon).as_str());
            res.append(html_encode(title.as_str()).as_str());
            res.append(get_short(short).as_str());
            res.append("</a>\n                </menuitem>\n                ");
        },
        Menu::MenuEnd => {
            res.append("\n            </menu>\n        </menuitem>\n");
        },
        Menu::Separator => {},
    }
    assert(final(res)@ =~= old(res)@ + nav_entry(item@));
}

/// Writes the menu of a page as nested HTML `menu` elements.
pub fn form_nav(items: Option<Vec<Menu>>) -> (res: String)
    ensures
        res@ == spec_form_nav(match items {
            Some(v) => Some(menus_view(v@)),
            None => None,
        }),
{
    let mut res = String::from_str("    <menu>");
    let ghost start = res@;
    if let Some(items) = &items {
        let mut i: usize = 0;
        assert(menus_view(items@).take(0) =~= Seq::<MenuView>::empty());
        while i < items.len()
            invariant
                i <= items.len(),
                res@ == start + nav_entries(menus_view(items@).take(i as int)),
            decreases items.len() - i,
        {
            assert(menus_view(items@).take(i + 1).drop_last() =~= menus_view(items@).take(i as int));
            push_nav_entry(&mut res, &items[i]);
            i = i + 1;
            assert(res@ =~= start + nav_entries(menus_view(items@).take(i as int)));
        }
        assert(menus_view(items@).take(items.len() as int) =~= menus_view(items@));
    }
    res.append("   </menu>");
    res
}


/// The header that sets a cookie: `name=value`, and `; Expires=` with the
/// formatted time where the cookie expires.
pub open spec fn spec_cookie_value(name: Seq<char>, value: Seq<char>, expires: Option<Seq<char>>) -> Seq<char> {
    match expires {
        Some(t) => name + "="@ + value + "; Expires="@ + t,
        None => name + "="@ + value,
    }
}

pub fn new_cookie_header(name: &String, value: &String, expires: Option<String>) -> (r: (String, String))
    ensures
        r.0@ == "Set-Cookie"@,
        r.1@ == spec_cookie_value(name@, value@, match expires {
            Some(t) => Some(t@),
            None => None,
        }),
{
    let mut v = String::new();
    v.append(name.as_str());
    v.append("=");
    v.append(value.as_str());
    match expires {
        Some(t) => {
            v.append("; Expires=");
            v.append(t.as_str());
        },
        None => {},
    }
    (String::from_str("Set-Cookie"), v)
}

/// A signed number as `{:0N}` writes it: the sign counts in the width.
pub open spec fn signed_pad(v: int, width: nat) -> Seq<char> {
    if v < 0 {
        seq!['-'] + zero_pad((-v) as nat, if width > 0 { (width - 1) as nat } else { 0 })
    } else {
        zero_pad(v as nat, width)
    }
}

/// Integer division that rounds toward zero, as Rust's `/` does.
pub open spec fn trunc_div(a: int, b: int) -> int {
    if a >= 0 {
        a / b
    } else {
        -((-a) / b)
    }
}

/// The remainder that goes with `trunc_div`, as Rust's `%` gives it.
pub open spec fn trunc_rem(a: int, b: int) -> int {
    if a >= 0 {
        a % b
    } else {
        -((-a) % b)
    }
}

/// A local time as the property files' headers write it:
/// `MM-DD-YY Day, hh:mm:ss` and the zone offset as hours (three places) and
/// minutes (two places), each with its sign.
pub open spec fn spec_format_time(y: u32, m: u32, d: u32, h: u32, min: u32, s: u32, day: Seq<char>, tz: i32) -> Seq<char> {
    zero_pad(m as nat, 2) + "-"@ + zero_pad(d as nat, 2) + "-"@ + zero_pad(y as nat, 2) + " "@ + day
        + ", "@ + zero_pad(h as nat, 2) + ":"@ + zero_pad(min as nat, 2) + ":"@ + zero_pad(s as nat, 2)
        + " "@ + signed_pad(trunc_div(tz as int, 60), 3) + signed_pad(trunc_rem(tz as int, 60), 2)
}

fn signed_padded(neg: bool, a: u64, width: usize) -> (r: String)
    requires
        width > 0,
    ensures
        r@ == signed_pad(if neg { -(a as int) } else { a as int }, width as nat),
{
    if neg && a > 0 {
        let mut r = String::new();
        push_char(&mut r, '-');
        let p = u64_to_padded(a, width - 1);
        r.append(p.as_str());
        r
    } else {
        u64_to_padded(a, width)
    }
}

/// Formats a local time, given its parts, the name of its week day and the
/// zone offset in minutes.
pub fn format_system_time(y: u32, m: u32, d: u32, h: u32, min: u32, s: u32, day: &str, tz: i32) -> (r: String)
    ensures
        r@ == spec_format_time(y, m, d, h, min, s, day@, tz),
{
    let neg = tz < 0;
    let a: u64 = if neg {
        (-(tz as i64)) as u64
    } else {
        tz as u64
    };
    let q = a / 60;
    let rem = a % 60;
    let mut r = u64_to_padded(m as u64, 2);
    r.append("-");
    r.append(u64_to_padded(d as u64, 2).as_str());
    r.append("-");
    r.append(u64_to_padded(y as u64, 2).as_str());
    r.append(" ");
    r.append(day);
    r.append(", ");
    r.append(u64_to_padded(h as u64, 2).as_str());
    r.append(":");
    r.append(u64_to_padded(min as u64, 2).as_str());
    r.append(":");
    r.append(u64_to_padded(s as u64, 2).as_str());
    r.append(" ");
    let hp = signed_padded(neg, q, 3);
    let mp = signed_padded(neg, rem, 2);
    proof {
        assert(trunc_div(tz as int, 60) == if neg { -(q as int) } else { q as int });
        assert(trunc_rem(tz as int, 60) == if neg { -(rem as int) } else { rem as int });
    }
    r.append(hp.as_str());
    r.append(mp.as_str());
    r
}

/// Whether `needle` occurs in `hay`.
pub open spec fn contains_seq(hay: Seq<char>, needle: Seq<char>) -> bool {
    exists|i: int| 0 <= i <= hay.len() - needle.len() && #[trigger] hay.subrange(i, i + needle.len()) == needle
}

/// Whether `needle` occurs in `hay` (`str::contains`).
pub fn contains_str(hay: &str, needle: &str) -> (r: bool)
    ensures
        r == contains_seq(hay@, needle@),
{
    let h = str_chars(hay);
    let n = str_chars(needle);
    if n.len() > h.len() {
        return false;
    }
    let mut i: usize = 0;
    while i <= h.len() - n.len()
        invariant
            h@ == hay@,
            n@ == needle@,
            n.len() <= h.len(),
            i <= h.len() - n.len() + 1,
            forall|k: int| 0 <= k < i ==> #[trigger] hay@.subrange(k, k + needle@.len()) != needle@,
        decreases h.len() - n.len() + 1 - i,
    {
        let mut j: usize = 0;
        while j < n.len() && h[i + j] == n[j]
            invariant
                h@ == hay@,
                n@ == needle@,
                i + n.len() <= h.len(),
                j <= n.len(),
                forall|k: int| 0 <= k < j ==> h@[i + k] == n@[k],
            decreases n.len() - j,
        {
            j = j + 1;
        }
        if j == n.len() {
            assert(hay@.subrange(i as int, i + needle@.len()) =~= needle@);
            return true;
        }
        assert(hay@.subrange(i as int, i + needle@.len())[j as int] != needle@[j as int]);
        i = i + 1;
    }
    false
}

/// A file is listed where its path has an extension that occurs in `exts`.
pub open spec fn spec_listed_file(path: Seq<char>, exts: Seq<char>) -> bool {
    match spec_extension(path) {
        Some(e) => contains_seq(exts, e),
        None => false,
    }
}

pub fn listed_file(path: &str, exts: &str) -> (r: bool)
    ensures
        r == spec_listed_file(path@, exts@),
{
    match extension_of(path) {
        Some(e) => contains_str(exts, e.as_str()),
        None => false,
    }
}

/// The next step of the search for the git work tree that covers a directory.
#[derive(Debug, PartialEq, Eq)]
pub enum GitStep {
    /// The directory holds `.git`: it is the work tree.
    Covered(String),
    /// The search reached the home directory: nothing covers it.
    NotCovered,
    /// Go on with the parent directory.
    Up,
}

/// Decides the step for `dir`, given whether `dir/.git` is a directory
/// (`Some(true)`), something else (`Some(false)`) or absent (`None`), and
/// whether `dir` is the home directory where the search stops.
pub fn git_cover_step(dir: &str, at_home: bool, git_entry: Option<bool>) -> (r: GitStep)
    ensures
        match git_entry {
            Some(true) => r matches GitStep::Covered(d) && d@ == dir@,
            Some(false) => r is NotCovered,
            None => if at_home {
                r is NotCovered
            } else {
                r is Up
            },
        },
{
    match git_entry {
        Some(true) => GitStep::Covered(dir.to_owned()),
        Some(false) => GitStep::NotCovered,
        None => if at_home {
            GitStep::NotCovered
        } else {
            GitStep::Up
        },
    }
}

/// The answer of a page whose loading failed: status 501, the length in bytes
/// and the error as plain text.
pub fn err_out_text(err: &str) -> (r: String)
    ensures
        r@ == "Status: 501 Internal Server Error\r\nContent-length: "@ + dec_digits(
            err.len() as nat,
        ) + "\r\nContent-type: text/plain\r\n\r\n"@ + err@,
{
    let mut r = String::from_str("Status: 501 Internal Server Error\r\nContent-length: ");
    let n = err.len();
    r.append(u64_to_string(n as u64).as_str());
    r.append("\r\nContent-type: text/plain\r\n\r\n");
    r.append(err);
    r
}

/// Header lines `name: value`, each ended by CR LF.
pub open spec fn header_lines(hs: Seq<(Seq<char>, Seq<char>)>) -> Seq<char>
    decreases hs.len(),
{
    if hs.len() == 0 {
        seq![]
    } else {
        header_lines(hs.drop_last()) + hs.last().0 + ": "@ + hs.last().1 + "\r\n"@
    }
}

pub open spec fn pairs_view(v: Seq<(String, String)>) -> Seq<(Seq<char>, Seq<char>)> {
    Seq::new(v.len(), |i: int| (v[i].0@, v[i].1@))
}

/// The head of a page's answer: the status line where the page sets one, its
/// extra headers, then its content type and the empty line.
pub open spec fn spec_page_head(status: Option<(u16, Seq<char>)>, extra: Option<Seq<(Seq<char>, Seq<char>)>>, content_type: Seq<char>) -> Seq<char> {
    (match status {
        Some((code, text)) => "Status: "@ + dec_digits(code as nat) + " "@ + text + "\r\n"@,
        None => seq![],
    }) + (match extra {
        Some(hs) => header_lines(hs),
        None => seq![],
    }) + "Content-type: "@ + content_type + "\r\n\r\n"@
}

pub fn page_head(status: Option<(u16, &str)>, extra: Option<Vec<(String, String)>>, content_type: &str) -> (r: String)
    ensures
        r@ == spec_page_head(
            match status {
                Some((c, t)) => Some((c, t@)),
                None => None,
            },
            match extra {
                Some(hs) => Some(pairs_view(hs@)),
                None => None,
            },
            content_type@,
        ),
{
    let mut r = String::new();
    match status {
        Some((code, text)) => {
            r.append("Status: ");
            r.append(u64_to_string(code as u64).as_str());
            r.append(" ");
            r.append(text);
            r.append("\r\n");
        },
        None => {},
    }
    let ghost start = r@;
    match extra {
        Some(hs) => {
            let ghost hv = pairs_view(hs@);
            let mut i: usize = 0;
            assert(hv.take(0) =~= Seq::<(Seq<char>, Seq<char>)>::empty());
            assert(r@ =~= start + header_lines(hv.take(0)));
            while i < hs.len()
                invariant
                    hv == pairs_view(hs@),
                    i <= hs.len(),
                    r@ == start + header_lines(hv.take(i as int)),
                decreases hs.len() - i,
            {
                assert(hv.take(i + 1).drop_last() =~= hv.take(i as int));
                assert(hv.take(i + 1).last() == (hs@[i as int].0@, hs@[i as int].1@));
                r.append(hs[i].0.as_str());
                r.append(": ");
                r.append(hs[i].1.as_str());
                r.append("\r\n");
                i = i + 1;
            }
            assert(hv.take(hs.len() as int) =~= hv);
        },
        None => {
            assert(r@ =~= start + Seq::<char>::empty());
        },
    }
    r.append("Content-type: ");
    r.append(content_type);
    r.append("\r\n\r\n");
    r
}

/// Property lines `name=value`, each ended by a new line.
pub open spec fn prop_lines(ps: Seq<(Seq<char>, Seq<char>)>) -> Seq<char>
    decreases ps.len(),
{
    if ps.len() == 0 {
        seq![]
    } else {
        prop_lines(ps.drop_last()) + ps.last().0 + "="@ + ps.last().1 + "\n"@
    }
}

/// The text of a property file: a comment with the time it was written, then
/// one line per property.
pub fn props_text(stamp: &str, props: &Vec<(String, String)>) -> (r: String)
    ensures
        r@ == "# property file on "@ + stamp@ + "\n"@ + prop_lines(pairs_view(props@)),
{
    let mut r = String::from_str("# property file on ");
    r.append(stamp);
    r.append("\n");
    let ghost start = r@;
    let ghost pv = pairs_view(props@);
    let mut i: usize = 0;
    assert(pv.take(0) =~= Seq::<(Seq<char>, Seq<char>)>::empty());
    assert(r@ =~= start + prop_lines(pv.take(0)));
    while i < props.len()
        invariant
            pv == pairs_view(props@),
            i <= props.len(),
            r@ == start + prop_lines(pv.take(i as int)),
        decreases props.len() - i,
    {
        assert(pv.take(i + 1).drop_last() =~= pv.take(i as int));
        assert(pv.take(i + 1).last() == (props@[i as int].0@, props@[i as int].1@));
        r.append(props[i].0.as_str());
        r.append("=");
        r.append(props[i].1.as_str());
        r.append("\n");
        i = i + 1;
    }
    assert(pv.take(props.len() as int) =~= pv);
    r
}

/// A character that HTML markup gives a meaning to.
pub open spec fn is_markup(c: char) -> bool {
    c == '<' || c == '>' || c == '"' || c == '\''
}

/// What `html_encode` writes holds no markup character, so it can stand in a
/// page's text or in a quoted attribute.
pub proof fn law_html_encode_has_no_markup(s: Seq<char>)
    ensures
        forall|i: int| 0 <= i < spec_html_encode(s).len() ==> !is_markup(#[trigger] spec_html_encode(s)[i]),
    decreases s.len(),
{
    if s.len() > 0 {
        law_html_encode_has_no_markup(s.drop_last());
        let a = spec_html_encode(s.drop_last());
        let b = html_char(s.last());
        assert forall|i: int| 0 <= i < (a + b).len() implies !is_markup(#[trigger] (a + b)[i]) by {
            if i >= a.len() {
                assert((a + b)[i] == b[i - a.len()]);
            } else {
                assert((a + b)[i] == a[i]);
            }
        }
    }
}

/// What `json_encode` writes holds no raw line break or tab, and each quote in
/// it comes right after a backslash, so it can stand in a JSON string.
pub proof fn law_json_encode_is_string_safe(s: Seq<char>)
    ensures
        forall|i: int|
            0 <= i < spec_json_encode(s).len() ==> {
                let c = #[trigger] spec_json_encode(s)[i];
                c != '\n' && c != '\r' && c != '\t' && (c == '"' ==> i > 0 && spec_json_encode(s)[i - 1] == '\\')
            },
    decreases s.len(),
{
    if s.len() > 0 {
        law_json_encode_is_string_safe(s.drop_last());
        let a = spec_json_encode(s.drop_last());
        let b = json_char(s.last());
        assert forall|i: int| 0 <= i < (a + b).len() implies {
            let c = #[trigger] (a + b)[i];
            c != '\n' && c != '\r' && c != '\t' && (c == '"' ==> i > 0 && (a + b)[i - 1] == '\\')
        } by {
            if i >= a.len() {
                assert((a + b)[i] == b[i - a.len()]);
                if i > a.len() {
                    assert((a + b)[i - 1] == b[i - 1 - a.len()]);
                }
            } else {
                assert((a + b)[i] == a[i]);
                if i > 0 {
                    assert((a + b)[i - 1] == a[i - 1]);
                }
            }
        }
    }
}

} // verus!
