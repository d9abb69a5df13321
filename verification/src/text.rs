//! Small string utilities shared by the other modules.
use vstd::prelude::*;

verus! {

broadcast use vstd::string::group_string_axioms;

/// Appends one character to a string (`String::push`); the contract claims
/// that the string's characters are then the old ones and `c`.
#[verifier::external_body]
pub(crate) fn push_char(s: &mut String, c: char)
    ensures
        final(s)@ == old(s)@.push(c),
{
    s.push(c);
}

/// Turns bytes into a string where they are valid UTF-8 (`String::from_utf8`);
/// the contract claims success exactly for valid UTF-8, with the decoded
/// characters.
#[verifier::external_body]
pub(crate) fn string_from_utf8(v: Vec<u8>) -> (r: Option<String>)
    ensures
        r is Some <==> vstd::utf8::valid_utf8(v@),
        r matches Some(s) ==> s@ == vstd::utf8::decode_utf8(v@),
{
    String::from_utf8(v).ok()
}

/// A string holding the given characters.
pub fn chars_to_string(v: &Vec<char>) -> (r: String)
    ensures
        r@ == v@,
{
    let mut r = String::new();
    let mut i: usize = 0;
    while i < v.len()
        invariant
            i <= v.len(),
            r@ == v@.take(i as int),
        decreases v.len() - i,
    {
        push_char(&mut r, v[i]);
        i = i + 1;
        assert(r@ == v@.take(i as int));
    }
    assert(v@.take(v.len() as int) == v@);
    r
}

/// The characters of a string.
pub fn str_chars(s: &str) -> (r: Vec<char>)
    ensures
        r@ == s@,
{
    let mut r: Vec<char> = Vec::new();
    for c in it: s.chars()
        invariant
            it.seq() == s@,
            r@ == it.seq().take(it.index() as int),
    {
        r.push(c);
        assert(r@ == it.seq().take(it.index() + 1));
    }
    assert(s@.take(s@.len() as int) == s@);
    r
}

/// The lower-case hexadecimal digit of a number below 16.
pub open spec fn hex_lower(n: u8) -> char {
    if n < 10 {
        ((n + 48) as u8) as char
    } else {
        ((n + 87) as u8) as char
    }
}

pub fn exec_hex_lower(n: u8) -> (c: char)
    requires
        n < 16,
    ensures
        c == hex_lower(n),
{
    if n < 10 {
        (n + 48) as char
    } else {
        (n + 87) as char
    }
}

/// The value of a hexadecimal digit of either case (`char::to_digit(16)`).
pub open spec fn hex_value(c: char) -> Option<u8> {
    if '0' <= c && c <= '9' {
        Some(((c as u32) - 48) as u8)
    } else if 'a' <= c && c <= 'f' {
        Some(((c as u32) - 87) as u8)
    } else if 'A' <= c && c <= 'F' {
        Some(((c as u32) - 55) as u8)
    } else {
        None
    }
}

pub fn exec_hex_value(c: char) -> (r: Option<u8>)
    ensures
        r == hex_value(c),
        r matches Some(v) ==> v < 16,
{
    let u = c as u32;
    if '0' <= c && c <= '9' {
        Some((u - 48) as u8)
    } else if 'a' <= c && c <= 'f' {
        Some((u - 87) as u8)
    } else if 'A' <= c && c <= 'F' {
        Some((u - 55) as u8)
    } else {
        None
    }
}

pub proof fn lemma_hex_roundtrip(n: u8)
    requires
        n < 16,
    ensures
        hex_value(hex_lower(n)) == Some(n),
{
    let c = hex_lower(n);
    if n < 10 {
        assert(c as u32 == n + 48);
    } else {
        assert(c as u32 == n + 87);
    }
}

/// The decimal digits of a natural number.
pub open spec fn dec_digits(n: nat) -> Seq<char>
    decreases n,
{
    if n < 10 {
        seq![((n + 48) as u8) as char]
    } else {
        dec_digits(n / 10).push((((n % 10) + 48) as u8) as char)
    }
}

/// The decimal representation of an unsigned number (as `format!("{}")` writes it).
pub fn u64_to_string(n: u64) -> (r: String)
    ensures
        r@ == dec_digits(n as nat),
    decreases n,
{
    if n < 10 {
        let mut r = String::new();
        push_char(&mut r, ((n as u8) + 48) as char);
        r
    } else {
        let mut r = u64_to_string(n / 10);
        push_char(&mut r, (((n % 10) as u8) + 48) as char);
        r
    }
}

/// The decimal number, padded with zeros on the left to at least `width` digits.
pub open spec fn zero_pad(n: nat, width: nat) -> Seq<char> {
    let d = dec_digits(n);
    if d.len() >= width {
        d
    } else {
        Seq::new((width - d.len()) as nat, |i: int| '0') + d
    }
}

pub fn u64_to_padded(n: u64, width: usize) -> (r: String)
    ensures
        r@ == zero_pad(n as nat, width as nat),
{
    let d = u64_to_string(n);
    let len = d.unicode_len();
    if len >= width {
        d
    } else {
        let mut r = String::new();
        let mut i: usize = 0;
        while i < width - len
            invariant
                len <= width,
                i <= width - len,
                r@ == Seq::new(i as nat, |k: int| '0'),
            decreases width - len - i,
        {
            push_char(&mut r, '0');
            i = i + 1;
            assert(r@ =~= Seq::new(i as nat, |k: int| '0'));
        }
        r.append(d.as_str());
        r
    }
}

/// Unicode white space, as `char::is_whitespace` and `str::trim` understand it.
pub open spec fn is_white(c: char) -> bool {
    ||| ('\u{9}' <= c && c <= '\u{D}')
    ||| c == ' '
    ||| c == '\u{85}'
    ||| c == '\u{A0}'
    ||| c == '\u{1680}'
    ||| ('\u{2000}' <= c && c <= '\u{200A}')
    ||| c == '\u{2028}'
    ||| c == '\u{2029}'
    ||| c == '\u{202F}'
    ||| c == '\u{205F}'
    ||| c == '\u{3000}'
}

pub fn exec_is_white(c: char) -> (r: bool)
    ensures
        r == is_white(c),
{
    ('\u{9}' <= c && c <= '\u{D}') || c == ' ' || c == '\u{85}' || c == '\u{A0}' || c == '\u{1680}'
        || ('\u{2000}' <= c && c <= '\u{200A}') || c == '\u{2028}' || c == '\u{2029}' || c
        == '\u{202F}' || c == '\u{205F}' || c == '\u{3000}'
}

/// Number of characters at the start of `s` for which `p` holds.
pub open spec fn lead_count(s: Seq<char>, p: spec_fn(char) -> bool) -> nat
    decreases s.len(),
{
    if s.len() > 0 && p(s[0]) {
        1 + lead_count(s.drop_first(), p)
    } else {
        0
    }
}

/// `s` without the white space at both ends (`str::trim`).
pub open spec fn spec_trim(s: Seq<char>) -> Seq<char> {
    let a = lead_count(s, |c: char| is_white(c));
    let rest = s.skip(a as int);
    let b = lead_count(rest.reverse(), |c: char| is_white(c));
    rest.take(rest.len() - b)
}

pub proof fn lemma_lead_count(s: Seq<char>, p: spec_fn(char) -> bool, i: int)
    requires
        0 <= i <= s.len(),
        forall|j: int| 0 <= j < i ==> p(#[trigger] s[j]),
        i == s.len() || !p(s[i]),
    ensures
        lead_count(s, p) == i,
    decreases s.len(),
{
    if i > 0 {
        lemma_lead_count(s.drop_first(), p, i - 1);
    }
}

/// Characters `from..to` of `v`, as a string.
pub fn sub_chars(v: &Vec<char>, from: usize, to: usize) -> (r: String)
    requires
        from <= to <= v.len(),
    ensures
        r@ == v@.subrange(from as int, to as int),
{
    let mut r = String::new();
    let mut i = from;
    while i < to
        invariant
            from <= i <= to <= v.len(),
            r@ == v@.subrange(from as int, i as int),
        decreases to - i,
    {
        push_char(&mut r, v[i]);
        i = i + 1;
        assert(r@ =~= v@.subrange(from as int, i as int));
    }
    r
}

/// Removes the white space at both ends of `s` (`str::trim`).
pub fn trim(s: &str) -> (r: String)
    ensures
        r@ == spec_trim(s@),
{
    let v = str_chars(s);
    let n = v.len();
    let mut a: usize = 0;
    while a < n && exec_is_white(v[a])
        invariant
            n == v@.len(),
            a <= n,
            forall|j: int| 0 <= j < a ==> is_white(#[trigger] v@[j]),
        decreases n - a,
    {
        a = a + 1;
    }
    proof {
        lemma_lead_count(v@, |c: char| is_white(c), a as int);
    }
    let ghost rest = v@.skip(a as int);
    let mut e: usize = n;
    while e > a && exec_is_white(v[e - 1])
        invariant
            n == v@.len(),
            a <= e <= n,
            rest == v@.skip(a as int),
            forall|j: int| e <= j < n ==> is_white(#[trigger] v@[j]),
        decreases e,
    {
        e = e - 1;
    }
    proof {
        let rr = rest.reverse();
        assert forall|j: int| 0 <= j < n - e implies (|c: char| is_white(c))(#[trigger] rr[j]) by {
            assert(rr[j] == v@[n - 1 - j]);
        }
        if n - e < rr.len() {
            assert(rr[n - e] == v@[e - 1]);
        }
        lemma_lead_count(rr, |c: char| is_white(c), (n - e) as int);
        assert(rest.take(rest.len() - (n - e)) =~= v@.subrange(a as int, e as int));
    }
    sub_chars(&v, a, e)
}


/// The views of a sequence of strings.
pub open spec fn strs_view(v: Seq<String>) -> Seq<Seq<char>> {
    Seq::new(v.len(), |i: int| v[i]@)
}

/// The pieces of `s` between the separators (`str::split` with a character).
pub open spec fn split_on(s: Seq<char>, sep: char) -> Seq<Seq<char>>
    decreases s.len(),
{
    if s.len() == 0 {
        seq![seq![]]
    } else {
        let init = split_on(s.drop_last(), sep);
        if s.last() == sep {
            init.push(seq![])
        } else {
            init.update(init.len() - 1, init.last().push(s.last()))
        }
    }
}

pub proof fn lemma_split_on_nonempty(s: Seq<char>, sep: char)
    ensures
        split_on(s, sep).len() >= 1,
    decreases s.len(),
{
    if s.len() > 0 {
        lemma_split_on_nonempty(s.drop_last(), sep);
    }
}

/// Splits a string at every `sep`.
pub fn split_chars(s: &str, sep: char) -> (r: Vec<String>)
    ensures
        strs_view(r@) == split_on(s@, sep),
{
    let v = str_chars(s);
    let mut parts: Vec<String> = Vec::new();
    let mut cur: Vec<char> = Vec::new();
    let mut i: usize = 0;
    assert(v@.take(0) =~= Seq::<char>::empty());
    while i < v.len()
        invariant
            i <= v.len(),
            v@ == s@,
            strs_view(parts@).push(cur@) == split_on(v@.take(i as int), sep),
        decreases v.len() - i,
    {
        let c = v[i];
        proof {
            lemma_split_on_nonempty(v@.take(i as int), sep);
            assert(v@.take(i + 1).drop_last() =~= v@.take(i as int));
        }
        if c == sep {
            let done = chars_to_string(&cur);
            parts.push(done);
            cur = Vec::new();
            assert(strs_view(parts@).push(cur@) =~= split_on(v@.take(i + 1), sep));
        } else {
            let ghost before = strs_view(parts@).push(cur@);
            cur.push(c);
            assert(strs_view(parts@).push(cur@) =~= before.update(before.len() - 1, before.last().push(c)));
        }
        i = i + 1;
    }
    let last = chars_to_string(&cur);
    parts.push(last);
    assert(v@.take(v.len() as int) =~= v@);
    assert(strs_view(parts@) =~= split_on(s@, sep));
    parts
}

/// Index of the first `c` in `s`.
pub open spec fn find_char(s: Seq<char>, c: char) -> Option<int>
    decreases s.len(),
{
    if s.len() == 0 {
        None
    } else if s[0] == c {
        Some(0)
    } else {
        match find_char(s.drop_first(), c) {
            Some(i) => Some(i + 1),
            None => None,
        }
    }
}

pub proof fn lemma_find_char(s: Seq<char>, c: char, i: int)
    requires
        0 <= i <= s.len(),
        forall|j: int| 0 <= j < i ==> s[j] != c,
        i < s.len() ==> s[i] == c,
    ensures
        find_char(s, c) == (if i < s.len() { Some(i) } else { None::<int> }),
    decreases s.len(),
{
    if s.len() > 0 && i > 0 {
        lemma_find_char(s.drop_first(), c, i - 1);
    }
}

/// The parts before and after the first `c` (`str::split_once`).
pub open spec fn split_once(s: Seq<char>, c: char) -> Option<(Seq<char>, Seq<char>)> {
    match find_char(s, c) {
        Some(i) => Some((s.take(i), s.skip(i + 1))),
        None => None,
    }
}

/// Splits at the first `c`.
pub fn split_once_char(s: &str, c: char) -> (r: Option<(String, String)>)
    ensures
        match r {
            Some((a, b)) => split_once(s@, c) == Some((a@, b@)),
            None => split_once(s@, c) is None,
        },
{
    let v = str_chars(s);
    let mut i: usize = 0;
    while i < v.len() && v[i] != c
        invariant
            i <= v.len(),
            v@ == s@,
            forall|j: int| 0 <= j < i ==> v@[j] != c,
        decreases v.len() - i,
    {
        i = i + 1;
    }
    proof {
        lemma_find_char(v@, c, i as int);
    }
    if i < v.len() {
        let a = sub_chars(&v, 0, i);
        let b = sub_chars(&v, i + 1, v.len());
        assert(a@ =~= s@.take(i as int));
        assert(b@ =~= s@.skip(i + 1));
        Some((a, b))
    } else {
        None
    }
}

/// `s` without one carriage return at its end.
pub open spec fn strip_cr(s: Seq<char>) -> Seq<char> {
    if s.len() > 0 && s.last() == '\r' {
        s.drop_last()
    } else {
        s
    }
}

/// The lines of a text, as `str::lines` and `BufRead::lines` give them: split at
/// `\n`, a `\r` before the `\n` removed, no empty line after a final `\n`.
pub open spec fn spec_lines(s: Seq<char>) -> Seq<Seq<char>> {
    let parts = split_on(s, '\n');
    let full = Seq::new((parts.len() - 1) as nat, |i: int| strip_cr(parts[i]));
    if parts.last().len() == 0 {
        full
    } else {
        full.push(parts.last())
    }
}

/// Lexicographic order of texts by character code (the order of `str`).
pub open spec fn lex_le(a: Seq<char>, b: Seq<char>) -> bool
    decreases a.len(),
{
    if a.len() == 0 {
        true
    } else if b.len() == 0 {
        false
    } else if a[0] != b[0] {
        a[0] < b[0]
    } else {
        lex_le(a.drop_first(), b.drop_first())
    }
}

pub proof fn lemma_lex_total(a: Seq<char>, b: Seq<char>)
    ensures
        lex_le(a, b) || lex_le(b, a),
    decreases a.len(),
{
    if a.len() > 0 && b.len() > 0 && a[0] == b[0] {
        lemma_lex_total(a.drop_first(), b.drop_first());
    }
}

pub proof fn lemma_lex_trans(a: Seq<char>, b: Seq<char>, c: Seq<char>)
    requires
        lex_le(a, b),
        lex_le(b, c),
    ensures
        lex_le(a, c),
    decreases a.len(),
{
    if a.len() > 0 && b.len() > 0 && c.len() > 0 && a[0] == b[0] && b[0] == c[0] {
        lemma_lex_trans(a.drop_first(), b.drop_first(), c.drop_first());
    }
}

pub proof fn lemma_lex_antisym(a: Seq<char>, b: Seq<char>)
    requires
        lex_le(a, b),
        lex_le(b, a),
    ensures
        a == b,
    decreases a.len(),
{
    if a.len() > 0 && b.len() > 0 {
        assert(a[0] == b[0]);
        lemma_lex_antisym(a.drop_first(), b.drop_first());
        assert forall|i: int| 0 <= i < a.len() implies a[i] == b[i] by {
            if i > 0 {
                assert(a[i] == a.drop_first()[i - 1]);
                assert(b[i] == b.drop_first()[i - 1]);
            }
        }
        assert(a =~= b);
    } else {
        assert(a =~= b);
    }
}

/// Compares two texts by character code.
pub fn lex_le_str(a: &str, b: &str) -> (r: bool)
    ensures
        r == lex_le(a@, b@),
{
    let av = str_chars(a);
    let bv = str_chars(b);
    let mut i: usize = 0;
    proof {
        assert(a@.skip(0) =~= a@);
        assert(b@.skip(0) =~= b@);
    }
    while i < av.len() && i < bv.len() && av[i] == bv[i]
        invariant
            av@ == a@,
            bv@ == b@,
            i <= av.len(),
            i <= bv.len(),
            lex_le(a@, b@) == lex_le(a@.skip(i as int), b@.skip(i as int)),
        decreases av.len() - i,
    {
        assert(a@.skip(i as int).drop_first() =~= a@.skip(i + 1));
        assert(b@.skip(i as int).drop_first() =~= b@.skip(i + 1));
        i = i + 1;
    }
    if i == av.len() {
        true
    } else if i == bv.len() {
        false
    } else {
        av[i] < bv[i]
    }
}

/// Whether the keys of `v` come in lexicographic order.
pub open spec fn keys_sorted<T>(v: Seq<(String, T)>) -> bool {
    forall|i: int, j: int| 0 <= i < j < v.len() ==> lex_le(#[trigger] v[i].0@, #[trigger] v[j].0@)
}

/// Sorts pairs by their key (insertion sort; the order among equal keys is the
/// order of insertion reversed).
pub fn sort_by_key<T>(v: Vec<(String, T)>) -> (r: Vec<(String, T)>)
    ensures
        keys_sorted(r@),
        r@.to_multiset() == v@.to_multiset(),
{
    broadcast use vstd::seq_lib::to_multiset_insert;
    broadcast use vstd::seq_lib::group_to_multiset_ensures;

    let mut out: Vec<(String, T)> = Vec::new();
    let mut rest = v;
    let ghost orig = rest@;
    let mut n = rest.len();
    proof {
        assert(orig.skip(n as int) =~= Seq::<(String, T)>::empty());
        assert(out@ =~= Seq::<(String, T)>::empty());
    }
    while n > 0
        invariant
            n == rest.len(),
            n <= orig.len(),
            rest@ == orig.take(n as int),
            keys_sorted(out@),
            out@.to_multiset() == orig.skip(n as int).to_multiset(),
        decreases n,
    {
        let ghost before_rest = rest@;
        let x = rest.pop().unwrap();
        proof {
            assert(x == orig[n - 1]);
            assert(before_rest.drop_last() =~= orig.take(n - 1));
            assert(orig.skip(n - 1) =~= orig.skip(n as int).insert(0, x));
        }
        n = n - 1;
        let mut p: usize = 0;
        while p < out.len() && lex_le_str(out[p].0.as_str(), x.0.as_str())
            invariant
                p <= out.len(),
                forall|j: int| 0 <= j < p ==> lex_le(#[trigger] out@[j].0@, x.0@),
            decreases out.len() - p,
        {
            p = p + 1;
        }
        let ghost before = out@;
        proof {
            assert forall|j: int| p <= j < before.len() implies lex_le(x.0@, #[trigger] before[j].0@) by {
                if p < before.len() {
                    lemma_lex_total(before[p as int].0@, x.0@);
                    if j > p {
                        if lex_le(before[j].0@, x.0@) {
                            lemma_lex_trans(before[p as int].0@, before[j].0@, x.0@);
                        }
                        lemma_lex_total(before[j].0@, x.0@);
                    }
                }
            }
        }
        out.insert(p, x);
        proof {
            assert(out@ == before.insert(p as int, x));
            assert forall|i: int, j: int| 0 <= i < j < out@.len() implies lex_le(
                #[trigger] out@[i].0@,
                #[trigger] out@[j].0@,
            ) by {
                if j < p {
                    assert(out@[i] == before[i] && out@[j] == before[j]);
                } else if j == p {
                    assert(out@[i] == before[i]);
                } else if i < p {
                    assert(out@[i] == before[i] && out@[j] == before[j - 1]);
                    lemma_lex_trans(before[i].0@, x.0@, before[j - 1].0@);
                } else if i == p {
                    assert(out@[j] == before[j - 1]);
                } else {
                    assert(out@[i] == before[i - 1] && out@[j] == before[j - 1]);
                }
            }
            vstd::seq_lib::to_multiset_insert(orig.skip(n + 1), 0, x);
            vstd::seq_lib::to_multiset_insert(before, p as int, x);
        }
    }
    assert(orig.skip(0) =~= orig);
    out
}


/// Reordering a sequence reorders the images of its elements alike.
pub proof fn lemma_multiset_map<X, Y>(a: Seq<X>, b: Seq<X>, f: spec_fn(X) -> Y)
    requires
        a.to_multiset() == b.to_multiset(),
    ensures
        a.map_values(f).to_multiset() == b.map_values(f).to_multiset(),
    decreases a.len(),
{
    broadcast use vstd::seq_lib::group_to_multiset_ensures;
    broadcast use vstd::multiset::group_multiset_axioms;

    if a.len() == 0 {
        assert(b.to_multiset().len() == 0);
        assert(b.len() == 0);
        assert(a.map_values(f) =~= Seq::<Y>::empty());
        assert(b.map_values(f) =~= Seq::<Y>::empty());
    } else {
        let x = a[0];
        assert(a.to_multiset().count(x) > 0) by {
            vstd::seq_lib::to_multiset_contains(a, x);
            assert(a.contains(x));
        }
        vstd::seq_lib::to_multiset_contains(b, x);
        let j = choose|j: int| 0 <= j < b.len() && b[j] == x;
        let a1 = a.drop_first();
        let b1 = b.remove(j);
        vstd::seq_lib::to_multiset_remove(a, 0);
        vstd::seq_lib::to_multiset_remove(b, j);
        assert(a.remove(0) =~= a1);
        lemma_multiset_map(a1, b1, f);
        assert(a.map_values(f) =~= a1.map_values(f).insert(0, f(x)));
        assert(b.map_values(f) =~= b1.map_values(f).insert(j, f(x)));
        vstd::seq_lib::to_multiset_insert(a1.map_values(f), 0, f(x));
        vstd::seq_lib::to_multiset_insert(b1.map_values(f), j, f(x));
    }
}

/// Whether `s` begins with `prefix`.
pub fn starts_with_str(s: &str, prefix: &str) -> (r: bool)
    ensures
        r == (s@.len() >= prefix@.len() && s@.take(prefix@.len() as int) == prefix@),
{
    let a = str_chars(s);
    let b = str_chars(prefix);
    if a.len() < b.len() {
        return false;
    }
    let mut i: usize = 0;
    while i < b.len()
        invariant
            a@ == s@,
            b@ == prefix@,
            a.len() >= b.len(),
            i <= b.len(),
            forall|j: int| 0 <= j < i ==> a@[j] == b@[j],
        decreases b.len() - i,
    {
        if a[i] != b[i] {
            assert(s@.take(prefix@.len() as int)[i as int] != prefix@[i as int]);
            return false;
        }
        i = i + 1;
    }
    assert(s@.take(prefix@.len() as int) =~= prefix@);
    true
}


/// `s` without `prefix` where it begins with it (`str::strip_prefix(..).unwrap_or(s)`).
pub open spec fn strip_prefix_or_keep(s: Seq<char>, prefix: Seq<char>) -> Seq<char> {
    if s.len() >= prefix.len() && s.take(prefix.len() as int) == prefix {
        s.skip(prefix.len() as int)
    } else {
        s
    }
}

pub fn strip_prefix_or_keep_str(s: &str, prefix: &str) -> (r: String)
    ensures
        r@ == strip_prefix_or_keep(s@, prefix@),
{
    if starts_with_str(s, prefix) {
        let v = str_chars(s);
        let n = prefix.unicode_len();
        let r = sub_chars(&v, n, v.len());
        assert(r@ =~= s@.skip(prefix@.len() as int));
        r
    } else {
        s.to_owned()
    }
}

/// A single or double quote.
pub open spec fn is_quote(c: char) -> bool {
    c == '"' || c == '\''
}

/// `s` without the quotes at both ends (`str::trim_matches(&['"', '\''])`).
pub open spec fn spec_trim_quotes(s: Seq<char>) -> Seq<char> {
    let a = lead_count(s, |c: char| is_quote(c));
    let rest = s.skip(a as int);
    let b = lead_count(rest.reverse(), |c: char| is_quote(c));
    rest.take(rest.len() - b)
}

/// Removes the quotes at both ends of `s`.
pub fn trim_quotes(s: &str) -> (r: String)
    ensures
        r@ == spec_trim_quotes(s@),
{
    let v = str_chars(s);
    let n = v.len();
    let mut a: usize = 0;
    while a < n && (v[a] == '"' || v[a] == '\'')
        invariant
            n == v@.len(),
            a <= n,
            forall|j: int| 0 <= j < a ==> is_quote(#[trigger] v@[j]),
        decreases n - a,
    {
        a = a + 1;
    }
    proof {
        lemma_lead_count(v@, |c: char| is_quote(c), a as int);
    }
    let ghost rest = v@.skip(a as int);
    let mut e: usize = n;
    while e > a && (v[e - 1] == '"' || v[e - 1] == '\'')
        invariant
            n == v@.len(),
            a <= e <= n,
            rest == v@.skip(a as int),
            forall|j: int| e <= j < n ==> is_quote(#[trigger] v@[j]),
        decreases e,
    {
        e = e - 1;
    }
    proof {
        let rr = rest.reverse();
        assert forall|j: int| 0 <= j < n - e implies (|c: char| is_quote(c))(#[trigger] rr[j]) by {
            assert(rr[j] == v@[n - 1 - j]);
        }
        if n - e < rr.len() {
            assert(rr[n - e] == v@[e - 1]);
        }
        lemma_lead_count(rr, |c: char| is_quote(c), (n - e) as int);
        assert(rest.take(rest.len() - (n - e)) =~= v@.subrange(a as int, e as int));
    }
    sub_chars(&v, a, e)
}

/// ASCII white space, as `char::is_ascii_whitespace` understands it.
pub open spec fn is_ascii_white(c: char) -> bool {
    c == ' ' || c == '\t' || c == '\n' || c == '\u{C}' || c == '\r'
}

/// A word separator: ASCII white space where `ascii`, else any white space.
pub open spec fn is_sep(ascii: bool, c: char) -> bool {
    if ascii {
        is_ascii_white(c)
    } else {
        is_white(c)
    }
}

fn exec_is_sep(ascii: bool, c: char) -> (r: bool)
    ensures
        r == is_sep(ascii, c),
{
    if ascii {
        c == ' ' || c == '\t' || c == '\n' || c == '\u{C}' || c == '\r'
    } else {
        exec_is_white(c)
    }
}

/// The words of `s` between runs of separators (`str::split_ascii_whitespace`
/// where `ascii`, else `str::split_whitespace`).
pub open spec fn words(s: Seq<char>, ascii: bool) -> Seq<Seq<char>>
    decreases s.len(),
{
    if s.len() == 0 {
        seq![]
    } else if is_sep(ascii, s[0]) {
        words(s.drop_first(), ascii)
    } else {
        let w = lead_count(s, |c: char| !is_sep(ascii, c));
        if 0 < w <= s.len() {
            seq![s.take(w as int)] + words(s.skip(w as int), ascii)
        } else {
            seq![]
        }
    }
}

/// Splits `s` into its words.
pub fn words_of(s: &str, ascii: bool) -> (r: Vec<String>)
    ensures
        strs_view(r@) == words(s@, ascii),
{
    let v = str_chars(s);
    let n = v.len();
    let mut r: Vec<String> = Vec::new();
    let mut i: usize = 0;
    assert(v@.skip(0) =~= v@);
    assert(strs_view(r@) + words(v@, ascii) =~= words(v@, ascii));
    while i < n
        invariant
            n == v@.len(),
            v@ == s@,
            i <= n,
            words(s@, ascii) == strs_view(r@) + words(v@.skip(i as int), ascii),
        decreases n - i,
    {
        let ghost rest = v@.skip(i as int);
        let c = v[i];
        if exec_is_sep(ascii, c) {
            assert(rest.drop_first() =~= v@.skip(i + 1));
            i = i + 1;
        } else {
            let mut j: usize = i;
            while j < n && !exec_is_sep(ascii, v[j])
                invariant
                    n == v@.len(),
                    i <= j <= n,
                    forall|k: int| i <= k < j ==> !is_sep(ascii, #[trigger] v@[k]),
                decreases n - j,
            {
                j = j + 1;
            }
            proof {
                assert forall|k: int| 0 <= k < j - i implies (|c: char| !is_sep(ascii, c))(
                    #[trigger] rest[k],
                ) by {
                    assert(rest[k] == v@[i + k]);
                }
                if j < n {
                    assert(rest[j - i] == v@[j as int]);
                }
                lemma_lead_count(rest, |c: char| !is_sep(ascii, c), (j - i) as int);
                assert(rest[0] == c);
                assert(rest.take(j - i) =~= v@.subrange(i as int, j as int));
                assert(rest.skip(j - i) =~= v@.skip(j as int));
            }
            let w = sub_chars(&v, i, j);
            let ghost before = strs_view(r@);
            r.push(w);
            assert(strs_view(r@) =~= before.push(w@));
            assert(strs_view(r@) + words(v@.skip(j as int), ascii) =~= before + (seq![w@]
                + words(v@.skip(j as int), ascii)));
            i = j;
        }
    }
    assert(v@.skip(n as int) =~= Seq::<char>::empty());
    assert(strs_view(r@) + Seq::<Seq<char>>::empty() =~= strs_view(r@));
    r
}

/// Whether `c` is an ASCII digit.
pub open spec fn is_digit(c: char) -> bool {
    '0' <= c && c <= '9'
}

/// Whether every character of `d` is a decimal digit.
pub open spec fn all_digits(d: Seq<char>) -> bool {
    forall|i: int| 0 <= i < d.len() ==> is_digit(#[trigger] d[i])
}

/// The number that a sequence of decimal digits writes.
pub open spec fn digits_value(d: Seq<char>) -> nat
    decreases d.len(),
{
    if d.len() == 0 {
        0
    } else {
        digits_value(d.drop_last()) * 10 + ((d.last() as nat) - 48) as nat
    }
}

/// `s` without one leading `+`.
pub open spec fn unsigned_part(s: Seq<char>) -> Seq<char> {
    if s.len() > 0 && s[0] == '+' {
        s.drop_first()
    } else {
        s
    }
}

/// What `str::parse::<u32>` gives: an optional `+`, then at least one
/// decimal digit and nothing else, of a value that fits in 32 bits.
pub open spec fn spec_parse_u32(s: Seq<char>) -> Option<u32> {
    let d = unsigned_part(s);
    if d.len() > 0 && all_digits(d) && digits_value(d) <= u32::MAX {
        Some(digits_value(d) as u32)
    } else {
        None
    }
}

proof fn lemma_digits_value_grows(d: Seq<char>, k: int)
    requires
        0 <= k <= d.len(),
        forall|i: int| 0 <= i < d.len() ==> is_digit(#[trigger] d[i]),
    ensures
        digits_value(d.take(k)) <= digits_value(d),
    decreases d.len(),
{
    if k < d.len() {
        assert(d.drop_last().take(k) =~= d.take(k));
        assert forall|i: int| 0 <= i < d.drop_last().len() implies is_digit(
            #[trigger] d.drop_last()[i],
        ) by {
            assert(d.drop_last()[i] == d[i]);
        }
        lemma_digits_value_grows(d.drop_last(), k);
    } else {
        assert(d.take(k) =~= d);
    }
}

/// Parses an unsigned 32-bit decimal number.
pub fn parse_u32(s: &str) -> (r: Option<u32>)
    ensures
        r == spec_parse_u32(s@),
{
    let v = str_chars(s);
    let start: usize = if v.len() > 0 && v[0] == '+' {
        1
    } else {
        0
    };
    let ghost d = unsigned_part(s@);
    assert(d =~= v@.skip(start as int));
    if start >= v.len() {
        return None;
    }
    let mut acc: u64 = 0;
    let mut i: usize = start;
    while i < v.len()
        invariant
            v@ == s@,
            start <= i <= v.len(),
            d == unsigned_part(s@),
            d == v@.skip(start as int),
            forall|k: int| 0 <= k < i - start ==> is_digit(#[trigger] d[k]),
            acc == digits_value(d.take(i - start)),
            acc <= u32::MAX,
        decreases v.len() - i,
    {
        let c = v[i];
        if !('0' <= c && c <= '9') {
            assert(d[i - start] == c);
            assert(!is_digit(d[i - start]));
            return None;
        }
        assert(d.take(i - start + 1).drop_last() =~= d.take(i - start));
        assert(d.take(i - start + 1).last() == c);
        acc = acc * 10 + ((c as u32) - 48) as u64;
        i = i + 1;
        assert(acc == digits_value(d.take(i - start)));
        if acc > 4294967295 {
            proof {
                if forall|k: int| 0 <= k < d.len() ==> is_digit(#[trigger] d[k]) {
                    lemma_digits_value_grows(d, i - start);
                }
            }
            return None;
        }
    }
    assert(d.take(i - start) =~= d);
    Some(acc as u32)
}

/// What `str::parse::<u64>` gives: an optional `+`, then at least one
/// decimal digit and nothing else, of a value that fits in 64 bits.
pub open spec fn spec_parse_u64(s: Seq<char>) -> Option<u64> {
    let d = unsigned_part(s);
    if d.len() > 0 && all_digits(d) && digits_value(d) <= u64::MAX {
        Some(digits_value(d) as u64)
    } else {
        None
    }
}

/// Parses an unsigned 64-bit decimal number.
pub fn parse_u64(s: &str) -> (r: Option<u64>)
    ensures
        r == spec_parse_u64(s@),
{
    let v = str_chars(s);
    let start: usize = if v.len() > 0 && v[0] == '+' {
        1
    } else {
        0
    };
    let ghost d = unsigned_part(s@);
    assert(d =~= v@.skip(start as int));
    if start >= v.len() {
        return None;
    }
    let mut acc: u128 = 0;
    let mut i: usize = start;
    while i < v.len()
        invariant
            v@ == s@,
            start <= i <= v.len(),
            d == unsigned_part(s@),
            d == v@.skip(start as int),
            forall|k: int| 0 <= k < i - start ==> is_digit(#[trigger] d[k]),
            acc == digits_value(d.take(i - start)),
            acc <= u64::MAX,
        decreases v.len() - i,
    {
        let c = v[i];
        if !('0' <= c && c <= '9') {
            assert(d[i - start] == c);
            assert(!is_digit(d[i - start]));
            return None;
        }
        assert(d.take(i - start + 1).drop_last() =~= d.take(i - start));
        assert(d.take(i - start + 1).last() == c);
        acc = acc * 10 + ((c as u32) - 48) as u128;
        i = i + 1;
        assert(acc == digits_value(d.take(i - start)));
        if acc > 18446744073709551615 {
            proof {
                if forall|k: int| 0 <= k < d.len() ==> is_digit(#[trigger] d[k]) {
                    lemma_digits_value_grows(d, i - start);
                }
            }
            return None;
        }
    }
    assert(d.take(i - start) =~= d);
    Some(acc as u64)
}

/// Whether two strings are equal.
pub fn eq_str(a: &str, b: &str) -> (r: bool)
    ensures
        r == (a@ == b@),
{
    let x = str_chars(a);
    let y = str_chars(b);
    if x.len() != y.len() {
        return false;
    }
    let mut i: usize = 0;
    while i < x.len()
        invariant
            x@ == a@,
            y@ == b@,
            x.len() == y.len(),
            i <= x.len(),
            forall|k: int| 0 <= k < i ==> x@[k] == y@[k],
        decreases x.len() - i,
    {
        if x[i] != y[i] {
            assert(a@[i as int] != b@[i as int]);
            return false;
        }
        i = i + 1;
    }
    assert(a@ =~= b@);
    true
}

pub(crate) proof fn lemma_dec_digits(n: nat)
    ensures
        dec_digits(n).len() > 0,
        all_digits(dec_digits(n)),
        digits_value(dec_digits(n)) == n,
    decreases n,
{
    let ds = dec_digits(n);
    if n < 10 {
        let c = ((n + 48) as u8) as char;
        assert(c as nat == n + 48);
        assert(ds == seq![c]);
        assert(ds.drop_last() =~= Seq::<char>::empty());
        assert(ds.last() == c);
        assert(digits_value(ds) == digits_value(ds.drop_last()) * 10 + ((c as nat) - 48) as nat);
    } else {
        lemma_dec_digits(n / 10);
        let c = (((n % 10) + 48) as u8) as char;
        assert(c as nat == n % 10 + 48);
        assert(ds == dec_digits(n / 10).push(c));
        assert(ds.drop_last() =~= dec_digits(n / 10));
        assert(ds.last() == c);
        assert(digits_value(ds) == digits_value(ds.drop_last()) * 10 + ((c as nat) - 48) as nat);
        assert(n == (n / 10) * 10 + n % 10);
        assert forall|i: int| 0 <= i < ds.len() implies is_digit(#[trigger] ds[i]) by {
            if i < ds.len() - 1 {
                assert(ds[i] == dec_digits(n / 10)[i]);
            }
        }
    }
}

pub(crate) proof fn lemma_zeros_value(k: nat)
    ensures
        all_digits(Seq::new(k, |i: int| '0')),
        digits_value(Seq::new(k, |i: int| '0')) == 0,
    decreases k,
{
    if k > 0 {
        lemma_zeros_value((k - 1) as nat);
        assert(Seq::new(k, |i: int| '0').drop_last() =~= Seq::new((k - 1) as nat, |i: int| '0'));
    }
}

pub(crate) proof fn lemma_leading_zeros(z: Seq<char>, d: Seq<char>)
    requires
        all_digits(z),
        digits_value(z) == 0,
        all_digits(d),
    ensures
        all_digits(z + d),
        digits_value(z + d) == digits_value(d),
    decreases d.len(),
{
    assert forall|i: int| 0 <= i < (z + d).len() implies is_digit(#[trigger] (z + d)[i]) by {
        if i < z.len() {
            assert((z + d)[i] == z[i]);
        } else {
            assert((z + d)[i] == d[i - z.len()]);
        }
    }
    if d.len() == 0 {
        assert(z + d =~= z);
    } else {
        assert((z + d).drop_last() =~= z + d.drop_last());
        assert((z + d).last() == d.last());
        assert(all_digits(d.drop_last())) by {
            assert forall|i: int| 0 <= i < d.drop_last().len() implies is_digit(
                #[trigger] d.drop_last()[i],
            ) by {
                assert(d.drop_last()[i] == d[i]);
            }
        }
        lemma_leading_zeros(z, d.drop_last());
    }
}

/// A number padded with zeros reads back as that number.
pub(crate) proof fn lemma_parse_padded(n: u32, w: nat)
    ensures
        all_digits(zero_pad(n as nat, w)),
        spec_parse_u32(zero_pad(n as nat, w)) == Some(n),
{
    let d = dec_digits(n as nat);
    lemma_dec_digits(n as nat);
    let p = zero_pad(n as nat, w);
    if d.len() < w {
        let z = Seq::new((w - d.len()) as nat, |i: int| '0');
        lemma_zeros_value((w - d.len()) as nat);
        lemma_leading_zeros(z, d);
    }
    assert(p.len() > 0);
    assert(is_digit(p[0]));
    assert(unsigned_part(p) == p);
}

/// A decimal number reads back as itself: `parse::<u64>` of what
/// `u64_to_string` writes is the number.
pub proof fn law_decimal_reads_back(n: u64)
    ensures
        spec_parse_u64(dec_digits(n as nat)) == Some(n),
{
    lemma_dec_digits(n as nat);
    let d = dec_digits(n as nat);
    assert(is_digit(d[0]));
    assert(unsigned_part(d) == d);
}

pub(crate) proof fn lemma_no_char_concat(a: Seq<char>, b: Seq<char>, c: char)
    requires
        !a.contains(c),
        !b.contains(c),
    ensures
        !(a + b).contains(c),
{
    assert forall|i: int| 0 <= i < (a + b).len() implies (a + b)[i] != c by {
        if i < a.len() {
            assert((a + b)[i] == a[i]);
        } else {
            assert((a + b)[i] == b[i - a.len()]);
        }
    }
}

pub(crate) proof fn lemma_find_char_concat(a: Seq<char>, b: Seq<char>, c: char)
    requires
        !a.contains(c),
    ensures
        find_char(a + b, c) == match find_char(b, c) {
            Some(i) => Some(i + a.len()),
            None => None::<int>,
        },
    decreases a.len(),
{
    if a.len() == 0 {
        assert(a + b =~= b);
    } else {
        assert((a + b)[0] == a[0]);
        assert((a + b).drop_first() =~= a.drop_first() + b);
        assert(!a.drop_first().contains(c)) by {
            if a.drop_first().contains(c) {
                let i = choose|i: int| 0 <= i < a.drop_first().len() && a.drop_first()[i] == c;
                assert(a[i + 1] == c);
            }
        }
        assert(a[0] != c) by {
            if a[0] == c {
                assert(a.contains(c));
            }
        }
        lemma_find_char_concat(a.drop_first(), b, c);
    }
}

/// Splitting `a`, `c`, `b` at its first `c` gives `a` and `b` where `a` has no `c`.
pub(crate) proof fn lemma_split_once_at(a: Seq<char>, b: Seq<char>, c: char)
    requires
        !a.contains(c),
    ensures
        split_once(a + seq![c] + b, c) == Some((a, b)),
{
    let s = a + seq![c] + b;
    assert(s =~= a + (seq![c] + b));
    lemma_find_char_concat(a, seq![c] + b, c);
    assert((seq![c] + b)[0] == c);
    assert(find_char(seq![c] + b, c) == Some(0int));
    assert(s.take(a.len() as int) =~= a);
    assert(s.skip(a.len() as int + 1) =~= b);
}

/// Lines joined, each ended by a new line.
pub open spec fn joined_lines(ls: Seq<Seq<char>>) -> Seq<char>
    decreases ls.len(),
{
    if ls.len() == 0 {
        seq![]
    } else {
        joined_lines(ls.drop_last()) + ls.last() + seq!['\n']
    }
}

proof fn lemma_split_on_extend(x: Seq<char>, y: Seq<char>, sep: char)
    requires
        !y.contains(sep),
    ensures
        split_on(x + y, sep) == split_on(x, sep).update(
            split_on(x, sep).len() - 1,
            split_on(x, sep).last() + y,
        ),
    decreases y.len(),
{
    lemma_split_on_nonempty(x, sep);
    if y.len() == 0 {
        assert(x + y =~= x);
        assert(split_on(x, sep).last() + y =~= split_on(x, sep).last());
        assert(split_on(x, sep).update(split_on(x, sep).len() - 1, split_on(x, sep).last())
            =~= split_on(x, sep));
    } else {
        let y0 = y.drop_last();
        assert(!y0.contains(sep)) by {
            if y0.contains(sep) {
                let j = choose|j: int| 0 <= j < y0.len() && y0[j] == sep;
                assert(y[j] == sep);
            }
        }
        assert(y.last() != sep) by {
            if y.last() == sep {
                assert(y[y.len() - 1] == sep);
            }
        }
        lemma_split_on_extend(x, y0, sep);
        assert((x + y).drop_last() =~= x + y0);
        assert((x + y).last() == y.last());
        let p = split_on(x, sep);
        assert((p.last() + y0).push(y.last()) =~= p.last() + y);
        assert(split_on(x + y, sep) =~= p.update(p.len() - 1, p.last() + y));
    }
}

/// Splitting lines that were joined with new lines gives them back, and an
/// empty piece after the last new line.
pub proof fn lemma_split_joined(ls: Seq<Seq<char>>)
    requires
        forall|i: int| 0 <= i < ls.len() ==> !(#[trigger] ls[i]).contains('\n'),
    ensures
        split_on(joined_lines(ls), '\n') == ls.push(seq![]),
    decreases ls.len(),
{
    if ls.len() == 0 {
        assert(split_on(joined_lines(ls), '\n') =~= seq![seq![]]);
        assert(ls.push(seq![]) =~= seq![seq![]]);
    } else {
        let init = ls.drop_last();
        assert forall|i: int| 0 <= i < init.len() implies !(#[trigger] init[i]).contains('\n') by {
            assert(init[i] == ls[i]);
        }
        lemma_split_joined(init);
        let l = ls.last();
        assert(!l.contains('\n')) by {
            assert(ls[ls.len() - 1] == l);
        }
        let x = joined_lines(init);
        lemma_split_on_extend(x, l, '\n');
        let px = split_on(x, '\n');
        assert(px.last() + l =~= l);
        let s = x + l + seq!['\n'];
        assert(s.drop_last() =~= x + l);
        assert(s.last() == '\n');
        assert(joined_lines(ls) == s);
        assert(split_on(s, '\n') =~= px.update(px.len() - 1, l).push(seq![]));
        assert(px.update(px.len() - 1, l) =~= ls);
    }
}

/// The lines of a text made of lines that each end with a new line are those
/// lines, where none of them ends with a carriage return.
pub proof fn lemma_lines_of_joined(ls: Seq<Seq<char>>)
    requires
        forall|i: int| 0 <= i < ls.len() ==> !(#[trigger] ls[i]).contains('\n'),
        forall|i: int| 0 <= i < ls.len() ==> !(#[trigger] ls[i]).contains('\r'),
    ensures
        spec_lines(joined_lines(ls)) == ls,
{
    lemma_split_joined(ls);
    let parts = ls.push(seq![]);
    assert forall|i: int| 0 <= i < ls.len() implies #[trigger] strip_cr(parts[i]) == ls[i] by {
        assert(parts[i] == ls[i]);
        if ls[i].len() > 0 && ls[i].last() == '\r' {
            assert(ls[i][ls[i].len() - 1] == '\r');
        }
    }
    assert(spec_lines(joined_lines(ls)) =~= ls);
}

} // verus!
