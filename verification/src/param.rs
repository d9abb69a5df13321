//! Request parameters and cookies of a CGI request.
use vstd::prelude::*;

use crate::strmap::{StrMap, lookup, opt_string_view};
use crate::text::{
    exec_hex_value, hex_lower, hex_value, push_char, split_chars, split_on, split_once,
    split_once_char, spec_trim, str_chars, string_from_utf8, strs_view, trim,
};
use crate::web::{is_unreserved, pct_byte, pct_bytes, spec_url_encode, url_char};

verus! {

broadcast use vstd::string::group_string_axioms;

/// The bytes that a URL component stands for: `%hh` is the byte with these two
/// hexadecimal digits, `+` a space, any other ASCII character itself; anything
/// else fails.
pub open spec fn decode_bytes(s: Seq<char>) -> Option<Seq<u8>>
    decreases s.len(),
{
    if s.len() == 0 {
        Some(seq![])
    } else if s[0] == '%' {
        if s.len() < 3 {
            None
        } else {
            match (hex_value(s[1]), hex_value(s[2])) {
                (Some(a), Some(b)) => match decode_bytes(s.skip(3)) {
                    Some(t) => Some(seq![(a * 16 + b) as u8] + t),
                    None => None,
                },
                _ => None,
            }
        }
    } else {
        let b: u8 = if s[0] == '+' {
            32
        } else {
            s[0] as u8
        };
        if s[0] != '+' && (s[0] as u32) >= 128 {
            None
        } else {
            match decode_bytes(s.drop_first()) {
                Some(t) => Some(seq![b] + t),
                None => None,
            }
        }
    }
}

/// The text that a URL component stands for, where its bytes are UTF-8.
pub open spec fn spec_url_decode(s: Seq<char>) -> Option<Seq<char>> {
    match decode_bytes(s) {
        Some(b) => if vstd::utf8::valid_utf8(b) {
            Some(vstd::utf8::decode_utf8(b))
        } else {
            None
        },
        None => None,
    }
}

/// One `name=value` piece, decoded; a piece without `=`, or whose name or value
/// does not decode, gives nothing.
pub open spec fn decode_pair(part: Seq<char>, trim_name: bool) -> Option<(Seq<char>, Seq<char>)> {
    match split_once(part, '=') {
        Some((n, v)) => match (spec_url_decode(n), spec_url_decode(v)) {
            (Some(dn), Some(dv)) => Some((if trim_name { spec_trim(dn) } else { dn }, dv)),
            _ => None,
        },
        None => None,
    }
}

/// The pairs that the pieces of a text give, in order.
pub open spec fn decode_pairs(parts: Seq<Seq<char>>, trim_name: bool) -> Seq<(Seq<char>, Seq<char>)>
    decreases parts.len(),
{
    if parts.len() == 0 {
        seq![]
    } else {
        let init = decode_pairs(parts.drop_last(), trim_name);
        match decode_pair(parts.last(), trim_name) {
            Some(p) => init.push(p),
            None => init,
        }
    }
}

/// The parameters of a query string or of a form body: pieces split at `&`.
pub open spec fn query_pairs(query: Seq<char>) -> Seq<(Seq<char>, Seq<char>)> {
    decode_pairs(split_on(query, '&'), false)
}

/// The cookies of a `Cookie` header: pieces split at `;`, names trimmed.
pub open spec fn cookie_pairs(header: Seq<char>) -> Seq<(Seq<char>, Seq<char>)> {
    decode_pairs(split_on(header, ';'), true)
}

pub open spec fn opt_pairs(o: Option<String>, cookies: bool) -> Seq<(Seq<char>, Seq<char>)> {
    match o {
        Some(s) => if cookies {
            cookie_pairs(s@)
        } else {
            query_pairs(s@)
        },
        None => seq![],
    }
}

/// The parameters and cookies of a request.
#[derive(Debug)]
pub struct Param {
    params: StrMap,
    cookies: StrMap,
}

impl Param {
    pub closed spec fn params_view(&self) -> Seq<(Seq<char>, Seq<char>)> {
        self.params@
    }

    pub closed spec fn cookies_view(&self) -> Seq<(Seq<char>, Seq<char>)> {
        self.cookies@
    }

    /// The parameters of a request: those of the query string, then those of the
    /// form body; and the cookies of the `Cookie` header. Where there is no form
    /// body, name `k` reads as `v` exactly when the last `&`-piece of the query
    /// that decodes to a pair named `k` decodes to `(k, v)`.
    pub fn new(query: Option<String>, cookie_header: Option<String>, form_body: Option<String>) -> (r:
        Param)
        ensures
            r.params_view() == opt_pairs(query, false) + opt_pairs(form_body, false),
            r.cookies_view() == opt_pairs(cookie_header, true),
            form_body is None ==> forall|k: Seq<char>, v: Seq<char>|
                #[trigger] reads_as(r.params_view(), k, v) <==> match query {
                    Some(q) => query_gives(q@, k, v),
                    None => false,
                },
    {
        let mut res = Param { params: StrMap::new(), cookies: StrMap::new() };
        if let Some(q) = &query {
            add_pairs(&mut res.params, q.as_str(), '&', false);
        }
        assert(res.params@ =~= opt_pairs(query, false));
        if let Some(c) = &cookie_header {
            add_pairs(&mut res.cookies, c.as_str(), ';', true);
        }
        assert(res.cookies@ =~= opt_pairs(cookie_header, true));
        if let Some(b) = &form_body {
            add_pairs(&mut res.params, b.as_str(), '&', false);
        }
        assert(res.params@ =~= opt_pairs(query, false) + opt_pairs(form_body, false));
        proof {
            if form_body is None {
                assert(res.params@ =~= opt_pairs(query, false));
                assert forall|k: Seq<char>, v: Seq<char>|
                    #[trigger] reads_as(res.params@, k, v) <==> match query {
                        Some(q) => query_gives(q@, k, v),
                        None => false,
                    } by {
                    match &query {
                        Some(q) => {
                            assert(res.params@ == query_pairs(q@));
                            law_query_parameters(q@, k, v);
                        },
                        None => {
                            assert(res.params@ =~= Seq::<(Seq<char>, Seq<char>)>::empty());
                            assert(lookup(res.params@, k) is None);
                        },
                    }
                }
            }
        }
        res
    }

    /// The value of parameter `key`; where a key came more than once, the last one.
    pub fn param(&self, key: &str) -> (r: Option<String>)
        ensures
            opt_string_view(r) == lookup(self.params_view(), key@),
    {
        self.params.get(key)
    }

    /// The value of cookie `key`; where a cookie came more than once, the last one.
    pub fn cookie(&self, key: &str) -> (r: Option<String>)
        ensures
            opt_string_view(r) == lookup(self.cookies_view(), key@),
    {
        self.cookies.get(key)
    }

    /// Decodes a URL component; `None` where it is malformed or its bytes are no UTF-8.
    pub fn url_comp_decode(&self, comp: &str) -> (r: Option<String>)
        ensures
            opt_string_view(r) == spec_url_decode(comp@),
    {
        url_decode(comp)
    }
}

/// Decodes a URL component.
pub fn url_decode(comp: &str) -> (r: Option<String>)
    ensures
        opt_string_view(r) == spec_url_decode(comp@),
{
    let v = str_chars(comp);
    let n = v.len();
    let mut res: Vec<u8> = Vec::new();
    let mut i: usize = 0;
    assert(v@.skip(0) =~= v@);
    while i < n
        invariant
            n == v@.len(),
            v@ == comp@,
            i <= n,
            match decode_bytes(v@.skip(i as int)) {
                Some(t) => decode_bytes(v@) == Some(res@ + t),
                None => decode_bytes(v@) is None,
            },
        decreases n - i,
    {
        let ghost rest = v@.skip(i as int);
        let c = v[i];
        assert(rest[0] == c);
        if c == '%' {
            if n - i < 3 {
                return None;
            }
            let d1 = exec_hex_value(v[i + 1]);
            let d2 = exec_hex_value(v[i + 2]);
            assert(rest[1] == v@[i + 1] && rest[2] == v@[i + 2]);
            match (d1, d2) {
                (Some(a), Some(b)) => {
                    assert(rest.skip(3) =~= v@.skip(i + 3));
                    let byte = (a * 16 + b) as u8;
                    let ghost before = res@;
                    res.push(byte);
                    assert(res@ =~= before + seq![byte]);
                    proof {
                        match decode_bytes(v@.skip(i + 3)) {
                            Some(t) => {
                                assert(before + seq![byte] + t =~= before + (seq![byte] + t));
                            },
                            None => {},
                        }
                    }
                    i = i + 3;
                },
                _ => {
                    return None;
                },
            }
        } else {
            if c != '+' && (c as u32) >= 128 {
                return None;
            }
            let b: u8 = if c == '+' {
                32
            } else {
                c as u8
            };
            assert(rest.drop_first() =~= v@.skip(i + 1));
            let ghost before = res@;
            res.push(b);
            assert(res@ =~= before + seq![b]);
            proof {
                match decode_bytes(v@.skip(i + 1)) {
                    Some(t) => {
                        assert(before + seq![b] + t =~= before + (seq![b] + t));
                    },
                    None => {},
                }
            }
            i = i + 1;
        }
    }
    assert(v@.skip(n as int) =~= Seq::<char>::empty());
    assert(res@ + Seq::<u8>::empty() =~= res@);
    string_from_utf8(res)
}

fn decode_one(part: &str, trim_name: bool) -> (r: Option<(String, String)>)
    ensures
        match r {
            Some((a, b)) => decode_pair(part@, trim_name) == Some((a@, b@)),
            None => decode_pair(part@, trim_name) is None,
        },
{
    match split_once_char(part, '=') {
        Some((n, v)) => {
            let dn = url_decode(n.as_str());
            let dv = url_decode(v.as_str());
            match (dn, dv) {
                (Some(a), Some(b)) => {
                    let name = if trim_name {
                        trim(a.as_str())
                    } else {
                        a
                    };
                    Some((name, b))
                },
                _ => None,
            }
        },
        None => None,
    }
}

/// Adds the pairs of `text`, split at `sep`, to `map`.
fn add_pairs(map: &mut StrMap, text: &str, sep: char, trim_name: bool)
    ensures
        final(map)@ == old(map)@ + decode_pairs(split_on(text@, sep), trim_name),
{
    let parts = split_chars(text, sep);
    let ghost pv = strs_view(parts@);
    let mut i: usize = 0;
    assert(pv.take(0) =~= Seq::<Seq<char>>::empty());
    assert(old(map)@ + Seq::<(Seq<char>, Seq<char>)>::empty() =~= old(map)@);
    while i < parts.len()
        invariant
            pv == strs_view(parts@),
            pv == split_on(text@, sep),
            i <= parts.len(),
            map@ == old(map)@ + decode_pairs(pv.take(i as int), trim_name),
        decreases parts.len() - i,
    {
        assert(pv.take(i + 1).drop_last() =~= pv.take(i as int));
        assert(pv.take(i + 1).last() == parts@[i as int]@);
        let ghost before = map@;
        match decode_one(parts[i].as_str(), trim_name) {
            Some((k, v)) => {
                map.insert(k, v);
                assert(map@ =~= old(map)@ + decode_pairs(pv.take(i + 1), trim_name));
            },
            None => {},
        }
        i = i + 1;
    }
    assert(pv.take(parts.len() as int) =~= pv);
}

/// Whether the body of a request holds form parameters: a `POST` of
/// `application/x-www-form-urlencoded` content.
pub fn wants_form_body(method: &str, content_type: &str) -> (r: bool)
    ensures
        r == (method@ == "POST"@ && content_type@ == "application/x-www-form-urlencoded"@),
{
    let m = method.to_owned();
    let c = content_type.to_owned();
    let post = String::from_str("POST");
    let form = String::from_str("application/x-www-form-urlencoded");
    m == post && c == form
}

/// The path with each backslash turned into a slash.
pub open spec fn spec_web_separator(s: Seq<char>) -> Seq<char> {
    Seq::new(s.len(), |i: int| if s[i] == '\\' { '/' } else { s[i] })
}

/// Turns Windows path separators into the ones the web uses.
pub fn to_web_separator(path: String) -> (r: String)
    ensures
        r@ == spec_web_separator(path@),
{
    let mut r = String::new();
    for c in it: path.as_str().chars()
        invariant
            it.seq() == path@,
            r@ == spec_web_separator(it.seq().take(it.index() as int)),
    {
        let d = if c == '\\' {
            '/'
        } else {
            c
        };
        push_char(&mut r, d);
        assert(r@ =~= spec_web_separator(it.seq().take(it.index() + 1)));
    }
    assert(path@.take(path@.len() as int) =~= path@);
    r
}

// ---------------------------------------------------------------------------
// Decoding undoes encoding.

proof fn lemma_decode_pct(b: u8, rest: Seq<char>)
    ensures
        decode_bytes(pct_byte(b) + rest) == match decode_bytes(rest) {
            Some(t) => Some(seq![b] + t),
            None => None::<Seq<u8>>,
        },
{
    let s = pct_byte(b) + rest;
    crate::text::lemma_hex_roundtrip(b / 16);
    crate::text::lemma_hex_roundtrip(b % 16);
    assert(s[0] == '%');
    assert(s[1] == hex_lower(b / 16));
    assert(s[2] == hex_lower(b % 16));
    assert(s.skip(3) =~= rest);
    assert(((b / 16) * 16 + b % 16) as u8 == b);
}

proof fn lemma_decode_pct_bytes(bs: Seq<u8>, rest: Seq<char>)
    ensures
        decode_bytes(pct_bytes(bs) + rest) == match decode_bytes(rest) {
            Some(t) => Some(bs + t),
            None => None::<Seq<u8>>,
        },
    decreases bs.len(),
{
    if bs.len() > 0 {
        let tail = pct_bytes(bs.drop_first()) + rest;
        assert(pct_bytes(bs) + rest =~= pct_byte(bs[0]) + tail);
        lemma_decode_pct(bs[0], tail);
        lemma_decode_pct_bytes(bs.drop_first(), rest);
        match decode_bytes(rest) {
            Some(t) => {
                assert(seq![bs[0]] + (bs.drop_first() + t) =~= bs + t);
            },
            None => {},
        }
    } else {
        assert(pct_bytes(bs) + rest =~= rest);
        match decode_bytes(rest) {
            Some(t) => {
                assert(bs + t =~= t);
            },
            None => {},
        }
    }
}

proof fn lemma_decode_url_char(c: char, rest: Seq<char>)
    ensures
        decode_bytes(url_char(c) + rest) == match decode_bytes(rest) {
            Some(t) => Some(vstd::utf8::encode_utf8(seq![c]) + t),
            None => None::<Seq<u8>>,
        },
{
    let enc = vstd::utf8::encode_utf8(seq![c]);
    if is_unreserved(c) {
        let s = seq![c] + rest;
        assert(s[0] == c);
        assert(s.drop_first() =~= rest);
        assert(seq![c].drop_first() =~= Seq::<char>::empty());
        assert(vstd::utf8::encode_utf8(Seq::<char>::empty()) =~= Seq::<u8>::empty());
        assert(enc =~= vstd::utf8::encode_scalar(c as u32));
        let v = c as u32;
        assert(v & 0x7F == v) by (bit_vector)
            requires
                v < 128,
        ;
        assert(vstd::utf8::encode_scalar(c as u32) =~= seq![c as u8]);
    } else {
        lemma_decode_pct_bytes(enc, rest);
    }
}

proof fn lemma_url_encode_cons(c: char, s: Seq<char>)
    ensures
        spec_url_encode(seq![c] + s) == url_char(c) + spec_url_encode(s),
    decreases s.len(),
{
    if s.len() == 0 {
        assert(seq![c] + s =~= seq![c]);
        assert(seq![c].drop_last() =~= Seq::<char>::empty());
        assert(spec_url_encode(seq![c]) == spec_url_encode(Seq::<char>::empty()) + url_char(c));
        assert(url_char(c) + spec_url_encode(s) =~= url_char(c));
        assert(spec_url_encode(Seq::<char>::empty()) + url_char(c) =~= url_char(c));
    } else {
        let t = seq![c] + s;
        assert(t.drop_last() =~= seq![c] + s.drop_last());
        assert(t.last() == s.last());
        lemma_url_encode_cons(c, s.drop_last());
        assert(spec_url_encode(t) == spec_url_encode(t.drop_last()) + url_char(t.last()));
        assert(spec_url_encode(s) == spec_url_encode(s.drop_last()) + url_char(s.last()));
        assert(url_char(c) + spec_url_encode(s.drop_last()) + url_char(s.last()) =~= url_char(c)
            + (spec_url_encode(s.drop_last()) + url_char(s.last())));
    }
}

proof fn lemma_decode_encoded(s: Seq<char>)
    ensures
        decode_bytes(spec_url_encode(s)) == Some(vstd::utf8::encode_utf8(s)),
    decreases s.len(),
{
    if s.len() == 0 {
        assert(vstd::utf8::encode_utf8(s) =~= Seq::<u8>::empty());
    } else {
        let c = s[0];
        let t = s.drop_first();
        assert(s =~= seq![c] + t);
        lemma_url_encode_cons(c, t);
        lemma_decode_encoded(t);
        lemma_decode_url_char(c, spec_url_encode(t));
        assert(seq![c][0] == c);
        assert(seq![c].drop_first() =~= Seq::<char>::empty());
        assert(vstd::utf8::encode_utf8(Seq::<char>::empty()) =~= Seq::<u8>::empty());
        assert(vstd::utf8::encode_utf8(seq![c]) =~= vstd::utf8::encode_scalar(c as u32));
        assert(vstd::utf8::encode_utf8(s) =~= vstd::utf8::encode_scalar(c as u32)
            + vstd::utf8::encode_utf8(t));
    }
}

/// Decoding a URL-encoded string gives the string back.
pub proof fn law_url_decode_inverts_encode(s: Seq<char>)
    ensures
        spec_url_decode(spec_url_encode(s)) == Some(s),
{
    lemma_decode_encoded(s);
    vstd::utf8::encode_utf8_valid_utf8(s);
    vstd::utf8::encode_utf8_decode_utf8(s);
}

/// Whether `part` decodes to a pair named `k`.
pub open spec fn part_names(part: Seq<char>, trim_name: bool, k: Seq<char>) -> bool {
    decode_pair(part, trim_name) matches Some(pp) && pp.0 == k
}

proof fn lemma_pairs_lookup(parts: Seq<Seq<char>>, trim_name: bool, k: Seq<char>)
    ensures
        lookup(decode_pairs(parts, trim_name), k) matches Some(v) ==> exists|i: int|
            0 <= i < parts.len() && #[trigger] decode_pair(parts[i], trim_name) == Some((k, v)) && forall|
                j: int,
            |
                i < j < parts.len() ==> !part_names(#[trigger] parts[j], trim_name, k),
        lookup(decode_pairs(parts, trim_name), k) is None ==> forall|i: int|
            0 <= i < parts.len() ==> !part_names(#[trigger] parts[i], trim_name, k),
    decreases parts.len(),
{
    if parts.len() > 0 {
        let init = parts.drop_last();
        let last = parts.last();
        lemma_pairs_lookup(init, trim_name, k);
        let n = parts.len() - 1;
        assert(parts[n] == last);
        assert forall|j: int| 0 <= j < init.len() implies init[j] == parts[j] by {}
        match decode_pair(last, trim_name) {
            Some(pp) => {
                let ps = decode_pairs(init, trim_name).push(pp);
                assert(ps.drop_last() =~= decode_pairs(init, trim_name));
                if pp.0 == k {
                    assert(decode_pair(parts[n], trim_name) == Some((k, pp.1)));
                } else {
                    match lookup(decode_pairs(init, trim_name), k) {
                        Some(v) => {
                            let i = choose|i: int|
                                0 <= i < init.len() && #[trigger] decode_pair(init[i], trim_name) == Some((k, v))
                                    && forall|j: int| i < j < init.len() ==> !part_names(#[trigger] init[j], trim_name, k);
                            assert(decode_pair(parts[i], trim_name) == Some((k, v)));
                            assert forall|j: int| i < j < parts.len() implies !part_names(#[trigger] parts[j], trim_name, k) by {
                                if j < n {
                                    assert(parts[j] == init[j]);
                                }
                            }
                        },
                        None => {
                            assert forall|j: int| 0 <= j < parts.len() implies !part_names(#[trigger] parts[j], trim_name, k) by {
                                if j < n {
                                    assert(parts[j] == init[j]);
                                }
                            }
                        },
                    }
                }
            },
            None => {
                match lookup(decode_pairs(init, trim_name), k) {
                    Some(v) => {
                        let i = choose|i: int|
                            0 <= i < init.len() && #[trigger] decode_pair(init[i], trim_name) == Some((k, v))
                                && forall|j: int| i < j < init.len() ==> !part_names(#[trigger] init[j], trim_name, k);
                        assert(decode_pair(parts[i], trim_name) == Some((k, v)));
                        assert forall|j: int| i < j < parts.len() implies !part_names(#[trigger] parts[j], trim_name, k) by {
                            if j < n {
                                assert(parts[j] == init[j]);
                            }
                        }
                    },
                    None => {
                        assert forall|j: int| 0 <= j < parts.len() implies !part_names(#[trigger] parts[j], trim_name, k) by {
                            if j < n {
                                assert(parts[j] == init[j]);
                            }
                        }
                    },
                }
            },
        }
    }
}

/// Whether name `k` reads as `v` among `pairs`.
pub open spec fn reads_as(pairs: Seq<(Seq<char>, Seq<char>)>, k: Seq<char>, v: Seq<char>) -> bool {
    lookup(pairs, k) == Some(v)
}

/// Whether the last `&`-piece of query `q` that decodes to a pair named `k`
/// decodes to `(k, v)`.
pub open spec fn query_gives(q: Seq<char>, k: Seq<char>, v: Seq<char>) -> bool {
    exists|i: int| #[trigger] last_piece_gives(split_on(q, '&'), i, k, v)
}

/// Whether piece `i` of `parts` is the last one that decodes to a pair named
/// `k`, and that pair is `(k, v)`.
pub open spec fn last_piece_gives(parts: Seq<Seq<char>>, i: int, k: Seq<char>, v: Seq<char>) -> bool {
    &&& 0 <= i < parts.len()
    &&& decode_pair(parts[i], false) == Some((k, v))
    &&& forall|j: int| i < j < parts.len() ==> !part_names(#[trigger] parts[j], false, k)
}

/// The parameters of a query (those of a request without a form body, see
/// `Param::new`): name `k` reads as `v` exactly when the last
/// `&`-piece of the query that decodes to a pair named `k` decodes to `(k, v)`;
/// pieces without `=` or that do not decode are dropped.
pub proof fn law_query_parameters(q: Seq<char>, k: Seq<char>, v: Seq<char>)
    ensures
        lookup(query_pairs(q), k) == Some(v) <==> exists|i: int| #[trigger]
            last_piece_gives(split_on(q, '&'), i, k, v),
        lookup(query_pairs(q), k) is None <==> forall|i: int|
            0 <= i < split_on(q, '&').len() ==> !part_names(#[trigger] split_on(q, '&')[i], false, k),
{
    let parts = split_on(q, '&');
    lemma_pairs_lookup(parts, false, k);
    match lookup(query_pairs(q), k) {
        Some(w) => {
            let i = choose|i: int|
                0 <= i < parts.len() && #[trigger] decode_pair(parts[i], false) == Some((k, w)) && forall|j: int|
                    i < j < parts.len() ==> !part_names(#[trigger] parts[j], false, k);
            assert(last_piece_gives(parts, i, k, w));
            assert(part_names(parts[i], false, k));
            if exists|i2: int| #[trigger] last_piece_gives(parts, i2, k, v) {
                let i2 = choose|i2: int| #[trigger] last_piece_gives(parts, i2, k, v);
                assert(part_names(parts[i2], false, k));
                if i < i2 {
                    assert(!part_names(parts[i2], false, k));
                } else if i2 < i {
                    assert(!part_names(parts[i], false, k));
                }
            }
        },
        None => {
            if exists|i2: int| #[trigger] last_piece_gives(parts, i2, k, v) {
                let i2 = choose|i2: int| #[trigger] last_piece_gives(parts, i2, k, v);
                assert(part_names(parts[i2], false, k));
            }
        },
    }
}

proof fn lemma_split_on_append(s: Seq<char>, t: Seq<char>, sep: char)
    requires
        !t.contains(sep),
    ensures
        split_on(s + t, sep) == split_on(s, sep).update(
            split_on(s, sep).len() - 1,
            split_on(s, sep).last() + t,
        ),
    decreases t.len(),
{
    crate::text::lemma_split_on_nonempty(s, sep);
    let ps = split_on(s, sep);
    if t.len() == 0 {
        assert(s + t =~= s);
        assert(ps.last() + t =~= ps.last());
        assert(ps.update(ps.len() - 1, ps.last()) =~= ps);
    } else {
        let t0 = t.drop_last();
        assert(!t0.contains(sep)) by {
            if t0.contains(sep) {
                let j = choose|j: int| 0 <= j < t0.len() && t0[j] == sep;
                assert(t[j] == sep);
            }
        }
        assert(t[t.len() - 1] != sep);
        lemma_split_on_append(s, t0, sep);
        assert((s + t).drop_last() =~= s + t0);
        assert((s + t).last() == t.last());
        let mid = ps.update(ps.len() - 1, ps.last() + t0);
        assert(mid.last() == ps.last() + t0);
        assert((ps.last() + t0).push(t.last()) =~= ps.last() + t);
        assert(mid.update(mid.len() - 1, mid.last().push(t.last())) =~= ps.update(
            ps.len() - 1,
            ps.last() + t,
        ));
    }
}

proof fn lemma_decode_empty()
    ensures
        spec_url_decode(seq![]) == Some(Seq::<char>::empty()),
{
    assert(decode_bytes(seq![]) == Some(Seq::<u8>::empty()));
    assert(vstd::utf8::valid_utf8(Seq::<u8>::empty()));
    assert(vstd::utf8::decode_utf8(Seq::<u8>::empty()) == Seq::<char>::empty());
}

proof fn lemma_last_piece(
    pre: Seq<char>,
    piece: Seq<char>,
    sep: char,
    trim_name: bool,
    pair: (Seq<char>, Seq<char>),
)
    requires
        !piece.contains(sep),
        decode_pair(piece, trim_name) == Some(pair),
    ensures
        lookup(decode_pairs(split_on(piece, sep), trim_name), pair.0) == Some(pair.1),
        lookup(decode_pairs(split_on(pre + seq![sep] + piece, sep), trim_name), pair.0) == Some(pair.1),
{
    // the whole text
    lemma_split_on_append(seq![], piece, sep);
    assert(Seq::<char>::empty() + piece =~= piece);
    assert(split_on(Seq::<char>::empty(), sep) == seq![Seq::<char>::empty()]);
    assert(seq![Seq::<char>::empty()].update(0, Seq::<char>::empty() + piece) =~= seq![piece]);
    assert(split_on(piece, sep) == seq![piece]);
    let one = decode_pairs(seq![piece], trim_name);
    assert(seq![piece].drop_last() =~= Seq::<Seq<char>>::empty());
    assert(seq![piece].last() == piece);
    assert(decode_pairs(Seq::<Seq<char>>::empty(), trim_name) == Seq::<(Seq<char>, Seq<char>)>::empty());
    assert(Seq::<(Seq<char>, Seq<char>)>::empty().push(pair) =~= seq![pair]);
    assert(one == seq![pair]);
    assert(lookup(one, pair.0) == Some(pair.1));
    // after a longer text
    let head = pre + seq![sep];
    let ph = split_on(pre, sep);
    assert(head.drop_last() =~= pre);
    assert(head.last() == sep);
    assert(split_on(head, sep) == ph.push(seq![]));
    lemma_split_on_append(head, piece, sep);
    let q = pre + seq![sep] + piece;
    assert(q =~= head + piece);
    let parts = ph.push(seq![]).update(ph.len() as int, Seq::<char>::empty() + piece);
    assert(parts =~= ph.push(piece));
    assert(ph.push(piece).drop_last() =~= ph);
    let all = decode_pairs(ph.push(piece), trim_name);
    assert(all == decode_pairs(ph, trim_name).push(pair));
    assert(lookup(all, pair.0) == Some(pair.1));
}

proof fn lemma_piece_decodes(n: Seq<char>, v: Seq<char>, sep: char, trim_name: bool)
    requires
        sep != '=',
        !n.contains('='),
        !n.contains(sep),
        !v.contains(sep),
        spec_url_decode(n) is Some,
        spec_url_decode(v) is Some,
    ensures
        !(n + seq!['='] + v).contains(sep),
        decode_pair(n + seq!['='] + v, trim_name) == Some(
            (
                if trim_name {
                    spec_trim(spec_url_decode(n)->Some_0)
                } else {
                    spec_url_decode(n)->Some_0
                },
                spec_url_decode(v)->Some_0,
            ),
        ),
{
    let piece = n + seq!['='] + v;
    crate::text::lemma_split_once_at(n, v, '=');
    assert(!piece.contains(sep)) by {
        if piece.contains(sep) {
            let j = choose|j: int| 0 <= j < piece.len() && piece[j] == sep;
            if j < n.len() {
                assert(n[j] == sep);
            } else if j > n.len() {
                assert(v[j - n.len() - 1] == sep);
            } else {
                assert(piece[j] == '=');
            }
        }
    }
}

/// A piece `n=v` of a query, where `n` holds neither `=` nor `&`, `v` holds no
/// `&`, and both are valid URL components, gives the name that `n` decodes to
/// the value that `v` decodes to: as the whole query, and as the last piece of
/// a longer one, whatever came before it. The empty component decodes to the
/// empty text, so a piece `n=` gives its name the empty value.
pub proof fn law_piece_reads_back(pre: Seq<char>, n: Seq<char>, v: Seq<char>)
    requires
        !n.contains('='),
        !n.contains('&'),
        !v.contains('&'),
        spec_url_decode(n) is Some,
        spec_url_decode(v) is Some,
    ensures
        spec_url_decode(seq![]) == Some(Seq::<char>::empty()),
        decode_pair(n + seq!['='] + v, false) == Some(
            (spec_url_decode(n)->Some_0, spec_url_decode(v)->Some_0),
        ),
        lookup(query_pairs(n + seq!['='] + v), spec_url_decode(n)->Some_0) == spec_url_decode(v),
        lookup(query_pairs(pre + seq!['&'] + n + seq!['='] + v), spec_url_decode(n)->Some_0)
            == spec_url_decode(v),
{
    lemma_decode_empty();
    lemma_piece_decodes(n, v, '&', false);
    let piece = n + seq!['='] + v;
    let pair = (spec_url_decode(n)->Some_0, spec_url_decode(v)->Some_0);
    lemma_last_piece(pre, piece, '&', false, pair);
    assert(pre + seq!['&'] + n + seq!['='] + v =~= pre + seq!['&'] + piece);
}

/// The same for a cookie `n=v` of a `Cookie` header, pieces split at `;`: the
/// cookie named by the trimmed decoding of `n` reads as the decoding of `v`,
/// the empty value included.
pub proof fn law_cookie_reads_back(pre: Seq<char>, n: Seq<char>, v: Seq<char>)
    requires
        !n.contains('='),
        !n.contains(';'),
        !v.contains(';'),
        spec_url_decode(n) is Some,
        spec_url_decode(v) is Some,
    ensures
        lookup(cookie_pairs(n + seq!['='] + v), spec_trim(spec_url_decode(n)->Some_0)) == spec_url_decode(v),
        lookup(cookie_pairs(pre + seq![';'] + n + seq!['='] + v), spec_trim(spec_url_decode(n)->Some_0))
            == spec_url_decode(v),
{
    lemma_piece_decodes(n, v, ';', true);
    let piece = n + seq!['='] + v;
    let pair = (spec_trim(spec_url_decode(n)->Some_0), spec_url_decode(v)->Some_0);
    lemma_last_piece(pre, piece, ';', true, pair);
    assert(pre + seq![';'] + n + seq!['='] + v =~= pre + seq![';'] + piece);
}

} // verus!
