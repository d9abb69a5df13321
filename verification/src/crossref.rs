//! A light-weight cross reference scanner for Rust sources.
//!
//! The scanner decodes a byte buffer into characters (keeping track of the
//! line and of a column counter), and runs a small lexical state machine over
//! them.  It reports function definitions, data definitions (structs and enums)
//! and call sites.
use vstd::prelude::*;

use crate::text::chars_to_string;

verus! {

/// How a name is used at a reported place.
#[derive(Debug, PartialEq, Eq, Structural, Clone, Copy)]
pub enum RefType {
    Function,
    Variable,
    Data,
    Impl,
    Access,
}

impl Default for RefType {
    fn default() -> (r: RefType)
        ensures
            r == RefType::Function,
    {
        RefType::Function
    }
}

/// The kind of the `impl` or `trait` block a definition stands in.
#[derive(Debug, PartialEq, Eq, Structural, Clone, Copy)]
pub enum ScopeType {
    SelfImpl,
    TraitFor,
    Trait,
}

impl Default for ScopeType {
    fn default() -> (r: ScopeType)
        ensures
            r == ScopeType::SelfImpl,
    {
        ScopeType::SelfImpl
    }
}

#[derive(Debug, Clone)]
pub struct Scope {
    pub name: String,
    pub name_for: Option<String>,
    pub type_of_scope: ScopeType,
}

#[derive(Debug, Clone)]
pub struct Reference {
    pub name: String,
    pub src: String,
    pub line: usize,
    pub column: u16,
    pub type_of_use: RefType,
    pub scope: Option<Scope>,
}

/// The mathematical value of a [`Scope`].
pub struct ScopeView {
    pub name: Seq<char>,
    pub name_for: Option<Seq<char>>,
    pub type_of_scope: ScopeType,
}

/// The mathematical value of a [`Reference`].
pub struct RefView {
    pub name: Seq<char>,
    pub src: Seq<char>,
    pub line: usize,
    pub column: u16,
    pub type_of_use: RefType,
    pub scope: Option<ScopeView>,
}

pub open spec fn opt_str_view(o: Option<String>) -> Option<Seq<char>> {
    match o {
        Some(s) => Some(s@),
        None => None,
    }
}

impl View for Scope {
    type V = ScopeView;

    open spec fn view(&self) -> ScopeView {
        ScopeView { name: self.name@, name_for: opt_str_view(self.name_for), type_of_scope: self.type_of_scope }
    }
}

pub open spec fn opt_scope_view(o: Option<Scope>) -> Option<ScopeView> {
    match o {
        Some(s) => Some(s@),
        None => None,
    }
}

impl View for Reference {
    type V = RefView;

    open spec fn view(&self) -> RefView {
        RefView {
            name: self.name@,
            src: self.src@,
            line: self.line,
            column: self.column,
            type_of_use: self.type_of_use,
            scope: opt_scope_view(self.scope),
        }
    }
}

/// The views of a sequence of references.
pub open spec fn refs_view(v: Seq<Reference>) -> Seq<RefView> {
    Seq::new(v.len(), |i: int| v[i]@)
}

/// The byte that ends a line.
pub fn line_separator() -> (r: u8)
    ensures
        r == 10,
{
    10
}

/// Position of a [`Reader`]: index of the next byte, line number and column counter.
pub struct ReaderPos {
    pub pos: usize,
    pub line: usize,
    pub offset: u16,
}

/// Counter increment that wraps around, as the column counter does.
pub open spec fn inc16(x: u16) -> u16 {
    if x == u16::MAX {
        0
    } else {
        (x + 1) as u16
    }
}

fn exec_inc16(x: u16) -> (r: u16)
    ensures
        r == inc16(x),
{
    if x == u16::MAX {
        0
    } else {
        x + 1
    }
}

/// Number of continuation bytes announced by a byte with its high bit set,
/// and the payload bits that it carries.
pub open spec fn lead_info(b: u8) -> (usize, u32) {
    let byte = b as u32;
    if byte & 0xF0u32 == 0xF0u32 {
        (3, byte & 0x07u32)
    } else if byte & 0xE0u32 == 0xE0u32 {
        (2, byte & 0x0Fu32)
    } else if byte & 0xC0u32 == 0xC0u32 {
        (1, byte & 0x1Fu32)
    } else {
        (0, byte)
    }
}

/// Accumulates `n` continuation bytes starting at `start` onto `acc`.
pub open spec fn fold_cont(data: Seq<u8>, start: int, n: nat, acc: u32) -> u32
    decreases n,
{
    if n == 0 {
        acc
    } else {
        fold_cont(data, start + 1, (n - 1) as nat, (acc << 6u32) | ((data[start] as u32) & 0x3Fu32))
    }
}

pub open spec fn is_scalar_value(v: u32) -> bool {
    v <= 0xD7FFu32 || (0xE000u32 <= v && v <= 0x10FFFFu32)
}

/// The character of a code point, or U+FFFD where the value is no Unicode scalar.
pub open spec fn char_or_replacement(v: u32) -> char {
    if is_scalar_value(v) {
        v as char
    } else {
        '\u{FFFD}'
    }
}

/// One step of the reader: the next character, and the position after it.
pub open spec fn next_spec(data: Seq<u8>, p: ReaderPos) -> (Option<char>, ReaderPos) {
    if p.pos >= data.len() {
        (None, p)
    } else {
        let off1 = inc16(p.offset);
        let b = data[p.pos as int];
        if (b as u32) & 0x80u32 != 0 {
            let (n, lead) = lead_info(b);
            if p.pos + 1 + n > data.len() {
                (None, ReaderPos { pos: data.len() as usize, line: p.line, offset: off1 })
            } else {
                let c32 = fold_cont(data, p.pos + 1, n as nat, lead);
                (
                    Some(char_or_replacement(c32)),
                    ReaderPos { pos: (p.pos + 1 + n) as usize, line: p.line, offset: inc16(off1) },
                )
            }
        } else if b == 10 {
            (Some(b as char), ReaderPos { pos: (p.pos + 1) as usize, line: (p.line + 1) as usize, offset: 0 })
        } else {
            (Some(b as char), ReaderPos { pos: (p.pos + 1) as usize, line: p.line, offset: inc16(off1) })
        }
    }
}

pub open spec fn reader_pos_ok(data: Seq<u8>, p: ReaderPos) -> bool {
    &&& data.len() < usize::MAX
    &&& p.pos <= data.len()
    &&& 1 <= p.line <= p.pos + 1
}

pub proof fn lemma_next_advances(data: Seq<u8>, p: ReaderPos)
    requires
        reader_pos_ok(data, p),
    ensures
        reader_pos_ok(data, next_spec(data, p).1),
        next_spec(data, p).1.pos >= p.pos,
        next_spec(data, p).0 is Some ==> next_spec(data, p).1.pos > p.pos,
        p.pos < data.len() ==> next_spec(data, p).1.pos > p.pos,
{
}

proof fn lemma_bits_width_1(b: u8)
    by (bit_vector)
    requires
        b <= 0x7f,
    ensures
        (b as u32) & 0x80u32 == 0,
        vstd::utf8::codepoint_width_1(b) == b as u32,
{
}

proof fn lemma_bits_width_2(b: u8, b2: u8)
    by (bit_vector)
    requires
        0xc0 <= b <= 0xdf,
    ensures
        (b as u32) & 0x80u32 != 0,
        (b as u32) & 0xF0u32 != 0xF0u32,
        (b as u32) & 0xE0u32 != 0xE0u32,
        (b as u32) & 0xC0u32 == 0xC0u32,
        (((b as u32) & 0x1Fu32) << 6u32) | ((b2 as u32) & 0x3Fu32) == vstd::utf8::codepoint_width_2(b, b2),
        vstd::utf8::codepoint_width_2(b, b2) < 0x800u32,
{
}

proof fn lemma_bits_width_3(b: u8, b2: u8, b3: u8)
    by (bit_vector)
    requires
        0xe0 <= b <= 0xef,
    ensures
        (b as u32) & 0x80u32 != 0,
        (b as u32) & 0xF0u32 != 0xF0u32,
        (b as u32) & 0xE0u32 == 0xE0u32,
        (((((b as u32) & 0x0Fu32) << 6u32) | ((b2 as u32) & 0x3Fu32)) << 6u32) | ((b3 as u32) & 0x3Fu32)
            == vstd::utf8::codepoint_width_3(b, b2, b3),
        vstd::utf8::codepoint_width_3(b, b2, b3) < 0x10000u32,
{
}

proof fn lemma_bits_width_4(b: u8, b2: u8, b3: u8, b4: u8)
    by (bit_vector)
    requires
        0xf0 <= b <= 0xf7,
    ensures
        (b as u32) & 0x80u32 != 0,
        (b as u32) & 0xF0u32 == 0xF0u32,
        (((((((b as u32) & 0x07u32) << 6u32) | ((b2 as u32) & 0x3Fu32)) << 6u32) | ((b3 as u32)
            & 0x3Fu32)) << 6u32) | ((b4 as u32) & 0x3Fu32) == vstd::utf8::codepoint_width_4(b, b2, b3, b4),
{
}

/// One step of the reader on bytes that start with a well formed UTF-8
/// character gives that character and moves past its bytes; the line count
/// rises exactly where the character is a new line.
proof fn lemma_next_decodes(data: Seq<u8>, p: ReaderPos)
    requires
        reader_pos_ok(data, p),
        p.pos < data.len(),
        vstd::utf8::valid_first_scalar(data.skip(p.pos as int)),
    ensures
        next_spec(data, p).0 == Some(vstd::utf8::decode_first_scalar(data.skip(p.pos as int)) as char),
        is_scalar_value(vstd::utf8::decode_first_scalar(data.skip(p.pos as int))),
        next_spec(data, p).1.pos == p.pos + vstd::utf8::length_of_first_scalar(data.skip(p.pos as int)),
        next_spec(data, p).1.line == if vstd::utf8::decode_first_scalar(data.skip(p.pos as int)) == 10 {
            p.line + 1
        } else {
            p.line as int
        },
{
    let s = data.skip(p.pos as int);
    let i = p.pos as int;
    let b = data[i];
    assert(s[0] == b);
    reveal_with_fuel(fold_cont, 4);
    let v = vstd::utf8::decode_first_scalar(s);
    if vstd::utf8::is_leading_byte_width_1(b) {
        lemma_bits_width_1(b);
        assert(v == b as u32);
        assert((b as u32) as char == b as char);
    } else if vstd::utf8::is_leading_byte_width_2(b) {
        assert(s[1] == data[i + 1]);
        lemma_bits_width_2(b, data[i + 1]);
        let c32 = fold_cont(data, i + 1, 1, (b as u32) & 0x1Fu32);
        assert(c32 == v);
        assert(is_scalar_value(c32));
    } else if vstd::utf8::is_leading_byte_width_3(b) {
        assert(s[1] == data[i + 1] && s[2] == data[i + 2]);
        lemma_bits_width_3(b, data[i + 1], data[i + 2]);
        let c32 = fold_cont(data, i + 1, 2, (b as u32) & 0x0Fu32);
        assert(c32 == v);
        assert(is_scalar_value(c32));
    } else {
        assert(s[1] == data[i + 1] && s[2] == data[i + 2] && s[3] == data[i + 3]);
        lemma_bits_width_4(b, data[i + 1], data[i + 2], data[i + 3]);
        let c32 = fold_cont(data, i + 1, 3, (b as u32) & 0x07u32);
        assert(c32 == v);
        assert(is_scalar_value(c32));
    }
}

/// The characters that the reader gives from `p` on, one call after another,
/// until it gives nothing.
pub open spec fn read_all(data: Seq<u8>, p: ReaderPos) -> Seq<char>
    decreases data.len() - p.pos,
{
    if p.pos >= data.len() {
        seq![]
    } else {
        let (oc, q) = next_spec(data, p);
        match oc {
            Some(c) => if p.pos < q.pos <= data.len() {
                seq![c] + read_all(data, q)
            } else {
                seq![]
            },
            None => seq![],
        }
    }
}

/// The reader's position once it has given all it gives from `p` on.
pub open spec fn read_end(data: Seq<u8>, p: ReaderPos) -> ReaderPos
    decreases data.len() - p.pos,
{
    if p.pos >= data.len() {
        p
    } else {
        let (oc, q) = next_spec(data, p);
        match oc {
            Some(c) => if p.pos < q.pos <= data.len() {
                read_end(data, q)
            } else {
                q
            },
            None => q,
        }
    }
}

/// Where the bytes not yet read are valid UTF-8, successive reads give the
/// characters they encode, in order; then the reader stands at the end of the
/// bytes and gives nothing, on every later call too.
pub proof fn law_reader_decodes_utf8(data: Seq<u8>, p: ReaderPos)
    requires
        reader_pos_ok(data, p),
        vstd::utf8::valid_utf8(data.skip(p.pos as int)),
    ensures
        read_all(data, p) == vstd::utf8::decode_utf8(data.skip(p.pos as int)),
        read_end(data, p).pos == data.len(),
        next_spec(data, read_end(data, p)) == (None::<char>, read_end(data, p)),
    decreases data.len() - p.pos,
{
    let s = data.skip(p.pos as int);
    if p.pos >= data.len() {
        assert(s.len() == 0);
    } else {
        lemma_next_decodes(data, p);
        lemma_next_advances(data, p);
        let q = next_spec(data, p).1;
        assert(vstd::utf8::pop_first_scalar(s) =~= data.skip(q.pos as int));
        law_reader_decodes_utf8(data, q);
    }
}

/// Where the bytes not yet read are valid UTF-8 and not all read, the reader
/// gives a character, and its line count rises by one exactly when that
/// character is a new line.
pub proof fn law_reader_counts_lines(data: Seq<u8>, p: ReaderPos)
    requires
        reader_pos_ok(data, p),
        p.pos < data.len(),
        vstd::utf8::valid_utf8(data.skip(p.pos as int)),
    ensures
        next_spec(data, p).0 is Some,
        next_spec(data, p).1.line == if next_spec(data, p).0 == Some('\n') {
            p.line + 1
        } else {
            p.line as int
        },
{
    lemma_next_decodes(data, p);
    let v = vstd::utf8::decode_first_scalar(data.skip(p.pos as int));
    if v != 10 {
        assert((v as char) as u32 == v);
        assert((v as char) != '\n');
    }
}

/// The character whose code is `v`, where `v` is a Unicode scalar value
/// (`char::from_u32`): the contract claims exactly that and nothing else.
#[verifier::external_body]
fn char_from_u32(v: u32) -> (r: Option<char>)
    ensures
        r is Some <==> is_scalar_value(v),
        r matches Some(c) ==> c as u32 == v,
{
    char::from_u32(v)
}

/// A source of characters for the scanner: the bytes of one file.
pub struct Reader {
    data: Vec<u8>,
    pos: usize,
    line: usize,
    line_offset: u16,
    pub path: String,
}

impl Reader {
    pub closed spec fn bytes(&self) -> Seq<u8> {
        self.data@
    }

    pub closed spec fn source(&self) -> Seq<char> {
        self.path@
    }

    pub closed spec fn position(&self) -> ReaderPos {
        ReaderPos { pos: self.pos, line: self.line, offset: self.line_offset }
    }

    pub open spec fn wf(&self) -> bool {
        reader_pos_ok(self.bytes(), self.position())
    }

    /// A reader at the start of `data`, on line 1.
    pub fn new(path: String, data: Vec<u8>) -> (r: Reader)
        requires
            data@.len() < usize::MAX,
        ensures
            r.wf(),
            r.bytes() == data@,
            r.source() == path@,
            r.position() == (ReaderPos { pos: 0, line: 1, offset: 0 }),
    {
        Reader { data, pos: 0, line: 1, line_offset: 0, path }
    }

    pub fn line_number(&self) -> (r: usize)
        ensures
            r == self.position().line,
    {
        self.line
    }

    pub fn column(&self) -> (r: u16)
        ensures
            r == self.position().offset,
    {
        self.line_offset
    }

    /// Decodes the next character: ASCII bytes stand for themselves, a byte
    /// with its high bit set starts a UTF-8 style sequence.
    pub fn next(&mut self) -> (r: Option<char>)
        requires
            old(self).wf(),
        ensures
            final(self).wf(),
            final(self).bytes() == old(self).bytes(),
            final(self).source() == old(self).source(),
            (r, final(self).position()) == next_spec(old(self).bytes(), old(self).position()),
    {
        let len = self.data.len();
        if self.pos >= len {
            return None;
        }
        self.line_offset = exec_inc16(self.line_offset);
        let b = self.data[self.pos];
        let byte: u32 = b as u32;
        if byte & 0x80u32 != 0 {
            let (mut num_byte, mut c32): (usize, u32) = if byte & 0xF0u32 == 0xF0u32 {
                (3, byte & 0x07u32)
            } else if byte & 0xE0u32 == 0xE0u32 {
                (2, byte & 0x0Fu32)
            } else if byte & 0xC0u32 == 0xC0u32 {
                (1, byte & 0x1Fu32)
            } else {
                (0, byte)
            };
            let ghost n0 = num_byte;
            let ghost c0 = c32;
            let ghost p0 = self.pos;
            if num_byte > len - 1 - self.pos {
                self.pos = len;
                return None;
            }
            let mut p = self.pos + 1;
            while num_byte > 0
                invariant
                    len == self.data@.len(),
                    p + num_byte <= len,
                    p == p0 + 1 + n0 - num_byte,
                    fold_cont(self.data@, p0 + 1, n0 as nat, c0) == fold_cont(
                        self.data@,
                        p as int,
                        num_byte as nat,
                        c32,
                    ),
                decreases num_byte,
            {
                c32 = (c32 << 6u32) | ((self.data[p] as u32) & 0x3Fu32);
                p = p + 1;
                num_byte = num_byte - 1;
            }
            self.pos = p;
            self.line_offset = exec_inc16(self.line_offset);
            let ch = match char_from_u32(c32) {
                Some(c) => {
                    proof {
                        vstd::utf8::char_u32_cast(c, c32);
                    }
                    c
                },
                None => '\u{FFFD}',
            };
            assert(lead_info(b) == (n0, c0));
            assert(ch == char_or_replacement(c32));
            return Some(ch);
        }
        self.pos = self.pos + 1;
        if b == line_separator() {
            self.line = self.line + 1;
            self.line_offset = 0;
        } else {
            self.line_offset = exec_inc16(self.line_offset);
        }
        Some(b as char)
    }
}


/// The states of the lexical scanner.
#[derive(Debug, PartialEq, Eq, Structural, Clone, Copy)]
pub enum LexState {
    Start,
    InKW,
    InName,
    ExpInName,
    ExpInCallName,
    InCallName,
    InCallParams,
    InParams,
    InNum,
    ExPNamSep,
    InColSep,
    ExpInEnum,
    ExpInStruct,
    InEnum,
    InStruct,
    InDataDef,
    ExpImplName,
    InImplName,
    InExpFor,
    InForName,
    InForKW,
    ExpInForName,
    InExpOpenImpl,
    ExpInTraitName,
    InTraitName,
    ExpFnBody,
    InFnBody,
    StartInScope,
    ExpDirect,
    Direct,
    ExpComment,
    InStarComment,
    ExpEndComment,
    InComment,
    InGenTypeOrComp,
}

/// The whole state of the scanner between two characters.
pub struct LexView {
    pub state: LexState,
    pub name: Seq<char>,
    pub scope_name: Seq<char>,
    pub scope_for: Option<Seq<char>>,
    pub scope_type: ScopeType,
    pub brackets: u16,
    pub stack: Seq<LexState>,
}

pub open spec fn lex_start() -> LexView {
    LexView {
        state: LexState::Start,
        name: seq![],
        scope_name: seq![],
        scope_for: None,
        scope_type: ScopeType::SelfImpl,
        brackets: 0,
        stack: seq![],
    }
}

/// States that are only entered with a saved state to return to.
pub open spec fn needs_saved(s: LexState) -> bool {
    ||| s == LexState::ExpComment
    ||| s == LexState::InComment
    ||| s == LexState::InStarComment
    ||| s == LexState::ExpEndComment
    ||| s == LexState::InGenTypeOrComp
}

/// Every state that will be returned to from the stack finds a state there.
pub open spec fn stack_ok(v: LexView) -> bool {
    &&& needs_saved(v.state) ==> v.stack.len() > 0
    &&& forall|i: int| 0 <= i < v.stack.len() && needs_saved(#[trigger] v.stack[i]) ==> i > 0
}

pub open spec fn with_state(v: LexView, s: LexState) -> LexView {
    LexView { state: s, ..v }
}

pub open spec fn clear_name(v: LexView) -> LexView {
    LexView { name: seq![], ..v }
}

pub open spec fn lex_pop(v: LexView) -> LexView {
    LexView { state: v.stack.last(), stack: v.stack.drop_last(), ..v }
}

pub open spec fn lex_push(v: LexView, s: LexState) -> LexView {
    LexView { state: s, stack: v.stack.push(v.state), ..v }
}

/// A pending comment opener (`/`) that is not followed by `/` or `*` is dropped.
pub open spec fn leave_exp_comment(v: LexView) -> LexView {
    if v.state == LexState::ExpComment {
        lex_pop(v)
    } else {
        v
    }
}

pub open spec fn base_state(v: LexView) -> LexState {
    if v.scope_name.len() == 0 {
        LexState::Start
    } else {
        LexState::StartInScope
    }
}

pub open spec fn is_word_char(c: char) -> bool {
    ('a' <= c && c <= 'z') || ('A' <= c && c <= 'Z') || c == '_'
}

pub open spec fn is_digit_char(c: char) -> bool {
    '0' <= c && c <= '9'
}

pub open spec fn is_blank_char(c: char) -> bool {
    c == ' ' || c == '\r' || c == '\n' || c == '\t'
}

/// The state after a letter or `_`, where the letter is kept in the name.
pub open spec fn word_target(s: LexState) -> Option<LexState> {
    match s {
        LexState::Start | LexState::StartInScope => Some(LexState::InKW),
        LexState::ExpInName => Some(LexState::InName),
        LexState::ExPNamSep | LexState::InColSep | LexState::ExpInCallName | LexState::InFnBody
        | LexState::ExpDirect | LexState::InCallParams => Some(LexState::InCallName),
        LexState::ExpInEnum => Some(LexState::InEnum),
        LexState::ExpInStruct => Some(LexState::InStruct),
        LexState::InName | LexState::InKW | LexState::InCallName | LexState::InImplName
        | LexState::InTraitName | LexState::InForKW | LexState::InForName => Some(s),
        LexState::ExpImplName => Some(LexState::InImplName),
        LexState::InExpFor => Some(LexState::InForKW),
        LexState::ExpInTraitName => Some(LexState::InTraitName),
        LexState::ExpInForName => Some(LexState::InForName),
        _ => None,
    }
}

/// The state after a digit, and whether the digit is kept in the name.
pub open spec fn digit_target(s: LexState) -> (LexState, bool) {
    match s {
        LexState::Start | LexState::StartInScope | LexState::ExpInName | LexState::ExPNamSep
        | LexState::InColSep => (LexState::InNum, false),
        LexState::InName | LexState::InKW | LexState::InCallName | LexState::InStruct
        | LexState::InEnum | LexState::InImplName | LexState::InForKW | LexState::InForName
        | LexState::InTraitName => (s, true),
        _ => (s, false),
    }
}

/// The state that a keyword followed by a blank leads to.
pub open spec fn keyword_state(name: Seq<char>) -> LexState {
    if name == seq!['f', 'n'] {
        LexState::ExpInName
    } else if name == seq!['e', 'n', 'u', 'm'] {
        LexState::ExpInEnum
    } else if name == seq!['s', 't', 'r', 'u', 'c', 't'] {
        LexState::ExpInStruct
    } else if name == seq!['t', 'r', 'a', 'i', 't'] {
        LexState::ExpInTraitName
    } else if name == seq!['i', 'm', 'p', 'l'] {
        LexState::ExpImplName
    } else {
        LexState::Start
    }
}

pub open spec fn current_scope(v: LexView) -> Option<ScopeView> {
    if v.scope_name.len() == 0 {
        None
    } else {
        Some(ScopeView { name: v.scope_name, name_for: v.scope_for, type_of_scope: v.scope_type })
    }
}

pub open spec fn make_ref(
    name: Seq<char>,
    path: Seq<char>,
    line: usize,
    col: u16,
    kind: RefType,
    scope: Option<ScopeView>,
) -> RefView {
    RefView { name, src: path, line, column: col, type_of_use: kind, scope }
}

pub open spec fn on_word(v: LexView, c: char) -> LexView {
    match word_target(v.state) {
        Some(t) => LexView { state: t, name: v.name.push(c), ..v },
        None => v,
    }
}

pub open spec fn on_digit(v: LexView, c: char) -> LexView {
    let (t, keep) = digit_target(v.state);
    LexView { state: t, name: if keep { v.name.push(c) } else { v.name }, ..v }
}

pub open spec fn on_open_paren(v: LexView, line: usize, col: u16, path: Seq<char>) -> (LexView, Option<RefView>) {
    if v.state == LexState::InName {
        (
            clear_name(with_state(v, LexState::InParams)),
            Some(make_ref(v.name, path, line, col, RefType::Function, current_scope(v))),
        )
    } else if v.state == LexState::InCallName || v.state == LexState::InKW {
        (
            clear_name(with_state(v, LexState::InCallParams)),
            Some(make_ref(v.name, path, line, col, RefType::Access, None)),
        )
    } else {
        (clear_name(v), None)
    }
}

pub open spec fn on_less(v: LexView) -> LexView {
    if v.state == LexState::InName || v.state == LexState::InCallName {
        lex_push(v, LexState::InGenTypeOrComp)
    } else {
        v
    }
}

pub open spec fn on_blank(v: LexView, c: char) -> LexView {
    match v.state {
        LexState::Start | LexState::StartInScope => clear_name(with_state(v, LexState::InKW)),
        LexState::InKW => clear_name(with_state(v, keyword_state(v.name))),
        LexState::InForKW => clear_name(
            with_state(
                v,
                if v.name == seq!['f', 'o', 'r'] {
                    LexState::ExpInForName
                } else {
                    LexState::InExpOpenImpl
                },
            ),
        ),
        LexState::InImplName => LexView {
            state: LexState::InExpFor,
            scope_name: v.name,
            name: seq![],
            ..v
        },
        LexState::InName | LexState::InCallName => clear_name(v),
        LexState::InColSep => with_state(v, LexState::Start),
        LexState::InComment => if c == '\n' {
            lex_pop(v)
        } else {
            v
        },
        _ => v,
    }
}

pub open spec fn on_dot(v: LexView) -> LexView {
    if v.state == LexState::InCallName || v.state == LexState::InKW || v.state
        == LexState::InGenTypeOrComp {
        clear_name(with_state(v, LexState::InCallName))
    } else {
        v
    }
}

pub open spec fn on_colon(v: LexView) -> LexView {
    if v.state == LexState::InKW || v.state == LexState::InName {
        clear_name(with_state(v, LexState::InColSep))
    } else if v.state == LexState::InColSep {
        clear_name(with_state(v, LexState::ExpInCallName))
    } else {
        clear_name(v)
    }
}

pub open spec fn on_comma(v: LexView) -> LexView {
    match v.state {
        LexState::InDataDef | LexState::Start | LexState::Direct | LexState::ExpDirect => v,
        LexState::InCallName => clear_name(v),
        _ => with_state(v, LexState::ExpInCallName),
    }
}

pub open spec fn on_open_brace(v: LexView, line: usize, col: u16, path: Seq<char>) -> (LexView, Option<RefView>) {
    match v.state {
        LexState::InStruct | LexState::InEnum => (
            clear_name(with_state(v, LexState::InDataDef)),
            Some(make_ref(v.name, path, line, col, RefType::Data, None)),
        ),
        LexState::InForName => (
            LexView {
                state: LexState::StartInScope,
                scope_for: Some(v.name),
                scope_type: ScopeType::TraitFor,
                name: seq![],
                ..v
            },
            None,
        ),
        LexState::InTraitName => (
            LexView {
                state: LexState::StartInScope,
                scope_name: v.name,
                scope_for: None,
                scope_type: ScopeType::Trait,
                name: seq![],
                ..v
            },
            None,
        ),
        LexState::InExpOpenImpl => (clear_name(with_state(v, LexState::StartInScope)), None),
        LexState::ExpFnBody => (clear_name(with_state(v, LexState::InFnBody)), None),
        LexState::InFnBody => (LexView { brackets: inc16(v.brackets), name: seq![], ..v }, None),
        LexState::ExpDirect => (
            LexView { state: LexState::InFnBody, brackets: inc16(v.brackets), name: seq![], ..v },
            None,
        ),
        _ => (clear_name(with_state(v, base_state(v))), None),
    }
}

pub open spec fn on_close_paren(v: LexView) -> LexView {
    if v.state == LexState::InParams {
        clear_name(with_state(v, LexState::ExpFnBody))
    } else if v.state == LexState::InCallParams {
        clear_name(with_state(v, LexState::ExPNamSep))
    } else {
        clear_name(v)
    }
}

/// Leaves a block: one level of counted braces is given back where there is one.
pub open spec fn leave_block(v: LexView) -> LexView {
    if v.brackets > 0 {
        LexView { state: LexState::StartInScope, brackets: (v.brackets - 1) as u16, ..v }
    } else {
        with_state(v, LexState::StartInScope)
    }
}

pub open spec fn on_close_brace(v: LexView) -> LexView {
    match v.state {
        LexState::InDataDef => LexView {
            state: LexState::Start,
            scope_for: None,
            scope_name: seq![],
            scope_type: ScopeType::SelfImpl,
            name: seq![],
            ..v
        },
        LexState::InFnBody | LexState::ExPNamSep | LexState::InCallName | LexState::InNum
        | LexState::ExpDirect | LexState::ExpInCallName => leave_block(v),
        LexState::Start => if v.brackets > 0 {
            leave_block(v)
        } else {
            v
        },
        LexState::InKW => if v.brackets > 0 {
            leave_block(v)
        } else {
            with_state(v, LexState::Start)
        },
        _ => v,
    }
}

pub open spec fn on_equals(v: LexView) -> LexView {
    if v.state == LexState::ExpEndComment {
        clear_name(with_state(v, LexState::InStarComment))
    } else if v.state == LexState::Direct || v.state == LexState::InComment {
        clear_name(v)
    } else {
        clear_name(with_state(v, LexState::InCallName))
    }
}

pub open spec fn on_greater(v: LexView) -> LexView {
    if v.state == LexState::InCallName {
        with_state(v, LexState::ExpDirect)
    } else if v.state == LexState::InGenTypeOrComp {
        lex_pop(v)
    } else {
        v
    }
}

pub open spec fn on_hash(v: LexView) -> LexView {
    if v.state == LexState::Start {
        with_state(v, LexState::ExpDirect)
    } else {
        v
    }
}

pub open spec fn on_open_bracket(v: LexView) -> LexView {
    if v.state == LexState::ExpDirect {
        with_state(v, LexState::Direct)
    } else {
        v
    }
}

pub open spec fn on_close_bracket(v: LexView) -> LexView {
    if v.state == LexState::Direct {
        with_state(v, LexState::Start)
    } else {
        v
    }
}

pub open spec fn on_slash(v: LexView) -> LexView {
    if v.state == LexState::ExpComment {
        with_state(v, LexState::InComment)
    } else if v.state == LexState::ExpEndComment {
        lex_pop(v)
    } else {
        lex_push(v, LexState::ExpComment)
    }
}

pub open spec fn on_star(v: LexView) -> LexView {
    if v.state == LexState::ExpComment {
        with_state(v, LexState::InStarComment)
    } else if v.state == LexState::InStarComment {
        with_state(v, LexState::ExpEndComment)
    } else {
        v
    }
}

/// One step of the scanner on character `c`, read at `line` and column counter `col`:
/// the next state, and the reference reported at this character, if any.
pub open spec fn lex_step(v: LexView, c: char, line: usize, col: u16, path: Seq<char>) -> (LexView, Option<RefView>) {
    let u = leave_exp_comment(v);
    if c == '"' {
        (v, None)
    } else if is_word_char(c) {
        (on_word(u, c), None)
    } else if is_digit_char(c) {
        (on_digit(u, c), None)
    } else if c == '(' {
        on_open_paren(u, line, col, path)
    } else if c == '<' {
        (on_less(u), None)
    } else if is_blank_char(c) {
        (on_blank(u, c), None)
    } else if c == '.' || c == '&' {
        (on_dot(u), None)
    } else if c == ';' {
        (with_state(v, base_state(v)), None)
    } else if c == ':' {
        (on_colon(u), None)
    } else if c == ',' {
        (on_comma(u), None)
    } else if c == '{' {
        on_open_brace(u, line, col, path)
    } else if c == ')' {
        (on_close_paren(u), None)
    } else if c == '}' {
        (on_close_brace(u), None)
    } else if c == '=' {
        (on_equals(u), None)
    } else if c == '>' {
        (on_greater(u), None)
    } else if c == '#' {
        (on_hash(u), None)
    } else if c == '[' {
        (on_open_bracket(u), None)
    } else if c == ']' {
        (on_close_bracket(u), None)
    } else if c == '/' {
        (on_slash(v), None)
    } else if c == '*' {
        (on_star(v), None)
    } else {
        (v, None)
    }
}

pub open spec fn opt_seq(e: Option<RefView>) -> Seq<RefView> {
    match e {
        Some(r) => seq![r],
        None => seq![],
    }
}

/// Runs the scanner from reader position `p` and scanner state `st`, with `out`
/// reported so far: everything reported, and the reader position at the end.
pub open spec fn scan_from(
    data: Seq<u8>,
    path: Seq<char>,
    p: ReaderPos,
    st: LexView,
    out: Seq<RefView>,
) -> (Seq<RefView>, ReaderPos)
    decreases data.len() - p.pos,
{
    if p.pos >= data.len() {
        (out, p)
    } else {
        let (oc, p2) = next_spec(data, p);
        match oc {
            None => (out, p2),
            Some(c) => {
                if p2.pos > p.pos && p2.pos <= data.len() {
                    let (st2, e) = lex_step(st, c, p2.line, p2.offset, path);
                    scan_from(data, path, p2, st2, out + opt_seq(e))
                } else {
                    (out, p2)
                }
            },
        }
    }
}

/// Everything that scanning `data` from position `p` reports.
pub open spec fn spec_scan(data: Seq<u8>, path: Seq<char>, p: ReaderPos) -> Seq<RefView> {
    scan_from(data, path, p, lex_start(), seq![]).0

}


/// The executable state of the scanner.
struct Lexer {
    state: LexState,
    name: Vec<char>,
    scope_name: Vec<char>,
    scope_for: Option<Vec<char>>,
    scope_type: ScopeType,
    brackets: u16,
    stack: Vec<LexState>,
}

pub open spec fn opt_chars_view(o: Option<Vec<char>>) -> Option<Seq<char>> {
    match o {
        Some(v) => Some(v@),
        None => None,
    }
}

impl View for Lexer {
    type V = LexView;

    closed spec fn view(&self) -> LexView {
        LexView {
            state: self.state,
            name: self.name@,
            scope_name: self.scope_name@,
            scope_for: opt_chars_view(self.scope_for),
            scope_type: self.scope_type,
            brackets: self.brackets,
            stack: self.stack@,
        }
    }
}

fn exec_word_target(s: LexState) -> (r: Option<LexState>)
    ensures
        r == word_target(s),
{
    match s {
        LexState::Start | LexState::StartInScope => Some(LexState::InKW),
        LexState::ExpInName => Some(LexState::InName),
        LexState::ExPNamSep | LexState::InColSep | LexState::ExpInCallName | LexState::InFnBody
        | LexState::ExpDirect | LexState::InCallParams => Some(LexState::InCallName),
        LexState::ExpInEnum => Some(LexState::InEnum),
        LexState::ExpInStruct => Some(LexState::InStruct),
        LexState::InName | LexState::InKW | LexState::InCallName | LexState::InImplName
        | LexState::InTraitName | LexState::InForKW | LexState::InForName => Some(s),
        LexState::ExpImplName => Some(LexState::InImplName),
        LexState::InExpFor => Some(LexState::InForKW),
        LexState::ExpInTraitName => Some(LexState::InTraitName),
        LexState::ExpInForName => Some(LexState::InForName),
        _ => None,
    }
}

fn exec_digit_target(s: LexState) -> (r: (LexState, bool))
    ensures
        r == digit_target(s),
{
    match s {
        LexState::Start | LexState::StartInScope | LexState::ExpInName | LexState::ExPNamSep
        | LexState::InColSep => (LexState::InNum, false),
        LexState::InName | LexState::InKW | LexState::InCallName | LexState::InStruct
        | LexState::InEnum | LexState::InImplName | LexState::InForKW | LexState::InForName
        | LexState::InTraitName => (s, true),
        _ => (s, false),
    }
}

/// Whether `name` holds exactly the characters of `w`.
fn chars_equal(name: &Vec<char>, w: &[char]) -> (r: bool)
    ensures
        r == (name@ == w@),
{
    if name.len() != w.len() {
        return false;
    }
    let mut i: usize = 0;
    while i < name.len()
        invariant
            name.len() == w@.len(),
            i <= name.len(),
            forall|j: int| 0 <= j < i ==> name@[j] == w@[j],
        decreases name.len() - i,
    {
        if name[i] != w[i] {
            return false;
        }
        i = i + 1;
    }
    assert(name@ =~= w@);
    true
}

fn exec_keyword_state(name: &Vec<char>) -> (r: LexState)
    ensures
        r == keyword_state(name@),
{
    let fn_kw = ['f', 'n'];
    let enum_kw = ['e', 'n', 'u', 'm'];
    let struct_kw = ['s', 't', 'r', 'u', 'c', 't'];
    let trait_kw = ['t', 'r', 'a', 'i', 't'];
    let impl_kw = ['i', 'm', 'p', 'l'];
    assert(fn_kw@ == seq!['f', 'n']);
    assert(enum_kw@ == seq!['e', 'n', 'u', 'm']);
    assert(struct_kw@ == seq!['s', 't', 'r', 'u', 'c', 't']);
    assert(trait_kw@ == seq!['t', 'r', 'a', 'i', 't']);
    assert(impl_kw@ == seq!['i', 'm', 'p', 'l']);
    if chars_equal(name, fn_kw.as_slice()) {
        LexState::ExpInName
    } else if chars_equal(name, enum_kw.as_slice()) {
        LexState::ExpInEnum
    } else if chars_equal(name, struct_kw.as_slice()) {
        LexState::ExpInStruct
    } else if chars_equal(name, trait_kw.as_slice()) {
        LexState::ExpInTraitName
    } else if chars_equal(name, impl_kw.as_slice()) {
        LexState::ExpImplName
    } else {
        LexState::Start
    }
}


pub open spec fn opt_ref_view(o: Option<Reference>) -> Option<RefView> {
    match o {
        Some(r) => Some(r@),
        None => None,
    }
}

pub proof fn lemma_pop_keeps_stack_ok(v: LexView)
    requires
        stack_ok(v),
        v.stack.len() > 0,
    ensures
        stack_ok(lex_pop(v)),
{
    let u = lex_pop(v);
    assert forall|i: int| 0 <= i < u.stack.len() && needs_saved(#[trigger] u.stack[i]) implies i
        > 0 by {
        assert(u.stack[i] == v.stack[i]);
    }
    if needs_saved(u.state) {
        assert(u.state == v.stack[v.stack.len() - 1]);
    }
}

pub proof fn lemma_push_keeps_stack_ok(v: LexView, s: LexState)
    requires
        stack_ok(v),
    ensures
        stack_ok(lex_push(v, s)),
{
    let u = lex_push(v, s);
    assert forall|i: int| 0 <= i < u.stack.len() && needs_saved(#[trigger] u.stack[i]) implies i
        > 0 by {
        if i < v.stack.len() {
            assert(u.stack[i] == v.stack[i]);
        } else {
            assert(u.stack[i] == v.state);
        }
    }
}

/// The scanner never meets an empty stack where it returns to a saved state.
pub proof fn lemma_step_keeps_stack_ok(v: LexView, c: char, line: usize, col: u16, path: Seq<char>)
    requires
        stack_ok(v),
    ensures
        stack_ok(lex_step(v, c, line, col, path).0),
{
    let u = leave_exp_comment(v);
    if v.state == LexState::ExpComment {
        lemma_pop_keeps_stack_ok(v);
    }
    assert(stack_ok(u));
    if u.stack.len() > 0 {
        lemma_pop_keeps_stack_ok(u);
    }
    lemma_push_keeps_stack_ok(u, LexState::InGenTypeOrComp);
    if v.stack.len() > 0 {
        lemma_pop_keeps_stack_ok(v);
    }
    lemma_push_keeps_stack_ok(v, LexState::ExpComment);
    let w = lex_step(v, c, line, col, path).0;
    assert(w.stack == u.stack || w.stack == v.stack || w.stack == u.stack.drop_last()
        || w.stack == v.stack.drop_last() || w.stack == u.stack.push(u.state) || w.stack
        == v.stack.push(v.state));
}

impl Lexer {
    fn new() -> (r: Lexer)
        ensures
            r@ == lex_start(),
    {
        Lexer {
            state: LexState::Start,
            name: Vec::new(),
            scope_name: Vec::new(),
            scope_for: None,
            scope_type: ScopeType::SelfImpl,
            brackets: 0,
            stack: Vec::new(),
        }
    }

    fn pop_state(&mut self)
        requires
            old(self).stack@.len() > 0,
        ensures
            final(self)@ == lex_pop(old(self)@),
    {
        let s = self.stack.pop();
        match s {
            Some(st) => {
                self.state = st;
            },
            None => {},
        }
    }

    fn push_state(&mut self, s: LexState)
        ensures
            final(self)@ == lex_push(old(self)@, s),
    {
        self.stack.push(self.state);
        self.state = s;
    }

    fn leave_exp_comment(&mut self)
        requires
            stack_ok(old(self)@),
        ensures
            final(self)@ == leave_exp_comment(old(self)@),
            stack_ok(final(self)@),
    {
        if self.state == LexState::ExpComment {
            proof {
                lemma_pop_keeps_stack_ok(self@);
            }
            self.pop_state();
        }
    }

    fn clear_name(&mut self)
        ensures
            final(self)@ == clear_name(old(self)@),
    {
        self.name = Vec::new();
    }

    fn base_state(&self) -> (r: LexState)
        ensures
            r == base_state(self@),
    {
        if self.scope_name.len() == 0 {
            LexState::Start
        } else {
            LexState::StartInScope
        }
    }

    fn current_scope(&self) -> (r: Option<Scope>)
        ensures
            opt_scope_view(r) == current_scope(self@),
    {
        if self.scope_name.len() == 0 {
            None
        } else {
            let name_for = match &self.scope_for {
                Some(v) => Some(chars_to_string(v)),
                None => None,
            };
            Some(Scope { name: chars_to_string(&self.scope_name), name_for, type_of_scope: self.scope_type })
        }
    }

    fn make_ref(&self, path: &String, line: usize, col: u16, kind: RefType, scope: Option<Scope>) -> (r: Reference)
        ensures
            r@ == make_ref(self@.name, path@, line, col, kind, opt_scope_view(scope)),
    {
        Reference {
            name: chars_to_string(&self.name),
            src: path.clone(),
            line,
            column: col,
            type_of_use: kind,
            scope,
        }
    }

    fn on_word(&mut self, c: char)
        ensures
            final(self)@ == on_word(old(self)@, c),
    {
        match exec_word_target(self.state) {
            Some(t) => {
                self.state = t;
                self.name.push(c);
            },
            None => {},
        }
    }

    fn on_digit(&mut self, c: char)
        ensures
            final(self)@ == on_digit(old(self)@, c),
    {
        let (t, keep) = exec_digit_target(self.state);
        self.state = t;
        if keep {
            self.name.push(c);
        }
    }

    fn on_open_paren(&mut self, line: usize, col: u16, path: &String) -> (r: Option<Reference>)
        ensures
            (final(self)@, opt_ref_view(r)) == on_open_paren(old(self)@, line, col, path@),
    {
        let r = if self.state == LexState::InName {
            let scope = self.current_scope();
            let r = self.make_ref(path, line, col, RefType::Function, scope);
            self.state = LexState::InParams;
            Some(r)
        } else if self.state == LexState::InCallName || self.state == LexState::InKW {
            let r = self.make_ref(path, line, col, RefType::Access, None);
            self.state = LexState::InCallParams;
            Some(r)
        } else {
            None
        };
        self.clear_name();
        r
    }

    fn on_less(&mut self)
        ensures
            final(self)@ == on_less(old(self)@),
    {
        if self.state == LexState::InName || self.state == LexState::InCallName {
            self.push_state(LexState::InGenTypeOrComp);
        }
    }

    fn on_blank(&mut self, c: char)
        requires
            stack_ok(old(self)@),
        ensures
            final(self)@ == on_blank(old(self)@, c),
    {
        match self.state {
            LexState::Start | LexState::StartInScope => {
                self.state = LexState::InKW;
                self.clear_name();
            },
            LexState::InKW => {
                self.state = exec_keyword_state(&self.name);
                self.clear_name();
            },
            LexState::InForKW => {
                let for_kw = ['f', 'o', 'r'];
                assert(for_kw@ == seq!['f', 'o', 'r']);
                if chars_equal(&self.name, for_kw.as_slice()) {
                    self.state = LexState::ExpInForName;
                } else {
                    self.state = LexState::InExpOpenImpl;
                }
                self.clear_name();
            },
            LexState::InImplName => {
                self.state = LexState::InExpFor;
                self.scope_name = self.name.clone();
                self.clear_name();
            },
            LexState::InName | LexState::InCallName => {
                self.clear_name();
            },
            LexState::InColSep => {
                self.state = LexState::Start;
            },
            LexState::InComment => {
                if c == '\n' {
                    self.pop_state();
                }
            },
            _ => {},
        }
    }

    fn on_dot(&mut self)
        ensures
            final(self)@ == on_dot(old(self)@),
    {
        if self.state == LexState::InCallName || self.state == LexState::InKW || self.state
            == LexState::InGenTypeOrComp {
            self.clear_name();
            self.state = LexState::InCallName;
        }
    }

    fn on_colon(&mut self)
        ensures
            final(self)@ == on_colon(old(self)@),
    {
        if self.state == LexState::InKW || self.state == LexState::InName {
            self.state = LexState::InColSep;
        } else if self.state == LexState::InColSep {
            self.state = LexState::ExpInCallName;
        }
        self.clear_name();
    }

    fn on_comma(&mut self)
        ensures
            final(self)@ == on_comma(old(self)@),
    {
        match self.state {
            LexState::InDataDef | LexState::Start | LexState::Direct | LexState::ExpDirect => {},
            LexState::InCallName => {
                self.clear_name();
            },
            _ => {
                self.state = LexState::ExpInCallName;
            },
        }
    }

    fn on_open_brace(&mut self, line: usize, col: u16, path: &String) -> (r: Option<Reference>)
        ensures
            (final(self)@, opt_ref_view(r)) == on_open_brace(old(self)@, line, col, path@),
    {
        let r = match self.state {
            LexState::InStruct | LexState::InEnum => {
                let r = self.make_ref(path, line, col, RefType::Data, None);
                self.state = LexState::InDataDef;
                Some(r)
            },
            LexState::InForName => {
                self.scope_for = Some(self.name.clone());
                self.scope_type = ScopeType::TraitFor;
                self.state = LexState::StartInScope;
                None
            },
            LexState::InTraitName => {
                self.scope_name = self.name.clone();
                self.scope_for = None;
                self.scope_type = ScopeType::Trait;
                self.state = LexState::StartInScope;
                None
            },
            LexState::InExpOpenImpl => {
                self.state = LexState::StartInScope;
                None
            },
            LexState::ExpFnBody => {
                self.state = LexState::InFnBody;
                None
            },
            LexState::InFnBody => {
                self.brackets = exec_inc16(self.brackets);
                None
            },
            LexState::ExpDirect => {
                self.state = LexState::InFnBody;
                self.brackets = exec_inc16(self.brackets);
                None
            },
            _ => {
                self.state = self.base_state();
                None
            },
        };
        self.clear_name();
        r
    }

    fn on_close_paren(&mut self)
        ensures
            final(self)@ == on_close_paren(old(self)@),
    {
        if self.state == LexState::InParams {
            self.state = LexState::ExpFnBody;
        } else if self.state == LexState::InCallParams {
            self.state = LexState::ExPNamSep;
        }
        self.clear_name();
    }

    fn leave_block(&mut self)
        ensures
            final(self)@ == leave_block(old(self)@),
    {
        if self.brackets > 0 {
            self.brackets = self.brackets - 1;
        }
        self.state = LexState::StartInScope;
    }

    fn on_close_brace(&mut self)
        ensures
            final(self)@ == on_close_brace(old(self)@),
    {
        match self.state {
            LexState::InDataDef => {
                self.scope_for = None;
                self.scope_name = Vec::new();
                self.scope_type = ScopeType::SelfImpl;
                self.clear_name();
                self.state = LexState::Start;
            },
            LexState::InFnBody | LexState::ExPNamSep | LexState::InCallName | LexState::InNum
            | LexState::ExpDirect | LexState::ExpInCallName => {
                self.leave_block();
            },
            LexState::Start => {
                if self.brackets > 0 {
                    self.leave_block();
                }
            },
            LexState::InKW => {
                if self.brackets > 0 {
                    self.leave_block();
                } else {
                    self.state = LexState::Start;
                }
            },
            _ => {},
        }
    }

    fn on_equals(&mut self)
        ensures
            final(self)@ == on_equals(old(self)@),
    {
        if self.state == LexState::ExpEndComment {
            self.state = LexState::InStarComment;
        } else if self.state == LexState::Direct || self.state == LexState::InComment {
        } else {
            self.state = LexState::InCallName;
        }
        self.clear_name();
    }

    fn on_greater(&mut self)
        requires
            stack_ok(old(self)@),
        ensures
            final(self)@ == on_greater(old(self)@),
    {
        if self.state == LexState::InCallName {
            self.state = LexState::ExpDirect;
        } else if self.state == LexState::InGenTypeOrComp {
            self.pop_state();
        }
    }

    fn on_slash(&mut self)
        requires
            stack_ok(old(self)@),
        ensures
            final(self)@ == on_slash(old(self)@),
    {
        if self.state == LexState::ExpComment {
            self.state = LexState::InComment;
        } else if self.state == LexState::ExpEndComment {
            self.pop_state();
        } else {
            self.push_state(LexState::ExpComment);
        }
    }

    fn on_star(&mut self)
        ensures
            final(self)@ == on_star(old(self)@),
    {
        if self.state == LexState::ExpComment {
            self.state = LexState::InStarComment;
        } else if self.state == LexState::InStarComment {
            self.state = LexState::ExpEndComment;
        }
    }

    /// Feeds one character to the scanner.
    fn step(&mut self, c: char, line: usize, col: u16, path: &String) -> (r: Option<Reference>)
        requires
            stack_ok(old(self)@),
        ensures
            (final(self)@, opt_ref_view(r)) == lex_step(old(self)@, c, line, col, path@),
            stack_ok(final(self)@),
    {
        proof {
            lemma_step_keeps_stack_ok(self@, c, line, col, path@);
        }
        if c == '"' {
            return None;
        } else if c == ';' {
            self.state = self.base_state();
            return None;
        } else if c == '/' {
            self.on_slash();
            return None;
        } else if c == '*' {
            self.on_star();
            return None;
        }
        let special = c == '(' || c == '<' || c == ' ' || c == '\r' || c == '\n' || c == '\t'
            || c == '.' || c == '&' || c == ':' || c == ',' || c == '{' || c == ')' || c == '}'
            || c == '=' || c == '>' || c == '#' || c == '[' || c == ']';
        let word = ('a' <= c && c <= 'z') || ('A' <= c && c <= 'Z') || c == '_';
        let digit = '0' <= c && c <= '9';
        if !special && !word && !digit {
            return None;
        }
        self.leave_exp_comment();
        if word {
            self.on_word(c);
            None
        } else if digit {
            self.on_digit(c);
            None
        } else if c == '(' {
            self.on_open_paren(line, col, path)
        } else if c == '<' {
            self.on_less();
            None
        } else if c == ' ' || c == '\r' || c == '\n' || c == '\t' {
            self.on_blank(c);
            None
        } else if c == '.' || c == '&' {
            self.on_dot();
            None
        } else if c == ':' {
            self.on_colon();
            None
        } else if c == ',' {
            self.on_comma();
            None
        } else if c == '{' {
            self.on_open_brace(line, col, path)
        } else if c == ')' {
            self.on_close_paren();
            None
        } else if c == '}' {
            self.on_close_brace();
            None
        } else if c == '=' {
            self.on_equals();
            None
        } else if c == '>' {
            self.on_greater();
            None
        } else if c == '#' {
            if self.state == LexState::Start {
                self.state = LexState::ExpDirect;
            }
            None
        } else if c == '[' {
            if self.state == LexState::ExpDirect {
                self.state = LexState::Direct;
            }
            None
        } else {
            if self.state == LexState::Direct {
                self.state = LexState::Start;
            }
            None
        }
    }
}


/// Scans the characters that `reader` yields and reports the definitions and
/// call sites found among them, in the order in which they stand.
pub fn scan(reader: &mut Reader) -> (res: Vec<Reference>)
    requires
        old(reader).wf(),
    ensures
        refs_view(res@) == scan_from(
            old(reader).bytes(),
            old(reader).source(),
            old(reader).position(),
            lex_start(),
            seq![],
        ).0,
        final(reader).position() == scan_from(
            old(reader).bytes(),
            old(reader).source(),
            old(reader).position(),
            lex_start(),
            seq![],
        ).1,
        final(reader).bytes() == old(reader).bytes(),
        final(reader).source() == old(reader).source(),
        final(reader).wf(),
{
    let mut res: Vec<Reference> = Vec::new();
    let mut lexer = Lexer::new();
    let ghost data = reader.bytes();
    let ghost path = reader.source();
    let ghost total = scan_from(data, path, reader.position(), lex_start(), seq![]);
    assert(refs_view(res@) =~= seq![]);
    loop
        invariant
            data == old(reader).bytes(),
            path == old(reader).source(),
            total == scan_from(data, path, old(reader).position(), lex_start(), seq![]),
            reader.wf(),
            reader.bytes() == data,
            reader.source() == path,
            reader.path@ == path,
            stack_ok(lexer@),
            total == scan_from(data, path, reader.position(), lexer@, refs_view(res@)),
        decreases data.len() - reader.position().pos,
    {
        let ghost p = reader.position();
        let ghost st = lexer@;
        let ghost out = refs_view(res@);
        proof {
            lemma_next_advances(data, p);
        }
        let co = reader.next();
        match co {
            None => {
                assert(total == (out, reader.position()));
                return res;
            },
            Some(c) => {
                let line = reader.line_number();
                let col = reader.column();
                let e = lexer.step(c, line, col, &reader.path);
                match e {
                    Some(r) => {
                        res.push(r);
                    },
                    None => {},
                }
                assert(refs_view(res@) =~= out + opt_seq(opt_ref_view(e)));
            },
        }
    }
}


/// Characters that can stand in a reported name.
pub open spec fn ident_chars(s: Seq<char>) -> bool {
    forall|i: int| 0 <= i < s.len() ==> is_word_char(#[trigger] s[i]) || is_digit_char(s[i])
}

/// What holds of every reported reference.
pub open spec fn ref_ok(r: RefView, path: Seq<char>) -> bool {
    &&& r.src == path
    &&& ident_chars(r.name)
    &&& r.line >= 1
    &&& (r.type_of_use == RefType::Function || r.type_of_use == RefType::Access
        || r.type_of_use == RefType::Data)
    &&& (r.type_of_use != RefType::Function ==> r.scope is None)
    &&& (r.scope matches Some(sc) ==> {
        &&& sc.name.len() > 0
        &&& ident_chars(sc.name)
        &&& (sc.name_for matches Some(f) ==> ident_chars(f))
    })
}

pub open spec fn lex_ok(v: LexView) -> bool {
    &&& ident_chars(v.name)
    &&& ident_chars(v.scope_name)
    &&& (v.scope_for matches Some(f) ==> ident_chars(f))
}

pub open spec fn refs_ok(out: Seq<RefView>, path: Seq<char>, line: usize) -> bool {
    &&& forall|i: int| 0 <= i < out.len() ==> ref_ok(#[trigger] out[i], path)
    &&& forall|i: int, j: int| 0 <= i <= j < out.len() ==> #[trigger] out[i].line <= #[trigger] out[j].line
    &&& forall|i: int| 0 <= i < out.len() ==> #[trigger] out[i].line <= line
}

proof fn lemma_ident_push(s: Seq<char>, c: char)
    requires
        ident_chars(s),
        is_word_char(c) || is_digit_char(c),
    ensures
        ident_chars(s.push(c)),
{
    assert forall|i: int| 0 <= i < s.push(c).len() implies is_word_char(#[trigger] s.push(c)[i])
        || is_digit_char(s.push(c)[i]) by {
        if i < s.len() {
            assert(s.push(c)[i] == s[i]);
        }
    }
}

proof fn lemma_step_ok(v: LexView, c: char, line: usize, col: u16, path: Seq<char>)
    requires
        lex_ok(v),
        line >= 1,
    ensures
        lex_ok(lex_step(v, c, line, col, path).0),
        lex_step(v, c, line, col, path).1 matches Some(r) ==> ref_ok(r, path) && r.line == line,
{
    let u = leave_exp_comment(v);
    assert(ident_chars(seq![]));
    if is_word_char(c) || is_digit_char(c) {
        lemma_ident_push(u.name, c);
    }
}

proof fn lemma_scan_from_ok(
    data: Seq<u8>,
    path: Seq<char>,
    p: ReaderPos,
    st: LexView,
    out: Seq<RefView>,
)
    requires
        reader_pos_ok(data, p),
        lex_ok(st),
        refs_ok(out, path, p.line),
    ensures
        refs_ok(scan_from(data, path, p, st, out).0, path, scan_from(data, path, p, st, out).1.line),
    decreases data.len() - p.pos,
{
    if p.pos < data.len() {
        lemma_next_advances(data, p);
        let (oc, p2) = next_spec(data, p);
        if let Some(c) = oc {
            let (st2, e) = lex_step(st, c, p2.line, p2.offset, path);
            lemma_step_ok(st, c, p2.line, p2.offset, path);
            let out2 = out + opt_seq(e);
            assert(p2.line >= p.line);
            assert(refs_ok(out2, path, p2.line)) by {
                if let Some(r) = e {
                    assert(out2 == out.push(r));
                    assert forall|i: int| 0 <= i < out2.len() implies ref_ok(#[trigger] out2[i], path) by {
                        if i < out.len() {
                            assert(out2[i] == out[i]);
                        }
                    }
                    assert forall|i: int, j: int| 0 <= i <= j < out2.len() implies #[trigger] out2[i].line
                        <= #[trigger] out2[j].line by {
                        if j < out.len() {
                            assert(out2[i] == out[i] && out2[j] == out[j]);
                        } else if i < out.len() {
                            assert(out2[i] == out[i]);
                        }
                    }
                    assert forall|i: int| 0 <= i < out2.len() implies #[trigger] out2[i].line <= p2.line by {
                        if i < out.len() {
                            assert(out2[i] == out[i]);
                        }
                    }
                } else {
                    assert(out2 =~= out);
                }
            }
            lemma_scan_from_ok(data, path, p2, st2, out2);
        } else {
            assert(p2.line >= p.line);
        }
    }
}

proof fn lemma_scan_from_bounds(
    data: Seq<u8>,
    path: Seq<char>,
    p: ReaderPos,
    st: LexView,
    out: Seq<RefView>,
    l: usize,
)
    requires
        reader_pos_ok(data, p),
        lex_ok(st),
        p.line >= l,
        forall|i: int| 0 <= i < out.len() ==> #[trigger] out[i].line >= l,
    ensures
        forall|i: int|
            0 <= i < scan_from(data, path, p, st, out).0.len() ==> #[trigger] scan_from(
                data,
                path,
                p,
                st,
                out,
            ).0[i].line >= l,
        scan_from(data, path, p, st, out).1.pos == data.len(),
    decreases data.len() - p.pos,
{
    if p.pos < data.len() {
        lemma_next_advances(data, p);
        let (oc, p2) = next_spec(data, p);
        if let Some(c) = oc {
            let (st2, e) = lex_step(st, c, p2.line, p2.offset, path);
            lemma_step_ok(st, c, p2.line, p2.offset, path);
            let out2 = out + opt_seq(e);
            assert forall|i: int| 0 <= i < out2.len() implies #[trigger] out2[i].line >= l by {
                if i < out.len() {
                    assert(out2[i] == out[i]);
                } else {
                    assert(out2[i] == e->0);
                }
            }
            lemma_scan_from_bounds(data, path, p2, st2, out2, l);
        }
    }
}

/// The scanner state after the characters `s`, one step each.
pub open spec fn feed(v: LexView, s: Seq<char>, line: usize, col: u16, path: Seq<char>) -> LexView
    decreases s.len(),
{
    if s.len() == 0 {
        v
    } else {
        lex_step(feed(v, s.drop_last(), line, col, path), s.last(), line, col, path).0
    }
}

proof fn lemma_feed_word(v: LexView, w: Seq<char>, line: usize, col: u16, path: Seq<char>)
    requires
        v.state == LexState::InCallName,
        forall|i: int| 0 <= i < w.len() ==> is_word_char(#[trigger] w[i]),
    ensures
        feed(v, w, line, col, path).state == LexState::InCallName,
        feed(v, w, line, col, path).name == v.name + w,
    decreases w.len(),
{
    if w.len() > 0 {
        assert forall|i: int| 0 <= i < w.drop_last().len() implies is_word_char(#[trigger] w.drop_last()[i]) by {
            assert(w.drop_last()[i] == w[i]);
        }
        lemma_feed_word(v, w.drop_last(), line, col, path);
        assert(is_word_char(w[w.len() - 1]));
        assert(v.name + w.drop_last() + seq![w.last()] =~= v.name + w);
        assert((v.name + w.drop_last()).push(w.last()) =~= v.name + w);
    } else {
        assert(v.name + w =~= v.name);
    }
}

/// A `.` or `&` after a name of a call, a keyword or a generic type drops
/// that name: the scanner waits for the name of a call with nothing pending.
/// So in `a.b(` the call site is reported as `b` alone: after such a `.` or
/// `&`, the letters `w` that follow and an opening parenthesis report an
/// access named exactly `w`.
pub proof fn law_dot_drops_receiver(
    v: LexView,
    dot: char,
    w: Seq<char>,
    line: usize,
    col: u16,
    path: Seq<char>,
)
    requires
        dot == '.' || dot == '&',
        leave_exp_comment(v).state == LexState::InCallName || leave_exp_comment(v).state == LexState::InKW
            || leave_exp_comment(v).state == LexState::InGenTypeOrComp,
        forall|i: int| 0 <= i < w.len() ==> is_word_char(#[trigger] w[i]),
    ensures
        lex_step(v, dot, line, col, path).0.name == Seq::<char>::empty(),
        lex_step(v, dot, line, col, path).0.state == LexState::InCallName,
        lex_step(v, dot, line, col, path).1 is None,
        lex_step(feed(lex_step(v, dot, line, col, path).0, w, line, col, path), '(', line, col, path).1 matches Some(
            r,
        ) && r.name == w && r.type_of_use == RefType::Access && r.line == line && r.src == path,
{
    let u = lex_step(v, dot, line, col, path).0;
    lemma_feed_word(u, w, line, col, path);
    assert(u.name + w =~= w);
}

/// Every reference that scanning a buffer reports names the scanned file, has a name
/// made of identifier characters, a line number of at least one, and is a function
/// definition, a data definition or a call site; only function definitions carry a
/// scope, and only a named one.  The references come in order of their lines,
/// none before the line the reader starts on, and the scan reads the buffer to
/// its end, where the reader gives nothing more.
pub proof fn law_scan_reports_well_formed(data: Seq<u8>, path: Seq<char>, p: ReaderPos)
    requires
        reader_pos_ok(data, p),
    ensures
        forall|i: int| 0 <= i < spec_scan(data, path, p).len() ==> ref_ok(
            #[trigger] spec_scan(data, path, p)[i],
            path,
        ),
        forall|i: int, j: int| 0 <= i <= j < spec_scan(data, path, p).len() ==> #[trigger] spec_scan(data, path, p)[i].line
            <= #[trigger] spec_scan(data, path, p)[j].line,
        forall|i: int| 0 <= i < spec_scan(data, path, p).len() ==> #[trigger] spec_scan(data, path, p)[i].line
            >= p.line,
        scan_from(data, path, p, lex_start(), seq![]).1.pos == data.len(),
        next_spec(data, scan_from(data, path, p, lex_start(), seq![]).1).0 is None,
{
    assert(ident_chars(seq![]));
    lemma_scan_from_ok(data, path, p, lex_start(), seq![]);
    lemma_scan_from_bounds(data, path, p, lex_start(), seq![], p.line);
}

} // verus!
