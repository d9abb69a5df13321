pub mod config;
pub mod crossref;
pub mod docgi;
pub mod lookup;
pub mod modes;
pub mod param;
pub mod strmap;
pub mod terminal;
pub mod text;
pub mod web;

use vstd::prelude::*;

verus! {

/// The separator of path components on the target (`std::path::MAIN_SEPARATOR`):
/// the contract claims only that it is `/` or `\`, which std documents as the
/// separator on Unix and on Windows; which of the two depends on the target.
#[verifier::external_body]
pub(crate) fn main_separator() -> (c: char)
    ensures
        c == '/' || c == '\\',
{
    std::path::MAIN_SEPARATOR
}

/// Whether a path is absolute where `sep` separates path components: with `\`
/// (Windows), where its bytes are more than three and the second and third
/// are `:` and `\`, or where it begins with `\`; else where it begins with `/`.
pub open spec fn spec_has_root(path: Seq<char>, sep: char) -> bool {
    let b = vstd::utf8::encode_utf8(path);
    if sep == '\\' {
        (b.len() > 3 && b[1] == 58u8 && b[2] == 92u8) || (b.len() > 0 && b[0] == 92u8)
    } else {
        b.len() > 0 && b[0] == 47u8
    }
}

/// Whether a path is absolute, given the separator of path components.
pub fn has_root_with(path: &str, sep: char) -> (r: bool)
    ensures
        r == spec_has_root(path@, sep),
{
    let b = path.as_bytes();
    let n = b.len();
    proof {
        assert(b@ == vstd::utf8::encode_utf8(path@));
    }
    if sep == '\\' {
        (n > 3 && b[1] == 58u8 && b[2] == 92u8) || (n > 0 && b[0] == 92u8)
    } else {
        n > 0 && b[0] == 47u8
    }
}

/// Whether a path is absolute on the target: on Unix where it begins with
/// `/`; on Windows where it begins with a drive such as `C:\` or with `\`.
pub fn has_root(path: &str) -> (r: bool)
    ensures
        r == spec_has_root(path@, '/') || r == spec_has_root(path@, '\\'),
{
    has_root_with(path, main_separator())
}

} // verus!
