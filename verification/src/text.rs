//! UTF-8 decoding, through the standard library.

use vstd::prelude::*;
use vstd::utf8::{valid_utf8, decode_utf8};

verus! {

/// Decodes `bytes` as UTF-8 text; `None` when they are not valid UTF-8.
///
/// Trusted: `std::str::from_utf8`, whose documentation says it succeeds
/// exactly on valid UTF-8 and then holds the text those bytes encode.
#[verifier::external_body]
pub fn utf8_str(bytes: &[u8]) -> (r: Option<&str>)
    ensures
        r is Some <==> valid_utf8(bytes@),
        r matches Some(s) ==> s@ == decode_utf8(bytes@),
{
    std::str::from_utf8(bytes).ok()
}

/// The text of `String::from_utf8_lossy` on the given bytes.
pub uninterp spec fn utf8_lossy_text(bytes: Seq<u8>) -> Seq<char>;

/// Decodes `bytes` as UTF-8, with each invalid sequence replaced.
///
/// Trusted: `String::from_utf8_lossy`. Its result depends on the bytes
/// alone, and by its documentation it is the decoded text when the bytes
/// are valid UTF-8; which replacement characters stand for invalid bytes is
/// left unsaid.
#[verifier::external_body]
pub fn utf8_lossy(bytes: &[u8]) -> (r: String)
    ensures
        r@ == utf8_lossy_text(bytes@),
        valid_utf8(bytes@) ==> r@ == decode_utf8(bytes@),
{
    String::from_utf8_lossy(bytes).into_owned()
}

/// The text of `str::to_lowercase` on the given text.
pub uninterp spec fn lowercase_text(s: Seq<char>) -> Seq<char>;

/// The lowercase form of `s`, as Unicode defines it.
///
/// Trusted: `str::to_lowercase`. Its result depends on the text alone;
/// which characters it maps to which is left unsaid.
#[verifier::external_body]
pub fn to_lowercase(s: &str) -> (r: String)
    ensures
        r@ == lowercase_text(s@),
{
    s.to_lowercase()
}

/// The file stem of the path `path` as `std::path::Path::file_stem` gives
/// it, when it has one that is text.
pub uninterp spec fn path_file_stem(path: Seq<char>) -> Option<Seq<char>>;

/// The file name of `path` without its extension.
///
/// Trusted: `std::path::Path::file_stem`. Its result depends on the path
/// alone, under the path syntax of the target the library is built for;
/// how a path is split into components and where the extension starts is
/// left unsaid.
#[verifier::external_body]
pub fn file_stem(path: &str) -> (r: Option<String>)
    ensures
        match r {
            None => path_file_stem(path@) is None,
            Some(s) => path_file_stem(path@) == Some(s@),
        },
{
    std::path::Path::new(path).file_stem().and_then(|n| n.to_str()).map(|n| n.to_string())
}

/// The extension of the path `path` as `std::path::Path::extension` gives
/// it, when it has one that is text.
pub uninterp spec fn path_extension(path: Seq<char>) -> Option<Seq<char>>;

/// The extension of the file name of `path`.
///
/// Trusted: `std::path::Path::extension`. Its result depends on the path
/// alone, under the path syntax of the target the library is built for;
/// where the extension starts is left unsaid.
#[verifier::external_body]
pub fn file_extension(path: &str) -> (r: Option<String>)
    ensures
        match r {
            None => path_extension(path@) is None,
            Some(s) => path_extension(path@) == Some(s@),
        },
{
    std::path::Path::new(path).extension().and_then(|n| n.to_str()).map(|n| n.to_string())
}

/// Appends `c` to `s`.
///
/// Trusted: `String::push`, which by its documentation appends the
/// character to the end of the string.
#[verifier::external_body]
pub fn push_char(s: &mut String, c: char)
    ensures
        final(s)@ == old(s)@.push(c),
{
    s.push(c)
}

/// Bytes below 0x80 (ASCII) always form valid UTF-8.
pub proof fn lemma_ascii_valid_utf8(s: Seq<u8>)
    requires
        forall|i: int| 0 <= i < s.len() ==> #[trigger] s[i] < 0x80,
    ensures
        valid_utf8(s),
    decreases s.len(),
{
    if s.len() > 0 {
        let t = s.drop_first();
        assert(vstd::utf8::is_leading_byte_width_1(s[0])) by {
            assert(s[0] < 0x80);
        }
        assert(vstd::utf8::pop_first_scalar(s) =~= t);
        lemma_ascii_valid_utf8(t);
    }
}

} // verus!
