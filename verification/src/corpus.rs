//! Books in the corpus archives: archive `doc_id % 10` holds `{doc_id}.txt`.

use vstd::prelude::*;
use crate::text::{push_char, utf8_lossy, utf8_lossy_text};
use crate::web::{decimal_text, push_decimal};

verus! {

/// The bytes of entry `name` of the zip archive `archive`, as `zip` reads
/// them; none when the archive cannot be read or has no such entry.
pub uninterp spec fn zip_entry(archive: Seq<u8>, name: Seq<char>) -> Option<Seq<u8>>;

/// Reads entry `name` of the zip archive held in `archive`.
///
/// Trusted: `zip::ZipArchive::new` on the bytes, `ZipArchive::by_name` and
/// reading the entry to its end. The result depends on the archive's bytes
/// and the name alone; how entries are found and decompressed is left
/// unsaid. The crate reports a malformed archive as an error, which gives
/// `None` here; that it never panics on one is not shown by its source and
/// is not claimed.
#[verifier::external_body]
fn read_zip_entry(archive: &[u8], name: &str) -> (r: Option<Vec<u8>>)
    ensures
        match r {
            None => zip_entry(archive@, name@) is None,
            Some(b) => zip_entry(archive@, name@) == Some(b@),
        },
{
    let mut zip = match zip::ZipArchive::new(std::io::Cursor::new(archive)) {
        Ok(z) => z,
        Err(_) => return None,
    };
    let mut entry = match zip.by_name(name) {
        Ok(e) => e,
        Err(_) => return None,
    };
    let mut buf: Vec<u8> = Vec::new();
    match std::io::Read::read_to_end(&mut entry, &mut buf) {
        Ok(_) => Some(buf),
        Err(_) => None,
    }
}

/// The name of book `doc_id` in its archive: `{doc_id}.txt`.
pub open spec fn book_entry_name(doc_id: u32) -> Seq<char> {
    decimal_text(doc_id as nat) + seq!['.', 't', 'x', 't']
}

/// The entry name of book `d` is its full decimal numeral followed by
/// `.txt`: the name ends in `.txt`, and its stem parses back to `d`.
pub proof fn law_book_entry_name(d: u32)
    ensures
        book_entry_name(d).len() > 4,
        book_entry_name(d).skip(book_entry_name(d).len() - 4) == seq!['.', 't', 'x', 't'],
        crate::pipeline::parse_usize(book_entry_name(d).take(book_entry_name(d).len() - 4)) == Some(d as usize),
{
    let name = book_entry_name(d);
    crate::web::law_decimal_text(d as nat);
    let t = decimal_text(d as nat);
    assert(name.take(name.len() - 4) =~= t);
    assert(name.skip(name.len() - 4) =~= seq!['.', 't', 'x', 't']);
    crate::pipeline::law_parse_decimal_numeral(d as usize);
}

/// The name of book `doc_id` in its archive.
pub fn book_entry(doc_id: u32) -> (r: String)
    ensures
        r@ == book_entry_name(doc_id),
{
    let mut name: String = String::new();
    push_decimal(&mut name, doc_id);
    push_char(&mut name, '.');
    push_char(&mut name, 't');
    push_char(&mut name, 'x');
    push_char(&mut name, 't');
    assert(name@ =~= book_entry_name(doc_id));
    name
}

/// The text of book `doc_id` in the zip archive `archive`, invalid UTF-8
/// replaced; none when the archive does not hold it.
pub fn book_text(archive: &[u8], doc_id: u32) -> (r: Option<String>)
    ensures
        match zip_entry(archive@, book_entry_name(doc_id)) {
            None => r is None,
            Some(b) => r matches Some(t) && t@ == utf8_lossy_text(b),
        },
{
    let name: String = book_entry(doc_id);
    match read_zip_entry(archive, name.as_str()) {
        None => None,
        Some(bytes) => Some(utf8_lossy(bytes.as_slice())),
    }
}

} // verus!
