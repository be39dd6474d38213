use gutenindex::corpus::{book_entry, book_text};
use std::io::{Cursor, Write};
use zip::write::SimpleFileOptions;
use zip::ZipWriter;

fn archive(entries: &[(&str, &[u8])]) -> Vec<u8> {
    let mut w = ZipWriter::new(Cursor::new(Vec::new()));
    for (name, bytes) in entries {
        w.start_file(*name, SimpleFileOptions::default()).unwrap();
        w.write_all(bytes).unwrap();
    }
    w.finish().unwrap().into_inner()
}

#[test]
fn entry_names() {
    assert_eq!(book_entry(0), "0.txt");
    assert_eq!(book_entry(1342), "1342.txt");
}

#[test]
fn books_read_from_an_archive() {
    let a = archive(&[("12.txt", &b"Call me Ishmael."[..]), ("22.txt", &b"caf\xe9"[..])]);
    assert_eq!(book_text(&a, 12), Some("Call me Ishmael.".to_string()));
    assert_eq!(book_text(&a, 22), Some("caf\u{fffd}".to_string()));
    assert_eq!(book_text(&a, 32), None);
    assert_eq!(book_text(b"not a zip archive", 12), None);
}
