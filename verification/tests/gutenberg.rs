use gutenindex::gutenberg::{read_header_from_reader, HeaderError};

const NIECES_ON_VACATION: &str = "The Project Gutenberg EBook of Aunt Jane's Nieces on Vacation, by Edith Van Dyne\r\n\
\r\n\
This eBook is for the use of anyone anywhere at no cost and with\r\n\
almost no restrictions whatsoever.  You may copy it, give it away or\r\n\
re-use it under the terms of the Project Gutenberg License included\r\n\
with this eBook or online at www.gutenberg.net\r\n\
\r\n\
\r\n\
Title: Aunt Jane's Nieces on Vacation\r\n\
\r\n\
Author: Edith Van Dyne\r\n\
\r\n\
Release Date: November 17, 2006 [EBook #19861]\r\n\
\r\n\
Language: English\r\n\
\r\n\
Character set encoding: ASCII\r\n\
\r\n\
*** START OF THIS PROJECT GUTENBERG EBOOK AUNT JANE'S NIECES ON VACATION ***\r\n\
\r\n\
\r\n\
AUNT JANE'S NIECES ON VACATION\r\n\
\r\n\
CHAPTER I. A BUNCH OF EXILES\r\n";

#[test]
fn test_read_header() {
    let cursor = NIECES_ON_VACATION.as_bytes();

    let header = read_header_from_reader(cursor).expect("Failed to read header");

    assert_eq!(header.title, "Aunt Jane's Nieces on Vacation");
    assert_eq!(header.author, "Edith Van Dyne");
    assert_eq!(header.encoding, "ASCII");

    assert!(header.header_len.is_some());
}

#[test]
fn header_len_ends_after_the_start_marker() {
    let header = read_header_from_reader(NIECES_ON_VACATION.as_bytes()).unwrap();
    let marker_end = NIECES_ON_VACATION.find("VACATION ***\r\n").unwrap() + "VACATION ***\r\n".len();
    assert_eq!(header.header_len, Some(marker_end));
}

#[test]
fn header_without_marker_reads_to_the_end() {
    let text = "Title: Short\nAuthor: Someone";
    let header = read_header_from_reader(text.as_bytes()).unwrap();
    assert_eq!(header.title, "Short");
    assert_eq!(header.author, "Someone");
    assert_eq!(header.encoding, "");
    assert_eq!(header.header_len, Some(text.len()));
}

#[test]
fn header_of_a_hundred_lines_has_no_length() {
    let mut text = String::new();
    for i in 0..100 {
        text.push_str(&format!("line {}\n", i));
    }
    text.push_str("Title: too late\n");
    let header = read_header_from_reader(text.as_bytes()).unwrap();
    assert_eq!(header.header_len, None);
    assert_eq!(header.title, "");
}

#[test]
fn later_field_lines_win() {
    let text = "Title: First\r\r\nTitle: Second\n";
    let header = read_header_from_reader(text.as_bytes()).unwrap();
    assert_eq!(header.title, "Second");
    assert_eq!(header.header_len, Some(text.len()));
}

#[test]
fn header_line_that_is_not_utf8_is_an_error() {
    let bytes: Vec<u8> = vec![b'T', b'i', 0xc3, b'\n'];
    assert_eq!(read_header_from_reader(&bytes).err(), Some(HeaderError::InvalidUtf8));
}

#[test]
fn invalid_bytes_after_the_marker_are_not_read() {
    let mut bytes: Vec<u8> = b"Title: X\n*** START OF THE PROJECT GUTENBERG EBOOK X ***\n".to_vec();
    bytes.push(0xff);
    let header = read_header_from_reader(&bytes).unwrap();
    assert_eq!(header.title, "X");
}
