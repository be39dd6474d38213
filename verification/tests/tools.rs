use gutenindex::gutenberg::read_header_from_reader;
use gutenindex::tools::{ascii_book_id, has_txt_extension, is_ascii_book, select_doc_ids};

#[test]
fn doc_ids_sorted_and_limited() {
    assert_eq!(select_doc_ids(vec![30, 4, 12, 4], None), vec![4, 4, 12, 30]);
    assert_eq!(select_doc_ids(vec![30, 4, 12], Some(2)), vec![4, 12]);
    assert_eq!(select_doc_ids(vec![30, 4, 12], Some(5)), vec![4, 12, 30]);
    assert_eq!(select_doc_ids(vec![], Some(0)), Vec::<usize>::new());
    assert_eq!(select_doc_ids(vec![3, 1], Some(0)), Vec::<usize>::new());
}

#[test]
fn txt_files_only() {
    assert!(has_txt_extension("lib/123.txt"));
    assert!(!has_txt_extension("lib/123.txt.zip"));
    assert!(!has_txt_extension("lib/123"));
    assert!(!has_txt_extension("lib/.txt"));
    assert!(!has_txt_extension("lib/123.TXT"));
}

#[test]
fn ascii_books_with_numeric_names() {
    let ascii = read_header_from_reader(b"Character set encoding: US-ASCII\n").unwrap();
    let utf8 = read_header_from_reader(b"Character set encoding: UTF-8\n").unwrap();
    assert!(is_ascii_book(&ascii));
    assert!(!is_ascii_book(&utf8));
    assert_eq!(ascii_book_id("lib/42.txt", Some(&ascii)), Some(42));
    assert_eq!(ascii_book_id("lib/42.txt", Some(&utf8)), None);
    assert_eq!(ascii_book_id("lib/readme.txt", Some(&ascii)), None);
    assert_eq!(ascii_book_id("lib/42.txt", None), None);
}

#[test]
fn a_limit_keeps_the_smallest_ids() {
    let ids = vec![91, 7, 55, 7, 3, 120, 18];
    let all = select_doc_ids(ids.clone(), None);
    for n in 0..10 {
        let cut = select_doc_ids(ids.clone(), Some(n));
        assert_eq!(cut, all[..n.min(all.len())].to_vec());
    }
}
