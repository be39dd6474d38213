use gutenindex::index_io::GlobalIndex;
use gutenindex::indexer::index_internal;
use gutenindex::pipeline::{add_document, extract_doc_id, parse_decimal, DocIdError, IndexRun};
use gutenindex::word_map::WordMap;

#[test]
fn doc_id_from_file_name() {
    assert_eq!(extract_doc_id("books/1342.txt"), Ok(1342));
    assert_eq!(extract_doc_id("77"), Ok(77));
    assert_eq!(extract_doc_id("a/b/0007.txt"), Ok(7));
    assert_eq!(extract_doc_id("dir/+5.txt"), Ok(5));
}

#[test]
fn doc_id_errors() {
    assert_eq!(extract_doc_id("books/"), Err(DocIdError::NotANumber("books".to_string())));
    assert_eq!(extract_doc_id("/"), Err(DocIdError::InvalidFilename));
    assert_eq!(extract_doc_id(""), Err(DocIdError::InvalidFilename));
    assert_eq!(extract_doc_id("a/-3.txt"), Err(DocIdError::NotANumber("-3".to_string())));
    assert_eq!(extract_doc_id("x/12a.txt"), Err(DocIdError::NotANumber("12a".to_string())));
}

#[test]
fn decimal_parsing_matches_std() {
    for s in ["0", "+0", "18446744073709551615", "18446744073709551616", "", "+", "-1", " 1", "1 ", "00012", "++1"] {
        assert_eq!(parse_decimal(s), s.parse::<usize>().ok(), "{}", s);
    }
}

#[test]
fn add_document_appends_one_posting_per_word() {
    let mut g: GlobalIndex = WordMap::new();
    let mut d1 = WordMap::new();
    index_internal(b"red fish blue fish", &mut d1);
    add_document(&mut g, 1, &d1);
    let mut d2 = WordMap::new();
    index_internal(b"one fish", &mut d2);
    add_document(&mut g, 2, &d2);
    assert_eq!(g.len(), 4);
    assert_eq!(g.get(b"fish").unwrap(), &vec![(1, vec![4, 14]), (2, vec![4])]);
    assert_eq!(g.get(b"red").unwrap(), &vec![(1, vec![0])]);
    assert_eq!(g.get(b"one").unwrap(), &vec![(2, vec![0])]);
    assert!(g.get(b"green").is_none());
}

#[test]
fn postings_follow_the_order_of_the_documents() {
    let mut g: GlobalIndex = WordMap::new();
    for (id, text) in [(30usize, &b"red fish"[..]), (10, b"blue fish"), (20, b"red red")] {
        let mut doc = WordMap::new();
        index_internal(text, &mut doc);
        add_document(&mut g, id, &doc);
    }
    let ids = |w: &[u8]| g.get(w).unwrap().iter().map(|p| p.0).collect::<Vec<_>>();
    assert_eq!(ids(b"red"), vec![30, 20]);
    assert_eq!(ids(b"fish"), vec![30, 10]);
    assert_eq!(ids(b"blue"), vec![10]);
    assert_eq!(g.get(b"red").unwrap()[1], (20, vec![0, 4]));
    assert!(g.get(b"green").is_none());
}

#[test]
fn a_run_records_words_lengths_and_titles() {
    let ascii = "Title: Red Book\nCharacter set encoding: ASCII\n*** START OF THE PROJECT GUTENBERG EBOOK RED ***\nred fish red\n";
    let latin = "Title: Blue Book\nCharacter set encoding: ISO-8859-1\n*** START OF THE PROJECT GUTENBERG EBOOK BLUE ***\nblue fish\n";
    let mut run = IndexRun::new();
    run.add_file(7, ascii.as_bytes()).unwrap();
    run.add_file(8, latin.as_bytes()).unwrap();
    assert!(run.add_file(9, b"Title: \xff\n").is_err());

    let g = run.global_index();
    assert_eq!(g.get(b"red").unwrap(), &vec![(7, vec![0, 9])]);
    assert_eq!(g.get(b"fish").unwrap(), &vec![(7, vec![4])]);
    assert!(g.get(b"blue").is_none());
    assert_eq!(run.doc_lengths().len(), 1);
    assert_eq!(run.doc_lengths()[&7], 3);
    assert_eq!(run.titles()[&7], "Red Book");
    assert!(!run.titles().contains_key(&8));
}
