use gutenindex::indexer::{document_length, index, index_internal};
use gutenindex::word_map::WordMap;
use std::collections::HashMap;

fn to_hash_map(m: &WordMap<usize>) -> HashMap<String, Vec<usize>> {
    let mut r = HashMap::new();
    for i in 0..m.len() {
        let key = String::from_utf8(m.key_at(i).to_vec()).unwrap();
        r.insert(key, m.list_at(i).clone());
    }
    r
}

fn expected_index(v: &[(&str, &[usize])]) -> HashMap<String, Vec<usize>> {
    v.iter().map(|(k, v)| ((*k).to_string(), (*v).to_vec())).collect()
}

#[test]
fn test_index_normal() {
    let reader = String::from("Hello, Rust! Hello");
    let mut index = WordMap::new();
    index_internal(reader.as_bytes(), &mut index);
    assert_eq!(expected_index(&[("hello", &[0, 13]), ("rust", &[7])]), to_hash_map(&index));
}

#[test]
fn test_index_empty() {
    let reader = String::from("");
    let mut index = WordMap::new();
    index_internal(reader.as_bytes(), &mut index);
    assert_eq!(expected_index(&[]), to_hash_map(&index));

    let reader2 = String::from("12_345 @$&");
    let mut index2 = WordMap::new();
    index_internal(reader2.as_bytes(), &mut index2);
    assert_eq!(expected_index(&[]), to_hash_map(&index2));
}

#[test]
fn index_internal_lowercases_and_keeps_order() {
    let mut index = WordMap::new();
    index_internal(b"a B b-A\nzz9Zz", &mut index);
    assert_eq!(
        expected_index(&[("a", &[0, 6]), ("b", &[2, 4]), ("zz", &[8, 11])]),
        to_hash_map(&index)
    );
    // keys come out sorted
    assert_eq!(index.key_at(0), b"a");
    assert_eq!(index.key_at(1), b"b");
    assert_eq!(index.key_at(2), b"zz");
}

#[test]
fn index_internal_adds_to_existing_positions() {
    let mut index = WordMap::new();
    index_internal(b"word", &mut index);
    index_internal(b"x word", &mut index);
    assert_eq!(expected_index(&[("word", &[0, 2]), ("x", &[0])]), to_hash_map(&index));
}

#[test]
fn index_skips_the_header() {
    let text = "Title: T\r\nCharacter set encoding: ASCII\r\n*** START OF THE PROJECT GUTENBERG EBOOK T ***\r\nOne two one";
    let doc = index(text.as_bytes()).unwrap().unwrap();
    assert_eq!(
        expected_index(&[("one", &[0, 8]), ("two", &[4])]),
        to_hash_map(&doc)
    );
    assert_eq!(document_length(&doc), 3);
}

#[test]
fn index_refuses_other_encodings() {
    let text = "Character set encoding: UTF-8\n*** START OF THE PROJECT GUTENBERG EBOOK X ***\nwords";
    assert!(index(text.as_bytes()).unwrap().is_none());
}

#[test]
fn index_fails_on_a_header_that_is_not_utf8() {
    let bytes: Vec<u8> = vec![b'T', 0xff, b'\n', b'a'];
    assert!(index(&bytes).is_err());
}

#[test]
fn document_length_counts_every_occurrence() {
    let mut index = WordMap::new();
    index_internal(b"the cat and the hat", &mut index);
    assert_eq!(document_length(&index), 5);
    let empty: WordMap<usize> = WordMap::new();
    assert_eq!(document_length(&empty), 0);
}

#[test]
fn every_recorded_position_points_at_its_word() {
    let text = b"It was the best of times, it was the WORST of times.";
    let mut index = WordMap::new();
    index_internal(text, &mut index);
    for i in 0..index.len() {
        let word = index.key_at(i);
        assert!(!word.is_empty());
        assert!(word.iter().all(|b| b.is_ascii_lowercase()));
        let positions = index.list_at(i);
        assert!(positions.windows(2).all(|w| w[0] < w[1]));
        for &p in positions {
            let found = &text[p..p + word.len()];
            assert_eq!(found.to_ascii_lowercase(), word.to_vec());
            assert!(p == 0 || !text[p - 1].is_ascii_alphabetic());
            assert!(p + word.len() == text.len() || !text[p + word.len()].is_ascii_alphabetic());
        }
    }
    assert_eq!(index.get(b"worst").unwrap(), &vec![37]);
    assert_eq!(index.get(b"times").unwrap(), &vec![19, 46]);
}

#[test]
fn indexing_ignores_letter_case() {
    let a = b"The Cat, the HAT; 42 cats.";
    let b = b"tHE cAT! THE hat? 17 CATS,";
    let mut ia = WordMap::new();
    let mut ib = WordMap::new();
    index_internal(a, &mut ia);
    index_internal(b, &mut ib);
    assert_eq!(to_hash_map(&ia), to_hash_map(&ib));
    assert_eq!(to_hash_map(&ia).get("the"), Some(&vec![0, 9]));
}
