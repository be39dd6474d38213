use gutenindex::index_io::{encode_index, GlobalIndex, IndexIo};
use gutenindex::search::{SearchIndex, TermOccurrence};
use gutenindex::word_map::WordMap;
use std::collections::HashMap;

fn build() -> SearchIndex {
    let mut g: GlobalIndex = WordMap::new();
    g.push(b"cat", (1, vec![0, 5]));
    g.push(b"cat", (2, vec![9]));
    g.push(b"dog", (2, vec![1]));
    g.push("\u{e9}t\u{e9}".as_bytes(), (3, vec![2]));
    let mut lengths = HashMap::new();
    lengths.insert(1usize, 10u32);
    lengths.insert(2usize, 20u32);
    lengths.insert(3usize, 30u32);
    let mut titles = HashMap::new();
    titles.insert(2usize, "Dogs".to_string());
    let files = encode_index(&g, &lengths, &titles, 20.0f32.to_bits());
    let io = IndexIo::open(files.vocab, files.chunks, &files.doclen, files.meta).unwrap();
    assert!(io.is_well_formed());
    SearchIndex::new(io)
}

#[test]
fn search_lowercases_the_word() {
    let idx = build();
    let r = idx.search("CaT").unwrap();
    assert_eq!(r.word, "cat");
    assert_eq!(r.postings.len(), 2);
    assert_eq!(idx.search("\u{c9}T\u{c9}").unwrap().word, "\u{e9}t\u{e9}");
    assert!(idx.search("bird").is_none());
}

#[test]
fn statistics_for_ranking() {
    let idx = build();
    let stats = idx.term_statistics(&["Cat", "bird", "dog"]);
    assert_eq!(stats.len(), 3);
    assert_eq!(
        stats[0],
        Some(vec![
            TermOccurrence { doc_id: 1, term_freq: 2, doc_len: 10 },
            TermOccurrence { doc_id: 2, term_freq: 1, doc_len: 20 },
        ])
    );
    assert_eq!(stats[1], None);
    assert_eq!(stats[2], Some(vec![TermOccurrence { doc_id: 2, term_freq: 1, doc_len: 20 }]));
    assert_eq!(idx.doc_count(), 3);
    assert_eq!(f32::from_bits(idx.avg_doc_len_bits()), 20.0);
}

#[test]
fn titles_and_words() {
    let idx = build();
    assert!(idx.can_read_title(2));
    assert_eq!(idx.doc_title(2), Some("Dogs"));
    assert_eq!(idx.doc_title(1), None);
    assert_eq!(idx.iter_words(), vec!["cat".to_string(), "dog".to_string(), "\u{e9}t\u{e9}".to_string()]);
}

#[test]
fn checked_entry_points() {
    let idx = build();
    assert_eq!(idx.search_checked("Dog").unwrap().unwrap().postings.len(), 1);
    assert!(idx.search_checked("bird").unwrap().is_none());
    let stats = idx.term_statistics_checked(&["cat", "bird"]).unwrap();
    assert_eq!(stats.len(), 2);
    assert!(stats[1].is_none());
    assert_eq!(idx.iter_words(), vec!["cat".to_string(), "dog".to_string(), "\u{e9}t\u{e9}".to_string()]);
}

#[test]
fn checked_search_refuses_a_damaged_index() {
    let mut g: GlobalIndex = WordMap::new();
    g.push(b"cat", (1, vec![0, 5]));
    let files = encode_index(&g, &HashMap::new(), &HashMap::new(), 0);
    let mut chunks = files.chunks.clone();
    chunks[0].truncate(2);
    let io = IndexIo::open(files.vocab, chunks, &files.doclen, files.meta).unwrap();
    let idx = SearchIndex::new(io);
    assert!(idx.search_checked("cat").is_none());
    assert!(idx.term_statistics_checked(&["cat"]).is_none());
    assert!(idx.search_checked("dog").unwrap().is_none());
}
