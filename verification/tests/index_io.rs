use gutenindex::index_io::search::SearchIndex as WordSearch;
use gutenindex::index_io::format::VocabEntry;
use gutenindex::index_io::tables::{encode_doc_lengths, encode_titles, max_doc_id, total_doc_words};
use gutenindex::index_io::{
    decode_doc_lengths, encode_index, encode_vocab_and_chunks, parse_vocab_header, GlobalIndex, IndexFiles,
    IndexHeader, IndexIo, OpenError,
};
use gutenindex::word_map::WordMap;
use std::collections::HashMap;

fn sample_index() -> GlobalIndex {
    let mut g: GlobalIndex = WordMap::new();
    g.push(b"rust", (7, vec![3, 9]));
    g.push(b"hello", (7, vec![0]));
    g.push(b"hello", (12, vec![5, 6, 70000000000]));
    g.push(b"zebra", (1, vec![]));
    g
}

fn sample_files() -> IndexFiles {
    let g = sample_index();
    let mut lengths = HashMap::new();
    lengths.insert(7usize, 40u32);
    lengths.insert(12usize, 2u32);
    let mut titles = HashMap::new();
    titles.insert(7usize, "Seven".to_string());
    titles.insert(12usize, "Twelve & <more>".to_string());
    titles.insert(3usize, String::new());
    encode_index(&g, &lengths, &titles, 21.0f32.to_bits())
}

fn open(files: IndexFiles) -> IndexIo {
    IndexIo::open(files.vocab, files.chunks, &files.doclen, files.meta).unwrap()
}

#[test]
fn header_of_written_vocab() {
    let files = sample_files();
    let h = parse_vocab_header(&files.vocab).unwrap();
    assert_eq!(
        h,
        IndexHeader { word_count: 3, chunk_count: 8, doc_count: 2, avg_doc_len_bits: 21.0f32.to_bits() }
    );
    assert_eq!(&files.vocab[0..4], &[0x42, 0x44, 0x58, 0x49]);
    assert_eq!(files.vocab.len(), 19 + 3 * 25 + "hello".len() + "rust".len() + "zebra".len());
    assert_eq!(files.chunks.len(), 8);
}

#[test]
fn vocab_entries_point_at_words_and_postings() {
    let io = open(sample_files());
    assert_eq!(io.word_count(), 3);
    let e0 = io.get_vocab_entry(0);
    assert_eq!(
        e0,
        VocabEntry { word_offset: 19 + 75, word_len: 5, posting_count: 2, chunk_id: 0, posting_offset: 0 }
    );
    let e2 = io.get_vocab_entry(2);
    assert_eq!(e2.word_offset, 19 + 75 + 9);
    assert_eq!(e2.chunk_id, 2);
    assert_eq!(io.get_word(1), "rust");
    assert_eq!(io.get_word_bytes(2), b"zebra");
}

#[test]
fn written_postings_read_back() {
    let io = open(sample_files());
    assert!(io.is_well_formed());
    let ps = io.read_postings(0);
    assert_eq!(ps.len(), 2);
    assert_eq!(ps[0].doc_id, 7);
    assert_eq!(ps[0].locations, vec![0]);
    assert_eq!(ps[1].doc_id, 12);
    assert_eq!(ps[1].locations, vec![5, 6, 70000000000]);
    let zebra = io.read_postings(2);
    assert_eq!(zebra[0].doc_id, 1);
    assert!(zebra[0].locations.is_empty());
}

#[test]
fn search_after_write() {
    let search = open(sample_files()).into_search_index();
    let r = search.search("hello").unwrap();
    assert_eq!(r.word, "hello");
    assert_eq!(r.postings.len(), 2);
    assert_eq!(r.postings[1].locations, vec![5, 6, 70000000000]);
    let r = search.search("rust").unwrap();
    assert_eq!(r.postings[0].doc_id, 7);
    assert_eq!(r.postings[0].locations, vec![3, 9]);
    assert!(search.search("Hello").is_none());
    assert!(search.search("hell").is_none());
    assert!(search.search("").is_none());
    assert!(search.search("zzz").is_none());
    assert_eq!(search.iter_words(), vec!["hello".to_string(), "rust".to_string(), "zebra".to_string()]);
}

#[test]
fn doc_lengths_read_back() {
    let io = open(sample_files());
    assert_eq!(io.doc_len(7), 40);
    assert_eq!(io.doc_len(12), 2);
    assert_eq!(io.doc_len(0), 0);
    assert_eq!(io.doc_len(13), 0);
    assert_eq!(io.doc_count(), 2);
    assert_eq!(f32::from_bits(io.avg_doc_len_bits()), 21.0);
}

#[test]
fn titles_read_back() {
    let io = open(sample_files());
    assert!(io.can_read_title(7));
    assert_eq!(io.doc_title(7), Some("Seven"));
    assert_eq!(io.doc_title(12), Some("Twelve & <more>"));
    assert_eq!(io.doc_title(3), None);
    assert_eq!(io.doc_title(8), None);
    assert_eq!(io.doc_title(13), None);
    assert_eq!(io.doc_title(4000000000), None);
}

#[test]
fn doc_length_file_layout() {
    let mut lengths = HashMap::new();
    lengths.insert(2usize, 0x01020304u32);
    let bytes = encode_doc_lengths(&lengths);
    assert_eq!(bytes, vec![0, 0, 0, 0, 0, 0, 0, 0, 4, 3, 2, 1]);
    assert_eq!(decode_doc_lengths(&bytes), vec![0, 0, 0x01020304]);
    assert_eq!(decode_doc_lengths(&[1, 0, 0, 0, 9]), vec![1]);
    let empty: HashMap<usize, u32> = HashMap::new();
    assert_eq!(encode_doc_lengths(&empty), vec![0, 0, 0, 0]);
}

#[test]
fn totals_and_maximum_ids() {
    let mut lengths = HashMap::new();
    lengths.insert(5usize, u32::MAX);
    lengths.insert(9usize, u32::MAX);
    lengths.insert(0usize, 1);
    assert_eq!(total_doc_words(&lengths), 2 * (u32::MAX as u128) + 1);
    assert_eq!(max_doc_id(&lengths), 9);
    let empty: HashMap<usize, u32> = HashMap::new();
    assert_eq!(max_doc_id(&empty), 0);
    assert_eq!(total_doc_words(&empty), 0);
}

#[test]
fn metadata_file_layout() {
    let mut titles = HashMap::new();
    titles.insert(1usize, "ab".to_string());
    titles.insert(0usize, "c".to_string());
    let meta = encode_titles(&titles);
    assert_eq!(
        meta,
        vec![1, 0, 0, 0, 0, 0, 0, 0, 1, 0, 0, 0, 1, 0, 2, 0, b'c', b'a', b'b']
    );
}

#[test]
fn open_refuses_bad_headers() {
    assert_eq!(parse_vocab_header(&[1, 2, 3]), Err(OpenError::VocabTooSmall));
    let mut v = sample_files().vocab;
    v[0] = 0;
    assert_eq!(parse_vocab_header(&v), Err(OpenError::InvalidMagic(0x49584400)));
    let mut v = sample_files().vocab;
    v[4] = 2;
    assert_eq!(parse_vocab_header(&v), Err(OpenError::UnsupportedVersion(2)));
    let r = IndexIo::open(vec![0u8; 3], vec![], &[], vec![0, 0, 0, 0]);
    assert!(matches!(r, Err(OpenError::VocabTooSmall)));
}

#[test]
fn malformed_index_is_not_well_formed() {
    let files = sample_files();
    let mut chunks = files.chunks.clone();
    chunks[0].truncate(3);
    let io = IndexIo::open(files.vocab, chunks, &files.doclen, files.meta).unwrap();
    assert!(!io.is_well_formed());

    let mut g: GlobalIndex = WordMap::new();
    g.push(&[0xff, 0xfe], (1, vec![1]));
    let (vocab, chunks) = encode_vocab_and_chunks(&g, 1, 0);
    let io = IndexIo::open(vocab, chunks, &[], vec![0, 0, 0, 0]).unwrap();
    assert!(!io.is_well_formed());
}

#[test]
fn unreadable_titles_are_reported() {
    // largest id 1, but the file stops after the offsets
    let io = IndexIo::open(sample_files().vocab, sample_files().chunks, &[], vec![1, 0, 0, 0, 0, 0, 0, 0]).unwrap();
    assert!(!io.can_read_title(0));
    assert!(io.can_read_title(2));
}

#[test]
fn small_vocabularies_fit() {
    assert!(gutenindex::index_io::vocab_fits(&sample_index()));
    let empty: GlobalIndex = WordMap::new();
    assert!(gutenindex::index_io::vocab_fits(&empty));
}

#[test]
fn vocab_entries_read_back_as_written() {
    // words in order: hello, rust, zebra; chunks 0, 1, 2
    let io = open(sample_files());
    let e = io.get_vocab_entry(1);
    assert_eq!(e.word_offset, (19 + 25 * 3 + "hello".len()) as u64);
    assert_eq!(e.word_len, 4);
    assert_eq!(e.posting_count, 1);
    assert_eq!(e.chunk_id, 1);
    assert_eq!(e.posting_offset, 0);
    let e = io.get_vocab_entry(0);
    assert_eq!(e.word_offset, (19 + 25 * 3) as u64);
    assert_eq!(e.posting_count, 2);
    assert_eq!(e.chunk_id, 0);
}

#[test]
fn entries_of_the_same_chunk_follow_each_other() {
    let mut g: GlobalIndex = WordMap::new();
    for i in 0..10u8 {
        let w = [b'a' + i];
        g.push(&w, (1, vec![0, 1]));
    }
    let (vocab, chunks) = encode_vocab_and_chunks(&g, 1, 0);
    let io = IndexIo::open(vocab, chunks, &[], vec![0, 0, 0, 0]).unwrap();
    // word 8 shares chunk 0 with word 0, whose one posting takes 8 + 8 * 2 bytes
    let e = io.get_vocab_entry(8);
    assert_eq!(e.chunk_id, 0);
    assert_eq!(e.posting_offset, 24);
    assert_eq!(e.word_offset, (19 + 25 * 10 + 8) as u64);
}

#[test]
fn search_on_a_damaged_index() {
    // postings cut short: the search for a word in that chunk would read past its end
    let files = sample_files();
    let mut chunks = files.chunks.clone();
    chunks[0].truncate(3);
    let idx = WordSearch::new(IndexIo::open(files.vocab, chunks, &files.doclen, files.meta).unwrap());
    assert!(!idx.can_search("hello"));
    assert!(idx.can_search("rust"));
    assert_eq!(idx.search("rust").unwrap().postings.len(), 1);

    // a word that is not UTF-8 stops the search
    let mut g: GlobalIndex = WordMap::new();
    g.push(&[0xff, 0xfe], (1, vec![1]));
    let (vocab, chunks) = encode_vocab_and_chunks(&g, 1, 0);
    let idx = WordSearch::new(IndexIo::open(vocab, chunks, &[], vec![0, 0, 0, 0]).unwrap());
    assert!(idx.can_search("x"));
    assert!(idx.search("x").is_none());
    assert!(idx.can_list_words());
    assert_eq!(idx.iter_words(), vec!["\u{fffd}\u{fffd}".to_string()]);
}
