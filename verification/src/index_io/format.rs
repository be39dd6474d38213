//! The binary index format, stated as byte images (what the writer
//! produces) and as parsers (what the reader reads back).
//!
//! Vocabulary file: a 19-byte header (magic, version, word count, chunk
//! count, document count, average document length), then one 25-byte entry
//! per word (word offset, word length, posting count, chunk id, posting
//! offset), then the words' bytes. Chunk files: for each word, its postings
//! (document id, location count, locations). Document-length file: one
//! `u32` per document id. Metadata file: the largest document id, then an
//! offset and a length per document id, then the titles' bytes.

use vstd::prelude::*;
use crate::le::{le16, le32, le64, u16_bytes, u32_bytes, u64_bytes};

verus! {

broadcast use crate::le::group_le_lens;

pub const MAGIC: u32 = 0x49584442;
pub const VERSION: u16 = 3;
pub const CHUNK_COUNT: u8 = 8;
pub const HEADER_SIZE: usize = 19;
pub const VOCAB_ENTRY_SIZE: usize = 25;

/// One vocabulary entry: where a word's bytes and its postings are.
#[derive(Debug, Clone, Copy, PartialEq, Eq, Structural)]
pub struct VocabEntry {
    pub word_offset: u64,
    pub word_len: u32,
    pub posting_count: u32,
    pub chunk_id: u8,
    pub posting_offset: u64,
}

/// A posting list as the writer takes it: document ids with word positions.
pub type PostingListView = Seq<(usize, Seq<usize>)>;

/// A posting list as the reader gives it back.
pub type ReadPostingsView = Seq<(u32, Seq<u64>)>;

// ----------------------------------------------------------------------
// Images: the bytes the writer produces.
// ----------------------------------------------------------------------

/// The 19-byte vocabulary header.
pub open spec fn header_image(word_count: int, doc_count: int, avg_bits: int) -> Seq<u8> {
    u32_bytes(MAGIC as int) + u16_bytes(VERSION as int) + u32_bytes(word_count) + seq![CHUNK_COUNT]
        + u32_bytes(doc_count) + u32_bytes(avg_bits)
}

/// The 25 bytes of one vocabulary entry.
pub open spec fn entry_image(e: VocabEntry) -> Seq<u8> {
    u64_bytes(e.word_offset as int) + u32_bytes(e.word_len as int) + u32_bytes(e.posting_count as int)
        + seq![e.chunk_id] + u64_bytes(e.posting_offset as int)
}

/// The bytes of a list of locations.
pub open spec fn locs_image(locs: Seq<usize>) -> Seq<u8>
    decreases locs.len(),
{
    if locs.len() == 0 {
        seq![]
    } else {
        locs_image(locs.drop_last()) + u64_bytes(locs.last() as int)
    }
}

/// The bytes of one posting: document id, location count, locations.
pub open spec fn posting_image(p: (usize, Seq<usize>)) -> Seq<u8> {
    u32_bytes(p.0 as int) + u32_bytes(p.1.len() as int) + locs_image(p.1)
}

/// The bytes of a posting list.
pub open spec fn plist_image(pl: PostingListView) -> Seq<u8>
    decreases pl.len(),
{
    if pl.len() == 0 {
        seq![]
    } else {
        plist_image(pl.drop_last()) + posting_image(pl.last())
    }
}

/// The bytes of chunk `c` after the posting lists of the first `k` words
/// have been written; word `i` goes to chunk `i % 8`.
pub open spec fn chunk_image(lists: Seq<PostingListView>, c: int, k: int) -> Seq<u8>
    decreases k,
{
    if k <= 0 {
        seq![]
    } else if (k - 1) % (CHUNK_COUNT as int) == c {
        chunk_image(lists, c, k - 1) + plist_image(lists[k - 1])
    } else {
        chunk_image(lists, c, k - 1)
    }
}

/// The concatenated bytes of the first `k` words.
pub open spec fn words_image(words: Seq<Seq<u8>>, k: int) -> Seq<u8>
    decreases k,
{
    if k <= 0 {
        seq![]
    } else {
        words_image(words, k - 1) + words[k - 1]
    }
}

/// The vocabulary entry that the writer gives word `i`.
pub open spec fn written_entry(words: Seq<Seq<u8>>, lists: Seq<PostingListView>, i: int) -> VocabEntry {
    VocabEntry {
        word_offset: (HEADER_SIZE + VOCAB_ENTRY_SIZE * words.len() + words_image(words, i).len()) as u64,
        word_len: (words[i].len() % 0x1_0000_0000) as u32,
        posting_count: (lists[i].len() % 0x1_0000_0000) as u32,
        chunk_id: (i % (CHUNK_COUNT as int)) as u8,
        posting_offset: chunk_image(lists, i % (CHUNK_COUNT as int), i).len() as u64,
    }
}

/// The bytes of the first `k` vocabulary entries.
pub open spec fn entries_image(words: Seq<Seq<u8>>, lists: Seq<PostingListView>, k: int) -> Seq<u8>
    decreases k,
{
    if k <= 0 {
        seq![]
    } else {
        entries_image(words, lists, k - 1) + entry_image(written_entry(words, lists, k - 1))
    }
}

/// The whole vocabulary file.
pub open spec fn vocab_image(words: Seq<Seq<u8>>, lists: Seq<PostingListView>, doc_count: int, avg_bits: int) -> Seq<u8> {
    header_image(words.len() as int, doc_count, avg_bits) + entries_image(words, lists, words.len() as int)
        + words_image(words, words.len() as int)
}

/// The size of the vocabulary file for these words.
pub open spec fn vocab_size(words: Seq<Seq<u8>>) -> int {
    HEADER_SIZE + VOCAB_ENTRY_SIZE * words.len() + words_image(words, words.len() as int).len()
}

// ----------------------------------------------------------------------
// Parsers: what the reader reads.
// ----------------------------------------------------------------------

/// The vocabulary entry `i` as stored in `v`.
pub open spec fn entry_at(v: Seq<u8>, i: int) -> VocabEntry {
    let s = HEADER_SIZE + VOCAB_ENTRY_SIZE * i;
    VocabEntry {
        word_offset: le64(v, s) as u64,
        word_len: le32(v, s + 8) as u32,
        posting_count: le32(v, s + 12) as u32,
        chunk_id: v[s + 16],
        posting_offset: le64(v, s + 17) as u64,
    }
}

/// The `n` locations stored from `o` on.
pub open spec fn parse_locs(s: Seq<u8>, o: int, n: int) -> Seq<u64> {
    Seq::new(n as nat, |k: int| le64(s, o + 8 * k) as u64)
}

/// A posting stored at `e` lies within `s`.
pub open spec fn posting_fits(s: Seq<u8>, e: int) -> bool {
    &&& 0 <= e
    &&& e + 8 <= s.len()
    &&& e + 8 + 8 * le32(s, e + 4) <= s.len()
}

/// Reads `count` postings from `off` on: the postings and the offset after
/// them, or `None` when they run past the end of `s`.
pub open spec fn parse_plist(s: Seq<u8>, off: int, count: nat) -> Option<(ReadPostingsView, int)>
    decreases count,
{
    if count == 0 {
        Some((seq![], off))
    } else {
        match parse_plist(s, off, (count - 1) as nat) {
            Some((ps, e)) => if posting_fits(s, e) {
                let n = le32(s, e + 4);
                Some((ps.push((le32(s, e) as u32, parse_locs(s, e + 8, n))), e + 8 + 8 * n))
            } else {
                None
            },
            None => None,
        }
    }
}

/// What the reader gives back of a posting list the writer took:
/// document ids and positions as stored, in 32 and 64 bits.
pub open spec fn stored_postings(pl: PostingListView) -> ReadPostingsView {
    pl.map_values(|p: (usize, Seq<usize>)| ((p.0 as int % 0x1_0000_0000) as u32, p.1.map_values(|l: usize| l as u64)))
}

} // verus!

verus! {

// ----------------------------------------------------------------------
// Lemmas on the images.
// ----------------------------------------------------------------------

pub proof fn lemma_words_image_len_mono(words: Seq<Seq<u8>>, i: int, k: int)
    requires
        0 <= i <= k,
    ensures
        words_image(words, i).len() <= words_image(words, k).len(),
    decreases k,
{
    if i < k {
        lemma_words_image_len_mono(words, i, k - 1);
    }
}

/// `words_image(words, i) + words[i]` is a prefix of `words_image(words, k)` for `i < k`.
pub proof fn lemma_words_image_prefix(words: Seq<Seq<u8>>, i: int, k: int)
    requires
        0 <= i < k,
    ensures
        words_image(words, k).len() >= words_image(words, i).len() + words[i].len(),
        words_image(words, k).subrange(0, (words_image(words, i).len() + words[i].len()) as int)
            == words_image(words, i) + words[i],
    decreases k,
{
    if i < k - 1 {
        lemma_words_image_prefix(words, i, k - 1);
        let p = words_image(words, k - 1);
        let q = words_image(words, i) + words[i];
        assert(words_image(words, k).subrange(0, q.len() as int) =~= p.subrange(0, q.len() as int));
    } else {
        assert(words_image(words, k).subrange(0, words_image(words, k).len() as int) =~= words_image(words, k));
    }
}

pub proof fn lemma_entries_image_len(words: Seq<Seq<u8>>, lists: Seq<PostingListView>, k: int)
    requires
        0 <= k,
    ensures
        entries_image(words, lists, k).len() == VOCAB_ENTRY_SIZE * k,
    decreases k,
{
    if k > 0 {
        lemma_entries_image_len(words, lists, k - 1);
    }
}

} // verus!

verus! {

// ----------------------------------------------------------------------
// The reader's view of a vocabulary and its chunks.
// ----------------------------------------------------------------------

/// Entry `i` lies within the vocabulary bytes.
pub open spec fn entry_in_bounds(v: Seq<u8>, i: int) -> bool {
    0 <= i && HEADER_SIZE + VOCAB_ENTRY_SIZE * (i + 1) <= v.len()
}

/// The bytes of word `i` lie within the vocabulary bytes.
pub open spec fn word_in_bounds(v: Seq<u8>, i: int) -> bool {
    &&& entry_in_bounds(v, i)
    &&& entry_at(v, i).word_offset + entry_at(v, i).word_len <= v.len()
}

/// The bytes of word `i`.
pub open spec fn word_of(v: Seq<u8>, i: int) -> Seq<u8> {
    let e = entry_at(v, i);
    v.subrange(e.word_offset as int, e.word_offset + e.word_len)
}

/// The first `n` words of the vocabulary.
pub open spec fn vocab_words(v: Seq<u8>, n: nat) -> Seq<Seq<u8>> {
    Seq::new(n, |i: int| word_of(v, i))
}

/// The postings of word `i`, if they lie within its chunk.
pub open spec fn postings_of(v: Seq<u8>, chunks: Seq<Seq<u8>>, i: int) -> Option<ReadPostingsView> {
    let e = entry_at(v, i);
    if (e.chunk_id as int) < chunks.len() {
        match parse_plist(chunks[e.chunk_id as int], e.posting_offset as int, e.posting_count as nat) {
            Some((ps, _)) => Some(ps),
            None => None,
        }
    } else {
        None
    }
}

/// The vocabulary of `n` words and its chunks can be searched: every entry,
/// word and posting list lies within its file, every word is UTF-8, and the
/// words are strictly increasing.
pub open spec fn vocab_wf(v: Seq<u8>, chunks: Seq<Seq<u8>>, n: nat) -> bool {
    &&& forall|i: int| 0 <= i < n ==> #[trigger] word_in_bounds(v, i)
    &&& forall|i: int| 0 <= i < n ==> (#[trigger] postings_of(v, chunks, i)) is Some
    &&& forall|i: int| 0 <= i < n ==> vstd::utf8::valid_utf8(#[trigger] word_of(v, i))
    &&& crate::lex::strictly_sorted(vocab_words(v, n))
}

} // verus!

verus! {

// ----------------------------------------------------------------------
// Document lengths and titles.
// ----------------------------------------------------------------------

/// The document lengths stored in the document-length file: one `u32` per
/// whole group of four bytes.
pub open spec fn doc_lengths_of(d: Seq<u8>) -> Seq<u32> {
    Seq::new(d.len() / 4, |i: int| le32(d, 4 * i) as u32)
}

/// The largest document id that the metadata file has a slot for.
pub open spec fn meta_max_id(m: Seq<u8>) -> int {
    le32(m, 0)
}

/// Where the title lengths start in the metadata file.
pub open spec fn meta_lengths_base(m: Seq<u8>) -> int {
    4 + 4 * (meta_max_id(m) + 1)
}

/// Where the title bytes start in the metadata file.
pub open spec fn meta_strings_base(m: Seq<u8>) -> int {
    meta_lengths_base(m) + 2 * (meta_max_id(m) + 1)
}

/// The stored offset of the title of `d`.
pub open spec fn title_offset(m: Seq<u8>, d: int) -> int {
    le32(m, 4 + 4 * d)
}

/// The stored length of the title of `d`.
pub open spec fn title_len(m: Seq<u8>, d: int) -> int {
    le16(m, meta_lengths_base(m) + 2 * d)
}

/// Looking up the title of `d` stays within the metadata file.
pub open spec fn title_readable(m: Seq<u8>, d: int) -> bool {
    ||| d > meta_max_id(m)
    ||| {
        &&& 0 <= d
        &&& 4 + 4 * d + 4 <= m.len()
        &&& meta_lengths_base(m) + 2 * d + 2 <= m.len()
        &&& (title_len(m, d) == 0 || meta_strings_base(m) + title_offset(m, d) + title_len(m, d) <= m.len())
    }
}

/// The stored title bytes of `d`: none for an id past the largest one or for
/// an empty title.
pub open spec fn title_bytes(m: Seq<u8>, d: int) -> Option<Seq<u8>> {
    if d > meta_max_id(m) || title_len(m, d) == 0 {
        None
    } else {
        let s = meta_strings_base(m) + title_offset(m, d);
        Some(m.subrange(s, s + title_len(m, d)))
    }
}

} // verus!
