//! The index: writing it as bytes and reading it back.

pub mod format;
pub mod search;
pub mod laws;
pub mod tables;

use vstd::prelude::*;
use std::collections::HashMap;
use crate::word_map::WordMap;
use self::tables::{encode_doc_lengths, encode_titles, doclen_image, meta_image, title_byte_map, max_key};
use crate::le::{push_u32, push_u64, push_u16, lemma_u32_bytes_mod, le16, le32, read_u16_at, read_u32_at, read_u64_at};
use crate::text::{utf8_str, utf8_lossy, utf8_lossy_text};
use self::format::{
    PostingListView, VocabEntry, MAGIC, VERSION, CHUNK_COUNT, HEADER_SIZE, VOCAB_ENTRY_SIZE,
    locs_image, posting_image, plist_image, chunk_image, words_image, written_entry, entries_image,
    entry_image, header_image, vocab_image, vocab_size, lemma_words_image_len_mono,
    lemma_entries_image_len, ReadPostingsView, doc_lengths_of, meta_max_id, meta_lengths_base,
    meta_strings_base, title_readable, title_bytes, entry_in_bounds, entry_at, word_in_bounds, word_of,
    postings_of, parse_plist, parse_locs, vocab_wf, vocab_words, posting_fits,
};

verus! {

broadcast use crate::le::group_le_lens;

/// Every word of the corpus with, per document that holds it, the document id
/// and the word's positions in it.
pub type GlobalIndex = WordMap<(usize, Vec<usize>)>;

/// A posting list of the global index, with its position lists as sequences.
pub open spec fn list_view(l: Seq<(usize, Vec<usize>)>) -> PostingListView {
    l.map_values(|p: (usize, Vec<usize>)| (p.0, p.1@))
}

/// The posting lists of `g`, in the order of its words.
pub open spec fn global_lists(g: &GlobalIndex) -> Seq<PostingListView> {
    g.lists().map_values(|l: Seq<(usize, Vec<usize>)>| list_view(l))
}

fn append_locs(buf: &mut Vec<u8>, locs: &Vec<usize>)
    ensures
        final(buf)@ == old(buf)@ + locs_image(locs@),
{
    let n: usize = locs.len();
    let mut i: usize = 0;
    while i < n
        invariant
            n == locs@.len(),
            i <= n,
            buf@ == old(buf)@ + locs_image(locs@.take(i as int)),
        decreases n - i,
    {
        assert(locs@.take(i + 1).drop_last() =~= locs@.take(i as int));
        push_u64(buf, locs[i] as u64);
        assert(buf@ =~= old(buf)@ + locs_image(locs@.take(i + 1)));
        i = i + 1;
    }
    assert(locs@.take(n as int) =~= locs@);
}

fn append_plist(buf: &mut Vec<u8>, list: &Vec<(usize, Vec<usize>)>)
    ensures
        final(buf)@ == old(buf)@ + plist_image(list_view(list@)),
{
    let n: usize = list.len();
    let mut i: usize = 0;
    while i < n
        invariant
            n == list@.len(),
            i <= n,
            buf@ == old(buf)@ + plist_image(list_view(list@.take(i as int))),
        decreases n - i,
    {
        let doc: usize = list[i].0;
        let locs: &Vec<usize> = &list[i].1;
        assert(list_view(list@.take(i + 1)).drop_last() =~= list_view(list@.take(i as int)));
        assert(list_view(list@.take(i + 1)).last() == (doc, locs@));
        let ghost before = buf@;
        push_u32(buf, (doc as u64 % 0x1_0000_0000) as u32);
        push_u32(buf, (locs.len() as u64 % 0x1_0000_0000) as u32);
        append_locs(buf, locs);
        proof {
            lemma_u32_bytes_mod(doc as int);
            lemma_u32_bytes_mod(locs@.len() as int);
        }
        assert(buf@ =~= before + posting_image((doc, locs@)));
        assert(buf@ =~= old(buf)@ + plist_image(list_view(list@.take(i + 1))));
        i = i + 1;
    }
    assert(list@.take(n as int) =~= list@);
}

/// Builds the vocabulary file and the chunk files of `g`: a header, one
/// entry per word in increasing word order, the words' bytes; word `i`'s
/// postings go to chunk `i % 8`.
pub fn encode_vocab_and_chunks(g: &GlobalIndex, doc_count: u32, avg_bits: u32) -> (r: (Vec<u8>, Vec<Vec<u8>>))
    requires
        vocab_size(g.keys()) <= usize::MAX,
    ensures
        r.0@ == vocab_image(g.keys(), global_lists(g), doc_count as int, avg_bits as int),
        r.1@.len() == CHUNK_COUNT as int,
        forall|c: int| 0 <= c < CHUNK_COUNT ==> (#[trigger] r.1@[c])@ == chunk_image(
            global_lists(g), c, g.keys().len() as int),
{
    proof { use_type_invariant(g); }
    let ghost words = g.keys();
    let ghost lists = global_lists(g);
    let n: usize = g.len();
    proof {
        lemma_words_image_len_mono(words, 0, n as int);
    }
    let mut vocab: Vec<u8> = Vec::new();
    push_u32(&mut vocab, MAGIC);
    push_u16(&mut vocab, VERSION);
    push_u32(&mut vocab, (n as u64 % 0x1_0000_0000) as u32);
    vocab.push(CHUNK_COUNT);
    push_u32(&mut vocab, doc_count);
    push_u32(&mut vocab, avg_bits);
    proof {
        lemma_u32_bytes_mod(n as int);
    }
    assert(vocab@ =~= header_image(n as int, doc_count as int, avg_bits as int));
    let mut chunks: Vec<Vec<u8>> = Vec::new();
    let mut c: usize = 0;
    while c < CHUNK_COUNT as usize
        invariant
            c <= CHUNK_COUNT,
            chunks@.len() == c,
            forall|j: int| 0 <= j < c ==> (#[trigger] chunks@[j])@ == Seq::<u8>::empty(),
        decreases CHUNK_COUNT - c,
    {
        chunks.push(Vec::new());
        c = c + 1;
    }
    let words_start: u64 = (HEADER_SIZE + VOCAB_ENTRY_SIZE * n) as u64;
    let mut word_offset: u64 = words_start;
    let mut i: usize = 0;
    while i < n
        invariant
            g.wf(),
            n == words.len(),
            words == g.keys(),
            lists == global_lists(g),
            vocab_size(words) <= usize::MAX,
            i <= n,
            words_start == HEADER_SIZE + VOCAB_ENTRY_SIZE * n,
            word_offset == words_start + words_image(words, i as int).len(),
            vocab@ == header_image(n as int, doc_count as int, avg_bits as int) + entries_image(words, lists, i as int),
            chunks@.len() == CHUNK_COUNT as int,
            forall|j: int| 0 <= j < CHUNK_COUNT ==> (#[trigger] chunks@[j])@ == chunk_image(lists, j, i as int),
        decreases n - i,
    {
        let key: &[u8] = g.key_at(i);
        let list: &Vec<(usize, Vec<usize>)> = g.list_at(i);
        assert(list_view(list@) == lists[i as int]);
        let cid: usize = i % (CHUNK_COUNT as usize);
        let posting_offset: u64 = chunks[cid].len() as u64;
        let entry = VocabEntry {
            word_offset,
            word_len: (key.len() as u64 % 0x1_0000_0000) as u32,
            posting_count: (list.len() as u64 % 0x1_0000_0000) as u32,
            chunk_id: cid as u8,
            posting_offset,
        };
        assert(entry == written_entry(words, lists, i as int));
        push_entry(&mut vocab, &entry);
        append_plist(&mut chunks[cid], list);
        proof {
            lemma_words_image_len_mono(words, i + 1, n as int);
            assert forall|j: int| 0 <= j < CHUNK_COUNT implies (#[trigger] chunks@[j])@ == chunk_image(lists, j, i + 1) by {
            }
        }
        word_offset = word_offset + key.len() as u64;
        i = i + 1;
    }
    let mut k: usize = 0;
    let ghost before = vocab@;
    while k < n
        invariant
            g.wf(),
            n == words.len(),
            words == g.keys(),
            k <= n,
            vocab@ == before + words_image(words, k as int),
        decreases n - k,
    {
        let key: &[u8] = g.key_at(k);
        let mut j: usize = 0;
        let ghost mid = vocab@;
        while j < key.len()
            invariant
                j <= key@.len(),
                vocab@ == mid + key@.take(j as int),
            decreases key@.len() - j,
        {
            vocab.push(key[j]);
            assert(key@.take(j + 1) =~= key@.take(j as int).push(key@[j as int]));
            j = j + 1;
        }
        assert(key@.take(j as int) =~= key@);
        k = k + 1;
    }
    (vocab, chunks)
}

fn push_entry(buf: &mut Vec<u8>, e: &VocabEntry)
    ensures
        final(buf)@ == old(buf)@ + entry_image(*e),
{
    push_u64(buf, e.word_offset);
    push_u32(buf, e.word_len);
    push_u32(buf, e.posting_count);
    buf.push(e.chunk_id);
    push_u64(buf, e.posting_offset);
    assert(final(buf)@ =~= old(buf)@ + entry_image(*e));
}

} // verus!

verus! {

/// One posting as read back: a document and the positions of the word in it.
#[derive(Debug, Clone)]
pub struct Posting {
    pub doc_id: u32,
    pub locations: Vec<u64>,
}

/// A word and its postings.
#[derive(Debug, Clone)]
pub struct SearchResult {
    pub word: String,
    pub postings: Vec<Posting>,
}

/// The postings as (document id, positions) pairs.
pub open spec fn postings_view(ps: Seq<Posting>) -> ReadPostingsView {
    ps.map_values(|p: Posting| (p.doc_id, p.locations@))
}

/// Why the vocabulary header was refused.
#[derive(Debug, Clone, Copy, PartialEq, Eq, Structural)]
pub enum OpenError {
    /// The vocabulary file is shorter than its header.
    VocabTooSmall,
    /// The file does not start with the magic number; the number found.
    InvalidMagic(u32),
    /// The format version is not the one this reader knows; the version found.
    UnsupportedVersion(u16),
}

/// The fields of the vocabulary header.
#[derive(Debug, Clone, Copy, PartialEq, Eq, Structural)]
pub struct IndexHeader {
    pub word_count: u32,
    pub chunk_count: u8,
    pub doc_count: u32,
    pub avg_doc_len_bits: u32,
}

/// The header checks of the reader: size, then magic, then version.
pub open spec fn header_result(v: Seq<u8>) -> Result<IndexHeader, OpenError> {
    if v.len() < HEADER_SIZE {
        Err(OpenError::VocabTooSmall)
    } else if le32(v, 0) != MAGIC {
        Err(OpenError::InvalidMagic(le32(v, 0) as u32))
    } else if le16(v, 4) != VERSION {
        Err(OpenError::UnsupportedVersion(le16(v, 4) as u16))
    } else {
        Ok(IndexHeader {
            word_count: le32(v, 6) as u32,
            chunk_count: v[10],
            doc_count: le32(v, 11) as u32,
            avg_doc_len_bits: le32(v, 15) as u32,
        })
    }
}

/// Checks the vocabulary header and reads its fields.
pub fn parse_vocab_header(vocab: &[u8]) -> (r: Result<IndexHeader, OpenError>)
    ensures
        r == header_result(vocab@),
{
    if vocab.len() < HEADER_SIZE {
        return Err(OpenError::VocabTooSmall);
    }
    let magic: u32 = read_u32_at(vocab, 0);
    if magic != MAGIC {
        return Err(OpenError::InvalidMagic(magic));
    }
    let version: u16 = read_u16_at(vocab, 4);
    if version != VERSION {
        return Err(OpenError::UnsupportedVersion(version));
    }
    Ok(IndexHeader {
        word_count: read_u32_at(vocab, 6),
        chunk_count: vocab[10],
        doc_count: read_u32_at(vocab, 11),
        avg_doc_len_bits: read_u32_at(vocab, 15),
    })
}

/// Reads the document-length file: one little-endian `u32` per whole group
/// of four bytes, a shorter tail being ignored.
pub fn decode_doc_lengths(bytes: &[u8]) -> (r: Vec<u32>)
    ensures
        r@ == doc_lengths_of(bytes@),
{
    let n: usize = bytes.len() / 4;
    let mut r: Vec<u32> = Vec::new();
    let mut i: usize = 0;
    while i < n
        invariant
            n == bytes@.len() / 4,
            bytes@.len() <= usize::MAX,
            i <= n,
            r@ == doc_lengths_of(bytes@).take(i as int),
        decreases n - i,
    {
        r.push(read_u32_at(bytes, 4 * i));
        assert(r@ =~= doc_lengths_of(bytes@).take(i + 1));
        i = i + 1;
    }
    assert(r@ =~= doc_lengths_of(bytes@));
    r
}

/// An index held in memory: the vocabulary, the posting chunks, the
/// document lengths and the titles.
#[derive(Debug)]
pub struct IndexIo {
    vocab: Vec<u8>,
    chunks: Vec<Vec<u8>>,
    meta: Vec<u8>,
    meta_max_doc_id: u32,
    meta_lengths_base: u64,
    meta_strings_base: u64,
    word_count: usize,
    doc_count: u32,
    avg_doc_len_bits: u32,
    doc_lengths: Vec<u32>,
}

impl IndexIo {
    /// The vocabulary file's bytes.
    pub closed spec fn vocab_bytes(&self) -> Seq<u8> {
        self.vocab@
    }

    /// The chunk files' bytes.
    pub closed spec fn chunk_bytes(&self) -> Seq<Seq<u8>> {
        self.chunks@.map_values(|c: Vec<u8>| c@)
    }

    /// The metadata file's bytes.
    pub closed spec fn meta_bytes(&self) -> Seq<u8> {
        self.meta@
    }

    /// The document lengths, indexed by document id.
    pub closed spec fn doc_lengths_view(&self) -> Seq<u32> {
        self.doc_lengths@
    }

    /// The fields agree with the header and the metadata file they were read from.
    #[verifier::type_invariant]
    closed spec fn inv(&self) -> bool {
        &&& header_result(self.vocab@) is Ok
        &&& self.word_count == le32(self.vocab@, 6)
        &&& self.chunks@.len() == self.vocab@[10]
        &&& self.doc_count == le32(self.vocab@, 11)
        &&& self.avg_doc_len_bits == le32(self.vocab@, 15)
        &&& self.meta@.len() >= 4
        &&& self.meta_max_doc_id == meta_max_id(self.meta@)
        &&& self.meta_lengths_base == meta_lengths_base(self.meta@)
        &&& self.meta_strings_base == meta_strings_base(self.meta@)
    }

    /// The number of words in the vocabulary, as the header states it.
    pub open spec fn spec_word_count(&self) -> nat {
        le32(self.vocab_bytes(), 6) as nat
    }

    /// Builds the index from the bytes of its files: the vocabulary, the
    /// chunks that its header counts, the document lengths and the titles.
    pub fn open(vocab: Vec<u8>, chunks: Vec<Vec<u8>>, doclen: &[u8], meta: Vec<u8>) -> (r: Result<IndexIo, OpenError>)
        requires
            header_result(vocab@) matches Ok(h) ==> chunks@.len() == h.chunk_count,
            header_result(vocab@) is Ok ==> meta@.len() >= 4,
        ensures
            r matches Err(e) ==> header_result(vocab@) == Err::<IndexHeader, OpenError>(e),
            r matches Ok(io) ==> {
                &&& header_result(vocab@) is Ok
                &&& io.vocab_bytes() == vocab@
                &&& io.chunk_bytes() == chunks@.map_values(|c: Vec<u8>| c@)
                &&& io.meta_bytes() == meta@
                &&& io.doc_lengths_view() == doc_lengths_of(doclen@)
            },
    {
        let header = parse_vocab_header(vocab.as_slice());
        match header {
            Err(e) => Err(e),
            Ok(h) => {
                let doc_lengths: Vec<u32> = decode_doc_lengths(doclen);
                let meta_max_doc_id: u32 = read_u32_at(meta.as_slice(), 0);
                let n: u64 = meta_max_doc_id as u64 + 1;
                let meta_lengths_base: u64 = 4 + n * 4;
                let meta_strings_base: u64 = meta_lengths_base + n * 2;
                Ok(IndexIo {
                    vocab,
                    chunks,
                    meta,
                    meta_max_doc_id,
                    meta_lengths_base,
                    meta_strings_base,
                    word_count: h.word_count as usize,
                    doc_count: h.doc_count,
                    avg_doc_len_bits: h.avg_doc_len_bits,
                    doc_lengths,
                })
            },
        }
    }

    /// The number of words in the vocabulary.
    pub fn word_count(&self) -> (n: usize)
        ensures
            n == self.spec_word_count(),
    {
        proof { use_type_invariant(self); }
        self.word_count
    }

    /// The number of indexed documents, as the header states it.
    pub fn doc_count(&self) -> (n: u32)
        ensures
            n == le32(self.vocab_bytes(), 11),
    {
        proof { use_type_invariant(self); }
        self.doc_count
    }

    /// The average document length as the header stores it: its 32 raw bits.
    pub fn avg_doc_len_bits(&self) -> (n: u32)
        ensures
            n == le32(self.vocab_bytes(), 15),
    {
        proof { use_type_invariant(self); }
        self.avg_doc_len_bits
    }

    /// The length of document `doc_id`, or 0 when the file has none for it.
    pub fn doc_len(&self, doc_id: u32) -> (n: u32)
        ensures
            n == (if doc_id < self.doc_lengths_view().len() { self.doc_lengths_view()[doc_id as int] } else { 0 }),
    {
        if (doc_id as usize) < self.doc_lengths.len() {
            self.doc_lengths[doc_id as usize]
        } else {
            0
        }
    }

    /// Looking up the title of `doc_id` stays within the metadata file.
    pub fn can_read_title(&self, doc_id: u32) -> (b: bool)
        ensures
            b == title_readable(self.meta_bytes(), doc_id as int),
    {
        proof { use_type_invariant(self); }
        if doc_id > self.meta_max_doc_id {
            return true;
        }
        let m: u64 = self.meta.len() as u64;
        let i: u64 = doc_id as u64;
        if 4 + 4 * i + 4 > m || self.meta_lengths_base + 2 * i + 2 > m {
            return false;
        }
        let offset: u32 = read_u32_at(self.meta.as_slice(), (4 + 4 * i) as usize);
        let length: u16 = read_u16_at(self.meta.as_slice(), (self.meta_lengths_base + 2 * i) as usize);
        length == 0 || self.meta_strings_base + offset as u64 + length as u64 <= m
    }

    /// The title of `doc_id`: none for an id past the largest one, for an
    /// empty title, or for a title that is not UTF-8.
    pub fn doc_title(&self, doc_id: u32) -> (r: Option<&str>)
        requires
            title_readable(self.meta_bytes(), doc_id as int),
        ensures
            match title_bytes(self.meta_bytes(), doc_id as int) {
                None => r is None,
                Some(b) => (r is Some <==> vstd::utf8::valid_utf8(b))
                    && (r matches Some(s) ==> s@ == vstd::utf8::decode_utf8(b)),
            },
    {
        proof { use_type_invariant(self); }
        if doc_id > self.meta_max_doc_id {
            return None;
        }
        proof { assert(self.meta.len() == self.meta@.len()); }
        let i: u64 = doc_id as u64;
        let offset: u32 = read_u32_at(self.meta.as_slice(), (4 + 4 * i) as usize);
        let length: u16 = read_u16_at(self.meta.as_slice(), (self.meta_lengths_base + 2 * i) as usize);
        if length == 0 {
            return None;
        }
        let start: usize = (self.meta_strings_base + offset as u64) as usize;
        let end: usize = start + length as usize;
        let bytes: &[u8] = vstd::slice::slice_subrange(self.meta.as_slice(), start, end);
        utf8_str(bytes)
    }

    /// Vocabulary entry `idx`.
    pub fn get_vocab_entry(&self, idx: usize) -> (e: VocabEntry)
        requires
            entry_in_bounds(self.vocab_bytes(), idx as int),
        ensures
            e == entry_at(self.vocab_bytes(), idx as int),
    {
        let d: &[u8] = self.vocab.as_slice();
        proof { assert(vstd::slice::spec_slice_len(d) == d@.len()); }
        let start: usize = HEADER_SIZE + idx * VOCAB_ENTRY_SIZE;
        VocabEntry {
            word_offset: read_u64_at(d, start),
            word_len: read_u32_at(d, start + 8),
            posting_count: read_u32_at(d, start + 12),
            chunk_id: d[start + 16],
            posting_offset: read_u64_at(d, start + 17),
        }
    }

    /// The bytes of word `idx`.
    pub fn get_word_bytes(&self, idx: usize) -> (w: &[u8])
        requires
            word_in_bounds(self.vocab_bytes(), idx as int),
        ensures
            w@ == word_of(self.vocab_bytes(), idx as int),
    {
        let entry: VocabEntry = self.get_vocab_entry(idx);
        proof { assert(self.vocab.len() == self.vocab@.len()); }
        let start: usize = entry.word_offset as usize;
        vstd::slice::slice_subrange(self.vocab.as_slice(), start, start + entry.word_len as usize)
    }

    /// Word `idx` as text, invalid UTF-8 replaced.
    pub fn get_word(&self, idx: usize) -> (w: String)
        requires
            word_in_bounds(self.vocab_bytes(), idx as int),
        ensures
            w@ == utf8_lossy_text(word_of(self.vocab_bytes(), idx as int)),
            vstd::utf8::valid_utf8(word_of(self.vocab_bytes(), idx as int)) ==> w@
                == vstd::utf8::decode_utf8(word_of(self.vocab_bytes(), idx as int)),
    {
        utf8_lossy(self.get_word_bytes(idx))
    }

    /// The vocabulary and its chunks can be searched (see `vocab_wf`).
    pub open spec fn well_formed(&self) -> bool {
        vocab_wf(self.vocab_bytes(), self.chunk_bytes(), self.spec_word_count())
    }

    /// Checks every vocabulary entry: its bytes, its word and its postings lie
    /// within their files, the words are UTF-8 and strictly increasing.
    pub fn is_well_formed(&self) -> (b: bool)
        ensures
            b == self.well_formed(),
    {
        proof { use_type_invariant(self); }
        let n: usize = self.word_count;
        let ghost v = self.vocab_bytes();
        let ghost cs = self.chunk_bytes();
        let vocab_len: usize = self.vocab.len();
        let mut i: usize = 0;
        while i < n
            invariant
                n == self.spec_word_count(),
                v == self.vocab_bytes(),
                cs == self.chunk_bytes(),
                vocab_len == v.len(),
                i <= n,
                forall|j: int| 0 <= j < i ==> #[trigger] word_in_bounds(v, j),
                forall|j: int| 0 <= j < i ==> (#[trigger] postings_of(v, cs, j)) is Some,
                forall|j: int| 0 <= j < i ==> vstd::utf8::valid_utf8(#[trigger] word_of(v, j)),
                forall|j: int| 0 <= j < i - 1 ==> crate::lex::lex_lt(#[trigger] word_of(v, j), word_of(v, j + 1)),
            decreases n - i,
        {
            if vocab_len < HEADER_SIZE || (vocab_len - HEADER_SIZE) / VOCAB_ENTRY_SIZE < i + 1 {
                proof {
                    assert(!entry_in_bounds(v, i as int)) by (nonlinear_arith)
                        requires
                            v.len() == vocab_len,
                            vocab_len < HEADER_SIZE || (vocab_len - HEADER_SIZE) / (VOCAB_ENTRY_SIZE as int) < i + 1,
                    ;
                    assert(!word_in_bounds(v, i as int));
                }
                return false;
            }
            proof {
                assert(entry_in_bounds(v, i as int)) by (nonlinear_arith)
                    requires
                        v.len() == vocab_len,
                        vocab_len >= HEADER_SIZE,
                        (vocab_len - HEADER_SIZE) / (VOCAB_ENTRY_SIZE as int) >= i + 1,
                ;
            }
            let e: VocabEntry = self.get_vocab_entry(i);
            if e.word_offset > vocab_len as u64 || (e.word_len as u64) > vocab_len as u64 - e.word_offset {
                assert(!word_in_bounds(v, i as int));
                return false;
            }
            if e.chunk_id as usize >= self.chunks.len() {
                assert(postings_of(v, cs, i as int) is None);
                return false;
            }
            assert(cs[e.chunk_id as int] == self.chunks@[e.chunk_id as int]@);
            if !plist_parses(self.chunks[e.chunk_id as usize].as_slice(), e.posting_offset, e.posting_count) {
                assert(postings_of(v, cs, i as int) is None);
                return false;
            }
            let w: &[u8] = self.get_word_bytes(i);
            if utf8_str(w).is_none() {
                return false;
            }
            if i > 0 {
                let prev: &[u8] = self.get_word_bytes(i - 1);
                let c = crate::lex::compare_bytes(prev, w);
                if c != crate::lex::Order3::Less {
                    proof {
                        let ws = vocab_words(v, n as nat);
                        assert(ws[i - 1] == word_of(v, i - 1) && ws[i as int] == word_of(v, i as int));
                    }
                    return false;
                }
            }
            i = i + 1;
        }
        proof {
            let ws = vocab_words(v, n as nat);
            assert forall|j: int| 0 <= j < ws.len() - 1 implies crate::lex::lex_lt(#[trigger] ws[j], ws[j + 1]) by {
                assert(ws[j] == word_of(v, j) && ws[j + 1] == word_of(v, j + 1));
            }
            crate::lex::lemma_sorted_from_adjacent(ws);
        }
        true
    }

    /// The bytes of word `i` lie within the vocabulary file.
    pub fn word_readable(&self, i: usize) -> (b: bool)
        ensures
            b == word_in_bounds(self.vocab_bytes(), i as int),
    {
        let ghost v = self.vocab_bytes();
        let vocab_len: usize = self.vocab.len();
        if vocab_len < HEADER_SIZE || (vocab_len - HEADER_SIZE) / VOCAB_ENTRY_SIZE <= i {
            proof {
                assert(!entry_in_bounds(v, i as int)) by (nonlinear_arith)
                    requires
                        v.len() == vocab_len,
                        vocab_len < HEADER_SIZE || (vocab_len - HEADER_SIZE) / (VOCAB_ENTRY_SIZE as int) <= i,
                ;
            }
            return false;
        }
        proof {
            assert(entry_in_bounds(v, i as int)) by (nonlinear_arith)
                requires
                    v.len() == vocab_len,
                    vocab_len >= HEADER_SIZE,
                    (vocab_len - HEADER_SIZE) / (VOCAB_ENTRY_SIZE as int) > i,
            ;
        }
        let e: VocabEntry = self.get_vocab_entry(i);
        !(e.word_offset > vocab_len as u64 || (e.word_len as u64) > vocab_len as u64 - e.word_offset)
    }

    /// The postings of word `i` lie within their chunk.
    pub fn postings_readable(&self, i: usize) -> (b: bool)
        requires
            entry_in_bounds(self.vocab_bytes(), i as int),
        ensures
            b == postings_of(self.vocab_bytes(), self.chunk_bytes(), i as int) is Some,
    {
        let ghost v = self.vocab_bytes();
        let ghost cs = self.chunk_bytes();
        let e: VocabEntry = self.get_vocab_entry(i);
        if e.chunk_id as usize >= self.chunks.len() {
            return false;
        }
        assert(cs[e.chunk_id as int] == self.chunks@[e.chunk_id as int]@);
        plist_parses(self.chunks[e.chunk_id as usize].as_slice(), e.posting_offset, e.posting_count)
    }

    /// Turns the index into one that answers word lookups.
    pub fn into_search_index(self) -> (s: search::SearchIndex)
        ensures
            s.index() == self,
    {
        search::SearchIndex::new(self)
    }

    /// The postings of word `idx`.
    pub fn read_postings(&self, idx: usize) -> (r: Vec<Posting>)
        requires
            entry_in_bounds(self.vocab_bytes(), idx as int),
            postings_of(self.vocab_bytes(), self.chunk_bytes(), idx as int) is Some,
        ensures
            postings_view(r@) == postings_of(self.vocab_bytes(), self.chunk_bytes(), idx as int)->0,
    {
        let entry: VocabEntry = self.get_vocab_entry(idx);
        let ghost v = self.vocab_bytes();
        let ghost cs = self.chunk_bytes();
        assert(cs[entry.chunk_id as int] == self.chunks@[entry.chunk_id as int]@);
        let chunk: &[u8] = self.chunks[entry.chunk_id as usize].as_slice();
        let ghost s = chunk@;
        proof { assert(vstd::slice::spec_slice_len(chunk) == chunk@.len()); }
        let count: u32 = entry.posting_count;
        let ghost off0 = entry.posting_offset as int;
        proof { if count > 0 { lemma_parse_plist_bounds(s, off0, count as nat); } }
        let mut offset: usize = if count == 0 { 0 } else { entry.posting_offset as usize };
        let mut postings: Vec<Posting> = Vec::new();
        let mut j: u32 = 0;
        while j < count
            invariant
                s == chunk@,
                s.len() <= usize::MAX,
                j <= count,
                parse_plist(s, off0, count as nat) is Some,
                j > 0 ==> parse_plist(s, off0, j as nat) == Some((postings_view(postings@), offset as int)),
                j == 0 ==> postings@.len() == 0 && (count > 0 ==> offset == off0),
            decreases count - j,
        {
            proof {
                lemma_parse_plist_prefix(s, off0, (j + 1) as nat, count as nat);
                if j == 0 { assert(parse_plist(s, off0, 0) == Some((Seq::<(u32, Seq<u64>)>::empty(), off0))); }
                assert(postings_view(postings@) =~= parse_plist(s, off0, j as nat).unwrap().0) by {
                    if j == 0 { assert(postings_view(postings@) =~= Seq::<(u32, Seq<u64>)>::empty()); }
                }
            }
            let doc_id: u32 = read_u32_at(chunk, offset);
            let loc_count: usize = read_u32_at(chunk, offset + 4) as usize;
            offset = offset + 8;
            let mut locations: Vec<u64> = Vec::new();
            let mut k: usize = 0;
            while k < loc_count
                invariant
                    s == chunk@,
                    s.len() <= usize::MAX,
                    k <= loc_count,
                    offset + 8 * loc_count <= s.len(),
                    locations@ == parse_locs(s, offset as int, loc_count as int).take(k as int),
                decreases loc_count - k,
            {
                assert(8 * k + 8 <= 8 * loc_count) by (nonlinear_arith)
                    requires
                        k < loc_count,
                ;
                locations.push(read_u64_at(chunk, offset + 8 * k));
                assert(locations@ =~= parse_locs(s, offset as int, loc_count as int).take(k + 1));
                k = k + 1;
            }
            assert(locations@ =~= parse_locs(s, offset as int, loc_count as int));
            let ghost prev = postings_view(postings@);
            postings.push(Posting { doc_id, locations });
            assert(postings_view(postings@) =~= prev.push((doc_id, locations@)));
            offset = offset + 8 * loc_count;
            j = j + 1;
        }
        proof {
            if count == 0 {
                assert(postings_view(postings@) =~= Seq::<(u32, Seq<u64>)>::empty());
            }
        }
        postings
    }
}

/// Checks that `count` postings stored from `off` on lie within `s`.
fn plist_parses(s: &[u8], off: u64, count: u32) -> (b: bool)
    ensures
        b == parse_plist(s@, off as int, count as nat) is Some,
{
    let slen: usize = s.len();
    let len: u64 = slen as u64;
    let mut e: u64 = off;
    let mut j: u32 = 0;
    while j < count
        invariant
            len == s@.len(),
            len <= usize::MAX,
            j <= count,
            parse_plist(s@, off as int, j as nat) is Some,
            parse_plist(s@, off as int, j as nat).unwrap().1 == e,
        decreases count - j,
    {
        if e > len || len - e < 8 {
            proof {
                assert(!posting_fits(s@, e as int));
                assert(parse_plist(s@, off as int, (j + 1) as nat) is None);
                lemma_parse_plist_none_extends(s@, off as int, (j + 1) as nat, count as nat);
            }
            return false;
        }
        let n: u64 = read_u32_at(s, e as usize + 4) as u64;
        if (len - e - 8) / 8 < n {
            proof {
                assert(e + 8 + 8 * n > len) by (nonlinear_arith)
                    requires
                        e + 8 <= len,
                        (len - e - 8) / 8 < n,
                ;
                assert(!posting_fits(s@, e as int));
                assert(parse_plist(s@, off as int, (j + 1) as nat) is None);
                lemma_parse_plist_none_extends(s@, off as int, (j + 1) as nat, count as nat);
            }
            return false;
        }
        proof {
            assert(e + 8 + 8 * n <= len) by (nonlinear_arith)
                requires
                    e + 8 <= len,
                    (len - e - 8) / 8 >= n,
            ;
        }
        e = e + 8 + 8 * n;
        j = j + 1;
    }
    true
}

/// A parse that fails for some number of postings fails for every more.
proof fn lemma_parse_plist_none_extends(s: Seq<u8>, off: int, j: nat, count: nat)
    requires
        j <= count,
        parse_plist(s, off, j) is None,
    ensures
        parse_plist(s, off, count) is None,
    decreases count - j,
{
    if j < count {
        lemma_parse_plist_none_extends(s, off, j + 1, count);
    }
}

/// A parse that succeeds for `count` postings succeeds for every fewer.
proof fn lemma_parse_plist_prefix(s: Seq<u8>, off: int, j: nat, count: nat)
    requires
        j <= count,
        parse_plist(s, off, count) is Some,
    ensures
        parse_plist(s, off, j) is Some,
    decreases count - j,
{
    if j < count {
        lemma_parse_plist_prefix(s, off, j + 1, count);
    }
}

/// A parse of at least one posting starts within `s`.
proof fn lemma_parse_plist_bounds(s: Seq<u8>, off: int, count: nat)
    requires
        count > 0,
        parse_plist(s, off, count) is Some,
    ensures
        0 <= off <= s.len(),
    decreases count,
{
    reveal_with_fuel(parse_plist, 2);
    if count > 1 {
        lemma_parse_plist_bounds(s, off, (count - 1) as nat);
    }
}

} // verus!

verus! {

/// The bytes of the four kinds of index files.
pub struct IndexFiles {
    /// The vocabulary file.
    pub vocab: Vec<u8>,
    /// The posting chunk files, in chunk order.
    pub chunks: Vec<Vec<u8>>,
    /// The document-length file.
    pub doclen: Vec<u8>,
    /// The metadata (titles) file.
    pub meta: Vec<u8>,
}

/// Builds the bytes of all index files: the words of `global_index` with
/// their postings, the document count and the given average document length
/// (as raw bits) in the header, the document lengths and the titles.
pub fn encode_index(
    global_index: &GlobalIndex,
    doc_lengths: &HashMap<usize, u32>,
    titles: &HashMap<usize, String>,
    avg_doc_len_bits: u32,
) -> (r: IndexFiles)
    requires
        vocab_size(global_index.keys()) <= usize::MAX,
        forall|k: usize| #[trigger] titles@.contains_key(k) ==> k <= u32::MAX,
    ensures
        r.vocab@ == vocab_image(
            global_index.keys(),
            global_lists(global_index),
            doc_lengths@.len() as int % 0x1_0000_0000,
            avg_doc_len_bits as int,
        ),
        r.chunks@.len() == CHUNK_COUNT,
        forall|c: int| 0 <= c < CHUNK_COUNT ==> (#[trigger] r.chunks@[c])@ == chunk_image(
            global_lists(global_index), c, global_index.keys().len() as int),
        r.doclen@ == doclen_image(doc_lengths@, max_key(doc_lengths@) + 1),
        r.meta@ == meta_image(title_byte_map(titles@), max_key(titles@) as int),
{
    let doc_count: u32 = (doc_lengths.len() as u64 % 0x1_0000_0000) as u32;
    let (vocab, chunks) = encode_vocab_and_chunks(global_index, doc_count, avg_doc_len_bits);
    let doclen: Vec<u8> = encode_doc_lengths(doc_lengths);
    let meta: Vec<u8> = encode_titles(titles);
    IndexFiles { vocab, chunks, doclen, meta }
}

/// Whether the vocabulary file of `g` can be held in memory: its size is at
/// most `usize::MAX` bytes.
pub fn vocab_fits(g: &GlobalIndex) -> (b: bool)
    ensures
        b == (vocab_size(g.keys()) <= usize::MAX),
{
    proof { use_type_invariant(g); }
    let ghost words = g.keys();
    let n: usize = g.len();
    let mut total: u128 = HEADER_SIZE as u128 + VOCAB_ENTRY_SIZE as u128 * n as u128;
    if total > usize::MAX as u128 {
        proof { lemma_words_image_len_mono(words, 0, n as int); }
        return false;
    }
    let mut i: usize = 0;
    while i < n
        invariant
            words == g.keys(),
            n == words.len(),
            i <= n,
            total == HEADER_SIZE + VOCAB_ENTRY_SIZE * n + words_image(words, i as int).len(),
            total <= usize::MAX,
        decreases n - i,
    {
        let l: usize = g.key_at(i).len();
        total = total + l as u128;
        assert(words_image(words, i + 1) == words_image(words, i as int) + words[i as int]);
        if total > usize::MAX as u128 {
            proof { lemma_words_image_len_mono(words, i + 1, n as int); }
            return false;
        }
        i = i + 1;
    }
    true
}

} // verus!
