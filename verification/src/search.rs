//! Word lookup and ranking statistics for queries.

use vstd::prelude::*;
use vstd::string::StringSliceAdditionalSpecFns;
use vstd::utf8::{valid_utf8, decode_utf8};
use crate::index_io::{IndexIo, SearchResult, postings_view};
use crate::index_io::search::{lookup_word, can_lookup, lookup_in_bounds, lookup_result, words_in_bounds, words_readable};
use crate::index_io::format::{postings_of, word_of, title_readable, title_bytes, ReadPostingsView};
use crate::text::utf8_lossy_text;
use crate::text::{to_lowercase, lowercase_text};

verus! {

/// Per posting of a query term: the document, how often the term occurs in
/// it, and its length.
#[derive(Debug, Clone, Copy, PartialEq, Eq, Structural)]
pub struct TermOccurrence {
    pub doc_id: u32,
    pub term_freq: usize,
    pub doc_len: u32,
}

/// The bytes that are looked up for `word`: its lowercase form.
pub open spec fn lower_key(word: Seq<char>) -> Seq<u8> {
    vstd::utf8::encode_utf8(lowercase_text(word))
}

/// The postings of `word` once lowercased, if the search finds it.
pub open spec fn lookup_lower(io: IndexIo, word: Seq<char>) -> Option<ReadPostingsView> {
    match lookup_result(io, lower_key(word)) {
        None => None,
        Some(i) => postings_of(io.vocab_bytes(), io.chunk_bytes(), i),
    }
}

/// The length that the index records for `doc_id`.
pub open spec fn recorded_len(io: IndexIo, doc_id: u32) -> u32 {
    if doc_id < io.doc_lengths_view().len() { io.doc_lengths_view()[doc_id as int] } else { 0 }
}

/// The occurrences in postings `ps`, with each document's recorded length.
pub open spec fn occurrences(io: IndexIo, ps: ReadPostingsView) -> Seq<TermOccurrence> {
    ps.map_values(|p: (u32, Seq<u64>)| TermOccurrence {
        doc_id: p.0,
        term_freq: p.1.len() as usize,
        doc_len: recorded_len(io, p.0),
    })
}

/// Search index over a well-formed index: case-insensitive word lookup,
/// titles, and the statistics that ranking needs.
#[derive(Debug)]
pub struct SearchIndex {
    index: IndexIo,
}

impl SearchIndex {
    /// The index searched.
    pub closed spec fn index(&self) -> IndexIo {
        self.index
    }

    pub fn new(index: IndexIo) -> (s: Self)
        ensures
            s.index() == index,
    {
        SearchIndex { index }
    }

    /// Whether searching `word`, lowercased, reads only what lies within the
    /// index files.
    pub fn can_search(&self, word: &str) -> (b: bool)
        ensures
            b == lookup_in_bounds(self.index(), lower_key(word@)),
    {
        let lower: String = to_lowercase(word);
        can_lookup(&self.index, lower.as_str())
    }

    /// Whether searching each of `terms` reads only what lies within the
    /// index files.
    pub fn can_search_all(&self, terms: &[&str]) -> (b: bool)
        ensures
            b == forall|t: int| 0 <= t < terms@.len() ==> lookup_in_bounds(self.index(), lower_key((#[trigger] terms@[t])@)),
    {
        let mut t: usize = 0;
        while t < terms.len()
            invariant
                t <= terms@.len(),
                forall|u: int| 0 <= u < t ==> lookup_in_bounds(self.index(), lower_key((#[trigger] terms@[u])@)),
            decreases terms@.len() - t,
        {
            if !self.can_search(terms[t]) {
                return false;
            }
            t = t + 1;
        }
        true
    }

    /// The postings of `word` after lowercasing it, or `None` when the
    /// search does not find the lowercased word.
    pub fn search(&self, word: &str) -> (r: Option<SearchResult>)
        requires
            lookup_in_bounds(self.index(), lower_key(word@)),
        ensures
            ({
                let io = self.index();
                match lookup_result(io, lower_key(word@)) {
                    None => r is None,
                    Some(i) => r matches Some(res) && res.word@ == lowercase_text(word@) && postings_view(
                        res.postings@) == postings_of(io.vocab_bytes(), io.chunk_bytes(), i).unwrap(),
                }
            }),
    {
        let lower: String = to_lowercase(word);
        lookup_word(&self.index, lower.as_str())
    }

    /// The search for `word`, or `None` when it would read past the end of
    /// an index file.
    pub fn search_checked(&self, word: &str) -> (r: Option<Option<SearchResult>>)
        ensures
            r is None <==> !lookup_in_bounds(self.index(), lower_key(word@)),
            r matches Some(found) ==> {
                let io = self.index();
                match lookup_result(io, lower_key(word@)) {
                    None => found is None,
                    Some(i) => found matches Some(res) && res.word@ == lowercase_text(word@) && postings_view(
                        res.postings@) == postings_of(io.vocab_bytes(), io.chunk_bytes(), i).unwrap(),
                }
            },
    {
        if !self.can_search(word) {
            return None;
        }
        Some(self.search(word))
    }

    /// The statistics of `terms`, or `None` when looking one of them up
    /// would read past the end of an index file.
    pub fn term_statistics_checked(&self, terms: &[&str]) -> (r: Option<Vec<Option<Vec<TermOccurrence>>>>)
        ensures
            r is None <==> !(forall|t: int| 0 <= t < terms@.len() ==> lookup_in_bounds(self.index(), lower_key((#[trigger] terms@[t])@))),
            r matches Some(stats) ==> {
                &&& stats@.len() == terms@.len()
                &&& forall|t: int| 0 <= t < terms@.len() ==> match lookup_lower(self.index(), (#[trigger] terms@[t])@) {
                    None => stats@[t] is None,
                    Some(ps) => stats@[t] matches Some(occ) && occ@ == occurrences(self.index(), ps),
                }
            },
    {
        if !self.can_search_all(terms) {
            return None;
        }
        Some(self.term_statistics(terms))
    }

    /// For each query term in order: `None` when it is not in the index,
    /// else, per posting of its lowercased form, the document, the term's
    /// frequency in it and the document's length.
    pub fn term_statistics(&self, terms: &[&str]) -> (r: Vec<Option<Vec<TermOccurrence>>>)
        requires
            forall|t: int| 0 <= t < terms@.len() ==> lookup_in_bounds(self.index(), lower_key((#[trigger] terms@[t])@)),
        ensures
            r@.len() == terms@.len(),
            forall|t: int| 0 <= t < terms@.len() ==> match lookup_lower(self.index(), (#[trigger] terms@[t])@) {
                None => r@[t] is None,
                Some(ps) => r@[t] matches Some(occ) && occ@ == occurrences(self.index(), ps),
            },
    {
        let mut r: Vec<Option<Vec<TermOccurrence>>> = Vec::new();
        let mut t: usize = 0;
        while t < terms.len()
            invariant
                forall|t: int| 0 <= t < terms@.len() ==> lookup_in_bounds(self.index(), lower_key((#[trigger] terms@[t])@)),
                t <= terms@.len(),
                r@.len() == t,
                forall|u: int| 0 <= u < t ==> match lookup_lower(self.index(), (#[trigger] terms@[u])@) {
                    None => r@[u] is None,
                    Some(ps) => r@[u] matches Some(occ) && occ@ == occurrences(self.index(), ps),
                },
            decreases terms@.len() - t,
        {
            match self.search(terms[t]) {
                None => {
                    r.push(None);
                },
                Some(result) => {
                    let ghost ps = postings_view(result.postings@);
                    let mut occ: Vec<TermOccurrence> = Vec::new();
                    let mut k: usize = 0;
                    while k < result.postings.len()
                        invariant
                            ps == postings_view(result.postings@),
                            k <= result.postings@.len(),
                            occ@ == occurrences(self.index(), ps).take(k as int),
                        decreases result.postings@.len() - k,
                    {
                        let p = &result.postings[k];
                        occ.push(TermOccurrence {
                            doc_id: p.doc_id,
                            term_freq: p.locations.len(),
                            doc_len: self.index.doc_len(p.doc_id),
                        });
                        assert(occ@ =~= occurrences(self.index(), ps).take(k + 1));
                        k = k + 1;
                    }
                    assert(occ@ =~= occurrences(self.index(), ps));
                    r.push(Some(occ));
                },
            }
            t = t + 1;
        }
        r
    }

    /// The number of indexed documents.
    pub fn doc_count(&self) -> (n: u32)
        ensures
            n == crate::le::le32(self.index().vocab_bytes(), 11),
    {
        self.index.doc_count()
    }

    /// The average document length as the header stores it: its 32 raw bits.
    pub fn avg_doc_len_bits(&self) -> (n: u32)
        ensures
            n == crate::le::le32(self.index().vocab_bytes(), 15),
    {
        self.index.avg_doc_len_bits()
    }

    /// Looking up the title of `doc_id` stays within the metadata file.
    pub fn can_read_title(&self, doc_id: u32) -> (b: bool)
        ensures
            b == title_readable(self.index().meta_bytes(), doc_id as int),
    {
        self.index.can_read_title(doc_id)
    }

    /// The title of `doc_id`, as `IndexIo::doc_title` gives it.
    pub fn doc_title(&self, doc_id: u32) -> (r: Option<&str>)
        requires
            title_readable(self.index().meta_bytes(), doc_id as int),
        ensures
            match title_bytes(self.index().meta_bytes(), doc_id as int) {
                None => r is None,
                Some(b) => (r is Some <==> vstd::utf8::valid_utf8(b))
                    && (r matches Some(s) ==> s@ == vstd::utf8::decode_utf8(b)),
            },
    {
        self.index.doc_title(doc_id)
    }

    /// Whether every word of the index lies within the vocabulary file.
    pub fn can_list_words(&self) -> (b: bool)
        ensures
            b == words_in_bounds(self.index().vocab_bytes(), self.index().spec_word_count()),
    {
        words_readable(&self.index)
    }

    /// All words of the index, in the order stored, invalid UTF-8 replaced.
    pub fn iter_words(&self) -> (r: Vec<String>)
        requires
            words_in_bounds(self.index().vocab_bytes(), self.index().spec_word_count()),
        ensures
            r@.len() == self.index().spec_word_count(),
            forall|i: int| 0 <= i < r@.len() ==> (#[trigger] r@[i])@
                == utf8_lossy_text(word_of(self.index().vocab_bytes(), i)),
            forall|i: int| 0 <= i < r@.len() && valid_utf8(word_of(self.index().vocab_bytes(), i)) ==> (#[trigger] r@[i])@
                == decode_utf8(word_of(self.index().vocab_bytes(), i)),
    {
        crate::index_io::search::all_words(&self.index)
    }
}

} // verus!
