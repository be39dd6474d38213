//! Turning documents into the global index.

use vstd::prelude::*;
use crate::word_map::WordMap;
use crate::index_io::{GlobalIndex, list_view};
use crate::index_io::format::{PostingListView, vocab_image, postings_of, stored_postings};
use crate::index_io::laws::{fits_format, written_chunks, law_lookup_reads_back};
use crate::index_io::search::find_word;
use crate::index_io::global_lists;
use crate::text::{file_stem, path_file_stem};
use crate::indexer::{index, document_length, add_tokens, tokens_from, word_starts, law_word_count};
use crate::gutenberg::{
    read_header_from_reader, header_lines_valid, lines_read, field_value, line_start, encoding_prefix, title_prefix,
    ascii_name, contains, HeaderError, MAX_HEADER_LINES,
};
use crate::word_map::total_len;
use std::collections::HashMap;

verus! {

broadcast use vstd::string::axiom_spec_iter, vstd::std_specs::hash::group_hash_axioms;

/// The list of books to index.
#[derive(Debug, Clone)]
pub struct IndexerInput {
    pub files: Vec<String>,
}

/// Why a file path names no document id.
#[derive(Debug, Clone, PartialEq, Eq)]
pub enum DocIdError {
    /// The path has no file name.
    InvalidFilename,
    /// The file name (without extension) is not a number; the name.
    NotANumber(String),
}

/// A decimal digit.
pub open spec fn is_digit(c: char) -> bool {
    '0' <= c <= '9'
}

/// The value of the decimal digits `d`.
pub open spec fn digits_value(d: Seq<char>) -> int
    decreases d.len(),
{
    if d.len() == 0 {
        0
    } else {
        digits_value(d.drop_last()) * 10 + (d.last() as int - '0' as int)
    }
}

/// The digits part of `s`: without its leading `+`.
pub open spec fn digits_part(s: Seq<char>) -> Seq<char> {
    if s.len() > 0 && s[0] == '+' { s.drop_first() } else { s }
}

/// What parsing `s` as a `usize` gives: an optional `+`, then at least one
/// decimal digit and nothing else, with a value that fits.
pub open spec fn parse_usize(s: Seq<char>) -> Option<usize> {
    let d = digits_part(s);
    if d.len() > 0 && (forall|i: int| 0 <= i < d.len() ==> is_digit(#[trigger] d[i])) && digits_value(d) <= usize::MAX {
        Some(digits_value(d) as usize)
    } else {
        None
    }
}

proof fn lemma_digits_value_mono(d: Seq<char>, k: int)
    requires
        0 <= k <= d.len(),
        forall|i: int| 0 <= i < d.len() ==> is_digit(#[trigger] d[i]),
    ensures
        0 <= digits_value(d.take(k)) <= digits_value(d),
    decreases d.len() - k,
{
    if k < d.len() {
        lemma_digits_value_mono(d, k + 1);
        assert(d.take(k + 1).drop_last() =~= d.take(k));
    } else {
        assert(d.take(k) =~= d);
        lemma_digits_value_nonneg(d);
    }
}

proof fn lemma_digits_value_nonneg(d: Seq<char>)
    requires
        forall|i: int| 0 <= i < d.len() ==> is_digit(#[trigger] d[i]),
    ensures
        0 <= digits_value(d),
    decreases d.len(),
{
    if d.len() > 0 {
        lemma_digits_value_nonneg(d.drop_last());
    }
}

proof fn lemma_parse_none_at(s: Seq<char>, k: int)
    requires
        0 <= k < digits_part(s).len(),
        !is_digit(digits_part(s)[k]),
    ensures
        parse_usize(s) is None,
{
}

proof fn lemma_parse_none_big(s: Seq<char>, k: int)
    requires
        0 <= k <= digits_part(s).len(),
        digits_value(digits_part(s).take(k)) > usize::MAX,
    ensures
        parse_usize(s) is None,
{
    let d = digits_part(s);
    if forall|i: int| 0 <= i < d.len() ==> is_digit(#[trigger] d[i]) {
        lemma_digits_value_mono(d, k);
    }
}

/// Parsing the decimal numeral of any `usize` gives it back.
pub proof fn law_parse_decimal_numeral(n: usize)
    ensures
        parse_usize(crate::web::decimal_text(n as nat)) == Some(n),
{
    crate::web::law_decimal_text(n as nat);
    let t = crate::web::decimal_text(n as nat);
    assert(is_digit(t[0]));
    assert(digits_part(t) == t);
}

/// Parses `s` as a `usize` in decimal, as `str::parse::<usize>` does.
pub fn parse_decimal(s: &str) -> (r: Option<usize>)
    ensures
        r == parse_usize(s@),
{
    let ghost cs = s@;
    let ghost d = digits_part(cs);
    let mut value: usize = 0;
    let ghost mut seen: int = 0;
    let mut any_digit: bool = false;
    let mut first: bool = true;
    let mut plus: bool = false;
    let mut ok: bool = true;
    for c in it: s.chars()
        invariant
            it.seq() == cs,
            first <==> it.index() == 0,
            first ==> ok,
            plus <==> (it.index() > 0 && cs[0] == '+'),
            d == digits_part(cs),
            ok ==> seen == it.index() - (if plus { 1int } else { 0int }),
            any_digit <==> seen > 0,
            0 <= seen,
            ok ==> forall|i: int| 0 <= i < seen ==> is_digit(#[trigger] d[i]),
            ok ==> value == digits_value(d.take(seen)),
            !ok ==> parse_usize(cs) is None,
    {
        assert(c == cs[it.index() as int]);
        if !ok {
        } else if first && c == '+' {
            plus = true;
        } else if c < '0' || c > '9' {
            proof {
                assert(seen < d.len());
                assert(d[seen] == c);
                assert(!is_digit(d[seen]));
                lemma_parse_none_at(cs, seen);
            }
            ok = false;
        } else {
            let digit: usize = (c as u32 - '0' as u32) as usize;
            assert(d.take(seen + 1).drop_last() =~= d.take(seen));
            match value.checked_mul(10) {
                Some(v10) => match v10.checked_add(digit) {
                    Some(v) => {
                        value = v;
                    },
                    None => {
                        proof {
                            assert forall|i: int| 0 <= i < seen + 1 implies is_digit(#[trigger] d.take(seen + 1)[i]) by {}
                            assert(d.take(seen + 1).last() == c);
                            assert(digits_value(d.take(seen + 1)) == value * 10 + digit);
                            lemma_parse_none_big(cs, seen + 1);
                        }
                        ok = false;
                    },
                },
                None => {
                    proof {
                        assert(d.take(seen + 1).last() == c);
                        assert(digits_value(d.take(seen + 1)) == value * 10 + digit);
                        lemma_digits_value_nonneg(d.take(seen));
                        lemma_parse_none_big(cs, seen + 1);
                    }
                    ok = false;
                },
            }
            proof { seen = seen + 1; }
            any_digit = true;
        }
        first = false;
    }
    if !ok || !any_digit {
        return None;
    }
    assert(d.take(seen) =~= d);
    Some(value)
}

/// The document id that a book's file path names: its file name without
/// extension, read as a decimal number.
pub fn extract_doc_id(file_path: &str) -> (r: Result<usize, DocIdError>)
    ensures
        match path_file_stem(file_path@) {
            None => r == Err::<usize, DocIdError>(DocIdError::InvalidFilename),
            Some(stem) => match parse_usize(stem) {
                Some(id) => r == Ok::<usize, DocIdError>(id),
                None => r matches Err(DocIdError::NotANumber(name)) && name@ == stem,
            },
        },
{
    match file_stem(file_path) {
        None => Err(DocIdError::InvalidFilename),
        Some(stem) => match parse_decimal(stem.as_str()) {
            Some(id) => Ok(id),
            None => Err(DocIdError::NotANumber(stem)),
        },
    }
}

} // verus!

verus! {

/// The global index as a map from words to posting lists.
pub open spec fn global_view(g: &GlobalIndex) -> Map<Seq<u8>, PostingListView> {
    g.as_map().map_values(|l: Seq<(usize, Vec<usize>)>| list_view(l))
}

/// `g` after document `doc_id`, with words and positions `doc`, is added:
/// each of its words gets one more posting.
pub open spec fn merge_document(
    g: Map<Seq<u8>, PostingListView>,
    doc_id: usize,
    doc: Map<Seq<u8>, Seq<usize>>,
) -> Map<Seq<u8>, PostingListView> {
    Map::new(
        |w: Seq<u8>| g.contains_key(w) || doc.contains_key(w),
        |w: Seq<u8>|
            (if g.contains_key(w) { g[w] } else { seq![] }) + (if doc.contains_key(w) {
                seq![(doc_id, doc[w])]
            } else {
                seq![]
            }),
    )
}

fn copy_positions(v: &Vec<usize>) -> (r: Vec<usize>)
    ensures
        r@ == v@,
{
    let mut r: Vec<usize> = Vec::new();
    let mut i: usize = 0;
    while i < v.len()
        invariant
            i <= v@.len(),
            r@ == v@.take(i as int),
        decreases v@.len() - i,
    {
        r.push(v[i]);
        assert(r@ =~= v@.take(i + 1));
        i = i + 1;
    }
    assert(v@.take(i as int) =~= v@);
    r
}

/// Adds document `doc_id` to the global index: each word of `doc` gets the
/// posting of this document with the word's positions.
pub fn add_document(global_index: &mut GlobalIndex, doc_id: usize, doc: &WordMap<usize>)
    ensures
        global_view(final(global_index)) == merge_document(global_view(old(global_index)), doc_id, doc.as_map()),
{
    proof {
        use_type_invariant(&*global_index);
        use_type_invariant(doc);
    }
    let ghost g0 = global_view(global_index);
    let n: usize = doc.len();
    let mut i: usize = 0;
    proof { doc.lemma_as_map_keys(); }
    assert(merge_document(g0, doc_id, Map::empty()) =~= g0);
    while i < n
        invariant
            doc.wf(),
            n == doc.keys().len(),
            i <= n,
            global_view(global_index) == merge_document(
                g0,
                doc_id,
                Map::new(|w: Seq<u8>| doc.keys().take(i as int).contains(w), |w: Seq<u8>| doc.as_map()[w]),
            ),
        decreases n - i,
    {
        let key: &[u8] = doc.key_at(i);
        let locs: Vec<usize> = copy_positions(doc.list_at(i));
        let ghost before = global_view(global_index);
        let ghost old_map = global_index.as_map();
        let ghost p_i = Map::new(|w: Seq<u8>| doc.keys().take(i as int).contains(w), |w: Seq<u8>| doc.as_map()[w]);
        let ghost p_next = Map::new(|w: Seq<u8>| doc.keys().take(i + 1).contains(w), |w: Seq<u8>| doc.as_map()[w]);
        proof {
            doc.lemma_index_of(i as int);
            assert(!doc.keys().take(i as int).contains(key@)) by {
                if doc.keys().take(i as int).contains(key@) {
                    let j = doc.keys().take(i as int).index_of(key@);
                    assert(doc.keys()[j] == key@);
                    assert(crate::lex::lex_lt(doc.keys()[j], doc.keys()[i as int]));
                    crate::lex::lemma_lex_irreflexive(key@);
                }
            }
            assert forall|w: Seq<u8>| #[trigger] doc.keys().take(i + 1).contains(w) <==> (
                doc.keys().take(i as int).contains(w) || w == key@) by {
                if doc.keys().take(i + 1).contains(w) {
                    let j = doc.keys().take(i + 1).index_of(w);
                    if j < i {
                        assert(doc.keys().take(i as int)[j] == w);
                    }
                }
                if doc.keys().take(i as int).contains(w) {
                    let j = doc.keys().take(i as int).index_of(w);
                    assert(doc.keys().take(i + 1)[j] == w);
                }
                if w == key@ {
                    assert(doc.keys().take(i + 1)[i as int] == w);
                }
            }
        }
        global_index.push(key, (doc_id, locs));
        proof {
            let item = (doc_id, locs);
            assert(list_view(if old_map.contains_key(key@) { old_map[key@].push(item) } else { seq![item] })
                =~= (if before.contains_key(key@) { before[key@] } else { seq![] }).push((doc_id, doc.as_map()[key@])));
            let nv = (if before.contains_key(key@) { before[key@] } else { seq![] }).push((doc_id, doc.as_map()[key@]));
            assert(global_view(global_index) =~= before.insert(key@, nv));
            assert(before == merge_document(g0, doc_id, p_i));
            assert forall|w: Seq<u8>| #[trigger] merge_document(g0, doc_id, p_next).contains_key(w) <==> before.insert(key@, nv).contains_key(w) by {
            }
            assert forall|w: Seq<u8>| #[trigger] merge_document(g0, doc_id, p_next).contains_key(w) implies merge_document(g0, doc_id, p_next)[w] == before.insert(key@, nv)[w] by {
                if w != key@ {
                    assert(p_next.contains_key(w) == p_i.contains_key(w));
                }
            }
            assert(merge_document(g0, doc_id, p_next) =~= before.insert(key@, nv));
        }
        i = i + 1;
    }
    assert(Map::new(|w: Seq<u8>| doc.keys().take(n as int).contains(w), |w: Seq<u8>| doc.as_map()[w]) =~= doc.as_map()) by {
        assert(doc.keys().take(n as int) =~= doc.keys());
    }
}

} // verus!

verus! {

/// The words of one document of a run: its id and, when it was indexed,
/// its words with their positions.
pub type RunDocument = (usize, Option<Map<Seq<u8>, Seq<usize>>>);

/// The global index after the documents `docs` are added in order, each by
/// `add_document`; a document that was not indexed adds nothing.
pub open spec fn index_run(docs: Seq<RunDocument>) -> Map<Seq<u8>, PostingListView>
    decreases docs.len(),
{
    if docs.len() == 0 {
        Map::empty()
    } else {
        let prev = index_run(docs.drop_last());
        match docs.last().1 {
            None => prev,
            Some(m) => merge_document(prev, docs.last().0, m),
        }
    }
}

/// Per indexed document of `docs` that holds `w`, in input order: its id
/// and the positions of `w` in it.
pub open spec fn postings_in_order(docs: Seq<RunDocument>, w: Seq<u8>) -> PostingListView
    decreases docs.len(),
{
    if docs.len() == 0 {
        seq![]
    } else {
        let prev = postings_in_order(docs.drop_last(), w);
        match docs.last().1 {
            Some(m) => if m.contains_key(w) {
                prev.push((docs.last().0, m[w]))
            } else {
                prev
            },
            None => prev,
        }
    }
}

/// Adding one more document to a run is one `add_document` step.
pub proof fn law_run_step(docs: Seq<RunDocument>, d: RunDocument)
    ensures
        index_run(docs.push(d)) == match d.1 {
            None => index_run(docs),
            Some(m) => merge_document(index_run(docs), d.0, m),
        },
{
    assert(docs.push(d).drop_last() =~= docs);
}

/// After a run, a word is in the global index exactly when some indexed
/// document holds it, and its postings are, in input order, one per such
/// document: the document's id and the word's positions in it. Words of
/// documents that were not indexed are not added.
pub proof fn law_run_postings(docs: Seq<RunDocument>, w: Seq<u8>)
    ensures
        index_run(docs).contains_key(w) <==> postings_in_order(docs, w).len() > 0,
        index_run(docs).contains_key(w) ==> index_run(docs)[w] == postings_in_order(docs, w),
    decreases docs.len(),
{
    if docs.len() > 0 {
        law_run_postings(docs.drop_last(), w);
        let prev = index_run(docs.drop_last());
        match docs.last().1 {
            None => {},
            Some(m) => {
                let g = merge_document(prev, docs.last().0, m);
                if prev.contains_key(w) {
                    if m.contains_key(w) {
                        assert(g[w] == prev[w] + seq![(docs.last().0, m[w])]);
                        assert(prev[w] + seq![(docs.last().0, m[w])] =~= prev[w].push((docs.last().0, m[w])));
                    } else {
                        assert(g[w] =~= prev[w]);
                    }
                } else if m.contains_key(w) {
                    assert(postings_in_order(docs.drop_last(), w).len() == 0);
                    assert(g[w] =~= seq![(docs.last().0, m[w])]);
                    assert(postings_in_order(docs, w) =~= seq![(docs.last().0, m[w])]);
                }
            },
        }
    }
}

/// A run written as an index reads back in input order: looking a word up
/// in the written vocabulary finds it exactly when some indexed document of
/// the run holds it, and its postings are then, per such document in input
/// order, the document's id and the word's positions in it.
pub proof fn law_run_reads_back(
    g: &GlobalIndex,
    docs: Seq<RunDocument>,
    doc_count: u32,
    avg_bits: u32,
    w: Seq<u8>,
)
    requires
        g.wf(),
        global_view(g) == index_run(docs),
        fits_format(g.keys(), global_lists(g)),
        forall|i: int| 0 <= i < g.keys().len() ==> vstd::utf8::valid_utf8(#[trigger] g.keys()[i]),
    ensures
        ({
            let v = vocab_image(g.keys(), global_lists(g), doc_count as int, avg_bits as int);
            let cs = written_chunks(global_lists(g));
            match find_word(v, g.keys().len(), w) {
                None => postings_in_order(docs, w).len() == 0,
                Some(i) => postings_of(v, cs, i) == Some(stored_postings(postings_in_order(docs, w))),
            }
        }),
{
    let words = g.keys();
    let lists = global_lists(g);
    law_lookup_reads_back(words, lists, doc_count, avg_bits, w);
    law_run_postings(docs, w);
    g.lemma_as_map_keys();
    let v = vocab_image(words, lists, doc_count as int, avg_bits as int);
    match find_word(v, words.len(), w) {
        None => {
            assert(!global_view(g).contains_key(w));
        },
        Some(i) => {
            g.lemma_index_of(i);
            assert(global_view(g)[w] == list_view(g.as_map()[w]));
            assert(lists[i] == list_view(g.lists()[i]));
        },
    }
}

} // verus!

verus! {


/// Where the text of a book starts: after its header when the header's
/// length is known, else at its start.
pub open spec fn book_start(s: Seq<u8>) -> int {
    let k = lines_read(s, 0);
    if k < MAX_HEADER_LINES { line_start(s, k) } else { 0 }
}

/// The book's header names an ASCII encoding.
pub open spec fn book_is_ascii(s: Seq<u8>) -> bool {
    contains(
        vstd::utf8::encode_utf8(vstd::utf8::decode_utf8(field_value(s, lines_read(s, 0), encoding_prefix()))),
        ascii_name(),
    )
}

/// The words of a book with their positions, as `index` finds them; `None`
/// when its header does not name an ASCII encoding.
pub open spec fn book_words(s: Seq<u8>) -> Option<Map<Seq<u8>, Seq<usize>>> {
    if book_is_ascii(s) {
        Some(add_tokens(Map::empty(), tokens_from(s.skip(book_start(s)), 0)))
    } else {
        None
    }
}

/// The number of word occurrences in a book, at most `u32::MAX`.
pub open spec fn book_length(s: Seq<u8>) -> u32 {
    let n = tokens_from(s.skip(book_start(s)), 0).len();
    if n <= u32::MAX { n as u32 } else { u32::MAX }
}

/// The title that a book's header gives.
pub open spec fn book_title(s: Seq<u8>) -> Seq<char> {
    vstd::utf8::decode_utf8(field_value(s, lines_read(s, 0), title_prefix()))
}

/// A book's recorded length is the number of places in its text (after the
/// header) where a word stands, capped at `u32::MAX`.
pub proof fn law_book_length(s: Seq<u8>)
    ensures
        word_starts(s.skip(book_start(s))).finite(),
        book_length(s) as int == if word_starts(s.skip(book_start(s))).len() <= u32::MAX {
            word_starts(s.skip(book_start(s))).len() as int
        } else {
            u32::MAX as int
        },
{
    law_word_count(s.skip(book_start(s)));
}

/// An indexing run: the global index, the length and title of each indexed
/// document, and the documents added so far.
pub struct IndexRun {
    index: GlobalIndex,
    doc_lengths: HashMap<usize, u32>,
    titles: HashMap<usize, String>,
    docs: Ghost<Seq<RunDocument>>,
}

impl IndexRun {
    /// The documents added so far, in order.
    pub closed spec fn docs(&self) -> Seq<RunDocument> {
        self.docs@
    }

    /// The recorded document lengths.
    pub closed spec fn lengths(&self) -> Map<usize, u32> {
        self.doc_lengths@
    }

    /// The recorded titles.
    pub closed spec fn title_texts(&self) -> Map<usize, Seq<char>> {
        self.titles@.map_values(|t: String| t@)
    }

    /// The global index is the run of the documents added.
    #[verifier::type_invariant]
    closed spec fn inv(&self) -> bool {
        global_view(&self.index) == index_run(self.docs@)
    }

    /// A run with no documents.
    pub fn new() -> (r: Self)
        ensures
            r.docs() == Seq::<RunDocument>::empty(),
            r.lengths() == Map::<usize, u32>::empty(),
            r.title_texts() == Map::<usize, Seq<char>>::empty(),
    {
        let index: GlobalIndex = WordMap::new();
        proof {
            index.lemma_as_map_keys();
            assert(global_view(&index) =~= Map::<Seq<u8>, PostingListView>::empty());
        }
        let titles: HashMap<usize, String> = HashMap::new();
        assert(titles@.map_values(|t: String| t@) =~= Map::<usize, Seq<char>>::empty());
        IndexRun { index, doc_lengths: HashMap::new(), titles, docs: Ghost(Seq::empty()) }
    }

    /// Adds book `doc_id` with text `content`: when its header names an ASCII
    /// encoding, its words go into the global index and its length and title
    /// are recorded; other books add nothing. Fails, changing nothing, when a
    /// header line is not UTF-8.
    pub fn add_file(&mut self, doc_id: usize, content: &[u8]) -> (r: Result<(), HeaderError>)
        ensures
            r is Err <==> !header_lines_valid(content@),
            r is Err ==> {
                &&& final(self).docs() == old(self).docs()
                &&& final(self).lengths() == old(self).lengths()
                &&& final(self).title_texts() == old(self).title_texts()
            },
            r is Ok ==> {
                &&& final(self).docs() == old(self).docs().push((doc_id, book_words(content@)))
                &&& if book_is_ascii(content@) {
                    &&& final(self).lengths() == old(self).lengths().insert(doc_id, book_length(content@))
                    &&& final(self).title_texts() == old(self).title_texts().insert(doc_id, book_title(content@))
                } else {
                    &&& final(self).lengths() == old(self).lengths()
                    &&& final(self).title_texts() == old(self).title_texts()
                }
            },
    {
        let mut run: IndexRun = IndexRun::new();
        std::mem::swap(&mut run, self);
        proof { use_type_invariant(&run); }
        let IndexRun { index: mut global, doc_lengths: mut lengths, titles: mut titles, docs: Ghost(docs) } = run;
        let words = match index(content) {
            Err(e) => {
                *self = IndexRun { index: global, doc_lengths: lengths, titles, docs: Ghost(docs) };
                return Err(e);
            },
            Ok(w) => w,
        };
        match words {
            None => {
                proof { law_run_step(docs, (doc_id, None)); }
                *self = IndexRun { index: global, doc_lengths: lengths, titles, docs: Ghost(docs.push((doc_id, None))) };
            },
            Some(doc) => {
                let header = match read_header_from_reader(content) {
                    Err(e) => {
                        *self = IndexRun { index: global, doc_lengths: lengths, titles, docs: Ghost(docs) };
                        return Err(e);
                    },
                    Ok(h) => h,
                };
                add_document(&mut global, doc_id, &doc);
                let len: u32 = document_length(&doc);
                lengths.insert(doc_id, len);
                let ghost old_titles = titles@;
                titles.insert(doc_id, header.title);
                proof {
                    law_run_step(docs, (doc_id, Some(doc.as_map())));
                    assert(titles@.map_values(|t: String| t@) =~= old_titles.map_values(|t: String| t@).insert(
                        doc_id,
                        book_title(content@),
                    ));
                }
                *self = IndexRun {
                    index: global,
                    doc_lengths: lengths,
                    titles,
                    docs: Ghost(docs.push((doc_id, Some(doc.as_map())))),
                };
            },
        }
        Ok(())
    }

    /// The global index of the run.
    pub fn global_index(&self) -> (g: &GlobalIndex)
        ensures
            global_view(g) == index_run(self.docs()),
    {
        proof { use_type_invariant(self); }
        &self.index
    }

    /// The recorded document lengths.
    pub fn doc_lengths(&self) -> (m: &HashMap<usize, u32>)
        ensures
            m@ == self.lengths(),
    {
        &self.doc_lengths
    }

    /// The recorded titles.
    pub fn titles(&self) -> (m: &HashMap<usize, String>)
        ensures
            m@.map_values(|t: String| t@) == self.title_texts(),
    {
        &self.titles
    }
}

} // verus!
