//! Word lookup by binary search over the vocabulary.

use vstd::prelude::*;
use vstd::string::StringSliceAdditionalSpecFns;
use vstd::utf8::{valid_utf8, decode_utf8};
use crate::lex::{lex_lt, compare_bytes, Order3, lemma_lex_transitive, lemma_lex_irreflexive, lemma_lex_total};
use crate::text::{utf8_str, utf8_lossy_text};
use super::format::{word_in_bounds, word_of, postings_of, vocab_words, vocab_wf, entry_in_bounds};
use super::{IndexIo, SearchResult, postings_view};

verus! {

/// The position of the word with bytes `w` among the first `n` words of `v`.
pub open spec fn find_word(v: Seq<u8>, n: nat, w: Seq<u8>) -> Option<int> {
    if exists|i: int| 0 <= i < n && word_of(v, i) == w {
        Some(choose|i: int| 0 <= i < n && word_of(v, i) == w)
    } else {
        None
    }
}

/// The middle of the range `lo..hi`.
pub open spec fn mid_of(lo: int, hi: int) -> int {
    lo + (hi - lo) / 2
}

/// Where the binary search for `key` among words `lo..hi` of `v` stops: it
/// compares the middle word with `key` and goes on in the half where `key`
/// would be; it finds nothing when that word is not UTF-8.
pub open spec fn bsearch(v: Seq<u8>, lo: int, hi: int, key: Seq<u8>) -> Option<int>
    decreases hi - lo,
{
    if lo >= hi {
        None
    } else {
        let mid = mid_of(lo, hi);
        let w = word_of(v, mid);
        if !valid_utf8(w) {
            None
        } else if w == key {
            Some(mid)
        } else if lex_lt(w, key) {
            bsearch(v, mid + 1, hi, key)
        } else {
            bsearch(v, lo, mid, key)
        }
    }
}

/// Every word that the binary search for `key` among words `lo..hi` reads
/// lies within the vocabulary file.
pub open spec fn bsearch_in_bounds(v: Seq<u8>, lo: int, hi: int, key: Seq<u8>) -> bool
    decreases hi - lo,
{
    if lo >= hi {
        true
    } else {
        let mid = mid_of(lo, hi);
        let w = word_of(v, mid);
        &&& word_in_bounds(v, mid)
        &&& (if !valid_utf8(w) || w == key {
            true
        } else if lex_lt(w, key) {
            bsearch_in_bounds(v, mid + 1, hi, key)
        } else {
            bsearch_in_bounds(v, lo, mid, key)
        })
    }
}

/// The positions of the words that the binary search for `key` among words
/// `lo..hi` reads, in the order it reads them.
pub open spec fn bsearch_path(v: Seq<u8>, lo: int, hi: int, key: Seq<u8>) -> Seq<int>
    decreases hi - lo,
{
    if lo >= hi {
        seq![]
    } else {
        let mid = mid_of(lo, hi);
        let w = word_of(v, mid);
        if !valid_utf8(w) || w == key {
            seq![mid]
        } else if lex_lt(w, key) {
            seq![mid] + bsearch_path(v, mid + 1, hi, key)
        } else {
            seq![mid] + bsearch_path(v, lo, mid, key)
        }
    }
}

/// The integer part of the base-2 logarithm of `n` (0 for 0 and 1).
pub open spec fn log2_floor(n: nat) -> nat
    decreases n,
{
    if n <= 1 {
        0
    } else {
        1 + log2_floor(n / 2)
    }
}

/// At most this many words are read when searching `n` words.
pub open spec fn search_read_bound(n: int) -> int {
    if n <= 0 { 0 } else { log2_floor(n as nat) + 1int }
}

proof fn lemma_log2_floor_mono(a: nat, b: nat)
    requires
        a <= b,
    ensures
        log2_floor(a) <= log2_floor(b),
    decreases b,
{
    if a > 1 {
        lemma_log2_floor_mono(a / 2, b / 2);
    }
}

proof fn lemma_bsearch_path(v: Seq<u8>, lo: int, hi: int, key: Seq<u8>)
    ensures
        bsearch_path(v, lo, hi, key).len() <= search_read_bound(hi - lo),
        forall|k: int| 0 <= k < bsearch_path(v, lo, hi, key).len() ==> lo <= #[trigger] bsearch_path(v, lo, hi, key)[k] < hi,
        bsearch(v, lo, hi, key) matches Some(i) ==> bsearch_path(v, lo, hi, key).len() > 0
            && bsearch_path(v, lo, hi, key).last() == i,
    decreases hi - lo,
{
    if lo < hi {
        let m = hi - lo;
        let mid = mid_of(lo, hi);
        let w = word_of(v, mid);
        let p = bsearch_path(v, lo, hi, key);
        if !valid_utf8(w) || w == key {
        } else {
            let (nlo, nhi) = if lex_lt(w, key) { (mid + 1, hi) } else { (lo, mid) };
            lemma_bsearch_path(v, nlo, nhi, key);
            let q = bsearch_path(v, nlo, nhi, key);
            assert(p == seq![mid] + q);
            assert(nhi - nlo <= m / 2);
            if nhi - nlo > 0 {
                lemma_log2_floor_mono((nhi - nlo) as nat, (m / 2) as nat);
                assert(m >= 2);
            }
            assert forall|k: int| 0 <= k < p.len() implies lo <= #[trigger] p[k] < hi by {
                if k > 0 {
                    assert(p[k] == q[k - 1]);
                }
            }
            if q.len() > 0 {
                assert(p.last() == q.last());
            }
        }
    }
}

/// The binary search over `n` words reads at most floor(log2(n)) + 1 of
/// them (none when there are none), all among the `n`, and the word it
/// finds is the last one it read: only that word's postings are read.
pub proof fn law_search_reads_few_words(v: Seq<u8>, n: nat, key: Seq<u8>)
    ensures
        bsearch_path(v, 0, n as int, key).len() <= search_read_bound(n as int),
        forall|k: int| 0 <= k < bsearch_path(v, 0, n as int, key).len() ==> 0 <= #[trigger] bsearch_path(
            v, 0, n as int, key)[k] < n,
        bsearch(v, 0, n as int, key) matches Some(i) ==> bsearch_path(v, 0, n as int, key).last() == i,
{
    lemma_bsearch_path(v, 0, n as int, key);
}

/// Looking up `key` in `io` reads only what lies within its files: the words
/// the search visits and the postings of the word it finds.
pub open spec fn lookup_in_bounds(io: IndexIo, key: Seq<u8>) -> bool {
    let v = io.vocab_bytes();
    let n = io.spec_word_count() as int;
    &&& bsearch_in_bounds(v, 0, n, key)
    &&& (bsearch(v, 0, n, key) matches Some(i) ==> postings_of(v, io.chunk_bytes(), i) is Some)
}

/// What looking up `key` finds: the position of the word and its postings.
pub open spec fn lookup_result(io: IndexIo, key: Seq<u8>) -> Option<int> {
    bsearch(io.vocab_bytes(), 0, io.spec_word_count() as int, key)
}

/// All words of the first `n` lie within the vocabulary file.
pub open spec fn words_in_bounds(v: Seq<u8>, n: nat) -> bool {
    forall|i: int| 0 <= i < n ==> #[trigger] word_in_bounds(v, i)
}

proof fn lemma_bsearch_wf(v: Seq<u8>, cs: Seq<Seq<u8>>, n: nat, lo: int, hi: int, key: Seq<u8>)
    requires
        vocab_wf(v, cs, n),
        0 <= lo <= hi <= n,
        forall|j: int| 0 <= j < lo ==> lex_lt(#[trigger] word_of(v, j), key),
        forall|j: int| hi <= j < n ==> lex_lt(key, #[trigger] word_of(v, j)),
    ensures
        bsearch_in_bounds(v, lo, hi, key),
        bsearch(v, lo, hi, key) == find_word(v, n, key),
    decreases hi - lo,
{
    let ws = vocab_words(v, n);
    if lo >= hi {
        if exists|i: int| 0 <= i < n && word_of(v, i) == key {
            let i = choose|i: int| 0 <= i < n && word_of(v, i) == key;
            lemma_lex_irreflexive(key);
        }
    } else {
        let mid = mid_of(lo, hi);
        let w = word_of(v, mid);
        assert(word_in_bounds(v, mid));
        assert(valid_utf8(w));
        if w == key {
            let j = choose|j: int| 0 <= j < n && word_of(v, j) == key;
            if j != mid {
                assert(ws[j] == word_of(v, j) && ws[mid] == word_of(v, mid));
                lemma_lex_irreflexive(key);
            }
        } else if lex_lt(w, key) {
            assert forall|j: int| 0 <= j < mid + 1 implies lex_lt(#[trigger] word_of(v, j), key) by {
                if j < mid {
                    assert(ws[j] == word_of(v, j) && ws[mid] == word_of(v, mid));
                    lemma_lex_transitive(word_of(v, j), w, key);
                }
            }
            lemma_bsearch_wf(v, cs, n, mid + 1, hi, key);
        } else {
            lemma_lex_total(w, key);
            assert forall|j: int| mid <= j < n implies lex_lt(key, #[trigger] word_of(v, j)) by {
                if mid < j < hi {
                    assert(ws[j] == word_of(v, j) && ws[mid] == word_of(v, mid));
                    lemma_lex_transitive(key, w, word_of(v, j));
                }
            }
            lemma_bsearch_wf(v, cs, n, lo, mid, key);
        }
    }
}

/// In a well-formed index every lookup stays within the files, and the
/// binary search finds a word exactly when the index holds it, at its
/// position.
pub proof fn law_search_well_formed(io: IndexIo, key: Seq<u8>)
    requires
        io.well_formed(),
    ensures
        lookup_in_bounds(io, key),
        lookup_result(io, key) == find_word(io.vocab_bytes(), io.spec_word_count(), key),
        words_in_bounds(io.vocab_bytes(), io.spec_word_count()),
{
    let v = io.vocab_bytes();
    let n = io.spec_word_count();
    lemma_bsearch_wf(v, io.chunk_bytes(), n, 0, n as int, key);
    if let Some(i) = find_word(v, n, key) {
        assert(0 <= i < n && word_of(v, i) == key);
    }
}

/// Search over an index.
#[derive(Debug)]
pub struct SearchIndex {
    index: IndexIo,
}

impl SearchIndex {
    /// The index searched.
    pub closed spec fn index(&self) -> IndexIo {
        self.index
    }

    pub fn new(index: IndexIo) -> (s: Self)
        ensures
            s.index() == index,
    {
        SearchIndex { index }
    }

    /// Whether searching `word` reads only what lies within the index files.
    pub fn can_search(&self, word: &str) -> (b: bool)
        ensures
            b == lookup_in_bounds(self.index(), word.spec_bytes()),
    {
        can_lookup(&self.index, word)
    }

    /// The word and its postings, or `None` when the binary search does not
    /// find it.
    pub fn search(&self, word: &str) -> (r: Option<SearchResult>)
        requires
            lookup_in_bounds(self.index(), word.spec_bytes()),
        ensures
            ({
                let io = self.index();
                match lookup_result(io, word.spec_bytes()) {
                    None => r is None,
                    Some(i) => r matches Some(res) && res.word@ == word@ && postings_view(res.postings@)
                        == postings_of(io.vocab_bytes(), io.chunk_bytes(), i).unwrap(),
                }
            }),
    {
        lookup_word(&self.index, word)
    }

    /// The search for `word`, or `None` when it would read past the end of
    /// an index file.
    pub fn search_checked(&self, word: &str) -> (r: Option<Option<SearchResult>>)
        ensures
            r is None <==> !lookup_in_bounds(self.index(), word.spec_bytes()),
            r matches Some(found) ==> {
                let io = self.index();
                match lookup_result(io, word.spec_bytes()) {
                    None => found is None,
                    Some(i) => found matches Some(res) && res.word@ == word@ && postings_view(res.postings@)
                        == postings_of(io.vocab_bytes(), io.chunk_bytes(), i).unwrap(),
                }
            },
    {
        if !self.can_search(word) {
            return None;
        }
        Some(self.search(word))
    }

    /// Whether every word of the index lies within the vocabulary file.
    pub fn can_list_words(&self) -> (b: bool)
        ensures
            b == words_in_bounds(self.index().vocab_bytes(), self.index().spec_word_count()),
    {
        words_readable(&self.index)
    }

    /// All words of the index, in the order stored, invalid UTF-8 replaced.
    pub fn iter_words(&self) -> (r: Vec<String>)
        requires
            words_in_bounds(self.index().vocab_bytes(), self.index().spec_word_count()),
        ensures
            r@.len() == self.index().spec_word_count(),
            forall|i: int| 0 <= i < r@.len() ==> (#[trigger] r@[i])@
                == utf8_lossy_text(word_of(self.index().vocab_bytes(), i)),
            forall|i: int| 0 <= i < r@.len() && valid_utf8(word_of(self.index().vocab_bytes(), i)) ==> (#[trigger] r@[i])@
                == decode_utf8(word_of(self.index().vocab_bytes(), i)),
    {
        all_words(&self.index)
    }
}

/// Whether every word of the index lies within the vocabulary file.
pub fn words_readable(io: &IndexIo) -> (b: bool)
    ensures
        b == words_in_bounds(io.vocab_bytes(), io.spec_word_count()),
{
    let n: usize = io.word_count();
    let mut i: usize = 0;
    while i < n
        invariant
            n == io.spec_word_count(),
            i <= n,
            forall|j: int| 0 <= j < i ==> #[trigger] word_in_bounds(io.vocab_bytes(), j),
        decreases n - i,
    {
        if !io.word_readable(i) {
            return false;
        }
        i = i + 1;
    }
    true
}

/// All words of the index, in the order stored, invalid UTF-8 replaced.
pub fn all_words(io: &IndexIo) -> (r: Vec<String>)
    requires
        words_in_bounds(io.vocab_bytes(), io.spec_word_count()),
    ensures
        r@.len() == io.spec_word_count(),
        forall|i: int| 0 <= i < r@.len() ==> (#[trigger] r@[i])@ == utf8_lossy_text(word_of(io.vocab_bytes(), i)),
        forall|i: int| 0 <= i < r@.len() && valid_utf8(word_of(io.vocab_bytes(), i)) ==> (#[trigger] r@[i])@
            == decode_utf8(word_of(io.vocab_bytes(), i)),
{
    let n: usize = io.word_count();
    let mut r: Vec<String> = Vec::new();
    let mut i: usize = 0;
    while i < n
        invariant
            words_in_bounds(io.vocab_bytes(), io.spec_word_count()),
            n == io.spec_word_count(),
            i <= n,
            r@.len() == i,
            forall|j: int| 0 <= j < i ==> (#[trigger] r@[j])@ == utf8_lossy_text(word_of(io.vocab_bytes(), j)),
            forall|j: int| 0 <= j < i && valid_utf8(word_of(io.vocab_bytes(), j)) ==> (#[trigger] r@[j])@
                == decode_utf8(word_of(io.vocab_bytes(), j)),
        decreases n - i,
    {
        assert(word_in_bounds(io.vocab_bytes(), i as int));
        r.push(io.get_word(i));
        i = i + 1;
    }
    r
}

/// Whether the binary search for `key` reads only words that lie within the
/// vocabulary file.
pub fn search_in_bounds(io: &IndexIo, key: &[u8]) -> (b: bool)
    ensures
        b == bsearch_in_bounds(io.vocab_bytes(), 0, io.spec_word_count() as int, key@),
{
    let ghost v = io.vocab_bytes();
    let ghost n = io.spec_word_count() as int;
    let mut left: usize = 0;
    let mut right: usize = io.word_count();
    while left < right
        invariant
            v == io.vocab_bytes(),
            n == io.spec_word_count(),
            right <= n,
            left <= right,
            bsearch_in_bounds(v, 0, n, key@) == bsearch_in_bounds(v, left as int, right as int, key@),
        decreases right - left,
    {
        let mid: usize = left + (right - left) / 2;
        assert(mid == mid_of(left as int, right as int));
        if !io.word_readable(mid) {
            return false;
        }
        let mid_word: &[u8] = io.get_word_bytes(mid);
        if utf8_str(mid_word).is_none() {
            return true;
        }
        match compare_bytes(mid_word, key) {
            Order3::Equal => {
                return true;
            },
            Order3::Less => {
                left = mid + 1;
            },
            Order3::Greater => {
                right = mid;
            },
        }
    }
    true
}

/// The binary search for `key`: the position it stops at, if any.
pub fn find_index(io: &IndexIo, key: &[u8]) -> (r: Option<usize>)
    requires
        bsearch_in_bounds(io.vocab_bytes(), 0, io.spec_word_count() as int, key@),
    ensures
        match bsearch(io.vocab_bytes(), 0, io.spec_word_count() as int, key@) {
            None => r is None,
            Some(i) => r == Some(i as usize),
        },
{
    let (r, _reads) = find_index_traced(io, key);
    r
}

/// The binary search for `key`, with the positions of the words it reads.
fn find_index_traced(io: &IndexIo, key: &[u8]) -> (r: (Option<usize>, Ghost<Seq<int>>))
    requires
        bsearch_in_bounds(io.vocab_bytes(), 0, io.spec_word_count() as int, key@),
    ensures
        match bsearch(io.vocab_bytes(), 0, io.spec_word_count() as int, key@) {
            None => r.0 is None,
            Some(i) => r.0 == Some(i as usize),
        },
        r.1@ == bsearch_path(io.vocab_bytes(), 0, io.spec_word_count() as int, key@),
{
    let ghost v = io.vocab_bytes();
    let ghost n = io.spec_word_count() as int;
    let ghost mut reads: Seq<int> = seq![];
    let mut left: usize = 0;
    let mut right: usize = io.word_count();
    while left < right
        invariant
            v == io.vocab_bytes(),
            n == io.spec_word_count(),
            right <= n,
            left <= right,
            bsearch_in_bounds(v, left as int, right as int, key@),
            bsearch(v, 0, n, key@) == bsearch(v, left as int, right as int, key@),
            bsearch_path(v, 0, n, key@) == reads + bsearch_path(v, left as int, right as int, key@),
        decreases right - left,
    {
        let mid: usize = left + (right - left) / 2;
        assert(mid == mid_of(left as int, right as int));
        let ghost rest = bsearch_path(v, left as int, right as int, key@);
        let mid_word: &[u8] = io.get_word_bytes(mid);
        proof { reads = reads.push(mid as int); }
        if utf8_str(mid_word).is_none() {
            assert(bsearch_path(v, 0, n, key@) =~= reads);
            return (None, Ghost(reads));
        }
        match compare_bytes(mid_word, key) {
            Order3::Equal => {
                assert(bsearch_path(v, 0, n, key@) =~= reads);
                return (Some(mid), Ghost(reads));
            },
            Order3::Less => {
                assert(rest == seq![mid as int] + bsearch_path(v, mid + 1, right as int, key@));
                assert(bsearch_path(v, 0, n, key@) =~= reads + bsearch_path(v, mid + 1, right as int, key@));
                left = mid + 1;
            },
            Order3::Greater => {
                assert(rest == seq![mid as int] + bsearch_path(v, left as int, mid as int, key@));
                assert(bsearch_path(v, 0, n, key@) =~= reads + bsearch_path(v, left as int, mid as int, key@));
                right = mid;
            },
        }
    }
    assert(bsearch_path(v, 0, n, key@) =~= reads);
    (None, Ghost(reads))
}

/// Whether looking up `word` reads only what lies within the index files.
pub fn can_lookup(io: &IndexIo, word: &str) -> (b: bool)
    ensures
        b == lookup_in_bounds(*io, word.spec_bytes()),
{
    let key: &[u8] = word.as_bytes();
    if !search_in_bounds(io, key) {
        return false;
    }
    match find_index(io, key) {
        None => true,
        Some(i) => {
            proof { lemma_found_in_bounds(io.vocab_bytes(), 0, io.spec_word_count() as int, key@); }
            io.postings_readable(i)
        },
    }
}

/// The word `word` of the index and its postings, if the search finds it.
pub fn lookup_word(io: &IndexIo, word: &str) -> (r: Option<SearchResult>)
    requires
        lookup_in_bounds(*io, word.spec_bytes()),
    ensures
        match lookup_result(*io, word.spec_bytes()) {
            None => r is None,
            Some(i) => r matches Some(res) && res.word@ == word@ && postings_view(res.postings@)
                == postings_of(io.vocab_bytes(), io.chunk_bytes(), i).unwrap(),
        },
{
    let key: &[u8] = word.as_bytes();
    match find_index(io, key) {
        None => None,
        Some(i) => {
            let ghost v = io.vocab_bytes();
            proof { lemma_found_in_bounds(v, 0, io.spec_word_count() as int, key@); }
            let postings = io.read_postings(i);
            let w = io.get_word(i);
            proof {
                vstd::utf8::encode_utf8_decode_utf8(word@);
            }
            Some(SearchResult { word: w, postings })
        },
    }
}

/// What the binary search finds lies within bounds, is UTF-8 and is the key.
proof fn lemma_found_in_bounds(v: Seq<u8>, lo: int, hi: int, key: Seq<u8>)
    requires
        bsearch_in_bounds(v, lo, hi, key),
        bsearch(v, lo, hi, key) is Some,
    ensures
        ({
            let i = bsearch(v, lo, hi, key)->0;
            &&& lo <= i < hi
            &&& word_in_bounds(v, i)
            &&& entry_in_bounds(v, i)
            &&& valid_utf8(word_of(v, i))
            &&& word_of(v, i) == key
        }),
    decreases hi - lo,
{
    let mid = mid_of(lo, hi);
    let w = word_of(v, mid);
    if w != key {
        if lex_lt(w, key) {
            lemma_found_in_bounds(v, mid + 1, hi, key);
        } else {
            lemma_found_in_bounds(v, lo, mid, key);
        }
    }
}

} // verus!
