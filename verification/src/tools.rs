//! Choosing the books to index.

use vstd::prelude::*;
use crate::gutenberg::{GutenbergTxtHeader, ascii_name, contains, has_substring, bytes_ascii};
use crate::pipeline::{extract_doc_id, parse_usize};
use crate::text::{file_extension, path_extension, path_file_stem};

verus! {

broadcast use vstd::seq_lib::group_to_multiset_ensures, vstd::multiset::group_multiset_axioms;

/// `s` is in increasing order.
pub open spec fn sorted_asc(s: Seq<usize>) -> bool {
    forall|i: int, j: int| 0 <= i < j < s.len() ==> s[i] <= s[j]
}

proof fn lemma_insert_multiset(s: Seq<usize>, i: int, x: usize)
    requires
        0 <= i <= s.len(),
    ensures
        s.insert(i, x).to_multiset() =~= s.to_multiset().insert(x),
{
    let t = s.insert(i, x);
    assert(t.remove(i) =~= s);
    assert(t[i] == x);
    assert(t.contains(x));
    assert(t.to_multiset().count(x) > 0);
    assert(s.to_multiset() =~= t.to_multiset().remove(x));
}

/// The order `<=` on ids.
pub open spec fn id_leq() -> spec_fn(usize, usize) -> bool {
    |a: usize, b: usize| a <= b
}

/// The ids in increasing order.
pub open spec fn sorted_ids(ids: Seq<usize>) -> Seq<usize> {
    ids.sort_by(id_leq())
}

/// The ids in increasing order, cut to the first `limit` when given.
pub open spec fn selected_ids(ids: Seq<usize>, limit: Option<usize>) -> Seq<usize> {
    let full = sorted_ids(ids);
    match limit {
        Some(n) => if n < full.len() { full.take(n as int) } else { full },
        None => full,
    }
}

proof fn lemma_sorted_ids(ids: Seq<usize>)
    ensures
        sorted_asc(sorted_ids(ids)),
        sorted_ids(ids).to_multiset() == ids.to_multiset(),
        forall|s: Seq<usize>| sorted_asc(s) && #[trigger] s.to_multiset() == ids.to_multiset() ==> s == sorted_ids(ids),
{
    let leq = id_leq();
    assert(vstd::relations::total_ordering(leq));
    ids.lemma_sort_by_ensures(leq);
    assert forall|s: Seq<usize>| sorted_asc(s) && #[trigger] s.to_multiset() == ids.to_multiset() implies s == sorted_ids(ids) by {
        assert(vstd::relations::sorted_by(s, leq));
        vstd::seq_lib::lemma_sorted_unique(s, sorted_ids(ids), leq);
    }
    assert forall|i: int, j: int| 0 <= i < j < sorted_ids(ids).len() implies sorted_ids(ids)[i] <= sorted_ids(ids)[j] by {
        assert(leq(sorted_ids(ids)[i], sorted_ids(ids)[j]));
    }
}

/// Cutting the selection to `n` ids keeps the first `n` of the whole
/// selection: the smallest ids, in increasing order.
pub proof fn law_limit_takes_prefix(ids: Seq<usize>, n: usize)
    ensures
        selected_ids(ids, Some(n)) == selected_ids(ids, None).take(
            if n < selected_ids(ids, None).len() { n as int } else { selected_ids(ids, None).len() as int },
        ),
        sorted_asc(selected_ids(ids, None)),
        selected_ids(ids, None).to_multiset() == ids.to_multiset(),
{
    lemma_sorted_ids(ids);
    let full = selected_ids(ids, None);
    assert(full.take(full.len() as int) =~= full);
}

/// The doc ids in increasing order, cut to the first `limit` when given.
pub fn select_doc_ids(ids: Vec<usize>, limit: Option<usize>) -> (r: Vec<usize>)
    ensures
        r@ == selected_ids(ids@, limit),
{
    let mut sorted: Vec<usize> = Vec::new();
    let mut k: usize = 0;
    while k < ids.len()
        invariant
            k <= ids@.len(),
            sorted_asc(sorted@),
            sorted@.to_multiset() == ids@.take(k as int).to_multiset(),
        decreases ids@.len() - k,
    {
        let x: usize = ids[k];
        let mut pos: usize = sorted.len();
        while pos > 0 && sorted[pos - 1] > x
            invariant
                pos <= sorted@.len(),
                sorted_asc(sorted@),
                forall|j: int| pos <= j < sorted@.len() ==> sorted@[j] > x,
            decreases pos,
        {
            pos = pos - 1;
        }
        let ghost before = sorted@;
        sorted.insert(pos, x);
        proof {
            lemma_insert_multiset(before, pos as int, x);
            assert(ids@.take(k + 1) =~= ids@.take(k as int).push(x));
            assert forall|a: int, b: int| 0 <= a < b < sorted@.len() implies sorted@[a] <= sorted@[b] by {
                if a < pos && b == pos {
                    assert(before[a] <= before[pos - 1]);
                }
            }
        }
        k = k + 1;
    }
    assert(ids@.take(k as int) =~= ids@);
    proof { lemma_sorted_ids(ids@); }
    let ghost full = sorted@;
    assert(full == sorted_ids(ids@));
    match limit {
        Some(n) => {
            if n < sorted.len() {
                sorted.truncate(n);
                assert(sorted@ =~= full.take(n as int));
            }
        },
        None => {},
    }
    sorted
}

/// `txt`
pub open spec fn txt_extension() -> Seq<char> {
    seq!['t', 'x', 't']
}

/// The path's extension is `txt`.
pub fn has_txt_extension(path: &str) -> (b: bool)
    ensures
        b == (path_extension(path@) == Some(txt_extension())),
{
    match file_extension(path) {
        None => false,
        Some(e) => {
            let e: &str = e.as_str();
            if e.unicode_len() != 3 {
                assert(e@ != txt_extension());
                return false;
            }
            let r: bool = e.get_char(0) == 't' && e.get_char(1) == 'x' && e.get_char(2) == 't';
            assert(r ==> e@ =~= txt_extension());
            r
        },
    }
}

/// The header names an ASCII encoding.
pub fn is_ascii_book(header: &GutenbergTxtHeader) -> (b: bool)
    ensures
        b == contains(vstd::utf8::encode_utf8(header.encoding@), ascii_name()),
{
    let ascii: Vec<u8> = bytes_ascii();
    has_substring(header.encoding.as_str().as_bytes(), ascii.as_slice())
}

/// The doc id of a book file that can be indexed: its header was read, it
/// names an ASCII encoding, and the file name is a number.
pub fn ascii_book_id(path: &str, header: Option<&GutenbergTxtHeader>) -> (r: Option<usize>)
    ensures
        r == match header {
            None => None,
            Some(h) => if contains(vstd::utf8::encode_utf8(h.encoding@), ascii_name()) {
                match path_file_stem(path@) {
                    None => None,
                    Some(stem) => parse_usize(stem),
                }
            } else {
                None
            },
        },
{
    match header {
        None => None,
        Some(h) => {
            if !is_ascii_book(h) {
                return None;
            }
            match extract_doc_id(path) {
                Ok(id) => Some(id),
                Err(_) => None,
            }
        },
    }
}

} // verus!
