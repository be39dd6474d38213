//! Splitting a book's text into words and their positions.

use vstd::prelude::*;
use crate::word_map::{WordMap, total_len};
use crate::gutenberg::{
    read_header_from_reader, header_lines_valid, lines_read, field_value, line_start, encoding_prefix,
    ascii_name, contains, has_substring, bytes_ascii, HeaderError, MAX_HEADER_LINES,
};

verus! {

/// An ASCII letter.
pub open spec fn is_alpha(b: u8) -> bool {
    (65 <= b <= 90) || (97 <= b <= 122)
}

/// The lowercase form of an ASCII letter; other bytes unchanged.
pub open spec fn lower(b: u8) -> u8 {
    if 65 <= b <= 90 { (b + 32) as u8 } else { b }
}

/// Where the run of letters that starts at `i` ends.
pub open spec fn run_end(s: Seq<u8>, i: int) -> int
    decreases s.len() - i,
{
    if i < 0 || i >= s.len() || !is_alpha(s[i]) {
        i
    } else {
        run_end(s, i + 1)
    }
}

pub proof fn lemma_run_end(s: Seq<u8>, i: int)
    requires
        0 <= i <= s.len(),
    ensures
        i <= run_end(s, i) <= s.len(),
        forall|j: int| i <= j < run_end(s, i) ==> is_alpha(#[trigger] s[j]),
        run_end(s, i) < s.len() ==> !is_alpha(s[run_end(s, i)]),
    decreases s.len() - i,
{
    if i < s.len() && is_alpha(s[i]) {
        lemma_run_end(s, i + 1);
    }
}

/// The words of `s` from position `i` on, with their start positions: each
/// maximal run of ASCII letters, lowercased.
pub open spec fn tokens_from(s: Seq<u8>, i: int) -> Seq<(Seq<u8>, int)>
    decreases s.len() - i,
{
    if i < 0 || i >= s.len() {
        seq![]
    } else if !is_alpha(s[i]) {
        tokens_from(s, i + 1)
    } else {
        let e = run_end(s, i + 1);
        if e <= i || e > s.len() {
            seq![]
        } else {
            seq![(s.subrange(i, e).map_values(|b: u8| lower(b)), i)] + tokens_from(s, e)
        }
    }
}

/// `m` with position `p` appended to the list of word `w`.
pub open spec fn add_position(m: Map<Seq<u8>, Seq<usize>>, w: Seq<u8>, p: usize) -> Map<Seq<u8>, Seq<usize>> {
    m.insert(w, if m.contains_key(w) { m[w].push(p) } else { seq![p] })
}

/// `m` with the positions of the words `toks` appended, in order.
pub open spec fn add_tokens(m: Map<Seq<u8>, Seq<usize>>, toks: Seq<(Seq<u8>, int)>) -> Map<Seq<u8>, Seq<usize>>
    decreases toks.len(),
{
    if toks.len() == 0 {
        m
    } else {
        add_position(add_tokens(m, toks.drop_last()), toks.last().0, toks.last().1 as usize)
    }
}

/// Adds each word of `content` (a maximal run of ASCII letters, lowercased)
/// with its position to `result`.
pub fn index_internal(content: &[u8], result: &mut WordMap<usize>)
    ensures
        final(result).as_map() == add_tokens(old(result).as_map(), tokens_from(content@, 0)),
        total_len(final(result).lists()) == total_len(old(result).lists()) + tokens_from(content@, 0).len(),
{
    proof { use_type_invariant(&*result); }
    let ghost s = content@;
    let n: usize = content.len();
    let ghost mut done: Seq<(Seq<u8>, int)> = seq![];
    let mut i: usize = 0;
    while i < n
        invariant
            s == content@,
            n == s.len(),
            i <= n,
            tokens_from(s, 0) == done + tokens_from(s, i as int),
            result.as_map() == add_tokens(old(result).as_map(), done),
            total_len(result.lists()) == total_len(old(result).lists()) + done.len(),
            forall|k: int| 0 <= k < done.len() ==> 0 <= (#[trigger] done[k]).1 < i,
        decreases n - i,
    {
        if !(content[i] >= 65 && content[i] <= 90) && !(content[i] >= 97 && content[i] <= 122) {
            i = i + 1;
        } else {
            proof { lemma_run_end(s, i + 1); }
            let mut word: Vec<u8> = Vec::new();
            let mut e: usize = i;
            while e < n && ((content[e] >= 65 && content[e] <= 90) || (content[e] >= 97 && content[e] <= 122))
                invariant
                    s == content@,
                    n == s.len(),
                    i < e <= n || e == i,
                    e <= run_end(s, i + 1) || e == i,
                    run_end(s, i as int) == run_end(s, i + 1),
                    i + 1 <= run_end(s, i + 1) <= n,
                    run_end(s, i + 1) < n ==> !is_alpha(s[run_end(s, i + 1)]),
                    e == i ==> is_alpha(s[i as int]),
                    word@ == s.subrange(i as int, e as int).map_values(|b: u8| lower(b)),
                decreases n - e,
            {
                let b: u8 = content[e];
                word.push(if b >= 65 && b <= 90 { b + 32 } else { b });
                assert(s.subrange(i as int, e + 1) =~= s.subrange(i as int, e as int).push(b));
                assert(word@ =~= s.subrange(i as int, e + 1).map_values(|b: u8| lower(b)));
                e = e + 1;
            }
            proof { lemma_run_end(s, i as int); }
            assert(e == run_end(s, i + 1));
            let ghost tok = (word@, i as int);
            assert(tokens_from(s, i as int) == seq![tok] + tokens_from(s, e as int));
            result.push(word.as_slice(), i);
            proof {
                let nd = done.push(tok);
                assert(nd.drop_last() =~= done);
                assert(done + tokens_from(s, i as int) =~= nd + tokens_from(s, e as int));
                done = nd;
            }
            i = e;
        }
    }
    assert(tokens_from(s, i as int) =~= Seq::<(Seq<u8>, int)>::empty());
    assert(done + tokens_from(s, i as int) =~= done);
}

} // verus!

verus! {

/// The words of a book with their positions, counted from the end of its
/// header (from its start when the header's length is unknown); `None` when
/// the header does not name an ASCII encoding. Fails when a header line is
/// not UTF-8.
pub fn index(content: &[u8]) -> (r: Result<Option<WordMap<usize>>, HeaderError>)
    ensures
        r is Err <==> !header_lines_valid(content@),
        header_lines_valid(content@) ==> {
            let s = content@;
            let k = lines_read(s, 0);
            let enc = vstd::utf8::decode_utf8(field_value(s, k, encoding_prefix()));
            let start = if k < MAX_HEADER_LINES { line_start(s, k) } else { 0 };
            if contains(vstd::utf8::encode_utf8(enc), ascii_name()) {
                r matches Ok(Some(m)) && m.as_map() == add_tokens(
                    Map::empty(),
                    tokens_from(s.skip(start), 0),
                ) && total_len(m.lists()) == tokens_from(s.skip(start), 0).len()
            } else {
                r matches Ok(None)
            }
        },
{
    let header = match read_header_from_reader(content) {
        Ok(h) => h,
        Err(e) => return Err(e),
    };
    let ascii: Vec<u8> = bytes_ascii();
    if !has_substring(header.encoding.as_str().as_bytes(), ascii.as_slice()) {
        return Ok(None);
    }
    proof { crate::gutenberg::lemma_line_start_bound(content@, lines_read(content@, 0)); }
    let start: usize = match header.header_len {
        Some(l) => l,
        None => 0,
    };
    let body: &[u8] = vstd::slice::slice_subrange(content, start, content.len());
    assert(body@ =~= content@.skip(start as int));
    let mut result: WordMap<usize> = WordMap::new();
    proof { result.lemma_as_map_keys(); }
    assert(total_len(result.lists()) == 0);
    assert(result.as_map() =~= Map::<Seq<u8>, Seq<usize>>::empty());
    index_internal(body, &mut result);
    Ok(Some(result))
}

/// The number of word occurrences in a document, at most `u32::MAX`.
pub fn document_length(doc: &WordMap<usize>) -> (n: u32)
    ensures
        n == if total_len(doc.lists()) <= u32::MAX { total_len(doc.lists()) } else { u32::MAX as int },
{
    proof { use_type_invariant(doc); }
    let mut total: u64 = 0;
    let mut i: usize = 0;
    while i < doc.len()
        invariant
            doc.wf(),
            i <= doc.keys().len(),
            total == if total_len(doc.lists().take(i as int)) <= u32::MAX {
                total_len(doc.lists().take(i as int))
            } else {
                u32::MAX + 1
            },
        decreases doc.keys().len() - i,
    {
        let l: usize = doc.list_at(i).len();
        assert(doc.lists().take(i + 1).drop_last() =~= doc.lists().take(i as int));
        if total <= u32::MAX as u64 {
            if (l as u64) > (u32::MAX as u64) + 1 - total {
                total = u32::MAX as u64 + 1;
            } else {
                total = total + l as u64;
            }
        }
        i = i + 1;
    }
    assert(doc.lists().take(i as int) =~= doc.lists());
    if total > u32::MAX as u64 {
        u32::MAX
    } else {
        total as u32
    }
}

} // verus!

verus! {

/// A word as the indexer records it: a non-empty run of lowercase ASCII letters.
pub open spec fn is_word(w: Seq<u8>) -> bool {
    w.len() > 0 && forall|j: int| 0 <= j < w.len() ==> 97 <= #[trigger] w[j] <= 122
}

/// Word `w` stands at position `p` of `s`: the letters there, lowercased, are
/// `w`, and no letter stands right before or right after them.
pub open spec fn occurs_at(s: Seq<u8>, w: Seq<u8>, p: int) -> bool {
    &&& is_word(w)
    &&& 0 <= p
    &&& p + w.len() <= s.len()
    &&& s.subrange(p, p + w.len()).map_values(|b: u8| lower(b)) == w
    &&& (p == 0 || !is_alpha(s[p - 1]))
    &&& (p + w.len() == s.len() || !is_alpha(s[p + w.len()]))
}

proof fn lemma_tokens_occur(s: Seq<u8>, i: int)
    requires
        0 <= i <= s.len(),
        i == 0 || i == s.len() || !is_alpha(s[i - 1]) || !is_alpha(s[i]),
    ensures
        forall|k: int| 0 <= k < tokens_from(s, i).len() ==> {
            &&& i <= (#[trigger] tokens_from(s, i)[k]).1
            &&& occurs_at(s, tokens_from(s, i)[k].0, tokens_from(s, i)[k].1)
        },
        forall|a: int, b: int| 0 <= a < b < tokens_from(s, i).len() ==>
            (#[trigger] tokens_from(s, i)[a]).1 < (#[trigger] tokens_from(s, i)[b]).1,
    decreases s.len() - i,
{
    if i < s.len() {
        if !is_alpha(s[i]) {
            lemma_tokens_occur(s, i + 1);
            assert(tokens_from(s, i) == tokens_from(s, i + 1));
        } else {
            lemma_run_end(s, i + 1);
            let e = run_end(s, i + 1);
            lemma_tokens_occur(s, e);
            let w = s.subrange(i, e).map_values(|b: u8| lower(b));
            assert forall|j: int| 0 <= j < w.len() implies 97 <= #[trigger] w[j] <= 122 by {
                if j > 0 {
                    assert(is_alpha(s[i + j]));
                }
            }
            assert(s.subrange(i, i + w.len()) == s.subrange(i, e));
            let toks = tokens_from(s, i);
            let rest = tokens_from(s, e);
            assert(toks == seq![(w, i)] + rest);
            assert(w.len() == e - i);
            assert(occurs_at(s, w, i));
            assert forall|k: int| 0 <= k < toks.len() implies {
                &&& i <= (#[trigger] toks[k]).1
                &&& occurs_at(s, toks[k].0, toks[k].1)
            } by {
                if k > 0 {
                    assert(toks[k] == rest[k - 1]);
                }
            }
            assert forall|a: int, b: int| 0 <= a < b < toks.len() implies (#[trigger] toks[a]).1 < (#[trigger] toks[b]).1 by {
                assert(toks[b] == rest[b - 1]);
                if a > 0 {
                    assert(toks[a] == rest[a - 1]);
                }
            }
        }
    }
}

/// Every word that the indexer finds in a text is a non-empty run of lowercase
/// letters that stands, lowercased, at the position recorded with it, with no
/// letter right before or right after it; positions increase from each word
/// to the next.
pub proof fn law_tokens_are_words(s: Seq<u8>)
    ensures
        forall|k: int| 0 <= k < tokens_from(s, 0).len() ==>
            occurs_at(s, (#[trigger] tokens_from(s, 0)[k]).0, tokens_from(s, 0)[k].1),
        forall|a: int, b: int| 0 <= a < b < tokens_from(s, 0).len() ==>
            (#[trigger] tokens_from(s, 0)[a]).1 < (#[trigger] tokens_from(s, 0)[b]).1,
{
    lemma_tokens_occur(s, 0);
}

proof fn lemma_add_tokens_occur(s: Seq<u8>, toks: Seq<(Seq<u8>, int)>)
    requires
        s.len() <= usize::MAX,
        forall|k: int| 0 <= k < toks.len() ==> occurs_at(s, (#[trigger] toks[k]).0, toks[k].1),
        forall|a: int, b: int| 0 <= a < b < toks.len() ==> (#[trigger] toks[a]).1 < (#[trigger] toks[b]).1,
    ensures
        ({
            let m = add_tokens(Map::empty(), toks);
            forall|w: Seq<u8>| #[trigger] m.contains_key(w) ==> {
                &&& m[w].len() > 0
                &&& forall|j: int| 0 <= j < m[w].len() ==> occurs_at(s, w, #[trigger] m[w][j] as int)
                &&& forall|a: int, b: int| 0 <= a < b < m[w].len() ==> #[trigger] m[w][a] < #[trigger] m[w][b]
                &&& forall|j: int| 0 <= j < m[w].len() ==> #[trigger] m[w][j] <= toks.last().1
            }
        }),
    decreases toks.len(),
{
    if toks.len() > 0 {
        let pre = toks.drop_last();
        assert forall|k: int| 0 <= k < pre.len() implies occurs_at(s, (#[trigger] pre[k]).0, pre[k].1) by {
            assert(pre[k] == toks[k]);
        }
        assert forall|a: int, b: int| 0 <= a < b < pre.len() implies (#[trigger] pre[a]).1 < (#[trigger] pre[b]).1 by {
            assert(pre[a] == toks[a] && pre[b] == toks[b]);
        }
        lemma_add_tokens_occur(s, pre);
        let m0 = add_tokens(Map::empty(), pre);
        let t = toks.last();
        assert(occurs_at(s, toks[toks.len() - 1].0, toks[toks.len() - 1].1));
        let p = t.1 as usize;
        assert(p as int == t.1);
        let m = add_tokens(Map::empty(), toks);
        assert(m == add_position(m0, t.0, p));
        assert forall|w: Seq<u8>| #[trigger] m.contains_key(w) implies {
            &&& m[w].len() > 0
            &&& forall|j: int| 0 <= j < m[w].len() ==> occurs_at(s, w, #[trigger] m[w][j] as int)
            &&& forall|a: int, b: int| 0 <= a < b < m[w].len() ==> #[trigger] m[w][a] < #[trigger] m[w][b]
            &&& forall|j: int| 0 <= j < m[w].len() ==> #[trigger] m[w][j] <= toks.last().1
        } by {
            if w == t.0 {
                if m0.contains_key(w) {
                    assert(m[w] == m0[w].push(p));
                    assert(pre.len() > 0);
                    assert(pre.last() == toks[toks.len() - 2]);
                    assert forall|j: int| 0 <= j < m0[w].len() implies #[trigger] m0[w][j] < p by {
                        assert(m0[w][j] <= pre.last().1);
                    }
                    assert forall|j: int| 0 <= j < m[w].len() implies occurs_at(s, w, #[trigger] m[w][j] as int) by {
                        if j < m0[w].len() {
                            assert(m[w][j] == m0[w][j]);
                        }
                    }
                    assert forall|a: int, b: int| 0 <= a < b < m[w].len() implies #[trigger] m[w][a] < #[trigger] m[w][b] by {
                        assert(m[w][a] == m0[w][a]);
                        if b < m0[w].len() {
                            assert(m[w][b] == m0[w][b]);
                        }
                    }
                    assert forall|j: int| 0 <= j < m[w].len() implies #[trigger] m[w][j] <= toks.last().1 by {
                        if j < m0[w].len() {
                            assert(m[w][j] == m0[w][j]);
                        }
                    }
                } else {
                    assert(m[w] == seq![p]);
                }
            } else {
                assert(m[w] == m0[w]);
                assert(pre.last() == toks[toks.len() - 2]);
                assert forall|j: int| 0 <= j < m[w].len() implies #[trigger] m[w][j] <= toks.last().1 by {
                    assert(m0[w][j] <= pre.last().1);
                }
            }
        }
    }
}

/// In the index of a text, every word is a non-empty run of lowercase letters,
/// and each position recorded for it is a place in the text where it stands;
/// its positions are in increasing order.
pub proof fn law_index_positions(s: Seq<u8>)
    requires
        s.len() <= usize::MAX,
    ensures
        ({
            let m = add_tokens(Map::empty(), tokens_from(s, 0));
            forall|w: Seq<u8>| #[trigger] m.contains_key(w) ==> {
                &&& is_word(w)
                &&& m[w].len() > 0
                &&& forall|j: int| 0 <= j < m[w].len() ==> occurs_at(s, w, #[trigger] m[w][j] as int)
                &&& forall|a: int, b: int| 0 <= a < b < m[w].len() ==> #[trigger] m[w][a] < #[trigger] m[w][b]
            }
        }),
{
    law_tokens_are_words(s);
    lemma_add_tokens_occur(s, tokens_from(s, 0));
    let m = add_tokens(Map::empty(), tokens_from(s, 0));
    assert forall|w: Seq<u8>| #[trigger] m.contains_key(w) implies is_word(w) by {
        assert(occurs_at(s, w, m[w][0] as int));
    }
}

/// A word is valid UTF-8: its letters are ASCII.
pub proof fn law_words_are_utf8(w: Seq<u8>)
    requires
        is_word(w),
    ensures
        vstd::utf8::valid_utf8(w),
{
    assert forall|i: int| 0 <= i < w.len() implies #[trigger] w[i] < 0x80 by {
        assert(97 <= w[i] <= 122);
    }
    crate::text::lemma_ascii_valid_utf8(w);
}

/// `a` and `b` differ at most in the case of ASCII letters: where one has a
/// letter the other has the same letter up to case, and where one has any
/// other byte so does the other (not necessarily the same one).
pub open spec fn same_up_to_case(a: Seq<u8>, b: Seq<u8>) -> bool {
    &&& a.len() == b.len()
    &&& forall|i: int| 0 <= i < a.len() ==> {
        &&& is_alpha(#[trigger] a[i]) == is_alpha(b[i])
        &&& (is_alpha(a[i]) ==> lower(a[i]) == lower(b[i]))
    }
}

proof fn lemma_run_end_same(a: Seq<u8>, b: Seq<u8>, i: int)
    requires
        same_up_to_case(a, b),
    ensures
        run_end(a, i) == run_end(b, i),
    decreases a.len() - i,
{
    if 0 <= i < a.len() {
        assert(is_alpha(a[i]) == is_alpha(b[i]));
        if is_alpha(a[i]) {
            lemma_run_end_same(a, b, i + 1);
        }
    }
}

proof fn lemma_tokens_same(a: Seq<u8>, b: Seq<u8>, i: int)
    requires
        same_up_to_case(a, b),
    ensures
        tokens_from(a, i) == tokens_from(b, i),
    decreases a.len() - i,
{
    if 0 <= i < a.len() {
        assert(is_alpha(a[i]) == is_alpha(b[i]));
        if !is_alpha(a[i]) {
            lemma_tokens_same(a, b, i + 1);
        } else {
            lemma_run_end_same(a, b, i + 1);
            let e = run_end(a, i + 1);
            if i < e <= a.len() {
                lemma_run_end(a, i + 1);
                lemma_tokens_same(a, b, e);
                let wa = a.subrange(i, e).map_values(|c: u8| lower(c));
                let wb = b.subrange(i, e).map_values(|c: u8| lower(c));
                assert forall|j: int| 0 <= j < wa.len() implies wa[j] == wb[j] by {
                    assert(is_alpha(a[i + j]));
                }
                assert(wa =~= wb);
            }
        }
    }
}

/// Indexing ignores the case of ASCII letters: two texts that differ at most
/// in it, and in which non-letters they hold, give the same words at the
/// same positions.
pub proof fn law_index_ignores_case(a: Seq<u8>, b: Seq<u8>, m: Map<Seq<u8>, Seq<usize>>)
    requires
        same_up_to_case(a, b),
    ensures
        tokens_from(a, 0) == tokens_from(b, 0),
        add_tokens(m, tokens_from(a, 0)) == add_tokens(m, tokens_from(b, 0)),
{
    lemma_tokens_same(a, b, 0);
}

proof fn lemma_run_end_at(s: Seq<u8>, a: int, e: int)
    requires
        0 <= a <= e <= s.len(),
        forall|j: int| a <= j < e ==> is_alpha(#[trigger] s[j]),
        e == s.len() || !is_alpha(s[e]),
    ensures
        run_end(s, a) == e,
    decreases e - a,
{
    if a < e {
        lemma_run_end_at(s, a + 1, e);
    }
}

/// The bytes of a word that stands at `p` are letters, and its letters are
/// those bytes lowercased.
proof fn lemma_occurs_letters(s: Seq<u8>, w: Seq<u8>, p: int)
    requires
        occurs_at(s, w, p),
    ensures
        0 <= p < s.len(),
        is_alpha(s[p]),
        forall|j: int| 0 <= j < w.len() ==> #[trigger] w[j] == lower(s[p + j]) && is_alpha(s[p + j]),
{
    assert(s.subrange(p, p + w.len()).map_values(|b: u8| lower(b))[0] == lower(s[p]));
    assert(97 <= w[0] <= 122);
    assert forall|j: int| 0 <= j < w.len() implies #[trigger] w[j] == lower(s[p + j]) && is_alpha(s[p + j]) by {
        assert(s.subrange(p, p + w.len()).map_values(|b: u8| lower(b))[j] == lower(s[p + j]));
        assert(97 <= w[j] <= 122);
    }
}

proof fn lemma_occurs_token(s: Seq<u8>, i: int, w: Seq<u8>, p: int)
    requires
        0 <= i <= p,
        occurs_at(s, w, p),
        i == 0 || i == s.len() || !is_alpha(s[i - 1]) || !is_alpha(s[i]),
    ensures
        exists|k: int| 0 <= k < tokens_from(s, i).len() && #[trigger] tokens_from(s, i)[k] == (w, p),
    decreases s.len() - i,
{
    lemma_occurs_letters(s, w, p);
    if !is_alpha(s[i]) {
        lemma_occurs_token(s, i + 1, w, p);
        assert(tokens_from(s, i) == tokens_from(s, i + 1));
    } else {
        lemma_run_end(s, i + 1);
        let e = run_end(s, i + 1);
        let toks = tokens_from(s, i);
        if i == p {
            assert forall|j: int| p + 1 <= j < p + w.len() implies is_alpha(#[trigger] s[j]) by {
                let q = j - p;
                assert(0 <= q < w.len());
                assert(w[q] == lower(s[p + q]) && is_alpha(s[p + q]));
                assert(p + q == j);
            }
            lemma_run_end_at(s, p + 1, p + w.len());
            assert(e == p + w.len());
            assert(s.subrange(i, e).map_values(|b: u8| lower(b)) == w);
            assert(toks[0] == (w, p));
        } else {
            assert(e <= p - 1) by {
                if e > p - 1 {
                    assert(i <= p - 1 < e);
                    if p - 1 > i {
                        assert(is_alpha(s[p - 1]));
                    }
                }
            }
            lemma_occurs_token(s, e, w, p);
            let rest = tokens_from(s, e);
            let k = choose|k: int| 0 <= k < rest.len() && #[trigger] rest[k] == (w, p);
            assert(toks == seq![(s.subrange(i, e).map_values(|b: u8| lower(b)), i)] + rest);
            assert(toks[k + 1] == rest[k]);
        }
    }
}

proof fn lemma_add_tokens_keeps(m: Map<Seq<u8>, Seq<usize>>, toks: Seq<(Seq<u8>, int)>, w: Seq<u8>, x: usize)
    requires
        m.contains_key(w),
        m[w].contains(x),
    ensures
        add_tokens(m, toks).contains_key(w),
        add_tokens(m, toks)[w].contains(x),
    decreases toks.len(),
{
    if toks.len() > 0 {
        lemma_add_tokens_keeps(m, toks.drop_last(), w, x);
        let m0 = add_tokens(m, toks.drop_last());
        let j = m0[w].index_of(x);
        if toks.last().0 == w {
            assert(add_tokens(m, toks)[w] == m0[w].push(toks.last().1 as usize));
            assert(add_tokens(m, toks)[w][j] == x);
        }
    }
}

proof fn lemma_add_tokens_contains(m: Map<Seq<u8>, Seq<usize>>, toks: Seq<(Seq<u8>, int)>, k: int)
    requires
        0 <= k < toks.len(),
    ensures
        add_tokens(m, toks).contains_key(toks[k].0),
        add_tokens(m, toks)[toks[k].0].contains(toks[k].1 as usize),
    decreases toks.len(),
{
    let pre = toks.drop_last();
    let m0 = add_tokens(m, pre);
    let t = toks.last();
    let m1 = add_tokens(m, toks);
    assert(m1 == add_position(m0, t.0, t.1 as usize));
    if k == toks.len() - 1 {
        if m0.contains_key(t.0) {
            assert(m1[t.0] == m0[t.0].push(t.1 as usize));
            assert(m1[t.0][m0[t.0].len() as int] == t.1 as usize);
        } else {
            assert(m1[t.0] == seq![t.1 as usize]);
            assert(m1[t.0][0] == t.1 as usize);
        }
    } else {
        assert(pre[k] == toks[k]);
        lemma_add_tokens_contains(m, pre, k);
        let w = toks[k].0;
        let x = toks[k].1 as usize;
        let j = m0[w].index_of(x);
        if t.0 == w {
            assert(m1[w] == m0[w].push(t.1 as usize));
            assert(m1[w][j] == x);
        } else {
            assert(m1[w] == m0[w]);
        }
    }
}

/// Every place where a word stands in a text is recorded: the index of the
/// text holds the word, with that position among its positions.
pub proof fn law_index_complete(s: Seq<u8>, w: Seq<u8>, p: int)
    requires
        occurs_at(s, w, p),
    ensures
        add_tokens(Map::empty(), tokens_from(s, 0)).contains_key(w),
        add_tokens(Map::empty(), tokens_from(s, 0))[w].contains(p as usize),
{
    lemma_occurs_token(s, 0, w, p);
    let k = choose|k: int| 0 <= k < tokens_from(s, 0).len() && #[trigger] tokens_from(s, 0)[k] == (w, p);
    lemma_add_tokens_contains(Map::empty(), tokens_from(s, 0), k);
}

/// The index of text `s` records word `w` at position `p`.
pub open spec fn recorded(s: Seq<u8>, w: Seq<u8>, p: usize) -> bool {
    let m = add_tokens(Map::empty(), tokens_from(s, 0));
    m.contains_key(w) && m[w].contains(p)
}

/// The positions that the index of a text records for a word are exactly the
/// places where the word stands in the text.
pub proof fn law_index_exact(s: Seq<u8>, w: Seq<u8>)
    requires
        s.len() <= usize::MAX,
    ensures
        forall|p: usize| #[trigger] recorded(s, w, p) <==> occurs_at(s, w, p as int),
{
    law_index_positions(s);
    assert forall|p: usize| #[trigger] recorded(s, w, p) <==> occurs_at(s, w, p as int) by {
        let m = add_tokens(Map::empty(), tokens_from(s, 0));
        if m.contains_key(w) && m[w].contains(p) {
            let j = m[w].index_of(p);
            assert(m[w][j] == p);
            assert(occurs_at(s, w, m[w][j] as int));
        }
        if occurs_at(s, w, p as int) {
            law_index_complete(s, w, p as int);
            assert((p as int) as usize == p);
        }
    }
}

/// The places in text `s` where a word stands.
pub open spec fn word_starts(s: Seq<u8>) -> Set<int> {
    Set::new(|p: int| exists|w: Seq<u8>| occurs_at(s, w, p))
}

/// The indexer finds one word occurrence per place where a word stands: the
/// number of words found is the number of those places.
pub proof fn law_word_count(s: Seq<u8>)
    ensures
        word_starts(s).finite(),
        tokens_from(s, 0).len() == word_starts(s).len(),
{
    let toks = tokens_from(s, 0);
    let ps = toks.map_values(|t: (Seq<u8>, int)| t.1);
    law_tokens_are_words(s);
    assert(ps.no_duplicates()) by {
        assert forall|i: int, j: int| 0 <= i < ps.len() && 0 <= j < ps.len() && i != j implies ps[i] != ps[j] by {
            if i < j {
                assert(toks[i].1 < toks[j].1);
            } else {
                assert(toks[j].1 < toks[i].1);
            }
        }
    }
    assert(ps.to_set() =~= word_starts(s)) by {
        assert forall|p: int| ps.to_set().contains(p) implies word_starts(s).contains(p) by {
            let k = ps.index_of(p);
            assert(occurs_at(s, toks[k].0, toks[k].1));
        }
        assert forall|p: int| word_starts(s).contains(p) implies ps.to_set().contains(p) by {
            let w = choose|w: Seq<u8>| occurs_at(s, w, p);
            lemma_occurs_token(s, 0, w, p);
            let k = choose|k: int| 0 <= k < toks.len() && #[trigger] toks[k] == (w, p);
            assert(ps[k] == p);
        }
    }
    ps.unique_seq_to_set();
    vstd::seq_lib::seq_to_set_is_finite(ps);
}

} // verus!
