//! What the reader gives back of what the writer wrote.

use vstd::prelude::*;
use crate::le::{
    le16, le32, le64, u16_bytes, u32_bytes, u64_bytes, lemma_le16_of_bytes, lemma_le32_of_bytes,
    lemma_le64_of_bytes, lemma_u32_bytes_mod,
};
use super::format::{
    PostingListView, ReadPostingsView, locs_image, posting_image, plist_image, parse_plist, parse_locs,
    posting_fits, stored_postings, chunk_image, entries_image, entry_image, written_entry, header_image,
    VocabEntry, HEADER_SIZE, VOCAB_ENTRY_SIZE, CHUNK_COUNT, MAGIC, VERSION, entry_at, entry_in_bounds,
    lemma_entries_image_len, vocab_image, words_image, vocab_size, vocab_wf, vocab_words, word_of,
    word_in_bounds, postings_of, lemma_words_image_prefix, lemma_words_image_len_mono,
};
use super::{header_result, IndexHeader, OpenError};

verus! {

broadcast use crate::le::group_le_lens;

pub proof fn lemma_locs_image_len(locs: Seq<usize>)
    ensures
        locs_image(locs).len() == 8 * locs.len(),
    decreases locs.len(),
{
    if locs.len() > 0 {
        lemma_locs_image_len(locs.drop_last());
    }
}

/// Location `k` of a location list is read back from its image.
pub proof fn lemma_locs_decode(a: Seq<u8>, locs: Seq<usize>, b: Seq<u8>, k: int)
    requires
        0 <= k < locs.len(),
    ensures
        le64(a + locs_image(locs) + b, a.len() + 8 * k) == locs[k],
    decreases locs.len(),
{
    let dl = locs.drop_last();
    lemma_locs_image_len(dl);
    if k < dl.len() {
        assert(a + locs_image(locs) + b =~= a + locs_image(dl) + (u64_bytes(locs.last() as int) + b));
        lemma_locs_decode(a, dl, u64_bytes(locs.last() as int) + b, k);
    } else {
        assert(a + locs_image(locs) + b =~= (a + locs_image(dl)) + u64_bytes(locs.last() as int) + b);
        lemma_le64_of_bytes(a + locs_image(dl), locs.last() as int, b);
    }
}

/// The locations of a list are read back from its image.
pub proof fn lemma_parse_locs(a: Seq<u8>, locs: Seq<usize>, b: Seq<u8>)
    ensures
        parse_locs(a + locs_image(locs) + b, a.len() as int, locs.len() as int)
            == locs.map_values(|l: usize| l as u64),
{
    let s = a + locs_image(locs) + b;
    assert forall|k: int| 0 <= k < locs.len() implies #[trigger] parse_locs(s, a.len() as int, locs.len() as int)[k]
        == locs.map_values(|l: usize| l as u64)[k] by {
        lemma_locs_decode(a, locs, b, k);
    }
    assert(parse_locs(s, a.len() as int, locs.len() as int) =~= locs.map_values(|l: usize| l as u64));
}

/// A posting list is read back from its image.
pub proof fn lemma_parse_plist_image(a: Seq<u8>, pl: PostingListView, b: Seq<u8>)
    requires
        forall|i: int| 0 <= i < pl.len() ==> (#[trigger] pl[i]).1.len() < 0x1_0000_0000,
    ensures
        parse_plist(a + plist_image(pl) + b, a.len() as int, pl.len())
            == Some((stored_postings(pl), (a.len() + plist_image(pl).len()) as int)),
    decreases pl.len(),
{
    if pl.len() == 0 {
        assert(stored_postings(pl) =~= Seq::<(u32, Seq<u64>)>::empty());
    } else {
        let dl = pl.drop_last();
        let p = pl.last();
        let rest = posting_image(p) + b;
        assert forall|i: int| 0 <= i < dl.len() implies (#[trigger] dl[i]).1.len() < 0x1_0000_0000 by {
            assert(dl[i] == pl[i]);
        }
        assert(a + plist_image(pl) + b =~= a + plist_image(dl) + rest);
        lemma_parse_plist_image(a, dl, rest);
        let s = a + plist_image(pl) + b;
        let e: int = (a.len() + plist_image(dl).len()) as int;
        let pre = a + plist_image(dl);
        let n = p.1.len() as int;
        // the posting's three parts
        lemma_u32_bytes_mod(p.0 as int);
        assert(s =~= pre + u32_bytes(p.0 as int % 0x1_0000_0000) + (u32_bytes(n) + locs_image(p.1) + b));
        lemma_le32_of_bytes(pre, p.0 as int % 0x1_0000_0000, u32_bytes(n) + locs_image(p.1) + b);
        assert(s =~= (pre + u32_bytes(p.0 as int)) + u32_bytes(n) + (locs_image(p.1) + b));
        lemma_le32_of_bytes(pre + u32_bytes(p.0 as int), n, locs_image(p.1) + b);
        assert(s =~= (pre + u32_bytes(p.0 as int) + u32_bytes(n)) + locs_image(p.1) + b);
        lemma_parse_locs(pre + u32_bytes(p.0 as int) + u32_bytes(n), p.1, b);
        lemma_locs_image_len(p.1);
        assert(posting_fits(s, e));
        assert(stored_postings(pl) =~= stored_postings(dl).push(
            (((p.0 as int) % 0x1_0000_0000) as u32, p.1.map_values(|l: usize| l as u64))));
        assert(plist_image(pl).len() == plist_image(dl).len() + 8 + 8 * n);
    }
}

} // verus!

verus! {

/// The bytes of chunk `c` after `i` words are a prefix of those after `k >= i` words.
pub proof fn lemma_chunk_prefix(lists: Seq<PostingListView>, c: int, i: int, k: int)
    requires
        0 <= i <= k,
    ensures
        chunk_image(lists, c, i).len() <= chunk_image(lists, c, k).len(),
        chunk_image(lists, c, k).subrange(0, chunk_image(lists, c, i).len() as int) == chunk_image(lists, c, i),
    decreases k,
{
    if i < k {
        lemma_chunk_prefix(lists, c, i, k - 1);
        let ci = chunk_image(lists, c, i);
        let ck1 = chunk_image(lists, c, k - 1);
        assert(chunk_image(lists, c, k).subrange(0, ci.len() as int) =~= ck1.subrange(0, ci.len() as int));
    } else {
        let ck = chunk_image(lists, c, k);
        assert(ck.subrange(0, ck.len() as int) =~= ck);
    }
}

/// Within the chunk of word `i`, its posting list follows the bytes of the earlier words.
pub proof fn lemma_chunk_split(lists: Seq<PostingListView>, i: int, k: int)
    requires
        0 <= i < k,
    ensures
        ({
            let c = i % (CHUNK_COUNT as int);
            let pre = chunk_image(lists, c, i);
            let all = chunk_image(lists, c, k);
            all == pre + plist_image(lists[i]) + all.skip((pre.len() + plist_image(lists[i]).len()) as int)
        }),
{
    let c = i % (CHUNK_COUNT as int);
    let pre = chunk_image(lists, c, i);
    let all = chunk_image(lists, c, k);
    assert(chunk_image(lists, c, i + 1) == pre + plist_image(lists[i]));
    lemma_chunk_prefix(lists, c, i + 1, k);
    let l = pre.len() + plist_image(lists[i]).len();
    assert(all =~= all.subrange(0, l as int) + all.skip(l as int));
}

/// The entries of the first `i` words are followed by that of word `i`.
pub proof fn lemma_entries_split(words: Seq<Seq<u8>>, lists: Seq<PostingListView>, i: int, k: int)
    requires
        0 <= i < k,
    ensures
        entries_image(words, lists, k).len() == VOCAB_ENTRY_SIZE * k,
        entries_image(words, lists, k) == entries_image(words, lists, i) + entry_image(written_entry(words, lists, i))
            + entries_image(words, lists, k).skip(VOCAB_ENTRY_SIZE * (i + 1)),
    decreases k,
{
    lemma_entries_image_len(words, lists, k);
    lemma_entries_image_len(words, lists, i);
    let all = entries_image(words, lists, k);
    if i < k - 1 {
        lemma_entries_split(words, lists, i, k - 1);
        let prev = entries_image(words, lists, k - 1);
        lemma_entries_image_len(words, lists, k - 1);
        assert(all == prev + entry_image(written_entry(words, lists, k - 1)));
        assert(all.skip(VOCAB_ENTRY_SIZE * (i + 1)) =~= prev.skip(VOCAB_ENTRY_SIZE * (i + 1))
            + entry_image(written_entry(words, lists, k - 1)));
    } else {
        assert(all.skip(VOCAB_ENTRY_SIZE * (i + 1)) =~= Seq::<u8>::empty());
    }
}

/// The fields of an entry are read back from its image.
pub proof fn lemma_entry_decode(v: Seq<u8>, a: Seq<u8>, e: VocabEntry, b: Seq<u8>, i: int)
    requires
        v == a + entry_image(e) + b,
        a.len() == HEADER_SIZE + VOCAB_ENTRY_SIZE * i,
        0 <= i,
    ensures
        entry_in_bounds(v, i),
        entry_at(v, i) == e,
{
    let f0 = u64_bytes(e.word_offset as int);
    let f1 = u32_bytes(e.word_len as int);
    let f2 = u32_bytes(e.posting_count as int);
    let f3 = seq![e.chunk_id];
    let f4 = u64_bytes(e.posting_offset as int);
    assert(v =~= a + f0 + (f1 + f2 + f3 + f4 + b));
    lemma_le64_of_bytes(a, e.word_offset as int, f1 + f2 + f3 + f4 + b);
    assert(v =~= (a + f0) + f1 + (f2 + f3 + f4 + b));
    lemma_le32_of_bytes(a + f0, e.word_len as int, f2 + f3 + f4 + b);
    assert(v =~= (a + f0 + f1) + f2 + (f3 + f4 + b));
    lemma_le32_of_bytes(a + f0 + f1, e.posting_count as int, f3 + f4 + b);
    assert(v[a.len() + 16int] == e.chunk_id);
    assert(v =~= (a + f0 + f1 + f2 + f3) + f4 + b);
    lemma_le64_of_bytes(a + f0 + f1 + f2 + f3, e.posting_offset as int, b);
}

/// The header fields are read back from the header image.
pub proof fn lemma_header_decode(word_count: int, doc_count: int, avg_bits: int, rest: Seq<u8>)
    requires
        0 <= word_count < 0x1_0000_0000,
        0 <= doc_count < 0x1_0000_0000,
        0 <= avg_bits < 0x1_0000_0000,
    ensures
        header_result(header_image(word_count, doc_count, avg_bits) + rest) == Ok::<IndexHeader, OpenError>(
            IndexHeader {
                word_count: word_count as u32,
                chunk_count: CHUNK_COUNT,
                doc_count: doc_count as u32,
                avg_doc_len_bits: avg_bits as u32,
            },
        ),
{
    let v = header_image(word_count, doc_count, avg_bits) + rest;
    let h0 = u32_bytes(MAGIC as int);
    let h1 = u16_bytes(VERSION as int);
    let h2 = u32_bytes(word_count);
    let h3 = seq![CHUNK_COUNT];
    let h4 = u32_bytes(doc_count);
    let h5 = u32_bytes(avg_bits);
    let e = Seq::<u8>::empty();
    assert(v =~= e + h0 + (h1 + h2 + h3 + h4 + h5 + rest));
    lemma_le32_of_bytes(e, MAGIC as int, h1 + h2 + h3 + h4 + h5 + rest);
    assert(v =~= h0 + h1 + (h2 + h3 + h4 + h5 + rest));
    lemma_le16_of_bytes(h0, VERSION as int, h2 + h3 + h4 + h5 + rest);
    assert(v =~= (h0 + h1) + h2 + (h3 + h4 + h5 + rest));
    lemma_le32_of_bytes(h0 + h1, word_count, h3 + h4 + h5 + rest);
    assert(v[10] == CHUNK_COUNT);
    assert(v =~= (h0 + h1 + h2 + h3) + h4 + (h5 + rest));
    lemma_le32_of_bytes(h0 + h1 + h2 + h3, doc_count, h5 + rest);
    assert(v =~= (h0 + h1 + h2 + h3 + h4) + h5 + rest);
    lemma_le32_of_bytes(h0 + h1 + h2 + h3 + h4, avg_bits, rest);
}

} // verus!

verus! {

/// The chunk files that the writer produces for these posting lists.
pub open spec fn written_chunks(lists: Seq<PostingListView>) -> Seq<Seq<u8>> {
    Seq::new(CHUNK_COUNT as nat, |c: int| chunk_image(lists, c, lists.len() as int))
}

/// The inputs on which the writer's fields do not wrap: fewer than 2^32
/// words, each shorter than 2^32 bytes with fewer than 2^32 postings of
/// fewer than 2^32 positions each, and files shorter than 2^64 bytes.
pub open spec fn fits_format(words: Seq<Seq<u8>>, lists: Seq<PostingListView>) -> bool {
    &&& words.len() == lists.len()
    &&& words.len() < 0x1_0000_0000
    &&& forall|i: int| 0 <= i < words.len() ==> (#[trigger] words[i]).len() < 0x1_0000_0000
    &&& forall|i: int| 0 <= i < lists.len() ==> (#[trigger] lists[i]).len() < 0x1_0000_0000
    &&& forall|i: int, j: int| 0 <= i < lists.len() && 0 <= j < lists[i].len() ==> (#[trigger] lists[i][j]).1.len()
        < 0x1_0000_0000
    &&& vocab_size(words) < 0x1_0000_0000_0000_0000
    &&& forall|c: int| 0 <= c < CHUNK_COUNT ==> (#[trigger] chunk_image(lists, c, lists.len() as int)).len()
        < 0x1_0000_0000_0000_0000
}

/// Reading back a written vocabulary: the header holds the counts, the
/// files can be searched, and word `i` and its postings are those written,
/// document ids in 32 bits.
#[verifier::spinoff_prover]
#[verifier::rlimit(40)]
pub proof fn law_vocab_reads_back(words: Seq<Seq<u8>>, lists: Seq<PostingListView>, doc_count: u32, avg_bits: u32)
    requires
        fits_format(words, lists),
        crate::lex::strictly_sorted(words),
        forall|i: int| 0 <= i < words.len() ==> vstd::utf8::valid_utf8(#[trigger] words[i]),
    ensures
        ({
            let v = vocab_image(words, lists, doc_count as int, avg_bits as int);
            let cs = written_chunks(lists);
            &&& header_result(v) == Ok::<IndexHeader, OpenError>(IndexHeader {
                word_count: words.len() as u32,
                chunk_count: CHUNK_COUNT,
                doc_count,
                avg_doc_len_bits: avg_bits,
            })
            &&& vocab_wf(v, cs, words.len())
            &&& vocab_words(v, words.len()) == words
            &&& forall|i: int| 0 <= i < words.len() ==> #[trigger] postings_of(v, cs, i) == Some(
                stored_postings(lists[i]),
            )
        }),
{
    let n = words.len() as int;
    let v = vocab_image(words, lists, doc_count as int, avg_bits as int);
    let cs = written_chunks(lists);
    lemma_header_of_vocab(words, lists, doc_count, avg_bits);
    lemma_all_words_and_postings(words, lists, doc_count, avg_bits);
    assert forall|i: int| 0 <= i < n implies #[trigger] word_in_bounds(v, i) by {
        assert(word_reads_back(words, lists, doc_count, avg_bits, i));
    }
    assert forall|i: int| 0 <= i < n implies #[trigger] postings_of(v, cs, i) == Some(stored_postings(lists[i])) by {
        assert(word_reads_back(words, lists, doc_count, avg_bits, i));
    }
    assert forall|i: int| 0 <= i < n implies #[trigger] word_of(v, i) == words[i] by {
        assert(word_reads_back(words, lists, doc_count, avg_bits, i));
    }
    assert(vocab_words(v, words.len()) =~= words);
}

/// Looking a word up in a written index finds it exactly when it was written,
/// at its place in the sorted word list, with the postings written for it.
pub proof fn law_lookup_reads_back(
    words: Seq<Seq<u8>>,
    lists: Seq<PostingListView>,
    doc_count: u32,
    avg_bits: u32,
    w: Seq<u8>,
)
    requires
        fits_format(words, lists),
        crate::lex::strictly_sorted(words),
        forall|i: int| 0 <= i < words.len() ==> vstd::utf8::valid_utf8(#[trigger] words[i]),
    ensures
        ({
            let v = vocab_image(words, lists, doc_count as int, avg_bits as int);
            let cs = written_chunks(lists);
            match super::search::find_word(v, words.len(), w) {
                None => !words.contains(w),
                Some(i) => {
                    &&& 0 <= i < words.len()
                    &&& words[i] == w
                    &&& postings_of(v, cs, i) == Some(stored_postings(lists[i]))
                },
            }
        }),
{
    let v = vocab_image(words, lists, doc_count as int, avg_bits as int);
    law_vocab_reads_back(words, lists, doc_count, avg_bits);
    assert forall|i: int| 0 <= i < words.len() implies #[trigger] word_of(v, i) == words[i] by {
        assert(vocab_words(v, words.len())[i] == word_of(v, i));
    }
    if words.contains(w) {
        let k = words.index_of(w);
        assert(word_of(v, k) == w);
    }
}

/// The number of bytes the writer gives a posting list: per posting, four
/// for the document id, four for the count, eight per location.
pub open spec fn plist_size(pl: PostingListView) -> int
    decreases pl.len(),
{
    if pl.len() == 0 {
        0
    } else {
        plist_size(pl.drop_last()) + 8 + 8 * pl.last().1.len()
    }
}

/// The bytes that the posting lists of the words before `i` which go to
/// chunk `c` take up.
pub open spec fn chunk_size(lists: Seq<PostingListView>, c: int, i: int) -> int
    decreases i,
{
    if i <= 0 {
        0
    } else if (i - 1) % (CHUNK_COUNT as int) == c {
        chunk_size(lists, c, i - 1) + plist_size(lists[i - 1])
    } else {
        chunk_size(lists, c, i - 1)
    }
}

/// The total length of the words before `i`.
pub open spec fn words_size(words: Seq<Seq<u8>>, i: int) -> int
    decreases i,
{
    if i <= 0 {
        0
    } else {
        words_size(words, i - 1) + words[i - 1].len()
    }
}

proof fn lemma_plist_size(pl: PostingListView)
    ensures
        plist_image(pl).len() == plist_size(pl),
    decreases pl.len(),
{
    if pl.len() > 0 {
        lemma_plist_size(pl.drop_last());
        lemma_locs_image_len(pl.last().1);
    }
}

proof fn lemma_chunk_size(lists: Seq<PostingListView>, c: int, i: int)
    requires
        0 <= i <= lists.len(),
    ensures
        chunk_image(lists, c, i).len() == chunk_size(lists, c, i),
    decreases i,
{
    if i > 0 {
        lemma_chunk_size(lists, c, i - 1);
        lemma_plist_size(lists[i - 1]);
    }
}

proof fn lemma_words_size(words: Seq<Seq<u8>>, i: int)
    ensures
        words_image(words, i).len() == words_size(words, i),
    decreases i,
{
    if i > 0 {
        lemma_words_size(words, i - 1);
    }
}

/// The vocabulary entry of word `i` reads back as written: the word's
/// offset past the header, the entries and the words before it; its length;
/// its number of postings; chunk `i % 8`; and the offset in that chunk past
/// the posting lists of the earlier words of the same chunk.
pub proof fn law_entry_reads_back(
    words: Seq<Seq<u8>>,
    lists: Seq<PostingListView>,
    doc_count: u32,
    avg_bits: u32,
    i: int,
)
    requires
        fits_format(words, lists),
        0 <= i < words.len(),
    ensures
        ({
            let v = vocab_image(words, lists, doc_count as int, avg_bits as int);
            &&& entry_in_bounds(v, i)
            &&& entry_at(v, i) == VocabEntry {
                word_offset: (HEADER_SIZE + VOCAB_ENTRY_SIZE * words.len() + words_size(words, i)) as u64,
                word_len: words[i].len() as u32,
                posting_count: lists[i].len() as u32,
                chunk_id: (i % (CHUNK_COUNT as int)) as u8,
                posting_offset: chunk_size(lists, i % (CHUNK_COUNT as int), i) as u64,
            }
        }),
{
    lemma_entry_of_vocab(words, lists, doc_count, avg_bits, i);
    lemma_words_size(words, i);
    lemma_chunk_size(lists, i % (CHUNK_COUNT as int), i);
    assert(words[i].len() % 0x1_0000_0000 == words[i].len());
    assert(lists[i].len() % 0x1_0000_0000 == lists[i].len());
}

proof fn lemma_header_of_vocab(words: Seq<Seq<u8>>, lists: Seq<PostingListView>, doc_count: u32, avg_bits: u32)
    requires
        fits_format(words, lists),
    ensures
        header_result(vocab_image(words, lists, doc_count as int, avg_bits as int)) == Ok::<IndexHeader, OpenError>(
            IndexHeader {
                word_count: words.len() as u32,
                chunk_count: CHUNK_COUNT,
                doc_count,
                avg_doc_len_bits: avg_bits,
            },
        ),
{
    let n = words.len() as int;
    let hdr = header_image(n, doc_count as int, avg_bits as int);
    let ents = entries_image(words, lists, n);
    let wimg = words_image(words, n);
    lemma_header_decode(n, doc_count as int, avg_bits as int, ents + wimg);
    assert(vocab_image(words, lists, doc_count as int, avg_bits as int) =~= hdr + (ents + wimg));
}

/// Word `i` and its postings are read back as written.
pub open spec fn word_reads_back(words: Seq<Seq<u8>>, lists: Seq<PostingListView>, doc_count: u32, avg_bits: u32, i: int) -> bool {
    let v = vocab_image(words, lists, doc_count as int, avg_bits as int);
    &&& word_in_bounds(v, i)
    &&& word_of(v, i) == words[i]
    &&& postings_of(v, written_chunks(lists), i) == Some(stored_postings(lists[i]))
}

proof fn lemma_all_words_and_postings(words: Seq<Seq<u8>>, lists: Seq<PostingListView>, doc_count: u32, avg_bits: u32)
    requires
        fits_format(words, lists),
    ensures
        forall|i: int| 0 <= i < words.len() ==> #[trigger] word_reads_back(words, lists, doc_count, avg_bits, i),
{
    assert forall|i: int| 0 <= i < words.len() implies #[trigger] word_reads_back(words, lists, doc_count, avg_bits, i) by {
        lemma_word_and_postings(words, lists, doc_count, avg_bits, i);
    }
}

proof fn lemma_word_and_postings(
    words: Seq<Seq<u8>>,
    lists: Seq<PostingListView>,
    doc_count: u32,
    avg_bits: u32,
    i: int,
)
    requires
        fits_format(words, lists),
        0 <= i < words.len(),
    ensures
        ({
            let v = vocab_image(words, lists, doc_count as int, avg_bits as int);
            let cs = written_chunks(lists);
            &&& word_in_bounds(v, i)
            &&& word_of(v, i) == words[i]
            &&& postings_of(v, cs, i) == Some(stored_postings(lists[i]))
        }),
{
    let v = vocab_image(words, lists, doc_count as int, avg_bits as int);
    lemma_entry_of_vocab(words, lists, doc_count, avg_bits, i);
    lemma_word_of_vocab(words, lists, doc_count, avg_bits, i);
    lemma_postings_of_chunks(words, lists, v, i);
}

proof fn lemma_entry_of_vocab(words: Seq<Seq<u8>>, lists: Seq<PostingListView>, doc_count: u32, avg_bits: u32, i: int)
    requires
        fits_format(words, lists),
        0 <= i < words.len(),
    ensures
        entry_in_bounds(vocab_image(words, lists, doc_count as int, avg_bits as int), i),
        entry_at(vocab_image(words, lists, doc_count as int, avg_bits as int), i) == written_entry(words, lists, i),
{
    let n = words.len() as int;
    let v = vocab_image(words, lists, doc_count as int, avg_bits as int);
    let hdr = header_image(n, doc_count as int, avg_bits as int);
    let ents = entries_image(words, lists, n);
    let wimg = words_image(words, n);
    let e = written_entry(words, lists, i);
    lemma_entries_split(words, lists, i, n);
    lemma_entries_image_len(words, lists, i);
    let a = hdr + entries_image(words, lists, i);
    let b = ents.skip(VOCAB_ENTRY_SIZE * (i + 1)) + wimg;
    assert(v =~= a + entry_image(e) + b);
    lemma_entry_decode(v, a, e, b, i);
}

proof fn lemma_word_of_vocab(words: Seq<Seq<u8>>, lists: Seq<PostingListView>, doc_count: u32, avg_bits: u32, i: int)
    requires
        fits_format(words, lists),
        0 <= i < words.len(),
        entry_in_bounds(vocab_image(words, lists, doc_count as int, avg_bits as int), i),
        entry_at(vocab_image(words, lists, doc_count as int, avg_bits as int), i) == written_entry(words, lists, i),
    ensures
        word_in_bounds(vocab_image(words, lists, doc_count as int, avg_bits as int), i),
        word_of(vocab_image(words, lists, doc_count as int, avg_bits as int), i) == words[i],
{
    let n = words.len() as int;
    let v = vocab_image(words, lists, doc_count as int, avg_bits as int);
    let wimg = words_image(words, n);
    let pre_len = HEADER_SIZE + VOCAB_ENTRY_SIZE * n;
    lemma_entries_image_len(words, lists, n);
    assert(v.len() == pre_len + wimg.len());
    lemma_words_image_prefix(words, i, n);
    let wi = words_image(words, i);
    let off = pre_len + wi.len();
    let e = written_entry(words, lists, i);
    assert(e.word_offset as int == off);
    assert(e.word_len as int == words[i].len());
    assert forall|k: int| 0 <= k < words[i].len() implies v[off + k] == words[i][k] by {
        assert(v[off + k] == wimg[wi.len() + k]);
        assert(wimg.subrange(0, (wi.len() + words[i].len()) as int)[wi.len() + k] == (wi + words[i])[wi.len() + k]);
    }
    assert(v.subrange(off, off + words[i].len()) =~= words[i]);
}

proof fn lemma_postings_of_chunks(words: Seq<Seq<u8>>, lists: Seq<PostingListView>, v: Seq<u8>, i: int)
    requires
        fits_format(words, lists),
        0 <= i < words.len(),
        entry_in_bounds(v, i),
        entry_at(v, i) == written_entry(words, lists, i),
    ensures
        postings_of(v, written_chunks(lists), i) == Some(stored_postings(lists[i])),
{
    let n = words.len() as int;
    let cs = written_chunks(lists);
    let e = written_entry(words, lists, i);
    let c = i % (CHUNK_COUNT as int);
    lemma_chunk_split(lists, i, n);
    let pre = chunk_image(lists, c, i);
    let all = chunk_image(lists, c, n);
    lemma_chunk_prefix(lists, c, i, n);
    assert(cs[c] == all);
    assert(e.posting_offset as int == pre.len());
    assert(e.posting_count as nat == lists[i].len());
    assert forall|j: int| 0 <= j < lists[i].len() implies (#[trigger] lists[i][j]).1.len() < 0x1_0000_0000 by {
    }
    lemma_parse_plist_image(pre, lists[i], all.skip((pre.len() + plist_image(lists[i]).len()) as int));
}

} // verus!
