//! The per-document files: document lengths and titles.

use vstd::prelude::*;
use std::collections::HashMap;
use vstd::std_specs::iter::IteratorSpec;
use crate::le::{
    le16, le32, u16_bytes, u32_bytes, push_u16, push_u32, push_bytes, lemma_u16_bytes_mod, lemma_u32_bytes_mod,
    lemma_le16_of_bytes, lemma_le32_of_bytes,
};
use super::format::{
    doc_lengths_of, meta_max_id, meta_lengths_base, meta_strings_base, title_offset, title_len, title_readable,
    title_bytes,
};

verus! {

broadcast use crate::le::group_le_lens, vstd::std_specs::hash::group_hash_axioms;

/// `mx` is the largest key of `m`, or 0 when `m` is empty.
pub open spec fn is_max_key<V>(m: Map<usize, V>, mx: usize) -> bool {
    &&& (m.dom().is_empty() ==> mx == 0)
    &&& forall|k: usize| #[trigger] m.contains_key(k) ==> k <= mx
    &&& (!m.dom().is_empty() ==> m.contains_key(mx))
}

/// The largest key of `m`, or 0 when `m` is empty.
pub open spec fn max_key<V>(m: Map<usize, V>) -> usize {
    choose|mx: usize| is_max_key(m, mx)
}

pub proof fn lemma_max_key_unique<V>(m: Map<usize, V>, a: usize, b: usize)
    requires
        is_max_key(m, a),
        is_max_key(m, b),
    ensures
        a == b,
{
    if !m.dom().is_empty() {
        assert(m.contains_key(a) && m.contains_key(b));
    }
}

/// The largest key of `m`, or 0 when `m` is empty.
pub fn max_doc_id<V>(m: &HashMap<usize, V>) -> (mx: usize)
    ensures
        is_max_key(m@, mx),
        mx == max_key(m@),
{
    let mut mx: usize = 0;
    let mut seen: bool = false;
    for (k, _v) in it: m.iter()
        invariant
            seen ==> m@.contains_key(mx),
            !seen ==> mx == 0,
            forall|j: int| 0 <= j < it.index() ==> *(#[trigger] it.seq()[j]).0 <= mx,
            seen <==> it.index() > 0,
            it.seq() == vstd::std_specs::hash::spec_hash_map_iter(m).remaining(),
    {
        proof {
            assert(m@.contains_key(*it.seq()[it.index() as int].0));
        }
        if !seen || *k > mx {
            mx = *k;
        }
        seen = true;
    }
    proof {
        let v = vstd::std_specs::hash::spec_hash_map_iter(m).remaining();
        assert forall|k: usize| #[trigger] m@.contains_key(k) implies k <= mx by {
            assert(v.contains((&k, &m@[k])));
        }
        if !m@.dom().is_empty() {
            let k = m@.dom().choose();
            assert(m@.contains_key(k));
            assert(v.contains((&k, &m@[k])));
            assert(seen);
        }
        assert(is_max_key(m@, mx));
        lemma_max_key_unique(m@, mx, max_key(m@));
    }
    mx
}

} // verus!

verus! {

/// The length of document `i` in `m`, 0 when `m` has none.
pub open spec fn length_or_zero(m: Map<usize, u32>, i: int) -> int {
    if 0 <= i <= usize::MAX && m.contains_key(i as usize) {
        m[i as usize] as int
    } else {
        0
    }
}

/// The pieces `f(0) .. f(k - 1)`, one after the other.
pub open spec fn concat_pieces(f: spec_fn(int) -> Seq<u8>, k: int) -> Seq<u8>
    decreases k,
{
    if k <= 0 {
        seq![]
    } else {
        concat_pieces(f, k - 1) + f(k - 1)
    }
}

/// The document-length file for documents `0 .. k`.
pub open spec fn doclen_image(m: Map<usize, u32>, k: int) -> Seq<u8> {
    concat_pieces(|i: int| u32_bytes(length_or_zero(m, i)), k)
}

/// The total length of documents `0 .. k`.
pub open spec fn length_total(m: Map<usize, u32>, k: int) -> int
    decreases k,
{
    if k <= 0 {
        0
    } else {
        length_total(m, k - 1) + length_or_zero(m, k - 1)
    }
}

proof fn lemma_length_total_bound(m: Map<usize, u32>, k: int)
    requires
        0 <= k,
    ensures
        0 <= length_total(m, k) <= k * 0xffff_ffff,
    decreases k,
{
    if k > 0 {
        lemma_length_total_bound(m, k - 1);
    }
}

/// Builds the document-length file: one `u32` per document id from 0 to the
/// largest, 0 for an id without a length.
pub fn encode_doc_lengths(doc_lengths: &HashMap<usize, u32>) -> (r: Vec<u8>)
    ensures
        r@ == doclen_image(doc_lengths@, max_key(doc_lengths@) + 1),
{
    let mx: usize = max_doc_id(doc_lengths);
    let mut r: Vec<u8> = Vec::new();
    let mut i: usize = 0;
    loop
        invariant
            i <= mx,
            mx == max_key(doc_lengths@),
            r@ == doclen_image(doc_lengths@, i as int),
        decreases mx - i,
    {
        let len: u32 = match doc_lengths.get(&i) {
            Some(l) => *l,
            None => 0,
        };
        push_u32(&mut r, len);
        if i == mx {
            return r;
        }
        i = i + 1;
    }
}

/// The total length of all documents.
pub fn total_doc_words(doc_lengths: &HashMap<usize, u32>) -> (t: u128)
    ensures
        t == length_total(doc_lengths@, max_key(doc_lengths@) + 1),
{
    let mx: usize = max_doc_id(doc_lengths);
    let mut t: u128 = 0;
    let mut i: usize = 0;
    loop
        invariant
            i <= mx,
            mx == max_key(doc_lengths@),
            t == length_total(doc_lengths@, i as int),
        decreases mx - i,
    {
        proof {
            lemma_length_total_bound(doc_lengths@, i as int);
        }
        let len: u32 = match doc_lengths.get(&i) {
            Some(l) => *l,
            None => 0,
        };
        t = t + len as u128;
        if i == mx {
            return t;
        }
        i = i + 1;
    }
}

/// The title bytes of each document.
pub open spec fn title_byte_map(titles: Map<usize, String>) -> Map<usize, Seq<u8>> {
    titles.map_values(|s: String| vstd::utf8::encode_utf8(s@))
}

/// The title bytes of document `i`, empty when it has no title.
pub open spec fn title_or_empty(t: Map<usize, Seq<u8>>, i: int) -> Seq<u8> {
    if 0 <= i <= usize::MAX && t.contains_key(i as usize) {
        t[i as usize]
    } else {
        seq![]
    }
}

/// The title bytes of documents `0 .. k`, one after the other.
pub open spec fn strings_image(t: Map<usize, Seq<u8>>, k: int) -> Seq<u8> {
    concat_pieces(|i: int| title_or_empty(t, i), k)
}

/// The stored offset of the title of document `i`: where it starts among
/// the title bytes, 0 for a document without a title.
pub open spec fn offset_field(t: Map<usize, Seq<u8>>, i: int) -> int {
    if 0 <= i <= usize::MAX && t.contains_key(i as usize) { strings_image(t, i).len() as int } else { 0 }
}

/// The title offsets of documents `0 .. k`.
pub open spec fn offsets_image(t: Map<usize, Seq<u8>>, k: int) -> Seq<u8> {
    concat_pieces(|i: int| u32_bytes(offset_field(t, i)), k)
}

/// The title lengths of documents `0 .. k`.
pub open spec fn lengths_image(t: Map<usize, Seq<u8>>, k: int) -> Seq<u8> {
    concat_pieces(|i: int| u16_bytes(title_or_empty(t, i).len() as int), k)
}

/// The metadata file for titles `t` whose largest document id is `mx`.
pub open spec fn meta_image(t: Map<usize, Seq<u8>>, mx: int) -> Seq<u8> {
    u32_bytes(mx) + offsets_image(t, mx + 1) + lengths_image(t, mx + 1) + strings_image(t, mx + 1)
}

/// Builds the metadata file: the largest document id, then per document id
/// the offset and the length of its title, then the titles' bytes.
pub fn encode_titles(titles: &HashMap<usize, String>) -> (r: Vec<u8>)
    requires
        forall|k: usize| #[trigger] titles@.contains_key(k) ==> k <= u32::MAX,
    ensures
        r@ == meta_image(title_byte_map(titles@), max_key(titles@) as int),
{
    let ghost t = title_byte_map(titles@);
    let mx: usize = max_doc_id(titles);
    assert(mx <= u32::MAX) by {
        if !titles@.dom().is_empty() {
            assert(titles@.contains_key(mx));
        }
    }
    let mut offsets: Vec<u8> = Vec::new();
    let mut lengths: Vec<u8> = Vec::new();
    let mut strings: Vec<u8> = Vec::new();
    let mut i: usize = 0;
    loop
        invariant
            i <= mx,
            mx <= u32::MAX,
            mx == max_key(titles@),
            t == title_byte_map(titles@),
            offsets@ == offsets_image(t, i as int),
            lengths@ == lengths_image(t, i as int),
            strings@ == strings_image(t, i as int),
        decreases mx - i,
    {
        match titles.get(&i) {
            Some(title) => {
                let bytes: &[u8] = title.as_str().as_bytes();
                assert(t.contains_key(i) && t[i] == bytes@);
                proof {
                    lemma_u32_bytes_mod(strings@.len() as int);
                    lemma_u16_bytes_mod(bytes@.len() as int);
                }
                push_u32(&mut offsets, (strings.len() as u64 % 0x1_0000_0000) as u32);
                push_u16(&mut lengths, (bytes.len() as u64 % 0x1_0000) as u16);
                push_bytes(&mut strings, bytes);
            },
            None => {
                assert(!t.contains_key(i));
                push_u32(&mut offsets, 0);
                push_u16(&mut lengths, 0);
            },
        }
        if i == mx {
            let mut meta: Vec<u8> = Vec::new();
            push_u32(&mut meta, mx as u32);
            meta.append(&mut offsets);
            meta.append(&mut lengths);
            meta.append(&mut strings);
            assert(meta@ =~= meta_image(t, mx as int));
            return meta;
        }
        i = i + 1;
    }
}

} // verus!

verus! {

proof fn lemma_concat_fixed_len(f: spec_fn(int) -> Seq<u8>, w: int, k: int)
    requires
        0 <= k,
        forall|j: int| 0 <= j < k ==> (#[trigger] f(j)).len() == w,
    ensures
        concat_pieces(f, k).len() == w * k,
    decreases k,
{
    if k > 0 {
        lemma_concat_fixed_len(f, w, k - 1);
        assert(concat_pieces(f, k) == concat_pieces(f, k - 1) + f(k - 1));
        assert(f(k - 1).len() == w);
        assert(w * k == w * (k - 1) + w) by (nonlinear_arith);
    } else {
        assert(w * k == 0) by (nonlinear_arith)
            requires
                k == 0,
        ;
    }
}

/// Piece `i` follows the pieces before it.
proof fn lemma_concat_split(f: spec_fn(int) -> Seq<u8>, i: int, n: int)
    requires
        0 <= i < n,
    ensures
        concat_pieces(f, n) == concat_pieces(f, i) + f(i) + concat_pieces(f, n).skip(
            (concat_pieces(f, i).len() + f(i).len()) as int,
        ),
    decreases n,
{
    let all = concat_pieces(f, n);
    let l = (concat_pieces(f, i).len() + f(i).len()) as int;
    if i < n - 1 {
        lemma_concat_split(f, i, n - 1);
        let prev = concat_pieces(f, n - 1);
        assert(all.skip(l) =~= prev.skip(l) + f(n - 1));
    } else {
        assert(all.skip(l) =~= Seq::<u8>::empty());
    }
    assert(all =~= concat_pieces(f, i) + f(i) + all.skip(l));
}

/// Reading back the document-length file: the length of every document id,
/// 0 for one without a length.
pub proof fn law_doc_lengths_read_back(m: Map<usize, u32>, mx: usize, d: int)
    requires
        is_max_key(m, mx),
        0 <= d,
    ensures
        ({
            let ls = doc_lengths_of(doclen_image(m, mx + 1));
            ls.len() == mx + 1 && (if d < ls.len() { ls[d] as int } else { 0 }) == length_or_zero(m, d)
        }),
{
    let n = mx + 1;
    let f = |i: int| u32_bytes(length_or_zero(m, i));
    let img = doclen_image(m, n);
    assert forall|j: int| 0 <= j < n implies (#[trigger] f(j)).len() == 4 by {}
    lemma_concat_fixed_len(f, 4, n);
    let ls = doc_lengths_of(img);
    if d < n {
        lemma_concat_split(f, d, n);
        lemma_concat_fixed_len(f, 4, d);
        assert(0 <= length_or_zero(m, d) < 0x1_0000_0000);
        lemma_le32_of_bytes(concat_pieces(f, d), length_or_zero(m, d), img.skip(4 * d + 4));
        assert(ls[d] as int == le32(img, 4 * d));
    } else {
        if 0 <= d <= usize::MAX && m.contains_key(d as usize) {
            assert(d as usize <= mx);
        }
    }
}

/// The fixed-size parts of the metadata file and where they lie.
proof fn lemma_meta_layout(t: Map<usize, Seq<u8>>, mx: usize)
    requires
        mx <= u32::MAX,
    ensures
        ({
            let n = mx + 1;
            let m = meta_image(t, mx as int);
            &&& offsets_image(t, n).len() == 4 * n
            &&& lengths_image(t, n).len() == 2 * n
            &&& meta_max_id(m) == mx
            &&& meta_lengths_base(m) == 4 + 4 * n
            &&& meta_strings_base(m) == 4 + 6 * n
            &&& m == u32_bytes(mx as int) + offsets_image(t, n) + lengths_image(t, n) + strings_image(t, n)
        }),
{
    let n = mx + 1;
    let m = meta_image(t, mx as int);
    let fo = |i: int| u32_bytes(offset_field(t, i));
    let fl = |i: int| u16_bytes(title_or_empty(t, i).len() as int);
    assert forall|j: int| 0 <= j < n implies (#[trigger] fo(j)).len() == 4 by {}
    assert forall|j: int| 0 <= j < n implies (#[trigger] fl(j)).len() == 2 by {}
    lemma_concat_fixed_len(fo, 4, n);
    lemma_concat_fixed_len(fl, 2, n);
    let rest = offsets_image(t, n) + lengths_image(t, n) + strings_image(t, n);
    assert(m =~= Seq::<u8>::empty() + u32_bytes(mx as int) + rest);
    lemma_le32_of_bytes(Seq::<u8>::empty(), mx as int, rest);
}

/// The stored offset of the title of `d <= mx`.
proof fn lemma_meta_offset(t: Map<usize, Seq<u8>>, mx: usize, d: int)
    requires
        mx <= u32::MAX,
        0 <= d <= mx,
        strings_image(t, mx + 1).len() < 0x1_0000_0000,
    ensures
        title_offset(meta_image(t, mx as int), d) == offset_field(t, d),
{
    let n = mx + 1;
    let m = meta_image(t, mx as int);
    lemma_meta_layout(t, mx);
    let fo = |i: int| u32_bytes(offset_field(t, i));
    let offs = offsets_image(t, n);
    assert forall|j: int| 0 <= j < n implies (#[trigger] fo(j)).len() == 4 by {}
    lemma_concat_split(fo, d, n);
    lemma_concat_fixed_len(fo, 4, d);
    let a1 = u32_bytes(mx as int) + concat_pieces(fo, d);
    let b1 = offs.skip(4 * d + 4) + lengths_image(t, n) + strings_image(t, n);
    assert(m =~= a1 + fo(d) + b1);
    lemma_strings_prefix_len(t, d, n);
    lemma_le32_of_bytes(a1, offset_field(t, d), b1);
}

/// The stored length of the title of `d <= mx`.
proof fn lemma_meta_length(t: Map<usize, Seq<u8>>, mx: usize, d: int)
    requires
        mx <= u32::MAX,
        0 <= d <= mx,
        forall|k: usize| #[trigger] t.contains_key(k) ==> t[k].len() < 0x1_0000,
    ensures
        title_len(meta_image(t, mx as int), d) == title_or_empty(t, d).len(),
{
    let n = mx + 1;
    let m = meta_image(t, mx as int);
    lemma_meta_layout(t, mx);
    let fl = |i: int| u16_bytes(title_or_empty(t, i).len() as int);
    let lens = lengths_image(t, n);
    assert forall|j: int| 0 <= j < n implies (#[trigger] fl(j)).len() == 2 by {}
    lemma_concat_split(fl, d, n);
    lemma_concat_fixed_len(fl, 2, d);
    let a2 = u32_bytes(mx as int) + offsets_image(t, n) + concat_pieces(fl, d);
    let b2 = lens.skip(2 * d + 2) + strings_image(t, n);
    assert(m =~= a2 + fl(d) + b2);
    let tl = title_or_empty(t, d).len() as int;
    assert(0 <= tl < 0x1_0000) by {
        if t.contains_key(d as usize) {}
    }
    lemma_le16_of_bytes(a2, tl, b2);
}

/// Reading back the metadata file: the title of every document id up to
/// 2^32, none for one without a title or with an empty one.
pub proof fn law_titles_read_back(t: Map<usize, Seq<u8>>, mx: usize, d: int)
    requires
        is_max_key(t, mx),
        mx <= u32::MAX,
        0 <= d <= u32::MAX,
        forall|k: usize| #[trigger] t.contains_key(k) ==> t[k].len() < 0x1_0000,
        strings_image(t, mx + 1).len() < 0x1_0000_0000,
    ensures
        title_readable(meta_image(t, mx as int), d),
        title_bytes(meta_image(t, mx as int), d) == (if 0 <= d <= usize::MAX && t.contains_key(d as usize)
            && t[d as usize].len() > 0 {
            Some(t[d as usize])
        } else {
            None::<Seq<u8>>
        }),
{
    let n = mx + 1;
    let m = meta_image(t, mx as int);
    lemma_meta_layout(t, mx);
    if d <= mx {
        lemma_meta_offset(t, mx, d);
        lemma_meta_length(t, mx, d);
        let tl = title_or_empty(t, d).len() as int;
        if tl > 0 {
            assert(t.contains_key(d as usize));
            let fs = |i: int| title_or_empty(t, i);
            let strs = strings_image(t, n);
            lemma_concat_split(fs, d, n);
            let sb = meta_strings_base(m);
            let pre = concat_pieces(fs, d);
            let b3 = strs.skip(pre.len() + tl);
            let a3 = u32_bytes(mx as int) + offsets_image(t, n) + lengths_image(t, n) + pre;
            assert(m =~= a3 + t[d as usize] + b3);
            assert(a3.len() == sb + pre.len());
            assert(m.subrange(sb + pre.len(), sb + pre.len() + tl) =~= t[d as usize]);
        }
    } else {
        if t.contains_key(d as usize) {
            assert((d as usize) <= mx);
        }
    }
}

/// The title bytes before document `i` are no more than all of them.
proof fn lemma_strings_prefix_len(t: Map<usize, Seq<u8>>, i: int, n: int)
    requires
        0 <= i <= n,
    ensures
        strings_image(t, i).len() <= strings_image(t, n).len(),
    decreases n,
{
    if i < n {
        lemma_strings_prefix_len(t, i, n - 1);
    }
}

} // verus!
