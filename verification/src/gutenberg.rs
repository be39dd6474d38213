//! The header of a Project Gutenberg plain-text book.

use vstd::prelude::*;
use vstd::utf8::{valid_utf8, decode_utf8};
use crate::text::utf8_str;

verus! {

/// The fields read from a book's header.
#[derive(Debug)]
pub struct GutenbergTxtHeader {
    pub title: String,
    pub author: String,
    pub encoding: String,
    pub header_len: Option<usize>,
}

/// Why a header could not be read.
#[derive(Debug, Clone, Copy, PartialEq, Eq, Structural)]
pub enum HeaderError {
    /// A header line is not valid UTF-8.
    InvalidUtf8,
}

/// At most this many lines are read as the header.
pub const MAX_HEADER_LINES: usize = 100;

/// `Title: `
pub open spec fn title_prefix() -> Seq<u8> {
    seq![84u8, 105, 116, 108, 101, 58, 32]
}

/// `Author: `
pub open spec fn author_prefix() -> Seq<u8> {
    seq![65u8, 117, 116, 104, 111, 114, 58, 32]
}

/// `Character set encoding: `
pub open spec fn encoding_prefix() -> Seq<u8> {
    seq![67u8, 104, 97, 114, 97, 99, 116, 101, 114, 32, 115, 101, 116, 32, 101, 110, 99, 111, 100, 105, 110, 103, 58, 32]
}

/// `START OF`
pub open spec fn start_of_marker() -> Seq<u8> {
    seq![83u8, 84, 65, 82, 84, 32, 79, 70]
}

/// `PROJECT GUTENBERG EBOOK`
pub open spec fn ebook_marker() -> Seq<u8> {
    seq![80u8, 82, 79, 74, 69, 67, 84, 32, 71, 85, 84, 69, 78, 66, 69, 82, 71, 32, 69, 66, 79, 79, 75]
}

/// `ASCII`
pub open spec fn ascii_name() -> Seq<u8> {
    seq![65u8, 83, 67, 73, 73]
}

/// Where the line that starts at `i` ends: after its newline, or at the end of `s`.
pub open spec fn line_end(s: Seq<u8>, i: int) -> int
    decreases s.len() - i,
{
    if i >= s.len() {
        s.len() as int
    } else if s[i] == 10 {
        i + 1
    } else {
        line_end(s, i + 1)
    }
}

/// Where line `k` starts.
pub open spec fn line_start(s: Seq<u8>, k: nat) -> int
    decreases k,
{
    if k == 0 {
        0
    } else {
        let p = line_start(s, (k - 1) as nat);
        if p >= s.len() { p } else { line_end(s, p) }
    }
}

/// The bytes of line `k`, its newline included.
pub open spec fn line(s: Seq<u8>, k: nat) -> Seq<u8> {
    s.subrange(line_start(s, k), line_end(s, line_start(s, k)))
}

/// `t` without its trailing newlines and carriage returns.
pub open spec fn trim_newlines(t: Seq<u8>) -> Seq<u8>
    decreases t.len(),
{
    if t.len() > 0 && (t.last() == 10 || t.last() == 13) {
        trim_newlines(t.drop_last())
    } else {
        t
    }
}

/// `t` starts with `p`.
pub open spec fn starts_with(t: Seq<u8>, p: Seq<u8>) -> bool {
    p.len() <= t.len() && t.subrange(0, p.len() as int) == p
}

/// `p` occurs in `t`.
pub open spec fn contains(t: Seq<u8>, p: Seq<u8>) -> bool {
    exists|i: int| 0 <= i && i + p.len() <= t.len() && #[trigger] t.subrange(i, i + p.len()) == p
}

/// The line marks the start of the book's text.
pub open spec fn is_start_marker(t: Seq<u8>) -> bool {
    contains(t, start_of_marker()) && contains(t, ebook_marker())
}

/// How many lines the header reader reads, having read `k`: it stops at the
/// end of the text, after the line that marks the start of the book, or
/// after 100 lines.
pub open spec fn lines_read(s: Seq<u8>, k: nat) -> nat
    decreases MAX_HEADER_LINES - k,
{
    if k >= MAX_HEADER_LINES || line_start(s, k) >= s.len() {
        k
    } else if is_start_marker(trim_newlines(line(s, k))) {
        k + 1
    } else {
        lines_read(s, k + 1)
    }
}

/// The value of the last of the first `k` lines that starts with `p`,
/// newlines trimmed, or nothing.
pub open spec fn field_value(s: Seq<u8>, k: nat, p: Seq<u8>) -> Seq<u8>
    decreases k,
{
    if k == 0 {
        seq![]
    } else {
        let t = trim_newlines(line(s, (k - 1) as nat));
        if starts_with(t, p) {
            t.skip(p.len() as int)
        } else {
            field_value(s, (k - 1) as nat, p)
        }
    }
}

/// Every line that the header reader reads is UTF-8.
pub open spec fn header_lines_valid(s: Seq<u8>) -> bool {
    forall|j: nat| j < lines_read(s, 0) ==> valid_utf8(#[trigger] line(s, j))
}

} // verus!

verus! {

fn bytes_title() -> (r: Vec<u8>)
    ensures
        r@ == title_prefix(),
{
    let r: Vec<u8> = vec![84u8, 105, 116, 108, 101, 58, 32];
    assert(r@ =~= title_prefix());
    r
}

fn bytes_author() -> (r: Vec<u8>)
    ensures
        r@ == author_prefix(),
{
    let r: Vec<u8> = vec![65u8, 117, 116, 104, 111, 114, 58, 32];
    assert(r@ =~= author_prefix());
    r
}

fn bytes_encoding() -> (r: Vec<u8>)
    ensures
        r@ == encoding_prefix(),
{
    let r: Vec<u8> = vec![67u8, 104, 97, 114, 97, 99, 116, 101, 114, 32, 115, 101, 116, 32, 101, 110, 99, 111, 100, 105, 110, 103, 58, 32];
    assert(r@ =~= encoding_prefix());
    r
}

fn bytes_start_of() -> (r: Vec<u8>)
    ensures
        r@ == start_of_marker(),
{
    let r: Vec<u8> = vec![83u8, 84, 65, 82, 84, 32, 79, 70];
    assert(r@ =~= start_of_marker());
    r
}

fn bytes_ebook() -> (r: Vec<u8>)
    ensures
        r@ == ebook_marker(),
{
    let r: Vec<u8> = vec![80u8, 82, 79, 74, 69, 67, 84, 32, 71, 85, 84, 69, 78, 66, 69, 82, 71, 32, 69, 66, 79, 79, 75];
    assert(r@ =~= ebook_marker());
    r
}

/// The bytes of `ASCII`.
pub fn bytes_ascii() -> (r: Vec<u8>)
    ensures
        r@ == ascii_name(),
{
    let r: Vec<u8> = vec![65u8, 83, 67, 73, 73];
    assert(r@ =~= ascii_name());
    r
}

/// Where the line that starts at `i` ends.
fn find_line_end(s: &[u8], i: usize) -> (e: usize)
    requires
        i <= s@.len(),
    ensures
        e == line_end(s@, i as int),
        i <= e <= s@.len(),
{
    let n: usize = s.len();
    let mut j: usize = i;
    while j < n
        invariant
            n == s@.len(),
            i <= j <= n,
            line_end(s@, i as int) == line_end(s@, j as int),
        decreases n - j,
    {
        if s[j] == 10 {
            return j + 1;
        }
        j = j + 1;
    }
    j
}

/// The length of `t` without its trailing newlines and carriage returns.
fn trimmed_len(t: &[u8]) -> (k: usize)
    ensures
        k <= t@.len(),
        trim_newlines(t@) == t@.subrange(0, k as int),
        k < t@.len() ==> t@[k as int] == 10 || t@[k as int] == 13,
{
    let mut k: usize = t.len();
    assert(t@.subrange(0, k as int) =~= t@);
    while k > 0 && (t[k - 1] == 10 || t[k - 1] == 13)
        invariant
            k <= t@.len(),
            trim_newlines(t@) == trim_newlines(t@.subrange(0, k as int)),
            k < t@.len() ==> t@[k as int] == 10 || t@[k as int] == 13,
        decreases k,
    {
        assert(t@.subrange(0, k as int).drop_last() =~= t@.subrange(0, k - 1));
        k = k - 1;
    }
    assert(trim_newlines(t@.subrange(0, k as int)) == t@.subrange(0, k as int));
    k
}

/// `t` starts with `p`.
pub fn has_prefix(t: &[u8], p: &[u8]) -> (b: bool)
    ensures
        b == starts_with(t@, p@),
{
    if p.len() > t.len() {
        return false;
    }
    let mut i: usize = 0;
    while i < p.len()
        invariant
            p@.len() <= t@.len(),
            i <= p@.len(),
            t@.subrange(0, i as int) == p@.subrange(0, i as int),
        decreases p@.len() - i,
    {
        if t[i] != p[i] {
            assert(t@.subrange(0, p@.len() as int)[i as int] != p@[i as int]);
            return false;
        }
        assert(t@.subrange(0, i + 1) =~= t@.subrange(0, i as int).push(t@[i as int]));
        assert(p@.subrange(0, i + 1) =~= p@.subrange(0, i as int).push(p@[i as int]));
        i = i + 1;
    }
    assert(p@.subrange(0, i as int) =~= p@);
    true
}

/// `p` occurs in `t`.
pub fn has_substring(t: &[u8], p: &[u8]) -> (b: bool)
    ensures
        b == contains(t@, p@),
{
    if p.len() > t.len() {
        return false;
    }
    let last: usize = t.len() - p.len();
    let mut i: usize = 0;
    loop
        invariant
            last == t@.len() - p@.len(),
            t@.len() <= usize::MAX,
            i <= last,
            forall|j: int| 0 <= j < i ==> #[trigger] t@.subrange(j, j + p@.len()) != p@,
        decreases last - i,
    {
        let window: &[u8] = vstd::slice::slice_subrange(t, i, i + p.len());
        if has_prefix(window, p) {
            assert(window@.subrange(0, p@.len() as int) =~= window@);
            return true;
        }
        assert(window@.subrange(0, p@.len() as int) =~= window@);
        if i == last {
            return false;
        }
        i = i + 1;
    }
}

} // verus!

verus! {

/// Cutting valid UTF-8 before an ASCII byte leaves valid UTF-8.
proof fn lemma_valid_before_ascii(l: Seq<u8>, e: int)
    requires
        valid_utf8(l),
        0 <= e <= l.len(),
        e < l.len() ==> l[e] < 0x80,
    ensures
        valid_utf8(l.subrange(0, e)),
{
    if e < l.len() {
        vstd::utf8::is_char_boundary_iff_not_is_continuation_byte(l, e);
    } else {
        vstd::utf8::is_char_boundary_start_end_of_seq(l);
    }
    vstd::utf8::valid_utf8_split(l, e);
}

/// In valid UTF-8, the end of a prefix of ASCII bytes is a character boundary.
proof fn lemma_ascii_prefix_boundary(b: Seq<u8>, k: int)
    requires
        valid_utf8(b),
        0 <= k <= b.len(),
        forall|i: int| 0 <= i < k ==> #[trigger] b[i] < 0x80,
    ensures
        vstd::utf8::is_char_boundary(b, k),
    decreases k,
{
    if k > 0 {
        let rest = vstd::utf8::pop_first_scalar(b);
        assert(b[0] < 0x80);
        assert(rest =~= b.subrange(1, b.len() as int));
        assert forall|i: int| 0 <= i < k - 1 implies #[trigger] rest[i] < 0x80 by {
            assert(rest[i] == b[i + 1]);
        }
        lemma_ascii_prefix_boundary(rest, k - 1);
    }
}

/// What follows an ASCII prefix of valid UTF-8 is valid UTF-8.
proof fn lemma_valid_after_ascii(t: Seq<u8>, p: Seq<u8>)
    requires
        valid_utf8(t),
        starts_with(t, p),
        forall|i: int| 0 <= i < p.len() ==> #[trigger] p[i] < 0x80,
    ensures
        valid_utf8(t.skip(p.len() as int)),
{
    assert forall|i: int| 0 <= i < p.len() implies #[trigger] t[i] < 0x80 by {
        assert(t.subrange(0, p.len() as int)[i] == p[i]);
    }
    lemma_ascii_prefix_boundary(t, p.len() as int);
    vstd::utf8::valid_utf8_split(t, p.len() as int);
    assert(t.skip(p.len() as int) =~= t.subrange(p.len() as int, t.len() as int));
}

/// The text after prefix `p` of the valid UTF-8 bytes `t`.
fn value_after(t: &[u8], p: &[u8]) -> (r: String)
    requires
        valid_utf8(t@),
        starts_with(t@, p@),
        forall|i: int| 0 <= i < p@.len() ==> #[trigger] p@[i] < 0x80,
    ensures
        r@ == decode_utf8(t@.skip(p@.len() as int)),
{
    proof { lemma_valid_after_ascii(t@, p@); }
    let rest: &[u8] = vstd::slice::slice_subrange(t, p.len(), t.len());
    assert(rest@ =~= t@.skip(p@.len() as int));
    match utf8_str(rest) {
        Some(s) => s.to_owned(),
        None => String::new(),
    }
}

proof fn lemma_lines_read_mono(s: Seq<u8>, k: nat)
    requires
        k <= MAX_HEADER_LINES,
    ensures
        lines_read(s, k) >= k,
    decreases MAX_HEADER_LINES - k,
{
    if k < MAX_HEADER_LINES && line_start(s, k) < s.len() && !is_start_marker(trim_newlines(line(s, k))) {
        lemma_lines_read_mono(s, k + 1);
    }
}

/// Reads the header of a book: up to 100 lines, up to the line that marks
/// the start of the text. The last `Title: `, `Author: ` and `Character set
/// encoding: ` lines give the fields; the header's length in bytes is known
/// when fewer than 100 lines were read. Fails when a line read is not UTF-8.
pub fn read_header_from_reader(content: &[u8]) -> (r: Result<GutenbergTxtHeader, HeaderError>)
    ensures
        r is Err <==> !header_lines_valid(content@),
        r matches Ok(h) ==> {
            let k = lines_read(content@, 0);
            &&& h.title@ == decode_utf8(field_value(content@, k, title_prefix()))
            &&& h.author@ == decode_utf8(field_value(content@, k, author_prefix()))
            &&& h.encoding@ == decode_utf8(field_value(content@, k, encoding_prefix()))
            &&& h.header_len == if k < MAX_HEADER_LINES { Some(line_start(content@, k) as usize) } else { None }
        },
{
    let ghost s = content@;
    let title_p: Vec<u8> = bytes_title();
    let author_p: Vec<u8> = bytes_author();
    let encoding_p: Vec<u8> = bytes_encoding();
    let start_of: Vec<u8> = bytes_start_of();
    let ebook: Vec<u8> = bytes_ebook();
    let n: usize = content.len();
    let mut title: String = String::new();
    let mut author: String = String::new();
    let mut encoding: String = String::new();
    let mut pos: usize = 0;
    let mut count: usize = 0;
    proof {
        assert(decode_utf8(Seq::<u8>::empty()) =~= Seq::<char>::empty());
    }
    loop
        invariant
            s == content@,
            n == s.len(),
            title_p@ == title_prefix(),
            author_p@ == author_prefix(),
            encoding_p@ == encoding_prefix(),
            start_of@ == start_of_marker(),
            ebook@ == ebook_marker(),
            count < MAX_HEADER_LINES,
            pos == line_start(s, count as nat),
            pos <= n,
            lines_read(s, 0) == lines_read(s, count as nat),
            forall|j: nat| j < count ==> valid_utf8(#[trigger] line(s, j)),
            title@ == decode_utf8(field_value(s, count as nat, title_prefix())),
            author@ == decode_utf8(field_value(s, count as nat, author_prefix())),
            encoding@ == decode_utf8(field_value(s, count as nat, encoding_prefix())),
        decreases MAX_HEADER_LINES - count,
    {
        if pos >= n {
            assert(lines_read(s, count as nat) == count);
            return Ok(GutenbergTxtHeader { title, author, encoding, header_len: Some(pos) });
        }
        let end: usize = find_line_end(content, pos);
        let l: &[u8] = vstd::slice::slice_subrange(content, pos, end);
        assert(l@ == line(s, count as nat));
        proof { lemma_lines_read_mono(s, (count + 1) as nat); }
        if utf8_str(l).is_none() {
            return Err(HeaderError::InvalidUtf8);
        }
        let k: usize = trimmed_len(l);
        let t: &[u8] = vstd::slice::slice_subrange(l, 0, k);
        proof { lemma_valid_before_ascii(l@, k as int); }
        assert(t@ == trim_newlines(line(s, count as nat)));
        if has_prefix(t, title_p.as_slice()) {
            title = value_after(t, title_p.as_slice());
        } else if has_prefix(t, author_p.as_slice()) {
            author = value_after(t, author_p.as_slice());
        } else if has_prefix(t, encoding_p.as_slice()) {
            encoding = value_after(t, encoding_p.as_slice());
        }
        let marker: bool = has_substring(t, start_of.as_slice()) && has_substring(t, ebook.as_slice());
        pos = end;
        count = count + 1;
        if marker || count >= MAX_HEADER_LINES {
            let header_len: Option<usize> = if count < MAX_HEADER_LINES { Some(pos) } else { None };
            return Ok(GutenbergTxtHeader { title, author, encoding, header_len });
        }
    }
}

} // verus!

verus! {

pub proof fn lemma_line_end_bound(s: Seq<u8>, i: int)
    requires
        0 <= i,
    ensures
        i <= line_end(s, i) <= s.len() || (i > s.len() && line_end(s, i) == s.len()),
    decreases s.len() - i,
{
    if i < s.len() && s[i] != 10 {
        lemma_line_end_bound(s, i + 1);
    }
}

pub proof fn lemma_line_start_bound(s: Seq<u8>, k: nat)
    ensures
        0 <= line_start(s, k) <= s.len(),
    decreases k,
{
    if k > 0 {
        lemma_line_start_bound(s, (k - 1) as nat);
        lemma_line_end_bound(s, line_start(s, (k - 1) as nat));
    }
}

} // verus!
