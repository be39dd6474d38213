//! The pages of the search website.

use vstd::prelude::*;
use vstd::string::StringExecFns;
use crate::text::push_char;
use crate::pipeline::{digits_value, is_digit};

verus! {

broadcast use vstd::string::axiom_spec_iter;

/// The HTML escape of one character.
pub open spec fn esc_char(c: char) -> Seq<char> {
    if c == '&' {
        seq!['&', 'a', 'm', 'p', ';']
    } else if c == '<' {
        seq!['&', 'l', 't', ';']
    } else if c == '>' {
        seq!['&', 'g', 't', ';']
    } else if c == '"' {
        seq!['&', 'q', 'u', 'o', 't', ';']
    } else {
        seq![c]
    }
}

/// The HTML escape of a text: each `&`, `<`, `>` and `"` replaced by its entity.
pub open spec fn esc_text(s: Seq<char>) -> Seq<char>
    decreases s.len(),
{
    if s.len() == 0 {
        seq![]
    } else {
        esc_text(s.drop_last()) + esc_char(s.last())
    }
}

fn push_all(out: &mut String, cs: &Vec<char>)
    ensures
        final(out)@ == old(out)@ + cs@,
{
    let mut i: usize = 0;
    while i < cs.len()
        invariant
            i <= cs@.len(),
            out@ == old(out)@ + cs@.take(i as int),
        decreases cs@.len() - i,
    {
        push_char(out, cs[i]);
        assert(cs@.take(i + 1) =~= cs@.take(i as int).push(cs@[i as int]));
        i = i + 1;
    }
    assert(cs@.take(i as int) =~= cs@);
}

/// Appends the HTML escape of `s` to `out`.
pub fn push_escaped(out: &mut String, s: &str)
    ensures
        final(out)@ == old(out)@ + esc_text(s@),
{
    let ghost cs = s@;
    for c in it: s.chars()
        invariant
            it.seq() == cs,
            out@ == old(out)@ + esc_text(cs.take(it.index() as int)),
    {
        let ghost before = out@;
        assert(cs.take(it.index() + 1).drop_last() =~= cs.take(it.index() as int));
        if c == '&' {
            let v: Vec<char> = vec!['&', 'a', 'm', 'p', ';'];
            push_all(out, &v);
        } else if c == '<' {
            let v: Vec<char> = vec!['&', 'l', 't', ';'];
            push_all(out, &v);
        } else if c == '>' {
            let v: Vec<char> = vec!['&', 'g', 't', ';'];
            push_all(out, &v);
        } else if c == '"' {
            let v: Vec<char> = vec!['&', 'q', 'u', 'o', 't', ';'];
            push_all(out, &v);
        } else {
            push_char(out, c);
        }
        assert(out@ =~= old(out)@ + esc_text(cs.take(it.index() + 1)));
    }
    assert(cs.take(cs.len() as int) =~= cs);
}

/// The HTML escape of `s`: each `&`, `<`, `>` and `"` replaced by its entity.
pub fn esc(s: &str) -> (r: String)
    ensures
        r@ == esc_text(s@),
{
    let mut out: String = String::new();
    push_escaped(&mut out, s);
    out
}

} // verus!

verus! {

/// `&amp;`
pub open spec fn amp_entity() -> Seq<char> {
    seq!['&', 'a', 'm', 'p', ';']
}

/// `&lt;`
pub open spec fn lt_entity() -> Seq<char> {
    seq!['&', 'l', 't', ';']
}

/// `&gt;`
pub open spec fn gt_entity() -> Seq<char> {
    seq!['&', 'g', 't', ';']
}

/// `&quot;`
pub open spec fn quot_entity() -> Seq<char> {
    seq!['&', 'q', 'u', 'o', 't', ';']
}

/// `s` with the occurrences of `pat`, found from left to right without
/// overlap, replaced by `rep`, as `str::replace` does for a non-empty `pat`.
pub open spec fn replace_all(s: Seq<char>, pat: Seq<char>, rep: Seq<char>) -> Seq<char>
    recommends
        pat.len() > 0,
    decreases s.len(),
{
    if s.len() == 0 || pat.len() == 0 {
        s
    } else if pat.len() <= s.len() && s.subrange(0, pat.len() as int) == pat {
        rep + replace_all(s.skip(pat.len() as int), pat, rep)
    } else {
        seq![s[0]] + replace_all(s.skip(1), pat, rep)
    }
}

/// Decoding escaped text: `&quot;`, then `&gt;`, then `&lt;`, then `&amp;`
/// replaced by the character it stands for.
pub open spec fn unesc_text(t: Seq<char>) -> Seq<char> {
    replace_all(
        replace_all(replace_all(replace_all(t, quot_entity(), seq!['"']), gt_entity(), seq!['>']), lt_entity(), seq!['<']),
        amp_entity(),
        seq!['&'],
    )
}

/// The entity that decoding step `k` replaces.
spec fn step_entity(k: int) -> Seq<char> {
    if k == 0 {
        quot_entity()
    } else if k == 1 {
        gt_entity()
    } else if k == 2 {
        lt_entity()
    } else {
        amp_entity()
    }
}

/// The character that decoding step `k` puts back.
spec fn step_char(k: int) -> char {
    if k == 0 {
        '"'
    } else if k == 1 {
        '>'
    } else if k == 2 {
        '<'
    } else {
        '&'
    }
}

/// Character `c` after the first `k` decoding steps.
spec fn staged_char(c: char, k: int) -> Seq<char> {
    if (c == '"' && k >= 1) || (c == '>' && k >= 2) || (c == '<' && k >= 3) || (c == '&' && k >= 4) {
        seq![c]
    } else {
        esc_char(c)
    }
}

/// Text `s`, escaped, after the first `k` decoding steps.
spec fn staged_text(s: Seq<char>, k: int) -> Seq<char>
    decreases s.len(),
{
    if s.len() == 0 {
        seq![]
    } else {
        staged_char(s[0], k) + staged_text(s.drop_first(), k)
    }
}

proof fn lemma_staged_push(t: Seq<char>, c: char, k: int)
    ensures
        staged_text(t.push(c), k) == staged_text(t, k) + staged_char(c, k),
    decreases t.len(),
{
    if t.len() == 0 {
        assert(t.push(c).drop_first() =~= Seq::<char>::empty());
        assert(t.push(c)[0] == c);
        assert(staged_text(Seq::<char>::empty(), k) == Seq::<char>::empty());
        assert(staged_text(t, k) == Seq::<char>::empty());
        assert(staged_text(t.push(c), k) =~= staged_text(t, k) + staged_char(c, k));
    } else {
        assert(t.push(c).drop_first() =~= t.drop_first().push(c));
        lemma_staged_push(t.drop_first(), c, k);
        assert(staged_text(t.push(c), k) =~= staged_text(t, k) + staged_char(c, k));
    }
}

proof fn lemma_esc_is_staged(s: Seq<char>)
    ensures
        esc_text(s) == staged_text(s, 0),
    decreases s.len(),
{
    if s.len() > 0 {
        lemma_esc_is_staged(s.drop_last());
        lemma_staged_push(s.drop_last(), s.last(), 0);
        assert(s.drop_last().push(s.last()) =~= s);
    }
}

proof fn lemma_fully_staged(s: Seq<char>)
    ensures
        staged_text(s, 4) == s,
    decreases s.len(),
{
    if s.len() > 0 {
        lemma_fully_staged(s.drop_first());
        assert(seq![s[0]] + s.drop_first() =~= s);
    }
}

/// Text without `&` passes a replacement of a pattern that starts with `&`
/// unchanged.
proof fn lemma_replace_skips(x: Seq<char>, r: Seq<char>, pat: Seq<char>, rep: Seq<char>)
    requires
        pat.len() > 0,
        pat[0] == '&',
        forall|i: int| 0 <= i < x.len() ==> x[i] != '&',
    ensures
        replace_all(x + r, pat, rep) == x + replace_all(r, pat, rep),
    decreases x.len(),
{
    if x.len() == 0 {
        assert(x + r =~= r);
    } else {
        let xr = x + r;
        assert(xr[0] == x[0]);
        assert(!(pat.len() <= xr.len() && xr.subrange(0, pat.len() as int) == pat)) by {
            if pat.len() <= xr.len() {
                assert(xr.subrange(0, pat.len() as int)[0] == x[0]);
            }
        }
        assert(xr.skip(1) =~= x.skip(1) + r);
        lemma_replace_skips(x.skip(1), r, pat, rep);
        assert(seq![x[0]] + x.skip(1) =~= x);
    }
}

proof fn lemma_step(s: Seq<char>, k: int)
    requires
        0 <= k <= 3,
    ensures
        replace_all(staged_text(s, k), step_entity(k), seq![step_char(k)]) == staged_text(s, k + 1),
    decreases s.len(),
{
    if s.len() > 0 {
        let c = s[0];
        let rest = s.drop_first();
        lemma_step(rest, k);
        let x = staged_char(c, k);
        let r = staged_text(rest, k);
        let pat = step_entity(k);
        let rep = seq![step_char(k)];
        let xr = x + r;
        assert(staged_text(s, k) == xr);
        assert(staged_text(s, k + 1) == staged_char(c, k + 1) + staged_text(rest, k + 1));
        if c == step_char(k) {
            assert(x =~= pat);
            assert(xr.subrange(0, pat.len() as int) =~= pat);
            assert(xr.skip(pat.len() as int) =~= r);
            assert(staged_char(c, k + 1) =~= rep);
        } else if x[0] == '&' {
            assert(x.len() >= 4);
            assert(x[1] != pat[1]);
            assert(!(pat.len() <= xr.len() && xr.subrange(0, pat.len() as int) == pat)) by {
                if pat.len() <= xr.len() {
                    assert(xr.subrange(0, pat.len() as int)[1] == x[1]);
                }
            }
            assert(xr.skip(1) =~= x.skip(1) + r);
            lemma_replace_skips(x.skip(1), r, pat, rep);
            assert(seq![x[0]] + x.skip(1) =~= x);
            assert(staged_char(c, k + 1) == x);
        } else {
            assert(x =~= seq![c]);
            lemma_replace_skips(x, r, pat, rep);
            assert(staged_char(c, k + 1) == x);
        }
    }
}

/// Decoding the HTML escape of a text gives the text back.
pub proof fn law_esc_round_trip(s: Seq<char>)
    ensures
        unesc_text(esc_text(s)) == s,
{
    lemma_esc_is_staged(s);
    lemma_step(s, 0);
    lemma_step(s, 1);
    lemma_step(s, 2);
    lemma_step(s, 3);
    lemma_fully_staged(s);
}

} // verus!

verus! {

/// The character of decimal digit `d`.
pub open spec fn digit_char(d: int) -> char {
    ((48 + d) as u8) as char
}

/// The decimal digits of `n`.
pub open spec fn decimal_text(n: nat) -> Seq<char>
    decreases n,
{
    if n < 10 {
        seq![digit_char(n as int)]
    } else {
        decimal_text(n / 10) + seq![digit_char((n % 10) as int)]
    }
}

proof fn lemma_digit_char(k: int)
    requires
        0 <= k < 10,
    ensures
        digit_char(k) as int == 48 + k,
        is_digit(digit_char(k)),
        (digit_char(k) == '0') == (k == 0),
{
    assert(((48 + k) as u8) as int == 48 + k);
}

/// `decimal_text(n)` is the decimal numeral of `n`: a non-empty string of
/// digits whose value is `n`, with no leading zero unless `n` is 0.
pub proof fn law_decimal_text(n: nat)
    ensures
        decimal_text(n).len() > 0,
        forall|i: int| 0 <= i < decimal_text(n).len() ==> is_digit(#[trigger] decimal_text(n)[i]),
        digits_value(decimal_text(n)) == n,
        decimal_text(n)[0] == '0' ==> n == 0,
    decreases n,
{
    if n < 10 {
        lemma_digit_char(n as int);
        let d = decimal_text(n);
        assert(d.drop_last() =~= Seq::<char>::empty());
        assert('0' as int == 48);
        assert(digits_value(d) == digits_value(d.drop_last()) * 10 + (d.last() as int - '0' as int));
    } else {
        law_decimal_text(n / 10);
        lemma_digit_char((n % 10) as int);
        let t = decimal_text(n / 10);
        let d = decimal_text(n);
        assert(d == t + seq![digit_char((n % 10) as int)]);
        assert(d.drop_last() =~= t);
        assert(d[0] == t[0]);
        assert forall|i: int| 0 <= i < d.len() implies is_digit(#[trigger] d[i]) by {
            if i < t.len() {
                assert(d[i] == t[i]);
            }
        }
        assert('0' as int == 48);
        assert(digits_value(d) == digits_value(t) * 10 + (n % 10));
        assert((n / 10) * 10 + n % 10 == n) by (nonlinear_arith);
    }
}

/// Appends the decimal digits of `n`.
pub fn push_decimal(out: &mut String, n: u32)
    ensures
        final(out)@ == old(out)@ + decimal_text(n as nat),
    decreases n,
{
    if n >= 10 {
        push_decimal(out, n / 10);
    }
    let d: u8 = (n % 10) as u8;
    push_char(out, (48u8 + d) as char);
    assert(final(out)@ =~= old(out)@ + decimal_text(n as nat));
}

/// The front page: a search form.
pub open spec fn index_page_text() -> Seq<char> {
    "<html><body><h1>Gutenindex</h1><form action=\"/search\"><input name=\"q\" size=\"50\"><input type=\"submit\" value=\"Search\"></form></body></html>"@
}

/// The front page: a search form.
pub fn index_page() -> (r: String)
    ensures
        r@ == index_page_text(),
{
    String::from_str(
        "<html><body><h1>Gutenindex</h1><form action=\"/search\"><input name=\"q\" size=\"50\"><input type=\"submit\" value=\"Search\"></form></body></html>",
    )
}

/// At most this many results are listed.
pub const RESULTS_SHOWN: usize = 10;

/// The list item of one result: a link to the book, its title or
/// `(untitled)`.
pub open spec fn result_item(id: u32, title: Option<Seq<char>>) -> Seq<char> {
    "<li><a href=\"/book/"@ + decimal_text(id as nat) + "\">"@ + esc_text(
        match title {
            Some(t) => t,
            None => "(untitled)"@,
        },
    ) + "</a></li>"@
}

/// The list items of results `hits`.
pub open spec fn result_items(hits: Seq<(u32, Option<Seq<char>>)>) -> Seq<char>
    decreases hits.len(),
{
    if hits.len() == 0 {
        seq![]
    } else {
        result_items(hits.drop_last()) + result_item(hits.last().0, hits.last().1)
    }
}

/// The result page for query `q` with ranked results `hits` (document ids
/// with their titles): a link back when the query is empty, else the
/// escaped query and the first ten results.
pub open spec fn search_page_text(q: Seq<char>, hits: Seq<(u32, Option<Seq<char>>)>) -> Seq<char> {
    if q.len() == 0 {
        "<html><body><a href=\"/\">Back</a></body></html>"@
    } else {
        "<html><body><h2>Results for &ldquo;"@ + esc_text(q) + "&rdquo;</h2><ol>"@ + result_items(
            if hits.len() > RESULTS_SHOWN { hits.take(RESULTS_SHOWN as int) } else { hits },
        ) + "</ol><a href=\"/\">New search</a></body></html>"@
    }
}

/// The results as (document id, title text) pairs.
pub open spec fn hits_view(hits: Seq<(u32, Option<String>)>) -> Seq<(u32, Option<Seq<char>>)> {
    hits.map_values(|h: (u32, Option<String>)| (h.0, match h.1 { Some(t) => Some(t@), None => None }))
}

/// The result page for query `q` with ranked results `hits`.
pub fn render_search_page(q: &str, hits: &Vec<(u32, Option<String>)>) -> (r: String)
    ensures
        r@ == search_page_text(q@, hits_view(hits@)),
{
    if q.is_empty() {
        return String::from_str("<html><body><a href=\"/\">Back</a></body></html>");
    }
    let mut out: String = String::from_str("<html><body><h2>Results for &ldquo;");
    push_escaped(&mut out, q);
    out.append("&rdquo;</h2><ol>");
    let ghost head = out@;
    let ghost hv = hits_view(hits@);
    let n: usize = if hits.len() > RESULTS_SHOWN { RESULTS_SHOWN } else { hits.len() };
    let mut i: usize = 0;
    while i < n
        invariant
            n <= hits@.len(),
            i <= n,
            hv == hits_view(hits@),
            out@ == head + result_items(hv.take(i as int)),
        decreases n - i,
    {
        let id: u32 = hits[i].0;
        out.append("<li><a href=\"/book/");
        push_decimal(&mut out, id);
        out.append("\">");
        match &hits[i].1 {
            Some(t) => push_escaped(&mut out, t.as_str()),
            None => push_escaped(&mut out, "(untitled)"),
        }
        out.append("</a></li>");
        assert(hv.take(i + 1).drop_last() =~= hv.take(i as int));
        assert(out@ =~= head + result_items(hv.take(i + 1)));
        i = i + 1;
    }
    out.append("</ol><a href=\"/\">New search</a></body></html>");
    proof {
        if hits@.len() <= RESULTS_SHOWN {
            assert(hv.take(n as int) =~= hv);
        }
    }
    out
}

/// The page of a book: its escaped text, or a message when it was not found.
pub open spec fn book_page_text(text: Option<Seq<char>>) -> Seq<char> {
    match text {
        Some(t) => "<html><body><a href=\"/\">Search</a><pre>"@ + esc_text(t) + "</pre></body></html>"@,
        None => "<html><body><p>Book not found.</p><a href=\"/\">Search</a></body></html>"@,
    }
}

/// The page of a book: its escaped text, or a message when it was not found.
pub fn render_book_page(text: Option<&str>) -> (r: String)
    ensures
        r@ == book_page_text(match text { Some(t) => Some(t@), None => None }),
{
    match text {
        Some(t) => {
            let mut out: String = String::from_str("<html><body><a href=\"/\">Search</a><pre>");
            push_escaped(&mut out, t);
            out.append("</pre></body></html>");
            out
        },
        None => String::from_str("<html><body><p>Book not found.</p><a href=\"/\">Search</a></body></html>"),
    }
}

/// The corpus archive (0 to 9) that holds book `doc_id`.
pub fn corpus_bucket(doc_id: u32) -> (b: u32)
    ensures
        b == doc_id % 10,
{
    doc_id % 10
}

} // verus!
