use gutenindex::web::{corpus_bucket, esc, index_page, push_decimal, render_book_page, render_search_page};

#[test]
fn escaping() {
    assert_eq!(esc("a & b < c > d \"e\""), "a &amp; b &lt; c &gt; d &quot;e&quot;");
    assert_eq!(esc(""), "");
    assert_eq!(esc("plain — text"), "plain — text");
    assert_eq!(esc("&amp;"), "&amp;amp;");
}

#[test]
fn decimal_numbers() {
    let mut s = String::new();
    push_decimal(&mut s, 0);
    s.push(' ');
    push_decimal(&mut s, 4294967295);
    s.push(' ');
    push_decimal(&mut s, 1007);
    assert_eq!(s, "0 4294967295 1007");
}

#[test]
fn front_page() {
    assert!(index_page().contains("<form action=\"/search\">"));
    assert!(index_page().starts_with("<html><body><h1>Gutenindex</h1>"));
}

#[test]
fn result_page() {
    assert_eq!(render_search_page("", &vec![(1, None)]), "<html><body><a href=\"/\">Back</a></body></html>");
    let hits = vec![(12, Some("A <b>".to_string())), (3, None)];
    assert_eq!(
        render_search_page("x&y", &hits),
        "<html><body><h2>Results for &ldquo;x&amp;y&rdquo;</h2><ol>\
<li><a href=\"/book/12\">A &lt;b&gt;</a></li>\
<li><a href=\"/book/3\">(untitled)</a></li>\
</ol><a href=\"/\">New search</a></body></html>"
    );
    let many: Vec<(u32, Option<String>)> = (0..15).map(|i| (i, None)).collect();
    let page = render_search_page("q", &many);
    assert_eq!(page.matches("<li>").count(), 10);
    assert!(page.contains("/book/9\""));
    assert!(!page.contains("/book/10\""));
}

#[test]
fn book_page() {
    assert_eq!(
        render_book_page(Some("1 < 2")),
        "<html><body><a href=\"/\">Search</a><pre>1 &lt; 2</pre></body></html>"
    );
    assert_eq!(
        render_book_page(None),
        "<html><body><p>Book not found.</p><a href=\"/\">Search</a></body></html>"
    );
}

#[test]
fn buckets() {
    assert_eq!(corpus_bucket(1342), 2);
    assert_eq!(corpus_bucket(0), 0);
}

#[test]
fn escaping_round_trips() {
    for s in ["", "plain", "a & b < c > d \"e\"", "&amp; already", "&&<<>>\"\"", "&quot;&lt;&gt;"] {
        let decoded = esc(s)
            .replace("&quot;", "\"")
            .replace("&gt;", ">")
            .replace("&lt;", "<")
            .replace("&amp;", "&");
        assert_eq!(decoded, s);
    }
}
