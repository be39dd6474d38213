use gutenindex::lex::{compare_bytes, Order3};
use gutenindex::word_map::WordMap;

#[test]
fn push_keeps_keys_sorted() {
    let mut m: WordMap<u32> = WordMap::new();
    m.push(b"pear", 1);
    m.push(b"apple", 2);
    m.push(b"pear", 3);
    m.push(b"ap", 4);
    assert_eq!(m.len(), 3);
    assert_eq!(m.key_at(0), b"ap");
    assert_eq!(m.key_at(1), b"apple");
    assert_eq!(m.key_at(2), b"pear");
    assert_eq!(m.get(b"pear"), Some(&vec![1, 3]));
    assert_eq!(m.find(b"apple"), Ok(1));
    assert_eq!(m.find(b"b"), Err(2));
    assert_eq!(m.find(b"a"), Err(0));
}

#[test]
fn byte_order() {
    assert_eq!(compare_bytes(b"ab", b"abc"), Order3::Less);
    assert_eq!(compare_bytes(b"b", b"abc"), Order3::Greater);
    assert_eq!(compare_bytes(b"", b""), Order3::Equal);
    assert_eq!(compare_bytes(&[0xff], b"z"), Order3::Greater);
}
