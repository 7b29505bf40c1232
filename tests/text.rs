use xi_text_core::{rope_eq, TextBuffer};

#[test]
fn text_round_trip() {
    let t = TextBuffer::from_str("line one\nline two");
    assert_eq!(t.len(), 17);
    assert_eq!(t.to_string(), "line one\nline two");
}

#[test]
fn rope_eq_compares_bytes() {
    let a = TextBuffer::from_str("same text");
    let b = TextBuffer::from_str("same text");
    let c = TextBuffer::from_str("same test");
    let d = TextBuffer::from_str("same");
    assert!(rope_eq(&a, &b));
    assert!(!rope_eq(&a, &c));
    assert!(!rope_eq(&a, &d));
    assert!(rope_eq(&TextBuffer::from_str(""), &TextBuffer::from_str("")));
}
