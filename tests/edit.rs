use xi_text_core::{EditOp, SelRegion, Selection, TextBuffer};

fn caret(o: usize) -> SelRegion {
    SelRegion::new(o, o)
}

fn offsets(sel: &Selection) -> Vec<(usize, usize)> {
    sel.regions().iter().map(|r| (r.start, r.end)).collect()
}

fn carets(offs: &[usize]) -> Selection {
    let mut sel = Selection::new();
    for &o in offs {
        assert!(sel.add_region(caret(o)));
    }
    sel
}

#[test]
fn insert_at_caret_moves_caret_after() {
    let mut text = TextBuffer::from_str("hello");
    let sel = Selection::new_simple(caret(2));
    let new_sel = EditOp::Insert("x".to_string()).apply(&mut text, &sel).unwrap();
    assert_eq!(text.to_string(), "hexllo");
    assert_eq!(text.len(), 6);
    assert_eq!(offsets(&new_sel), vec![(3, 3)]);
}

#[test]
fn insert_at_every_caret_offset() {
    for o in 0..=4 {
        let mut text = TextBuffer::from_str("abcd");
        let sel = Selection::new_simple(caret(o));
        let new_sel = EditOp::Insert("x".to_string()).apply(&mut text, &sel).unwrap();
        assert_eq!(text.len(), 5);
        assert_eq!(offsets(&new_sel), vec![(o + 1, o + 1)]);
    }
}

#[test]
fn backspace_at_start_is_noop() {
    let mut text = TextBuffer::from_str("abc");
    let sel = Selection::new_simple(caret(0));
    let r = EditOp::Backspace.apply(&mut text, &sel);
    assert!(r.is_none());
    assert_eq!(text.to_string(), "abc");
    assert_eq!(offsets(&sel), vec![(0, 0)]);
}

#[test]
fn two_carets_insert_once() {
    let mut text = TextBuffer::from_str("0123456789");
    let sel = carets(&[3, 7]);
    let new_sel = EditOp::Insert("Q".to_string()).apply(&mut text, &sel).unwrap();
    assert_eq!(text.len(), 12);
    assert_eq!(text.to_string(), "012Q3456Q789");
    assert_eq!(offsets(&new_sel), vec![(4, 4), (9, 9)]);
}

#[test]
fn insert_replaces_range() {
    let mut text = TextBuffer::from_str("hello world");
    let sel = Selection::new_simple(SelRegion::new(11, 6));
    let new_sel = EditOp::Insert("there".to_string()).apply(&mut text, &sel).unwrap();
    assert_eq!(text.to_string(), "hello there");
    assert_eq!(offsets(&new_sel), vec![(11, 11)]);
}

#[test]
fn backspace_deletes_previous_grapheme() {
    let mut text = TextBuffer::from_str("abc");
    let sel = Selection::new_simple(caret(2));
    let new_sel = EditOp::Backspace.apply(&mut text, &sel).unwrap();
    assert_eq!(text.to_string(), "ac");
    assert_eq!(offsets(&new_sel), vec![(1, 1)]);
}

#[test]
fn backspace_deletes_whole_multibyte_char() {
    let mut text = TextBuffer::from_str("aé");
    assert_eq!(text.len(), 3);
    let sel = Selection::new_simple(caret(3));
    let new_sel = EditOp::Backspace.apply(&mut text, &sel).unwrap();
    assert_eq!(text.to_string(), "a");
    assert_eq!(offsets(&new_sel), vec![(1, 1)]);
}

#[test]
fn backspace_deletes_range() {
    let mut text = TextBuffer::from_str("abcdef");
    let sel = Selection::new_simple(SelRegion::new(1, 4));
    let new_sel = EditOp::Backspace.apply(&mut text, &sel).unwrap();
    assert_eq!(text.to_string(), "aef");
    assert_eq!(offsets(&new_sel), vec![(1, 1)]);
}

#[test]
fn backspace_with_several_carets() {
    let mut text = TextBuffer::from_str("abcdef");
    let sel = carets(&[0, 2, 5]);
    let new_sel = EditOp::Backspace.apply(&mut text, &sel).unwrap();
    assert_eq!(text.to_string(), "acdf");
    assert_eq!(offsets(&new_sel), vec![(0, 0), (1, 1), (3, 3)]);
}

#[test]
fn backspace_merges_carets_that_meet() {
    let mut text = TextBuffer::from_str("abcd");
    let sel = carets(&[1, 2]);
    let new_sel = EditOp::Backspace.apply(&mut text, &sel).unwrap();
    assert_eq!(text.to_string(), "cd");
    assert_eq!(offsets(&new_sel), vec![(0, 0)]);
}

#[test]
fn empty_selection_is_noop() {
    let mut text = TextBuffer::from_str("abc");
    let sel = Selection::new();
    assert!(EditOp::Insert("z".to_string()).apply(&mut text, &sel).is_none());
    assert_eq!(text.to_string(), "abc");
}

#[test]
fn insert_clears_horizontal_position() {
    let mut text = TextBuffer::from_str("ab");
    let region = caret(1).with_horiz(Some(xi_text_core::Horiz(300)));
    let sel = Selection::new_simple(region);
    let new_sel = EditOp::Insert("\n".to_string()).apply(&mut text, &sel).unwrap();
    assert_eq!(new_sel.regions()[0].horiz, None);
    assert_eq!(text.to_string(), "a\nb");
}

#[test]
fn insert_over_touching_ranges_gives_one_caret_each() {
    let mut text = TextBuffer::from_str("0123456789");
    let mut sel = Selection::new();
    assert!(sel.add_region(SelRegion::new(2, 5)));
    assert!(sel.add_region(SelRegion::new(5, 8)));
    let new_sel = EditOp::Insert("x".to_string()).apply(&mut text, &sel).unwrap();
    assert_eq!(text.to_string(), "01xx89");
    assert_eq!(offsets(&new_sel), vec![(3, 3), (4, 4)]);
}

#[test]
fn selection_fits_checks_boundaries() {
    let text = TextBuffer::from_str("aé");
    assert!(Selection::new_simple(caret(1)).fits(&text));
    assert!(!Selection::new_simple(caret(2)).fits(&text));
    assert!(Selection::new_simple(caret(3)).fits(&text));
    assert!(!Selection::new_simple(caret(4)).fits(&text));
}
