use std::cell::RefCell;

use xi_text_core::movement::{down_query, up_query, VerticalQuery};
use xi_text_core::{Horiz, Measurement, Movement, SelRegion, Selection, TextBuffer};

/// Monospace layout: every character is one unit (256 raw) wide, and lines
/// wrap every `width` characters.
struct Mono {
    lines: Vec<usize>,
    width: usize,
    from_pos_calls: RefCell<Vec<(usize, Horiz, usize)>>,
}

impl Mono {
    fn new(text: &str, width: usize) -> Mono {
        Mono {
            lines: text.split('\n').map(|l| l.len()).collect(),
            width,
            from_pos_calls: RefCell::new(Vec::new()),
        }
    }
}

impl Measurement for Mono {
    fn spec_n_visual_lines(&self, line_num: usize) -> usize {
        self.n_visual_lines(line_num)
    }

    fn spec_to_pos(&self, line_num: usize, offset: usize) -> (Horiz, usize) {
        self.to_pos(line_num, offset)
    }

    fn spec_from_pos(&self, line_num: usize, horiz: Horiz, visual_line: usize) -> usize {
        let col = (horiz.0 / 256) as usize;
        (visual_line * self.width + col.min(self.width)).min(self.lines[line_num])
    }

    fn n_visual_lines(&self, line_num: usize) -> usize {
        let len = self.lines[line_num];
        if len == 0 {
            1
        } else {
            (len + self.width - 1) / self.width
        }
    }

    fn to_pos(&self, _line_num: usize, offset: usize) -> (Horiz, usize) {
        (Horiz(((offset % self.width) * 256) as i64), offset / self.width)
    }

    fn from_pos(&self, line_num: usize, horiz: Horiz, visual_line: usize) -> usize {
        self.from_pos_calls.borrow_mut().push((line_num, horiz, visual_line));
        let col = (horiz.0 / 256) as usize;
        let col = col.min(self.width);
        (visual_line * self.width + col).min(self.lines[line_num])
    }
}

fn caret(o: usize) -> SelRegion {
    SelRegion::new(o, o)
}

#[test]
fn vertical_moves_keep_horizontal_anchor() {
    let s = "xxxxxxxxxx\nyyyyyyyyyy\nzzzzzzzzzz";
    let text = TextBuffer::from_str(s);
    let m = Mono::new(s, 1000);
    let anchor = Horiz(50 * 256);
    let r = caret(2).with_horiz(Some(anchor));
    let r1 = Movement::Down.update_region(r, &text, &m, false);
    let r2 = Movement::Down.update_region(r1, &text, &m, false);
    let calls = m.from_pos_calls.borrow();
    assert_eq!(calls.len(), 2);
    assert_eq!(calls[0], (1, anchor, 0));
    assert_eq!(calls[1], (2, anchor, 0));
    assert_eq!(r1.horiz, Some(anchor));
    assert_eq!(r2.horiz, Some(anchor));
    assert_eq!((r1.start, r1.end), (21, 21));
    assert_eq!((r2.start, r2.end), (32, 32));
}

#[test]
fn left_collapses_range_to_lower_edge() {
    let text = TextBuffer::from_str("0123456789");
    let m = Mono::new("0123456789", 100);
    let r = SelRegion::new(5, 2);
    let moved = Movement::Left.update_region(r, &text, &m, false);
    assert_eq!((moved.start, moved.end), (2, 2));
    assert_eq!(moved.horiz, None);
    let moved = Movement::Right.update_region(r, &text, &m, false);
    assert_eq!((moved.start, moved.end), (5, 5));
}

#[test]
fn left_and_right_by_grapheme() {
    let s = "aé b";
    let text = TextBuffer::from_str(s);
    let m = Mono::new(s, 100);
    let moved = Movement::Left.update_region(caret(3), &text, &m, false);
    assert_eq!((moved.start, moved.end), (1, 1));
    let moved = Movement::Right.update_region(caret(1), &text, &m, false);
    assert_eq!((moved.start, moved.end), (3, 3));
    let moved = Movement::Left.update_region(SelRegion::new(1, 4), &text, &m, true);
    assert_eq!((moved.start, moved.end), (1, 3));
}

#[test]
fn left_at_start_and_right_at_end_keep_anchor() {
    let text = TextBuffer::from_str("abc");
    let m = Mono::new("abc", 100);
    let h = Some(Horiz(999));
    let moved = Movement::Left.update_region(caret(0).with_horiz(h), &text, &m, false);
    assert_eq!((moved.start, moved.end, moved.horiz), (0, 0, h));
    let moved = Movement::Right.update_region(caret(3).with_horiz(h), &text, &m, false);
    assert_eq!((moved.start, moved.end, moved.horiz), (3, 3, h));
    let moved = Movement::Right.update_region(caret(1).with_horiz(h), &text, &m, false);
    assert_eq!((moved.start, moved.end, moved.horiz), (2, 2, None));
}

#[test]
fn up_and_down_between_lines() {
    let s = "abcdef\nxy\nlmnopq";
    let text = TextBuffer::from_str(s);
    let m = Mono::new(s, 100);
    // From column 4 of the first line down to the short second line.
    let down = Movement::Down.update_region(caret(4), &text, &m, false);
    assert_eq!((down.start, down.end), (9, 9));
    assert_eq!(down.horiz, Some(Horiz(4 * 256)));
    // Down again keeps aiming for column 4.
    let down2 = Movement::Down.update_region(down, &text, &m, false);
    assert_eq!((down2.start, down2.end), (14, 14));
    // Up from the first line goes to the start.
    let up = Movement::Up.update_region(caret(3), &text, &m, false);
    assert_eq!((up.start, up.end), (0, 0));
    // Down from the last line goes to the end.
    let end = Movement::Down.update_region(caret(12), &text, &m, false);
    assert_eq!((end.start, end.end), (16, 16));
    // Up from the last line lands on the second line.
    let up2 = Movement::Up.update_region(caret(11), &text, &m, false);
    assert_eq!((up2.start, up2.end), (8, 8));
}

#[test]
fn up_and_down_within_wrapped_line() {
    let s = "abcdefghij";
    let text = TextBuffer::from_str(s);
    let m = Mono::new(s, 4);
    let up = Movement::Up.update_region(caret(6), &text, &m, false);
    assert_eq!((up.start, up.end), (2, 2));
    let down = Movement::Down.update_region(caret(6), &text, &m, false);
    assert_eq!((down.start, down.end), (10, 10));
}

#[test]
fn extend_keeps_anchor() {
    let s = "abcdef\nxyz";
    let text = TextBuffer::from_str(s);
    let m = Mono::new(s, 100);
    let moved = Movement::Down.update_region(SelRegion::new(1, 2), &text, &m, true);
    assert_eq!((moved.start, moved.end), (1, 9));
    let moved = Movement::Right.update_region(SelRegion::new(1, 2), &text, &m, true);
    assert_eq!((moved.start, moved.end), (1, 3));
}

#[test]
fn update_selection_moves_every_region() {
    let text = TextBuffer::from_str("0123456789");
    let m = Mono::new("0123456789", 100);
    let mut sel = Selection::new();
    assert!(sel.add_region(caret(3)));
    assert!(sel.add_region(caret(7)));
    let moved = Movement::Left.update_selection(&sel, &text, &m, false);
    let got: Vec<(usize, usize)> = moved.regions().iter().map(|r| (r.start, r.end)).collect();
    assert_eq!(got, vec![(2, 2), (6, 6)]);
}

#[test]
fn update_selection_drops_regions_that_meet() {
    let text = TextBuffer::from_str("0123456789");
    let m = Mono::new("0123456789", 100);
    let mut sel = Selection::new();
    assert!(sel.add_region(caret(0)));
    assert!(sel.add_region(caret(1)));
    let moved = Movement::Left.update_selection(&sel, &text, &m, false);
    let got: Vec<(usize, usize)> = moved.regions().iter().map(|r| (r.start, r.end)).collect();
    assert_eq!(got, vec![(0, 0)]);
}

#[test]
fn up_queries() {
    assert_eq!(
        up_query(3, 2, 40, Horiz(7), None),
        VerticalQuery::FromPos { line_num: 3, horiz: Horiz(7), visual_line: 1, line_start: 40 }
    );
    assert_eq!(up_query(0, 0, 0, Horiz(7), None), VerticalQuery::Land(0));
    assert_eq!(
        up_query(3, 0, 40, Horiz(7), Some((4, 25))),
        VerticalQuery::FromPos { line_num: 2, horiz: Horiz(7), visual_line: 3, line_start: 25 }
    );
    // A line before with no visual lines is aimed at its first.
    assert_eq!(
        up_query(3, 0, 40, Horiz(7), Some((0, 25))),
        VerticalQuery::FromPos { line_num: 2, horiz: Horiz(7), visual_line: 0, line_start: 25 }
    );
}

#[test]
fn down_queries() {
    assert_eq!(
        down_query(1, 0, 10, Horiz(7), 3, None, 100),
        VerticalQuery::FromPos { line_num: 1, horiz: Horiz(7), visual_line: 1, line_start: 10 }
    );
    assert_eq!(
        down_query(1, 2, 10, Horiz(7), 3, Some(30), 100),
        VerticalQuery::FromPos { line_num: 2, horiz: Horiz(7), visual_line: 0, line_start: 30 }
    );
    assert_eq!(down_query(4, 0, 90, Horiz(7), 1, Some(100), 100), VerticalQuery::Land(100));
}

#[test]
fn vertical_landing_snaps_to_char_boundary() {
    // The second line starts at byte 4 with "é", bytes 4 and 5; column 1
    // from the first line would land inside it.
    let s = "abc\néz";
    let text = TextBuffer::from_str(s);
    let m = Mono::new(s, 100);
    let down = Movement::Down.update_region(caret(1), &text, &m, false);
    assert_eq!((down.start, down.end), (4, 4));
}
