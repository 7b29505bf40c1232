use xi_text_core::selection::transform_offset_exec;
use xi_text_core::{Horiz, SelRegion, Selection};

#[test]
fn region_min_max_caret() {
    let r = SelRegion::new(5, 2);
    assert_eq!(r.min(), 2);
    assert_eq!(r.max(), 5);
    assert!(!r.is_caret());
    assert!(SelRegion::new(3, 3).is_caret());
    assert_eq!(SelRegion::new(1, 4).with_horiz(Some(Horiz(7))).horiz, Some(Horiz(7)));
}

#[test]
fn add_region_keeps_order() {
    let mut sel = Selection::new();
    assert!(sel.add_region(SelRegion::new(10, 12)));
    assert!(sel.add_region(SelRegion::new(3, 3)));
    assert!(sel.add_region(SelRegion::new(5, 8)));
    let got: Vec<(usize, usize)> = sel.regions().iter().map(|r| (r.start, r.end)).collect();
    assert_eq!(got, vec![(3, 3), (5, 8), (10, 12)]);
    assert_eq!(sel.len(), 3);
}

#[test]
fn add_region_refuses_overlap() {
    let mut sel = Selection::new_simple(SelRegion::new(4, 9));
    assert!(!sel.add_region(SelRegion::new(6, 6)));
    assert!(!sel.add_region(SelRegion::new(2, 5)));
    assert!(!sel.add_region(SelRegion::new(9, 9)));
    assert!(sel.add_region(SelRegion::new(9, 12)));
    assert_eq!(sel.len(), 2);
}

#[test]
fn transform_offsets_through_replacements() {
    let ranges = vec![(2usize, 4usize), (6, 6)];
    // Before, inside, at the end of, and after the first range; at and after the insertion.
    assert_eq!(transform_offset_exec(&ranges, "xyz", 1, false), 1);
    assert_eq!(transform_offset_exec(&ranges, "xyz", 2, false), 5);
    assert_eq!(transform_offset_exec(&ranges, "xyz", 3, false), 5);
    assert_eq!(transform_offset_exec(&ranges, "xyz", 4, false), 5);
    assert_eq!(transform_offset_exec(&ranges, "xyz", 5, false), 6);
    assert_eq!(transform_offset_exec(&ranges, "xyz", 6, false), 10);
    assert_eq!(transform_offset_exec(&ranges, "xyz", 8, false), 12);
    assert_eq!(transform_offset_exec(&ranges, "", 3, false), 2);
    assert_eq!(transform_offset_exec(&ranges, "", 8, false), 6);
}

#[test]
fn apply_replacements_carries_regions() {
    let mut sel = Selection::new();
    assert!(sel.add_region(SelRegion::new(1, 1)));
    assert!(sel.add_region(SelRegion::new(3, 6)));
    let moved = sel.apply_replacements(&vec![(0usize, 2usize)], "");
    let got: Vec<(usize, usize)> = moved.regions().iter().map(|r| (r.start, r.end)).collect();
    assert_eq!(got, vec![(0, 0), (1, 4)]);
}

#[test]
fn transform_offset_between_touching_ranges() {
    let ranges = vec![(2usize, 5usize), (5, 8)];
    // The end of the first range goes with the first replacement...
    assert_eq!(transform_offset_exec(&ranges, "x", 5, false), 3);
    // ...and the start of the second with the second.
    assert_eq!(transform_offset_exec(&ranges, "x", 5, true), 4);
}
