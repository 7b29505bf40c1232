//! Edit operations: each builds one delta from the selection, applies it to
//! the text, and carries the selection through the same delta.
use vstd::prelude::*;
use vstd::utf8::encode_utf8;

use crate::selection::{
    edits_sorted, inserted_len, lemma_transform_regions_within, regions_on_boundaries,
    regions_ordered, regions_within, shift, transform_regions, uniform_edits, SelRegion, Selection,
};
use crate::text::{
    apply_edits, builder_base_len, builder_build, builder_edits, builder_new, builder_replace,
    char_boundary, delta_apply, delta_edits, edits_ordered, prev_grapheme_of, text_bytes, Edit,
    TextBuffer,
};

verus! {

/// An edit operation.
pub enum EditOp {
    /// Replaces every region by the string.
    Insert(String),
    /// Deletes each range, or the grapheme before each caret.
    Backspace,
}

/// The ranges are well formed, in order, apart, and within `len` bytes.
pub open spec fn ranges_sorted(rs: Seq<(usize, usize)>, len: nat) -> bool {
    &&& forall|i: int| 0 <= i < rs.len() ==> #[trigger] rs[i].0 <= rs[i].1 <= len
    &&& forall|i: int| 0 < i < rs.len() ==> rs[i - 1].1 <= #[trigger] rs[i].0
}

/// Both ends of every range are character boundaries of `text`.
pub open spec fn ranges_on_boundaries(rs: Seq<(usize, usize)>, text: Seq<u8>) -> bool {
    forall|i: int|
        0 <= i < rs.len() ==> char_boundary(text, #[trigger] rs[i].0 as int) && char_boundary(
            text,
            rs[i].1 as int,
        )
}

/// The ranges an insertion replaces: the span of each region.
pub open spec fn insert_ranges(sel: Seq<SelRegion>) -> Seq<(usize, usize)> {
    sel.map_values(|r: SelRegion| (r.min(), r.max()))
}

/// Where backspace starts deleting for region `r`: a range is deleted
/// whole; a caret takes the grapheme before it. The deletion never reaches
/// back past `floor`, the end of the region before.
pub open spec fn backspace_start(r: SelRegion, text: Seq<u8>, floor: usize) -> usize {
    let s = if !r.is_caret() {
        r.min()
    } else {
        match prev_grapheme_of(text, r.max() as nat) {
            Some(p) => if p < r.max() {
                p
            } else {
                r.max()
            },
            None => r.max(),
        }
    };
    if s < floor {
        floor
    } else {
        s
    }
}

/// The end of the region before the last one; zero when there is none.
pub open spec fn floor_before_last(sel: Seq<SelRegion>) -> usize {
    if sel.len() > 1 {
        sel[sel.len() - 2].max()
    } else {
        0
    }
}

/// The ranges backspace deletes: one for each region that has something
/// before it to delete.
pub open spec fn backspace_ranges(sel: Seq<SelRegion>, text: Seq<u8>) -> Seq<(usize, usize)>
    decreases sel.len(),
{
    if sel.len() == 0 {
        Seq::empty()
    } else {
        let before = backspace_ranges(sel.drop_last(), text);
        let r = sel.last();
        let s = backspace_start(r, text, floor_before_last(sel));
        if s != r.max() {
            before.push((s, r.max()))
        } else {
            before
        }
    }
}

/// What an insertion puts in place of each range; nothing for backspace.
pub open spec fn edit_content(op: EditOp) -> Seq<char> {
    match op {
        EditOp::Insert(s) => s@,
        EditOp::Backspace => Seq::empty(),
    }
}

/// The ranges the operation replaces.
pub open spec fn edit_ranges(op: EditOp, sel: Seq<SelRegion>, text: Seq<u8>) -> Seq<(usize, usize)> {
    match op {
        EditOp::Insert(_) => insert_ranges(sel),
        EditOp::Backspace => backspace_ranges(sel, text),
    }
}

/// The replacements the operation makes.
pub open spec fn edit_edits(op: EditOp, sel: Seq<SelRegion>, text: Seq<u8>) -> Seq<Edit> {
    uniform_edits(edit_ranges(op, sel, text), encode_utf8(edit_content(op)))
}

proof fn lemma_uniform_edits_sorted(rs: Seq<(usize, usize)>, c: Seq<u8>, len: nat)
    requires
        ranges_sorted(rs, len),
    ensures
        edits_sorted(uniform_edits(rs, c)),
        edits_ordered(uniform_edits(rs, c), len),
{
    let e = uniform_edits(rs, c);
    assert forall|i: int| 0 <= i < e.len() implies #[trigger] e[i].0 <= e[i].1 <= len by {
        assert(rs[i].0 <= rs[i].1 <= len);
    }
    assert forall|i: int| 0 < i < e.len() implies e[i - 1].1 <= #[trigger] e[i].0 by {
        assert(rs[i - 1].1 <= rs[i].0);
    }
}

proof fn lemma_uniform_inserted(rs: Seq<(usize, usize)>, c: Seq<u8>)
    ensures
        inserted_len(uniform_edits(rs, c)) == rs.len() * c.len(),
    decreases rs.len(),
{
    if rs.len() > 0 {
        lemma_uniform_inserted(rs.drop_last(), c);
        assert(uniform_edits(rs, c).drop_last() =~= uniform_edits(rs.drop_last(), c));
        assert(uniform_edits(rs, c).last().2 == c);
        assert(inserted_len(uniform_edits(rs, c)) == inserted_len(uniform_edits(rs.drop_last(), c))
            + c.len());
        assert(rs.len() * c.len() == (rs.len() - 1) * c.len() + c.len()) by (nonlinear_arith);
        assert(rs.drop_last().len() == rs.len() - 1);
    } else {
        assert(rs.len() * c.len() == 0) by (nonlinear_arith)
            requires
                rs.len() == 0,
        ;
    }
}

/// The insertion ranges of an ordered selection.
fn insert_ranges_exec(sel: &Selection, Ghost(text): Ghost<Seq<u8>>) -> (r: Vec<(usize, usize)>)
    requires
        regions_ordered(sel@),
        regions_within(sel@, text.len()),
        regions_on_boundaries(sel@, text),
    ensures
        r@ == insert_ranges(sel@),
        ranges_sorted(r@, text.len()),
        ranges_on_boundaries(r@, text),
{
    let regions = sel.regions();
    let n = regions.len();
    let mut ranges: Vec<(usize, usize)> = Vec::new();
    let mut i: usize = 0;
    while i < n
        invariant
            regions@ == sel@,
            n == sel@.len(),
            i <= n,
            ranges@ == insert_ranges(sel@.take(i as int)),
        decreases n - i,
    {
        ranges.push((regions[i].min(), regions[i].max()));
        proof {
            assert(insert_ranges(sel@.take(i + 1)) =~= insert_ranges(sel@.take(i as int)).push(
                (sel@[i as int].min(), sel@[i as int].max()),
            ));
        }
        i = i + 1;
    }
    proof {
        assert(sel@.take(n as int) =~= sel@);
        let rs = ranges@;
        assert forall|i: int| 0 <= i < rs.len() implies #[trigger] rs[i].0 <= rs[i].1 <= text.len()
            && char_boundary(text, rs[i].0 as int) && char_boundary(text, rs[i].1 as int) by {
            assert(sel@[i].max() <= text.len());
        }
        assert forall|i: int| 0 < i < rs.len() implies rs[i - 1].1 <= #[trigger] rs[i].0 by {
            assert(regions_ordered(sel@));
            assert(crate::selection::region_before(sel@[i - 1], sel@[i]));
        }
    }
    ranges
}

/// The backspace ranges of an ordered selection.
fn backspace_ranges_exec(sel: &Selection, text: &TextBuffer) -> (r: Vec<(usize, usize)>)
    requires
        regions_ordered(sel@),
        regions_within(sel@, text_bytes(*text).len()),
        regions_on_boundaries(sel@, text_bytes(*text)),
    ensures
        r@ == backspace_ranges(sel@, text_bytes(*text)),
        ranges_sorted(r@, text_bytes(*text).len()),
        ranges_on_boundaries(r@, text_bytes(*text)),
{
    let ghost t = text_bytes(*text);
    let regions = sel.regions();
    let n = regions.len();
    let mut ranges: Vec<(usize, usize)> = Vec::new();
    let mut i: usize = 0;
    let mut floor: usize = 0;
    proof {
        assert(sel@.take(0) =~= Seq::<SelRegion>::empty());
    }
    while i < n
        invariant
            regions@ == sel@,
            t == text_bytes(*text),
            n == sel@.len(),
            i <= n,
            regions_ordered(sel@),
            regions_within(sel@, t.len()),
            regions_on_boundaries(sel@, t),
            ranges_on_boundaries(ranges@, t),
            char_boundary(t, floor as int),
            floor == (if i > 0 {
                sel@[i - 1].max()
            } else {
                0
            }),
            ranges@ == backspace_ranges(sel@.take(i as int), t),
            ranges_sorted(ranges@, t.len()),
            forall|j: int| 0 <= j < ranges@.len() ==> #[trigger] ranges@[j].1 <= floor,
        decreases n - i,
    {
        let r = regions[i];
        proof {
            assert(r.max() <= t.len());
            assert(char_boundary(t, r.start as int) && char_boundary(t, r.end as int));
            if i > 0 {
                assert(crate::selection::region_before(sel@[i - 1], sel@[i as int]));
            }
        }
        let mut start = if !r.is_caret() {
            r.min()
        } else {
            match text.prev_grapheme_offset(r.max()) {
                Some(p) => {
                    assert(char_boundary(t, p as int));
                    p
                },
                None => r.max(),
            }
        };
        assert(char_boundary(t, start as int));
        if start < floor {
            start = floor;
        }
        let ghost before = ranges@;
        if start != r.max() {
            ranges.push((start, r.max()));
        }
        proof {
            let s2 = sel@.take(i + 1);
            assert(s2.drop_last() =~= sel@.take(i as int));
            assert(s2.last() == r);
            assert(floor_before_last(s2) == floor);
            assert(start == backspace_start(r, t, floor));
            let rs = ranges@;
            if start != r.max() {
                assert(rs == before.push((start, r.max())));
                assert forall|j: int| 0 < j < rs.len() implies rs[j - 1].1 <= #[trigger] rs[j].0 by {
                    if j < before.len() {
                        assert(rs[j - 1] == before[j - 1] && rs[j] == before[j]);
                    } else {
                        assert(rs[j - 1] == before[j - 1]);
                        assert(before[j - 1].1 <= floor);
                    }
                }
                assert forall|j: int| 0 <= j < rs.len() implies #[trigger] rs[j].0 <= rs[j].1 <= t.len()
                    && char_boundary(t, rs[j].0 as int) && char_boundary(t, rs[j].1 as int) by {
                    if j < before.len() {
                        assert(rs[j] == before[j]);
                    }
                }
            }
            assert forall|j: int| 0 <= j < rs.len() implies #[trigger] rs[j].1 <= r.max() by {
                if j < before.len() {
                    assert(rs[j] == before[j]);
                }
            }
        }
        floor = r.max();
        i = i + 1;
    }
    proof {
        assert(sel@.take(n as int) =~= sel@);
    }
    ranges
}

impl EditOp {
    /// The number of bytes the operation inserts for each of `n` regions.
    pub open spec fn inserted_bytes(self, n: nat) -> nat {
        n * encode_utf8(edit_content(self)).len()
    }

    /// Applies the operation to `text` and carries `sel` along. Every
    /// replacement goes into one delta, applied once. When there is nothing
    /// to replace (backspace with every caret at the start, or an empty
    /// selection) the text is left alone and the result is `None`.
    pub fn apply(&self, text: &mut TextBuffer, sel: &Selection) -> (r: Option<Selection>)
        requires
            regions_ordered(sel@),
            regions_within(sel@, text_bytes(*old(text)).len()),
            regions_on_boundaries(sel@, text_bytes(*old(text))),
            text_bytes(*old(text)).len() + self.inserted_bytes(sel@.len()) <= usize::MAX,
        ensures
            edit_ranges(*self, sel@, text_bytes(*old(text))).len() == 0 ==> r.is_none()
                && *final(text) == *old(text),
            edit_ranges(*self, sel@, text_bytes(*old(text))).len() > 0 ==> (r matches Some(s)
                && s@ == transform_regions(sel@, edit_edits(*self, sel@, text_bytes(*old(text))))
                && text_bytes(*final(text)) == apply_edits(
                text_bytes(*old(text)),
                edit_edits(*self, sel@, text_bytes(*old(text))),
            )),
            r matches Some(s) ==> regions_ordered(s@) && regions_within(
                s@,
                text_bytes(*final(text)).len(),
            ),
    {
        let ghost t = text_bytes(*text);
        let len = text.len();
        let ranges = match self {
            EditOp::Insert(_) => insert_ranges_exec(sel, Ghost(t)),
            EditOp::Backspace => backspace_ranges_exec(sel, text),
        };
        let content: &str = match self {
            EditOp::Insert(s) => s.as_str(),
            EditOp::Backspace => "",
        };
        proof {
            reveal_strlit("");
            assert(content@ == edit_content(*self));
        }
        if ranges.len() == 0 {
            return None;
        }
        let ghost c = encode_utf8(content@);
        let ghost edits = uniform_edits(ranges@, c);
        proof {
            lemma_uniform_edits_sorted(ranges@, c, t.len());
            lemma_uniform_inserted(ranges@, c);
            match self {
                EditOp::Insert(_) => {
                    assert(ranges@.len() == sel@.len());
                },
                EditOp::Backspace => {
                    assert(c.len() == 0);
                    assert(ranges@.len() * c.len() == 0) by (nonlinear_arith)
                        requires c.len() == 0;
                },
            }
        }
        let mut builder = builder_new(len);
        let n = ranges.len();
        let mut i: usize = 0;
        proof {
            assert(uniform_edits(ranges@.take(0), c) =~= Seq::<Edit>::empty());
        }
        while i < n
            invariant
                n == ranges@.len(),
                i <= n,
                c == encode_utf8(content@),
                ranges_sorted(ranges@, len as nat),
                builder_edits(builder) == uniform_edits(ranges@.take(i as int), c),
                builder_base_len(builder) == len,
            decreases n - i,
        {
            let a = ranges[i].0;
            let b = ranges[i].1;
            proof {
                assert(ranges@[i as int] == (a, b));
                if i > 0 {
                    assert(ranges@[i - 1].1 <= ranges@[i as int].0);
                    assert(uniform_edits(ranges@.take(i as int), c).last() == (
                        ranges@[i - 1].0 as nat,
                        ranges@[i - 1].1 as nat,
                        c,
                    ));
                }
            }
            builder_replace(&mut builder, a, b, TextBuffer::from_str(content));
            proof {
                assert(uniform_edits(ranges@.take(i + 1), c) =~= uniform_edits(
                    ranges@.take(i as int),
                    c,
                ).push((a as nat, b as nat, c)));
            }
            i = i + 1;
        }
        proof {
            assert(ranges@.take(n as int) =~= ranges@);
        }
        let delta = builder_build(builder);
        proof {
            assert forall|k: int| 0 <= k < delta_edits(delta).len() implies char_boundary(
                t,
                #[trigger] delta_edits(delta)[k].0 as int,
            ) && char_boundary(t, delta_edits(delta)[k].1 as int) by {
                assert(delta_edits(delta)[k] == (ranges@[k].0 as nat, ranges@[k].1 as nat, c));
            }
        }
        *text = delta_apply(&delta, text);
        proof {
            lemma_apply_edits_len(t, edits);
            lemma_transform_regions_within(sel@, edits, t.len());
            assert forall|k: int| 0 <= k < sel@.len() implies #[trigger] sel@[k].max()
                + inserted_len(edits) <= usize::MAX by {
                assert(sel@[k].max() <= t.len());
            }
        }
        Some(sel.apply_replacements(&ranges, content))
    }
}

/// Inserting a string at a single caret at offset `o` lengthens the text by
/// the string's length in bytes and leaves a caret just after the inserted
/// text.
pub proof fn lemma_insert_at_caret(text: Seq<u8>, o: usize, s: String)
    requires
        o <= text.len(),
        o + encode_utf8(s@).len() <= usize::MAX,
    ensures
        ({
            let sel = seq![SelRegion { start: o, end: o, horiz: None }];
            let op = EditOp::Insert(s);
            let c = encode_utf8(s@);
            &&& edit_ranges(op, sel, text).len() > 0
            &&& apply_edits(text, edit_edits(op, sel, text)).len() == text.len() + c.len()
            &&& transform_regions(sel, edit_edits(op, sel, text)) == seq![
                SelRegion { start: (o + c.len()) as usize, end: (o + c.len()) as usize, horiz: None },
            ]
        }),
{
    let sel = seq![SelRegion { start: o, end: o, horiz: None }];
    let op = EditOp::Insert(s);
    let c = encode_utf8(s@);
    let edits = edit_edits(op, sel, text);
    assert(edit_ranges(op, sel, text) =~= seq![(o, o)]);
    assert(edits =~= seq![(o as nat, o as nat, c)]);
    assert(edits.drop_last() =~= Seq::<Edit>::empty());
    assert(sel.drop_last() =~= Seq::<SelRegion>::empty());
    assert(edits[0] == (o as nat, o as nat, c));
    assert(apply_edits(text.take(o as int), edits.drop_last()) == text.take(o as int));
    assert(apply_edits(text, edits) == text.take(o as int) + c + text.skip(o as int));
    let moved = crate::selection::transform_region(edits, sel.last());
    assert(crate::selection::transform_offset(edits, o as nat, false) == o + c.len());
    assert(transform_regions(sel.drop_last(), edits) == Seq::<SelRegion>::empty());
    assert(transform_regions(sel, edits) =~= seq![moved]);
}

/// Backspace with a single caret at the start of the text has nothing to
/// delete, so the edit leaves text and selection as they were.
pub proof fn lemma_backspace_at_start(text: Seq<u8>)
    ensures
        edit_ranges(EditOp::Backspace, seq![SelRegion { start: 0, end: 0, horiz: None }], text).len()
            == 0,
{
    let sel = seq![SelRegion { start: 0, end: 0, horiz: None }];
    assert(sel.drop_last() =~= Seq::<SelRegion>::empty());
    assert(backspace_ranges(sel.drop_last(), text) == Seq::<(usize, usize)>::empty());
    assert(backspace_start(sel.last(), text, floor_before_last(sel)) == 0);
}

proof fn lemma_end_before(edits: Seq<Edit>, len: nat, i: int, j: int)
    requires
        edits_ordered(edits, len),
        0 <= i < j < edits.len(),
    ensures
        edits[i].1 <= edits[j].0,
    decreases j - i,
{
    if i + 1 < j {
        lemma_end_before(edits, len, i + 1, j);
        assert(edits[i].1 <= edits[i + 1].0);
        assert(edits[i + 1].0 <= edits[i + 1].1);
    } else {
        assert(edits[j - 1].1 <= edits[j].0);
    }
}

/// The text after the replacements is longer by their net change in length.
pub proof fn lemma_apply_edits_len(text: Seq<u8>, edits: Seq<Edit>)
    requires
        edits_ordered(edits, text.len()),
    ensures
        apply_edits(text, edits).len() == text.len() + shift(edits),
    decreases edits.len(),
{
    if edits.len() > 0 {
        let e = edits.last();
        let init = edits.drop_last();
        let n = edits.len() - 1;
        assert(e == edits[n]);
        assert(e.0 <= e.1 <= text.len());
        assert forall|i: int| 0 <= i < init.len() implies #[trigger] init[i].0 <= init[i].1
            <= e.0 by {
            assert(init[i] == edits[i]);
            lemma_end_before(edits, text.len(), i, n);
        }
        assert forall|i: int| 0 < i < init.len() implies init[i - 1].1 <= #[trigger] init[i].0 by {
            assert(init[i] == edits[i]);
            assert(init[i - 1] == edits[i - 1]);
        }
        lemma_apply_edits_len(text.take(e.0 as int), init);
    }
}

/// Where the caret for region `i` lands when every region of `sel` is
/// replaced by `clen` bytes: after its own insertion, moved by the change in
/// length of every replacement before it.
pub open spec fn insert_landing(sel: Seq<SelRegion>, i: int, clen: nat) -> int
    decreases i,
{
    if i <= 0 {
        sel[0].min() + clen
    } else {
        insert_landing(sel.drop_first(), i - 1, clen) + clen - (sel[0].max() - sel[0].min())
    }
}

/// A caret at `o`.
pub open spec fn caret_at(o: int) -> SelRegion {
    SelRegion { start: o as usize, end: o as usize, horiz: None }
}

proof fn lemma_ordered_tail(sel: Seq<SelRegion>)
    requires
        regions_ordered(sel),
        sel.len() > 0,
    ensures
        regions_ordered(sel.drop_first()),
{
    let t = sel.drop_first();
    assert forall|i: int| 0 < i < t.len() implies crate::selection::region_before(
        t[i - 1],
        #[trigger] t[i],
    ) by {
        assert(t[i] == sel[i + 1] && t[i - 1] == sel[i]);
        assert(crate::selection::region_before(sel[i], sel[i + 1]));
    }
}

proof fn lemma_before_chain(sel: Seq<SelRegion>, i: int)
    requires
        regions_ordered(sel),
        1 <= i < sel.len(),
    ensures
        sel[0].max() <= sel[i].min(),
        sel[0].max() == sel[i].min() ==> i == 1 && !sel[0].is_caret() && !sel[i].is_caret(),
    decreases i,
{
    assert(crate::selection::region_before(sel[i - 1], sel[i]));
    if i > 1 {
        lemma_before_chain(sel, i - 1);
    }
}

/// An edge of region `i` lands where `insert_landing` says.
proof fn lemma_insert_edge(sel: Seq<SelRegion>, c: Seq<u8>, i: int, o: nat, later: bool)
    requires
        regions_ordered(sel),
        0 <= i < sel.len(),
        (o == sel[i].min() && later == !sel[i].is_caret()) || (o == sel[i].max() && !later),
    ensures
        crate::selection::transform_offset(uniform_edits(insert_ranges(sel), c), o, later)
            == insert_landing(sel, i, c.len()),
    decreases i,
{
    let edits = uniform_edits(insert_ranges(sel), c);
    assert(edits[0] == (sel[0].min() as nat, sel[0].max() as nat, c));
    if i > 0 {
        let t = sel.drop_first();
        lemma_ordered_tail(sel);
        lemma_before_chain(sel, i);
        assert(edits.drop_first() =~= uniform_edits(insert_ranges(t), c));
        assert(t[i - 1] == sel[i]);
        if i == 1 {
            assert(edits[1] == (sel[1].min() as nat, sel[1].max() as nat, c));
        }
        lemma_insert_edge(t, c, i - 1, o, later);
    }
}

proof fn lemma_insert_landing_step(sel: Seq<SelRegion>, i: int, clen: nat)
    requires
        0 <= i,
        i + 1 < sel.len(),
    ensures
        insert_landing(sel, i + 1, clen) == insert_landing(sel, i, clen) + (sel[i + 1].min()
            - sel[i].max()) + clen,
    decreases i,
{
    let t = sel.drop_first();
    assert(insert_landing(sel, i + 1, clen) == insert_landing(t, i, clen) + clen - (sel[0].max()
        - sel[0].min()));
    if i > 0 {
        lemma_insert_landing_step(t, i - 1, clen);
        assert(t[i] == sel[i + 1] && t[i - 1] == sel[i]);
        assert(insert_landing(sel, i, clen) == insert_landing(t, i - 1, clen) + clen - (
        sel[0].max() - sel[0].min()));
    } else {
        assert(t[0] == sel[1]);
        assert(insert_landing(t, 0, clen) == t[0].min() + clen);
    }
}

/// Inserting a non-empty string over ordered regions of a text leaves one
/// caret for each region, in order, just after its own insertion: the caret
/// for region `i` is at `insert_landing(sel, i, ..)`.
pub proof fn lemma_insert_carets(text: Seq<u8>, sel: Seq<SelRegion>, s: String)
    requires
        regions_ordered(sel),
        regions_within(sel, text.len()),
        encode_utf8(s@).len() > 0,
        text.len() + sel.len() * encode_utf8(s@).len() <= usize::MAX,
    ensures
        transform_regions(sel, edit_edits(EditOp::Insert(s), sel, text)) == Seq::new(
            sel.len(),
            |i: int| caret_at(insert_landing(sel, i, encode_utf8(s@).len())),
        ),
{
    let c = encode_utf8(s@);
    let edits = uniform_edits(insert_ranges(sel), c);
    assert(edit_edits(EditOp::Insert(s), sel, text) == edits);
    lemma_insert_prefix(text, sel, c, sel.len() as int);
    assert(sel.take(sel.len() as int) =~= sel);
}

proof fn lemma_insert_landing_bounds(text: Seq<u8>, sel: Seq<SelRegion>, c: Seq<u8>, i: int)
    requires
        regions_ordered(sel),
        regions_within(sel, text.len()),
        text.len() + sel.len() * c.len() <= usize::MAX,
        0 <= i < sel.len(),
    ensures
        0 <= insert_landing(sel, i, c.len()) <= usize::MAX,
{
    let rs = insert_ranges(sel);
    let edits = uniform_edits(rs, c);
    assert forall|k: int| 0 <= k < rs.len() implies #[trigger] rs[k].0 <= rs[k].1 <= text.len() by {
        assert(sel[k].max() <= text.len());
    }
    assert forall|k: int| 0 < k < rs.len() implies rs[k - 1].1 <= #[trigger] rs[k].0 by {
        assert(crate::selection::region_before(sel[k - 1], sel[k]));
    }
    lemma_uniform_edits_sorted(rs, c, text.len());
    lemma_uniform_inserted(rs, c);
    crate::selection::lemma_shift_le_inserted(edits);
    let r = sel[i];
    assert(r.max() <= text.len());
    lemma_insert_edge(sel, c, i, r.max() as nat, false);
    crate::selection::lemma_transform_within(edits, text.len(), r.max() as nat, false);
}

proof fn lemma_insert_prefix(text: Seq<u8>, sel: Seq<SelRegion>, c: Seq<u8>, n: int)
    requires
        regions_ordered(sel),
        regions_within(sel, text.len()),
        text.len() + sel.len() * c.len() <= usize::MAX,
        c.len() > 0,
        0 <= n <= sel.len(),
    ensures
        transform_regions(sel.take(n), uniform_edits(insert_ranges(sel), c)) == Seq::new(
            n as nat,
            |i: int| caret_at(insert_landing(sel, i, c.len())),
        ),
    decreases n,
{
    let edits = uniform_edits(insert_ranges(sel), c);
    let f = |i: int| caret_at(insert_landing(sel, i, c.len()));
    if n == 0 {
        assert(Seq::new(0, f) =~= Seq::<SelRegion>::empty());
    } else {
        lemma_insert_prefix(text, sel, c, n - 1);
        let r = sel[n - 1];
        assert(sel.take(n).drop_last() =~= sel.take(n - 1));
        assert(sel.take(n).last() == r);
        lemma_insert_edge(sel, c, n - 1, r.start as nat, r.start < r.end);
        lemma_insert_edge(sel, c, n - 1, r.end as nat, r.end < r.start);
        lemma_insert_landing_bounds(text, sel, c, n - 1);
        let moved = crate::selection::transform_region(edits, r);
        assert(moved == f(n - 1));
        let acc = Seq::new((n - 1) as nat, f);
        if n > 1 {
            lemma_insert_landing_step(sel, n - 2, c.len());
            lemma_insert_landing_bounds(text, sel, c, n - 2);
            assert(crate::selection::region_before(sel[n - 2], sel[n - 1]));
            assert(acc.last() == f(n - 2));
            assert(crate::selection::region_before(acc.last(), moved));
        }
        assert(Seq::new(n as nat, f) =~= acc.push(moved));
    }
}

} // verus!
