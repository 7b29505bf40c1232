//! Caret movement: turns a movement request into new selection regions,
//! asking a `Measurement` for the geometry of wrapped lines.
use vstd::prelude::*;

use crate::selection::{
    region_before, regions_on_boundaries, regions_ordered, regions_within, Horiz, SelRegion,
    Selection,
};
use crate::text::{
    char_boundary, count_newlines, floor_boundary, is_newline, line_start, next_grapheme_of,
    prev_grapheme_of, text_bytes, TextBuffer,
};

verus! {

/// Measurement of laid-out text, provided by the presentation layer. Its
/// answers depend only on the layout it measures: each method returns what
/// its spec function gives.
pub trait Measurement {
    /// The number of visual lines of logical line `line_num`.
    spec fn spec_n_visual_lines(&self, line_num: usize) -> usize;

    /// The horizontal position and relative visual line of an offset.
    spec fn spec_to_pos(&self, line_num: usize, offset: usize) -> (Horiz, usize);

    /// The offset closest to a horizontal position on a visual line.
    spec fn spec_from_pos(&self, line_num: usize, horiz: Horiz, visual_line: usize) -> usize;

    /// The number of visual lines of a logical line.
    fn n_visual_lines(&self, line_num: usize) -> (r: usize)
        ensures
            r == self.spec_n_visual_lines(line_num),
    ;

    /// The horizontal position and the visual line (relative to the logical
    /// line) of an offset relative to the start of the logical line.
    fn to_pos(&self, line_num: usize, offset: usize) -> (r: (Horiz, usize))
        ensures
            r == self.spec_to_pos(line_num, offset),
    ;

    /// The offset, relative to the start of the logical line, closest to the
    /// given horizontal position on the given visual line.
    fn from_pos(&self, line_num: usize, horiz: Horiz, visual_line: usize) -> (r: usize)
        ensures
            r == self.spec_from_pos(line_num, horiz, visual_line),
    ;
}

/// The specification of a movement.
#[derive(Copy, Clone, Debug, PartialEq, Eq, Structural)]
pub enum Movement {
    /// Move to the left by one grapheme cluster.
    Left,
    /// Move to the right by one grapheme cluster.
    Right,
    /// Move to the left by one word.
    LeftWord,
    /// Move to the right by one word.
    RightWord,
    /// Move to left end of visible line.
    LeftOfLine,
    /// Move to right end of visible line.
    RightOfLine,
    /// Move up one visible line.
    Up,
    /// Move down one visible line.
    Down,
    /// Move up one viewport height.
    UpPage,
    /// Move down one viewport height.
    DownPage,
    /// Move up to the next line that can preserve the cursor position.
    UpExactPosition,
    /// Move down to the next line that can preserve the cursor position.
    DownExactPosition,
    /// Move to the start of the text line.
    StartOfParagraph,
    /// Move to the end of the text line.
    EndOfParagraph,
    /// Move to the end of the text line, or next line if already at end.
    EndOfParagraphKill,
    /// Move to the start of the document.
    StartOfDocument,
    /// Move to the end of the document
    EndOfDocument,
}

/// The region a movement to `offset` yields: extending keeps the anchor
/// `start`, otherwise the region collapses to a caret.
pub open spec fn moved_region(r: SelRegion, offset: usize, horiz: Option<Horiz>, modify: bool) -> SelRegion {
    SelRegion { start: if modify { r.start } else { offset }, end: offset, horiz }
}

/// Where Left goes, and the horizontal position it keeps: a caret (or an
/// extended region) moves one grapheme back from its active edge and forgets
/// its horizontal position, except at the start of the text; a range
/// collapses to its lower edge.
pub open spec fn left_target(r: SelRegion, text: Seq<u8>, modify: bool) -> (usize, Option<Horiz>) {
    if r.is_caret() || modify {
        match prev_grapheme_of(text, r.end as nat) {
            Some(p) => (p, None),
            None => (0, r.horiz),
        }
    } else {
        (r.min(), None)
    }
}

/// Where Right goes, as Left does in the other direction.
pub open spec fn right_target(r: SelRegion, text: Seq<u8>, modify: bool) -> (usize, Option<Horiz>) {
    if r.is_caret() || modify {
        match next_grapheme_of(text, r.end as nat) {
            Some(n) => (n, None),
            None => (r.end, r.horiz),
        }
    } else {
        (r.max(), None)
    }
}

/// The offset a vertical move starts from: the active edge when extending,
/// else the edge in the direction of the move.
pub open spec fn vertical_origin(r: SelRegion, move_up: bool, modify: bool) -> usize {
    if modify {
        r.end
    } else if move_up {
        r.min()
    } else {
        r.max()
    }
}

proof fn lemma_count_newlines_step(s: Seq<u8>, b: int)
    requires
        0 < b <= s.len(),
    ensures
        count_newlines(s.take(b)) == count_newlines(s.take(b - 1)) + if is_newline(s[b - 1]) {
            1nat
        } else {
            0nat
        },
{
    assert(s.take(b).drop_last() =~= s.take(b - 1));
}

proof fn lemma_count_newlines_mono(s: Seq<u8>, a: int, b: int)
    requires
        0 <= a <= b <= s.len(),
    ensures
        count_newlines(s.take(a)) <= count_newlines(s.take(b)),
    decreases b - a,
{
    if a < b {
        lemma_count_newlines_mono(s, a, b - 1);
        lemma_count_newlines_step(s, b);
    }
}

/// The start of the line holding `offset` is at or before it.
proof fn lemma_line_start_before(s: Seq<u8>, o: int, start: int)
    requires
        0 <= o <= s.len(),
        0 <= start <= s.len(),
        count_newlines(s.take(o)) > 0 ==> start > 0 && count_newlines(s.take(start)) == count_newlines(
            s.take(o),
        ) && is_newline(s[start - 1]),
        count_newlines(s.take(o)) == 0 ==> start == 0,
    ensures
        start <= o,
{
    if start > o {
        lemma_count_newlines_mono(s, o, start - 1);
        lemma_count_newlines_step(s, start);
    }
}

/// `base + rel`, but no further than `len`.
fn clamped_offset(base: usize, rel: usize, len: usize) -> (r: usize)
    requires
        base <= len,
    ensures
        r == if base + rel <= len {
            (base + rel) as usize
        } else {
            len
        },
{
    if rel > len - base {
        len
    } else {
        base + rel
    }
}

proof fn lemma_count_newlines_le_len(s: Seq<u8>)
    ensures
        count_newlines(s) <= s.len(),
    decreases s.len(),
{
    if s.len() > 0 {
        lemma_count_newlines_le_len(s.drop_last());
    }
}

proof fn lemma_floor_boundary(s: Seq<u8>, o: nat)
    requires
        o <= s.len(),
    ensures
        floor_boundary(s, o) <= o,
        char_boundary(s, floor_boundary(s, o) as int),
    decreases o,
{
    if o > 0 && !char_boundary(s, o as int) {
        lemma_floor_boundary(s, (o - 1) as nat);
    }
}

/// Where a vertical move begins: the logical line, its start, the visual
/// line within it, and the horizontal position to aim for.
struct PosInfo {
    line_num: usize,
    horiz: Horiz,
    line_start: usize,
    rel_line: usize,
}

/// The logical line holding the origin of a vertical move.
pub open spec fn origin_line(r: SelRegion, s: Seq<u8>, move_up: bool, modify: bool) -> nat {
    count_newlines(s.take(vertical_origin(r, move_up, modify) as int))
}

/// What the measurement says of the origin of a vertical move: its
/// horizontal position and its visual line.
pub open spec fn origin_pos<M: Measurement>(
    m: M,
    r: SelRegion,
    s: Seq<u8>,
    move_up: bool,
    modify: bool,
) -> (Horiz, usize) {
    let line = origin_line(r, s, move_up, modify);
    m.spec_to_pos(
        line as usize,
        (vertical_origin(r, move_up, modify) - line_start(s, line)) as usize,
    )
}

/// The horizontal position a vertical move aims for: the one the region
/// remembers, else the measured one.
pub open spec fn vertical_horiz<M: Measurement>(
    m: M,
    r: SelRegion,
    s: Seq<u8>,
    move_up: bool,
    modify: bool,
) -> Horiz {
    match r.horiz {
        Some(h) => h,
        None => origin_pos(m, r, s, move_up, modify).0,
    }
}

fn pos_info<M: Measurement>(
    r: &SelRegion,
    text: &TextBuffer,
    measurement: &M,
    move_up: bool,
    modify: bool,
) -> (info: PosInfo)
    requires
        r.max() <= text_bytes(*text).len(),
        char_boundary(text_bytes(*text), r.start as int),
        char_boundary(text_bytes(*text), r.end as int),
    ensures
        info.line_num == origin_line(*r, text_bytes(*text), move_up, modify),
        info.line_start == line_start(text_bytes(*text), info.line_num as nat),
        info.line_start <= vertical_origin(*r, move_up, modify),
        info.rel_line == origin_pos(*measurement, *r, text_bytes(*text), move_up, modify).1,
        info.horiz == vertical_horiz(*measurement, *r, text_bytes(*text), move_up, modify),
{
    let ghost s = text_bytes(*text);
    let offset = if modify {
        r.end
    } else if move_up {
        r.min()
    } else {
        r.max()
    };
    let line_num = text.line_of_offset(offset);
    proof {
        lemma_count_newlines_mono(s, offset as int, s.len() as int);
        assert(s.take(s.len() as int) =~= s);
    }
    let line_start = text.offset_of_line(line_num);
    proof {
        lemma_line_start_before(s, offset as int, line_start as int);
    }
    let rel_offset = offset - line_start;
    let (meas_horiz, rel_line) = measurement.to_pos(line_num, rel_offset);
    let horiz = match r.horiz {
        Some(h) => h,
        None => meas_horiz,
    };
    PosInfo { line_num, horiz, line_start, rel_line }
}

/// What a vertical move does next: ask the measurement for an offset
/// within a line, or land on an offset without asking.
#[derive(Copy, Clone, Debug, PartialEq, Eq, Structural)]
pub enum VerticalQuery {
    /// Ask `from_pos(line_num, horiz, visual_line)`; the answer counts from
    /// `line_start`.
    FromPos { line_num: usize, horiz: Horiz, visual_line: usize, line_start: usize },
    /// Land on this offset.
    Land(usize),
}

/// The query of a move up from visual line `rel_line` of logical line
/// `line_num`, which starts at `line_start`, aiming for `horiz`: the visual
/// line above in the same logical line; else the last visual line of the
/// line before (its first, if it has none), whose count and start `prev`
/// holds; else, on the first line, the start of the text.
pub open spec fn up_target(
    line_num: usize,
    rel_line: usize,
    line_start: usize,
    horiz: Horiz,
    prev: Option<(usize, usize)>,
) -> VerticalQuery {
    if rel_line > 0 {
        VerticalQuery::FromPos { line_num, horiz, visual_line: (rel_line - 1) as usize, line_start }
    } else {
        match prev {
            None => VerticalQuery::Land(0),
            Some(p) => VerticalQuery::FromPos {
                line_num: (line_num - 1) as usize,
                horiz,
                visual_line: if p.0 > 0 {
                    (p.0 - 1) as usize
                } else {
                    0
                },
                line_start: p.1,
            },
        }
    }
}

/// Whether a move down from visual line `rel_line` stays within a logical
/// line of `n_lines` visual lines.
pub open spec fn down_stays(rel_line: usize, n_lines: usize) -> bool {
    rel_line + 1 < n_lines
}

/// The query of a move down from visual line `rel_line` of logical line
/// `line_num` (starting at `line_start`, with `n_lines` visual lines),
/// aiming for `horiz`: the visual line below in the same logical line; else
/// the end of the text when the next line starts there; else the first
/// visual line of the next line, which starts at `next`.
pub open spec fn down_target(
    line_num: usize,
    rel_line: usize,
    line_start: usize,
    horiz: Horiz,
    n_lines: usize,
    next: Option<usize>,
    len: usize,
) -> VerticalQuery {
    match next {
        None => VerticalQuery::FromPos {
            line_num,
            horiz,
            visual_line: (rel_line + 1) as usize,
            line_start,
        },
        Some(n) => if n == len {
            VerticalQuery::Land(len)
        } else {
            VerticalQuery::FromPos { line_num: (line_num + 1) as usize, horiz, visual_line: 0, line_start: n }
        },
    }
}

/// The query of a move up. `prev` holds the number of visual lines of the
/// line before and where it starts, and is there exactly when the move
/// leaves the logical line.
pub fn up_query(
    line_num: usize,
    rel_line: usize,
    line_start: usize,
    horiz: Horiz,
    prev: Option<(usize, usize)>,
) -> (q: VerticalQuery)
    requires
        prev is Some <==> (rel_line == 0 && line_num > 0),
    ensures
        q == up_target(line_num, rel_line, line_start, horiz, prev),
{
    if rel_line > 0 {
        VerticalQuery::FromPos { line_num, horiz, visual_line: rel_line - 1, line_start }
    } else {
        match prev {
            None => VerticalQuery::Land(0),
            Some((n_lines, prev_start)) => {
                let visual_line = if n_lines > 0 {
                    n_lines - 1
                } else {
                    0
                };
                VerticalQuery::FromPos { line_num: line_num - 1, horiz, visual_line, line_start: prev_start }
            },
        }
    }
}

/// The query of a move down. `next` holds where the next line starts (the
/// text's length `len` after the last line), and is there exactly when the
/// move leaves the line.
pub fn down_query(
    line_num: usize,
    rel_line: usize,
    line_start: usize,
    horiz: Horiz,
    n_lines: usize,
    next: Option<usize>,
    len: usize,
) -> (q: VerticalQuery)
    requires
        next is Some <==> !down_stays(rel_line, n_lines),
        next matches Some(n) ==> n == len || line_num + 1 <= usize::MAX,
    ensures
        q == down_target(line_num, rel_line, line_start, horiz, n_lines, next, len),
{
    match next {
        None => VerticalQuery::FromPos { line_num, horiz, visual_line: rel_line + 1, line_start },
        Some(next_start) => {
            if next_start == len {
                VerticalQuery::Land(len)
            } else {
                VerticalQuery::FromPos { line_num: line_num + 1, horiz, visual_line: 0, line_start: next_start }
            }
        },
    }
}

/// The query a vertical move makes.
pub open spec fn vertical_query<M: Measurement>(
    m: M,
    r: SelRegion,
    s: Seq<u8>,
    move_up: bool,
    modify: bool,
) -> VerticalQuery {
    let line = origin_line(r, s, move_up, modify);
    let rel_line = origin_pos(m, r, s, move_up, modify).1;
    let h = vertical_horiz(m, r, s, move_up, modify);
    let start = line_start(s, line) as usize;
    if move_up {
        up_target(
            line as usize,
            rel_line,
            start,
            h,
            if rel_line == 0 && line > 0 {
                Some(
                    (
                        m.spec_n_visual_lines((line - 1) as usize),
                        line_start(s, (line - 1) as nat) as usize,
                    ),
                )
            } else {
                None
            },
        )
    } else {
        let n_lines = m.spec_n_visual_lines(line as usize);
        down_target(
            line as usize,
            rel_line,
            start,
            h,
            n_lines,
            if down_stays(rel_line, n_lines) {
                None
            } else {
                Some(line_start(s, line + 1) as usize)
            },
            s.len() as usize,
        )
    }
}

/// Where a query lands: its offset, or the measurement's answer counted
/// from the line start, no further than the end of the text and moved back
/// to a character boundary.
pub open spec fn query_landing<M: Measurement>(m: M, q: VerticalQuery, s: Seq<u8>) -> usize {
    match q {
        VerticalQuery::Land(o) => o,
        VerticalQuery::FromPos { line_num, horiz, visual_line, line_start } => {
            let o = line_start + m.spec_from_pos(line_num, horiz, visual_line);
            floor_boundary(
                s,
                if o <= s.len() {
                    o as nat
                } else {
                    s.len()
                },
            ) as usize
        },
    }
}

/// Where a movement takes region `r`, and the horizontal position it keeps.
pub open spec fn movement_target<M: Measurement>(
    mv: Movement,
    m: M,
    r: SelRegion,
    s: Seq<u8>,
    modify: bool,
) -> (usize, Option<Horiz>) {
    match mv {
        Movement::Left => left_target(r, s, modify),
        Movement::Right => right_target(r, s, modify),
        Movement::Up => (
            query_landing(m, vertical_query(m, r, s, true, modify), s),
            Some(vertical_horiz(m, r, s, true, modify)),
        ),
        Movement::Down => (
            query_landing(m, vertical_query(m, r, s, false, modify), s),
            Some(vertical_horiz(m, r, s, false, modify)),
        ),
        _ => (r.end, r.horiz),
    }
}

/// The region a movement makes of `r`.
pub open spec fn region_after<M: Measurement>(
    mv: Movement,
    m: M,
    r: SelRegion,
    s: Seq<u8>,
    modify: bool,
) -> SelRegion {
    moved_region(r, movement_target(mv, m, r, s, modify).0, movement_target(mv, m, r, s, modify).1, modify)
}

/// Each region of `s` moved.
pub open spec fn regions_after<M: Measurement>(
    mv: Movement,
    m: M,
    s: Seq<SelRegion>,
    text: Seq<u8>,
    modify: bool,
) -> Seq<SelRegion> {
    s.map_values(|r: SelRegion| region_after(mv, m, r, text, modify))
}

/// In ordered regions, each lies wholly before every later one.
proof fn lemma_ordered_before(s: Seq<SelRegion>, j: int, i: int)
    requires
        regions_ordered(s),
        0 <= j < i < s.len(),
    ensures
        region_before(s[j], s[i]),
    decreases i - j,
{
    if j + 1 < i {
        lemma_ordered_before(s, j + 1, i);
        assert(region_before(s[j], s[j + 1]));
    } else {
        assert(region_before(s[i - 1], s[i]));
    }
}

impl Movement {
    /// The movements this library carries out.
    pub open spec fn is_supported(self) -> bool {
        self == Movement::Left || self == Movement::Right || self == Movement::Up || self
            == Movement::Down
    }

    /// Updates a selection region by movement. With `modify`, the region is
    /// extended: its `start` stays and only `end` moves.
    pub fn update_region<M: Measurement>(
        &self,
        r: SelRegion,
        text: &TextBuffer,
        measurement: &M,
        modify: bool,
    ) -> (result: SelRegion)
        requires
            self.is_supported(),
            r.max() <= text_bytes(*text).len(),
            char_boundary(text_bytes(*text), r.start as int),
            char_boundary(text_bytes(*text), r.end as int),
        ensures
            result == region_after(*self, *measurement, r, text_bytes(*text), modify),
            result.max() <= text_bytes(*text).len(),
            char_boundary(text_bytes(*text), result.start as int),
            char_boundary(text_bytes(*text), result.end as int),
    {
        let ghost s = text_bytes(*text);
        let len = text.len();
        let (offset, horiz) = match self {
            Movement::Left => {
                if r.is_caret() || modify {
                    match text.prev_grapheme_offset(r.end) {
                        Some(offset) => (offset, None),
                        None => (0, r.horiz),
                    }
                } else {
                    (r.min(), None)
                }
            },
            Movement::Right => {
                if r.is_caret() || modify {
                    match text.next_grapheme_offset(r.end) {
                        Some(offset) => (offset, None),
                        None => (r.end, r.horiz),
                    }
                } else {
                    (r.max(), None)
                }
            },
            Movement::Up | Movement::Down => {
                let move_up = *self == Movement::Up;
                let info = pos_info(&r, text, measurement, move_up, modify);
                proof {
                    lemma_count_newlines_mono(s, vertical_origin(r, move_up, modify) as int, len as int);
                    assert(s.take(len as int) =~= s);
                    lemma_count_newlines_le_len(s);
                }
                let query = if move_up {
                    let prev = if info.rel_line == 0 && info.line_num > 0 {
                        let prev_line = info.line_num - 1;
                        Some((measurement.n_visual_lines(prev_line), text.offset_of_line(prev_line)))
                    } else {
                        None
                    };
                    up_query(info.line_num, info.rel_line, info.line_start, info.horiz, prev)
                } else {
                    let n_lines = measurement.n_visual_lines(info.line_num);
                    let next = if n_lines > 0 && info.rel_line < n_lines - 1 {
                        None
                    } else {
                        match info.line_num.checked_add(1) {
                            Some(next_line) => Some(text.offset_of_line(next_line)),
                            None => Some(len),
                        }
                    };
                    down_query(info.line_num, info.rel_line, info.line_start, info.horiz, n_lines, next, len)
                };
                proof {
                    assert(query == vertical_query(*measurement, r, s, move_up, modify));
                }
                let offset = match query {
                    VerticalQuery::FromPos { line_num, horiz, visual_line, line_start } => {
                        let answer = measurement.from_pos(line_num, horiz, visual_line);
                        let landing = clamped_offset(line_start, answer, len);
                        proof {
                            lemma_floor_boundary(s, landing as nat);
                        }
                        match text.at_or_prev_boundary(landing) {
                            Some(p) => p,
                            None => 0,
                        }
                    },
                    VerticalQuery::Land(o) => o,
                };
                (offset, Some(info.horiz))
            },
            _ => (r.end, r.horiz),
        };
        SelRegion::new(
            if modify {
                r.start
            } else {
                offset
            },
            offset,
        ).with_horiz(horiz)
    }

    /// Updates every region of a selection by movement. A moved region that
    /// would overlap one moved before it is dropped; when none overlap, the
    /// result is every region moved, in order.
    pub fn update_selection<M: Measurement>(
        &self,
        s: &Selection,
        text: &TextBuffer,
        measurement: &M,
        modify: bool,
    ) -> (result: Selection)
        requires
            self.is_supported(),
            regions_within(s@, text_bytes(*text).len()),
            regions_on_boundaries(s@, text_bytes(*text)),
        ensures
            regions_ordered(result@),
            regions_within(result@, text_bytes(*text).len()),
            regions_on_boundaries(result@, text_bytes(*text)),
            result@.len() <= s@.len(),
            s@.len() > 0 ==> result@.len() > 0,
            regions_ordered(regions_after(*self, *measurement, s@, text_bytes(*text), modify))
                ==> result@ == regions_after(*self, *measurement, s@, text_bytes(*text), modify),
    {
        let ghost t = text_bytes(*text);
        let ghost moved = regions_after(*self, *measurement, s@, t, modify);
        let regions = s.regions();
        let n = regions.len();
        let mut result = Selection::new();
        let mut i: usize = 0;
        proof {
            assert(moved.take(0) =~= Seq::<SelRegion>::empty());
        }
        while i < n
            invariant
                self.is_supported(),
                regions@ == s@,
                n == s@.len(),
                i <= n,
                t == text_bytes(*text),
                moved == regions_after(*self, *measurement, s@, t, modify),
                regions_within(s@, t.len()),
                regions_on_boundaries(s@, t),
                regions_ordered(result@),
                regions_within(result@, t.len()),
                regions_on_boundaries(result@, t),
                result@.len() <= i,
                i > 0 ==> result@.len() > 0,
                regions_ordered(moved.take(i as int)) ==> result@ == moved.take(i as int),
            decreases n - i,
        {
            proof {
                assert(s@[i as int].max() <= t.len());
                assert(char_boundary(t, s@[i as int].start as int));
            }
            let new_region = self.update_region(regions[i], text, measurement, modify);
            let ghost before = result@;
            proof {
                assert(new_region == moved[i as int]);
                if regions_ordered(moved.take(i + 1)) {
                    assert forall|k: int| 0 < k < i implies region_before(
                        moved.take(i as int)[k - 1],
                        #[trigger] moved.take(i as int)[k],
                    ) by {
                        assert(region_before(moved.take(i + 1)[k - 1], moved.take(i + 1)[k]));
                    }
                    assert(before == moved.take(i as int));
                    assert forall|j: int| 0 <= j < before.len() implies region_before(
                        #[trigger] before[j],
                        new_region,
                    ) by {
                        lemma_ordered_before(moved.take(i + 1), j, i as int);
                    }
                }
            }
            let added = result.add_region(new_region);
            proof {
                if added {
                    let k = choose|k: int|
                        0 <= k <= before.len() && result@ == before.insert(k, new_region);
                    assert forall|j: int| 0 <= j < result@.len() implies #[trigger] result@[j].max()
                        <= t.len() && char_boundary(t, result@[j].start as int) && char_boundary(
                        t,
                        result@[j].end as int,
                    ) by {
                        if j < k {
                            assert(result@[j] == before[j]);
                        } else if j > k {
                            assert(result@[j] == before[j - 1]);
                        }
                    }
                }
                if regions_ordered(moved.take(i + 1)) {
                    assert(result@ =~= moved.take(i + 1));
                } else {
                    assert(!regions_ordered(moved.take(i + 1)));
                }
            }
            i = i + 1;
        }
        proof {
            assert(moved.take(n as int) =~= moved);
        }
        result
    }
}

/// A vertical move from a region that remembers a horizontal position asks
/// the measurement with that position, not a measured one, and the moved
/// region keeps it; so consecutive vertical moves all aim for it.
pub proof fn lemma_vertical_keeps_anchor<M: Measurement>(
    m: M,
    r: SelRegion,
    s: Seq<u8>,
    move_up: bool,
    modify: bool,
    h: Horiz,
)
    requires
        r.horiz == Some(h),
    ensures
        vertical_horiz(m, r, s, move_up, modify) == h,
        vertical_query(m, r, s, move_up, modify) matches VerticalQuery::FromPos { horiz, .. }
            ==> horiz == h,
        movement_target(
            if move_up {
                Movement::Up
            } else {
                Movement::Down
            },
            m,
            r,
            s,
            modify,
        ).1 == Some(h),
{
}

/// Left or Right without extending collapses a range to its edge in the
/// direction of the move, whichever way the range was made, and forgets the
/// horizontal position.
pub proof fn lemma_horizontal_collapse(r: SelRegion, text: Seq<u8>)
    requires
        !r.is_caret(),
    ensures
        moved_region(r, left_target(r, text, false).0, left_target(r, text, false).1, false)
            == (SelRegion { start: r.min(), end: r.min(), horiz: None }),
        moved_region(r, right_target(r, text, false).0, right_target(r, text, false).1, false)
            == (SelRegion { start: r.max(), end: r.max(), horiz: None }),
{
}

} // verus!
