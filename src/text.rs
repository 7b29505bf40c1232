//! The text buffer: an xi-rope `Rope`, seen as its sequence of UTF-8 bytes,
//! and the deltas that edit it.
use vstd::prelude::*;
use vstd::utf8::encode_utf8;

use xi_rope::compare::RopeScanner;
use xi_rope::delta::{Builder, Delta};
use xi_rope::rope::{Rope, RopeInfo};

verus! {

/// The text being edited, held in an xi-rope `Rope`.
///
/// The rope is held in a private field; `text_bytes` names what it holds.
#[verifier::external_body]
pub struct TextBuffer {
    rope: Rope,
}

/// A set of replacements being collected for one `TextBuffer`, held in an
/// xi-rope delta builder; `builder_edits` names what it has collected.
#[verifier::external_body]
pub struct DeltaBuilder {
    builder: Builder<RopeInfo>,
}

/// A set of replacements, ready to apply, held in an xi-rope delta;
/// `delta_edits` names the replacements it makes.
#[verifier::external_body]
pub struct TextDelta {
    delta: Delta<RopeInfo>,
}

/// One replacement: the range `[start, end)` of the old text, and the bytes
/// that take its place.
pub type Edit = (nat, nat, Seq<u8>);

/// The bytes a text buffer holds.
pub uninterp spec fn text_bytes(t: TextBuffer) -> Seq<u8>;

/// The replacements a delta builder has collected, in order.
pub uninterp spec fn builder_edits(b: DeltaBuilder) -> Seq<Edit>;

/// The length of the text a delta builder was made for.
pub uninterp spec fn builder_base_len(b: DeltaBuilder) -> nat;

/// The replacements a delta makes, in order.
pub uninterp spec fn delta_edits(d: TextDelta) -> Seq<Edit>;

/// The length of the text a delta applies to.
pub uninterp spec fn delta_base_len(d: TextDelta) -> nat;

/// The grapheme boundary before `offset`, as the rope finds it.
pub uninterp spec fn prev_grapheme_of(text: Seq<u8>, offset: nat) -> Option<usize>;

/// The grapheme boundary after `offset`, as the rope finds it.
pub uninterp spec fn next_grapheme_of(text: Seq<u8>, offset: nat) -> Option<usize>;

/// `o` is a character boundary of the UTF-8 bytes `s`: an end of the text,
/// or a position whose byte does not continue a multi-byte character.
pub open spec fn char_boundary(s: Seq<u8>, o: int) -> bool {
    o == 0 || o == s.len() || (0 < o < s.len() && !(128u8 <= s[o] && s[o] < 192u8))
}

/// The last character boundary at or before `o`.
pub open spec fn floor_boundary(s: Seq<u8>, o: nat) -> nat
    decreases o,
{
    if o == 0 || char_boundary(s, o as int) {
        o
    } else {
        floor_boundary(s, (o - 1) as nat)
    }
}

/// Where line `line` starts: just after its newline, or at the end of the
/// text for the line after the last.
pub open spec fn line_start(s: Seq<u8>, line: nat) -> nat {
    if line == 0 {
        0
    } else if line > count_newlines(s) {
        s.len()
    } else {
        choose|p: nat|
            0 < p <= s.len() && count_newlines(s.take(p as int)) == line && is_newline(s[p - 1])
    }
}

/// The newline byte.
pub open spec fn is_newline(b: u8) -> bool {
    b == 10u8
}

/// The number of newlines in `s`.
pub open spec fn count_newlines(s: Seq<u8>) -> nat
    decreases s.len(),
{
    if s.len() == 0 {
        0
    } else {
        count_newlines(s.drop_last()) + if is_newline(s.last()) {
            1nat
        } else {
            0nat
        }
    }
}

/// Where the last replacement ends; zero when there is none.
pub open spec fn last_end(edits: Seq<Edit>) -> nat {
    if edits.len() == 0 {
        0
    } else {
        edits.last().1
    }
}

/// The replacements are ordered, do not overlap, and lie within a text of
/// length `len`.
pub open spec fn edits_ordered(edits: Seq<Edit>, len: nat) -> bool {
    &&& forall|i: int| 0 <= i < edits.len() ==> #[trigger] edits[i].0 <= edits[i].1 <= len
    &&& forall|i: int| 0 < i < edits.len() ==> edits[i - 1].1 <= #[trigger] edits[i].0
}

/// The text after every replacement is made.
pub open spec fn apply_edits(text: Seq<u8>, edits: Seq<Edit>) -> Seq<u8>
    decreases edits.len(),
{
    if edits.len() == 0 {
        text
    } else {
        let e = edits.last();
        apply_edits(text.take(e.0 as int), edits.drop_last()) + e.2 + text.skip(e.1 as int)
    }
}

impl TextBuffer {
    /// The length of the text, in bytes.
    ///
    /// Relies on `Node::len`: the number of bytes the rope holds.
    #[verifier::external_body]
    pub fn len(&self) -> (r: usize)
        ensures
            r == text_bytes(*self).len(),
    {
        self.rope.len()
    }

    /// A text buffer holding a string.
    ///
    /// Relies on `Rope::from`: the rope holds the string's UTF-8 bytes.
    #[verifier::external_body]
    pub fn from_str(s: &str) -> (r: TextBuffer)
        ensures
            text_bytes(r) == encode_utf8(s@),
    {
        TextBuffer { rope: Rope::from(s) }
    }

    /// The text as a string.
    ///
    /// Relies on `String::from` on a rope: the string's UTF-8 bytes are the
    /// rope's bytes.
    #[verifier::external_body]
    pub fn to_string(&self) -> (r: String)
        ensures
            encode_utf8(r@) == text_bytes(*self),
    {
        String::from(self.rope.clone())
    }

    /// Relies on `Rope::prev_grapheme_offset`: the grapheme boundary found
    /// lies before `offset` and, like every grapheme boundary, is a character
    /// boundary; there is none before the start.
    #[verifier::external_body]
    pub(crate) fn prev_grapheme_offset(&self, offset: usize) -> (r: Option<usize>)
        requires
            offset <= text_bytes(*self).len(),
        ensures
            r == prev_grapheme_of(text_bytes(*self), offset as nat),
            r matches Some(p) ==> p < offset && char_boundary(text_bytes(*self), p as int),
    {
        self.rope.prev_grapheme_offset(offset)
    }

    /// Relies on `Rope::next_grapheme_offset`: the grapheme boundary found
    /// lies after `offset`, within the text, and is a character boundary;
    /// there is none after the end.
    #[verifier::external_body]
    pub(crate) fn next_grapheme_offset(&self, offset: usize) -> (r: Option<usize>)
        requires
            offset <= text_bytes(*self).len(),
        ensures
            r == next_grapheme_of(text_bytes(*self), offset as nat),
            r matches Some(n) ==> offset < n <= text_bytes(*self).len() && char_boundary(
            text_bytes(*self),
            n as int,
        ),
            offset == text_bytes(*self).len() ==> r.is_none(),
    {
        self.rope.next_grapheme_offset(offset)
    }

    /// Relies on `Rope::line_of_offset`: the number of newlines before
    /// `offset`; it panics unless `offset` is a character boundary.
    #[verifier::external_body]
    pub fn line_of_offset(&self, offset: usize) -> (r: usize)
        requires
            offset <= text_bytes(*self).len(),
            char_boundary(text_bytes(*self), offset as int),
        ensures
            r == count_newlines(text_bytes(*self).take(offset as int)),
    {
        self.rope.line_of_offset(offset)
    }

    /// Relies on `Rope::offset_of_line`: where line `line` starts, just after
    /// the `line`-th newline (a character boundary, as the byte after a
    /// newline starts a character); the text's length for the line after the
    /// last.
    #[verifier::external_body]
    pub fn offset_of_line(&self, line: usize) -> (r: usize)
        requires
            line <= count_newlines(text_bytes(*self)) + 1,
        ensures
            r == line_start(text_bytes(*self), line as nat),
            char_boundary(text_bytes(*self), r as int),
            r <= text_bytes(*self).len(),
            line == 0 ==> r == 0,
            line == count_newlines(text_bytes(*self)) + 1 ==> r == text_bytes(*self).len(),
            0 < line <= count_newlines(text_bytes(*self)) ==> r > 0 && count_newlines(
                text_bytes(*self).take(r as int),
            ) == line && is_newline(text_bytes(*self)[r - 1]),
    {
        self.rope.offset_of_line(line)
    }

    /// Relies on `Rope::at_or_prev_codepoint_boundary`: `offset` itself if it
    /// is a character boundary, else the boundary before it.
    #[verifier::external_body]
    pub(crate) fn at_or_prev_boundary(&self, offset: usize) -> (r: Option<usize>)
        requires
            offset <= text_bytes(*self).len(),
        ensures
            r == Some(floor_boundary(text_bytes(*self), offset as nat) as usize),
    {
        self.rope.at_or_prev_codepoint_boundary(offset)
    }

    /// Relies on `Rope::is_codepoint_boundary`: whether `offset` is a
    /// character boundary.
    #[verifier::external_body]
    pub(crate) fn is_boundary(&self, offset: usize) -> (r: bool)
        requires
            offset <= text_bytes(*self).len(),
        ensures
            r == char_boundary(text_bytes(*self), offset as int),
    {
        self.rope.is_codepoint_boundary(offset)
    }
}

/// Relies on `Builder::new`: an empty builder for a text of `base_len` bytes.
#[verifier::external_body]
pub(crate) fn builder_new(base_len: usize) -> (r: DeltaBuilder)
    ensures
        builder_edits(r) == Seq::<Edit>::empty(),
        builder_base_len(r) == base_len,
{
    DeltaBuilder { builder: Builder::new(base_len) }
}

/// Relies on `Builder::replace`: records that `[start, end)` is replaced by
/// the rope's bytes; it panics unless `start` is at or after the end of the
/// last replacement.
#[verifier::external_body]
pub(crate) fn builder_replace(b: &mut DeltaBuilder, start: usize, end: usize, content: TextBuffer)
    requires
        last_end(builder_edits(*old(b))) <= start <= end <= builder_base_len(*old(b)),
    ensures
        builder_edits(*final(b)) == builder_edits(*old(b)).push(
            (start as nat, end as nat, text_bytes(content)),
        ),
        builder_base_len(*final(b)) == builder_base_len(*old(b)),
{
    b.builder.replace(start..end, content.rope)
}

/// Relies on `Builder::build`: the delta makes the collected replacements.
#[verifier::external_body]
pub(crate) fn builder_build(b: DeltaBuilder) -> (r: TextDelta)
    ensures
        delta_edits(r) == builder_edits(b),
        delta_base_len(r) == builder_base_len(b),
{
    TextDelta { delta: b.builder.build() }
}

/// Relies on `Delta::apply`: the text with every replacement made; it
/// panics where a replaced range does not start and end on character
/// boundaries.
#[verifier::external_body]
pub(crate) fn delta_apply(d: &TextDelta, text: &TextBuffer) -> (r: TextBuffer)
    requires
        text_bytes(*text).len() == delta_base_len(*d),
        edits_ordered(delta_edits(*d), delta_base_len(*d)),
        forall|i: int|
            0 <= i < delta_edits(*d).len() ==> char_boundary(text_bytes(*text), #[trigger] delta_edits(*d)[i].0 as int)
                && char_boundary(text_bytes(*text), delta_edits(*d)[i].1 as int),
    ensures
        text_bytes(r) == apply_edits(text_bytes(*text), delta_edits(*d)),
{
    TextBuffer { rope: d.delta.apply(&text.rope) }
}

/// The length of the common prefix of two texts.
///
/// Relies on `RopeScanner::find_ne_char` from the two starts: the distance
/// to the first difference, rounded down to a codepoint boundary, or the
/// length of the shorter text where there is none.
#[verifier::external_body]
fn common_prefix_len(a: &TextBuffer, b: &TextBuffer) -> (r: usize)
    ensures
        r <= text_bytes(*a).len(),
        r <= text_bytes(*b).len(),
        forall|i: int| 0 <= i < r ==> text_bytes(*a)[i] == text_bytes(*b)[i],
        (forall|i: int|
            0 <= i < text_bytes(*a).len() && i < text_bytes(*b).len() ==> text_bytes(*a)[i]
                == text_bytes(*b)[i]) ==> (r == text_bytes(*a).len() || r == text_bytes(*b).len()),
{
    RopeScanner::new(&a.rope, &b.rope).find_ne_char(0, 0, None::<usize>)
}

/// Whether two texts hold the same bytes.
pub fn rope_eq(a: &TextBuffer, b: &TextBuffer) -> (r: bool)
    ensures
        r == (text_bytes(*a) == text_bytes(*b)),
{
    let len = a.len();
    if len != b.len() {
        return false;
    }
    let same = common_prefix_len(a, b) == len;
    proof {
        if same {
            assert(text_bytes(*a) =~= text_bytes(*b));
        }
    }
    same
}

} // verus!
