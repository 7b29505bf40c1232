//! Selections: ordered sets of carets and ranges over byte offsets, and how
//! they move when the text is edited.
use vstd::prelude::*;
use vstd::utf8::encode_utf8;

use crate::text::{char_boundary, text_bytes, Edit, TextBuffer};

verus! {

/// A horizontal position in layout units, as fixed point with 8 fractional
/// bits. The library only carries it from one movement to the next.
#[derive(Copy, Clone, Debug, PartialEq, Eq, Structural)]
pub struct Horiz(pub i64);

/// One caret (`start == end`) or range of a selection. `end` is the active
/// edge, the one that moves when the selection is extended.
#[derive(Copy, Clone, Debug, PartialEq, Eq, Structural)]
pub struct SelRegion {
    pub start: usize,
    pub end: usize,
    /// The horizontal position that vertical movement aims for.
    pub horiz: Option<Horiz>,
}

impl SelRegion {
    pub open spec fn spec_min(&self) -> usize {
        if self.start <= self.end {
            self.start
        } else {
            self.end
        }
    }

    pub open spec fn spec_max(&self) -> usize {
        if self.start <= self.end {
            self.end
        } else {
            self.start
        }
    }

    pub open spec fn spec_is_caret(&self) -> bool {
        self.start == self.end
    }

    /// A region with no horizontal position.
    pub fn new(start: usize, end: usize) -> (r: SelRegion)
        ensures
            r == (SelRegion { start, end, horiz: None }),
    {
        SelRegion { start, end, horiz: None }
    }

    /// The same region with the given horizontal position.
    pub fn with_horiz(self, horiz: Option<Horiz>) -> (r: SelRegion)
        ensures
            r == (SelRegion { horiz, ..self }),
    {
        SelRegion { horiz, ..self }
    }

    #[verifier::when_used_as_spec(spec_min)]
    pub fn min(&self) -> (r: usize)
        ensures
            r == self.spec_min(),
    {
        if self.start <= self.end {
            self.start
        } else {
            self.end
        }
    }

    #[verifier::when_used_as_spec(spec_max)]
    pub fn max(&self) -> (r: usize)
        ensures
            r == self.spec_max(),
    {
        if self.start <= self.end {
            self.end
        } else {
            self.start
        }
    }

    #[verifier::when_used_as_spec(spec_is_caret)]
    pub fn is_caret(&self) -> (r: bool)
        ensures
            r == self.spec_is_caret(),
    {
        self.start == self.end
    }
}

/// `a` lies wholly before `b`: two regions may touch only where neither is
/// a caret.
pub open spec fn region_before(a: SelRegion, b: SelRegion) -> bool {
    a.max() < b.min() || (a.max() == b.min() && !a.is_caret() && !b.is_caret())
}

/// Each region lies wholly before the next.
pub open spec fn regions_ordered(s: Seq<SelRegion>) -> bool {
    forall|i: int| 0 < i < s.len() ==> region_before(s[i - 1], #[trigger] s[i])
}

/// Every region lies within a text of `len` bytes.
pub open spec fn regions_within(s: Seq<SelRegion>, len: nat) -> bool {
    forall|i: int| 0 <= i < s.len() ==> #[trigger] s[i].max() <= len
}

/// Both edges of every region are character boundaries of `text`.
pub open spec fn regions_on_boundaries(s: Seq<SelRegion>, text: Seq<u8>) -> bool {
    forall|i: int|
        0 <= i < s.len() ==> char_boundary(text, #[trigger] s[i].start as int) && char_boundary(
            text,
            s[i].end as int,
        )
}

/// The ordered, non-overlapping regions of a selection.
pub struct Selection {
    regions: Vec<SelRegion>,
}

impl View for Selection {
    type V = Seq<SelRegion>;

    closed spec fn view(&self) -> Seq<SelRegion> {
        self.regions@
    }
}

/// The net change in length that the replacements make.
pub open spec fn shift(edits: Seq<Edit>) -> int
    decreases edits.len(),
{
    if edits.len() == 0 {
        0
    } else {
        shift(edits.drop_last()) + edits.last().2.len() - (edits.last().1 - edits.last().0)
    }
}

/// The number of bytes the replacements insert.
pub open spec fn inserted_len(edits: Seq<Edit>) -> nat
    decreases edits.len(),
{
    if edits.len() == 0 {
        0
    } else {
        inserted_len(edits.drop_last()) + edits.last().2.len()
    }
}

/// Whether offset `o`, at or after the start of the first replacement,
/// lands just after its new content. An offset that ends the first range and
/// starts the next lands after the next one's content instead when `later`
/// holds: that offset belongs to a region that begins there.
pub open spec fn lands_in_first(edits: Seq<Edit>, o: nat, later: bool) -> bool {
    o < edits[0].1 || (o == edits[0].1 && !(later && edits.len() > 1 && edits[1].0 == o))
}

/// Where offset `o` of the old text lands after the replacements: an offset
/// before a replacement stays put relative to it; an offset at or inside a
/// replaced range lands just after the new content; an offset after it
/// moves by the replacement's change in length.
pub open spec fn transform_offset(edits: Seq<Edit>, o: nat, later: bool) -> int
    decreases edits.len(),
{
    if edits.len() == 0 {
        o as int
    } else {
        let e = edits[0];
        if o < e.0 {
            o as int
        } else if lands_in_first(edits, o, later) {
            e.0 + e.2.len() as int
        } else {
            transform_offset(edits.drop_first(), o, later) + e.2.len() - (e.1 - e.0)
        }
    }
}

/// A region carried through the replacements; it loses its horizontal
/// position. The lower edge of a range goes with the replacement that
/// starts there, the upper edge with the one that ends there.
pub open spec fn transform_region(edits: Seq<Edit>, r: SelRegion) -> SelRegion {
    SelRegion {
        start: transform_offset(edits, r.start as nat, r.start < r.end) as usize,
        end: transform_offset(edits, r.end as nat, r.end < r.start) as usize,
        horiz: None,
    }
}

/// Adds a region after `acc`; where it would overlap the last region, the
/// caret of the two gives way.
pub open spec fn push_merged(acc: Seq<SelRegion>, r: SelRegion) -> Seq<SelRegion> {
    if acc.len() > 0 && !region_before(acc.last(), r) {
        if r.is_caret() {
            acc
        } else {
            acc.drop_last().push(r)
        }
    } else {
        acc.push(r)
    }
}

/// The regions carried through the replacements, with carets that came to
/// overlap merged away.
pub open spec fn transform_regions(s: Seq<SelRegion>, edits: Seq<Edit>) -> Seq<SelRegion>
    decreases s.len(),
{
    if s.len() == 0 {
        Seq::empty()
    } else {
        push_merged(transform_regions(s.drop_last(), edits), transform_region(edits, s.last()))
    }
}

/// The replacements of the given ranges, each by the same content.
pub open spec fn uniform_edits(ranges: Seq<(usize, usize)>, content: Seq<u8>) -> Seq<Edit> {
    ranges.map_values(|iv: (usize, usize)| (iv.0 as nat, iv.1 as nat, content))
}

/// Each replacement's range is well formed and starts at or after the end
/// of the one before.
pub open spec fn edits_sorted(edits: Seq<Edit>) -> bool {
    &&& forall|i: int| 0 <= i < edits.len() ==> #[trigger] edits[i].0 <= edits[i].1
    &&& forall|i: int| 0 < i < edits.len() ==> edits[i - 1].1 <= #[trigger] edits[i].0
}

pub proof fn lemma_shift_le_inserted(edits: Seq<Edit>)
    requires
        forall|i: int| 0 <= i < edits.len() ==> #[trigger] edits[i].0 <= edits[i].1,
    ensures
        shift(edits) <= inserted_len(edits),
    decreases edits.len(),
{
    if edits.len() > 0 {
        let d = edits.drop_last();
        assert forall|i: int| 0 <= i < d.len() implies #[trigger] d[i].0 <= d[i].1 by {
            assert(d[i] == edits[i]);
        }
        lemma_shift_le_inserted(d);
        assert(edits[edits.len() - 1].0 <= edits[edits.len() - 1].1);
    }
}

proof fn lemma_inserted_prefix(edits: Seq<Edit>, i: int)
    requires
        0 <= i <= edits.len(),
    ensures
        inserted_len(edits.take(i)) <= inserted_len(edits),
    decreases edits.len() - i,
{
    if i < edits.len() {
        lemma_inserted_prefix(edits, i + 1);
        assert(edits.take(i + 1).drop_last() =~= edits.take(i));
    } else {
        assert(edits.take(i) =~= edits);
    }
}

/// An offset at or after `lo` stays at or after `lo` when every replacement
/// starts at or after `lo`.
proof fn lemma_transform_lower(edits: Seq<Edit>, lo: nat, o: nat, later: bool)
    requires
        edits_sorted(edits),
        edits.len() > 0 ==> edits[0].0 >= lo,
        o >= lo,
    ensures
        transform_offset(edits, o, later) >= lo,
    decreases edits.len(),
{
    if edits.len() > 0 {
        let e = edits[0];
        let rest = edits.drop_first();
        if o >= e.0 && !lands_in_first(edits, o, later) {
            lemma_sorted_tail(edits);
            if rest.len() > 0 {
                assert(rest[0] == edits[1]);
            }
            lemma_transform_lower(rest, e.1, o, later);
        }
    }
}

/// Carrying offsets through sorted replacements keeps their order; at the
/// same offset, an upper edge lands no later than a lower edge.
pub proof fn lemma_transform_monotone(edits: Seq<Edit>, o1: nat, b1: bool, o2: nat, b2: bool)
    requires
        edits_sorted(edits),
        o1 < o2 || (o1 == o2 && (!b1 || b2)),
    ensures
        transform_offset(edits, o1, b1) <= transform_offset(edits, o2, b2),
    decreases edits.len(),
{
    if edits.len() > 0 {
        let e = edits[0];
        let rest = edits.drop_first();
        lemma_sorted_tail(edits);
        if rest.len() > 0 {
            assert(rest[0] == edits[1]);
        }
        assert(e.0 <= e.1);
        if o2 >= e.0 && !lands_in_first(edits, o2, b2) {
            lemma_transform_lower(rest, e.1, o2, b2);
            if o1 >= e.0 && !lands_in_first(edits, o1, b1) {
                lemma_transform_monotone(rest, o1, b1, o2, b2);
            }
        }
    }
}

/// Where offset `o` lands after replacing each of `ranges` by `content`;
/// `later` says whether `o` is the lower edge of a range.
pub fn transform_offset_exec(ranges: &Vec<(usize, usize)>, content: &str, o: usize, later: bool) -> (r: usize)
    requires
        edits_sorted(uniform_edits(ranges@, encode_utf8(content@))),
        o + inserted_len(uniform_edits(ranges@, encode_utf8(content@))) <= usize::MAX,
    ensures
        r == transform_offset(uniform_edits(ranges@, encode_utf8(content@)), o as nat, later),
{
    let ghost c = encode_utf8(content@);
    let ghost edits = uniform_edits(ranges@, c);
    let clen = content.as_bytes().len();
    let n = ranges.len();
    let mut i: usize = 0;
    let mut p: usize = 0;
    let mut q: usize = 0;
    proof {
        assert(edits.take(0) =~= Seq::<Edit>::empty());
        assert(edits.skip(0) =~= edits);
    }
    while i < n
        invariant
            c == encode_utf8(content@),
            edits == uniform_edits(ranges@, c),
            clen == c.len(),
            n == ranges@.len(),
            edits.len() == n,
            edits_sorted(edits),
            i <= n,
            q <= o,
            i > 0 ==> q == edits[i - 1].1,
            i == 0 ==> q == 0,
            p == q + shift(edits.take(i as int)),
            o + inserted_len(edits) <= usize::MAX,
            transform_offset(edits, o as nat, later) == transform_offset(
                edits.skip(i as int),
                o as nat,
                later,
            ) + shift(edits.take(i as int)),
        decreases n - i,
    {
        let a = ranges[i].0;
        let b = ranges[i].1;
        proof {
            assert(edits[i as int] == (a as nat, b as nat, c));
            if i > 0 {
                assert(edits[i - 1].1 <= edits[i as int].0);
            }
            assert(a <= b);
            lemma_shift_le_inserted(edits.take(i as int));
            lemma_inserted_prefix(edits, i + 1);
            assert(edits.take(i + 1).drop_last() =~= edits.take(i as int));
            assert(edits.skip(i as int)[0] == edits[i as int]);
            assert(edits.skip(i as int).drop_first() =~= edits.skip(i + 1));
            if i + 1 < n {
                assert(edits.skip(i as int)[1] == edits[i + 1]);
                assert(edits[i + 1] == (ranges@[i + 1].0 as nat, ranges@[i + 1].1 as nat, c));
            }
            assert forall|j: int| 0 <= j < edits.take(i as int).len() implies #[trigger] edits.take(
                i as int,
            )[j].0 <= edits.take(i as int)[j].1 by {
                assert(edits.take(i as int)[j] == edits[j]);
            }
        }
        if o < a {
            return p + (o - q);
        }
        if o < b || (o == b && !(later && i + 1 < n && ranges[i + 1].0 == b)) {
            return p + (a - q) + clen;
        }
        p = p + (a - q) + clen;
        q = b;
        i = i + 1;
    }
    proof {
        assert(edits.skip(n as int).len() == 0);
        lemma_shift_le_inserted(edits.take(n as int));
        lemma_inserted_prefix(edits, n as int);
        assert forall|j: int| 0 <= j < edits.take(n as int).len() implies #[trigger] edits.take(
            n as int,
        )[j].0 <= edits.take(n as int)[j].1 by {
            assert(edits.take(n as int)[j] == edits[j]);
        }
    }
    p + (o - q)
}

/// Whether `a` lies wholly before `b`.
pub fn region_is_before(a: &SelRegion, b: &SelRegion) -> (r: bool)
    ensures
        r == region_before(*a, *b),
{
    a.max() < b.min() || (a.max() == b.min() && !a.is_caret() && !b.is_caret())
}

impl Selection {
    /// The empty selection.
    pub fn new() -> (r: Selection)
        ensures
            r@ == Seq::<SelRegion>::empty(),
    {
        Selection { regions: Vec::new() }
    }

    /// A selection of one region.
    pub fn new_simple(region: SelRegion) -> (r: Selection)
        ensures
            r@ == seq![region],
    {
        let mut regions = Vec::new();
        regions.push(region);
        Selection { regions }
    }

    /// The number of regions.
    pub fn len(&self) -> (r: usize)
        ensures
            r == self@.len(),
    {
        self.regions.len()
    }

    /// The regions, in ascending order of offset.
    pub fn regions(&self) -> (r: &[SelRegion])
        ensures
            r@ == self@,
    {
        self.regions.as_slice()
    }

    /// Whether every region lies within `text` with both edges on character
    /// boundaries.
    pub fn fits(&self, text: &TextBuffer) -> (r: bool)
        ensures
            r == (regions_within(self@, text_bytes(*text).len()) && regions_on_boundaries(
                self@,
                text_bytes(*text),
            )),
    {
        let len = text.len();
        let n = self.regions.len();
        let mut i: usize = 0;
        while i < n
            invariant
                n == self@.len(),
                len == text_bytes(*text).len(),
                i <= n,
                regions_within(self@.take(i as int), len as nat),
                regions_on_boundaries(self@.take(i as int), text_bytes(*text)),
            decreases n - i,
        {
            let r = self.regions[i];
            if r.start > len || r.end > len || !text.is_boundary(r.start) || !text.is_boundary(
                r.end,
            ) {
                proof {
                    assert(self@[i as int] == r);
                }
                return false;
            }
            proof {
                assert forall|j: int| 0 <= j < i + 1 implies #[trigger] self@.take(i + 1)[j].max()
                    <= len && char_boundary(text_bytes(*text), self@.take(i + 1)[j].start as int)
                    && char_boundary(text_bytes(*text), self@.take(i + 1)[j].end as int) by {
                    if j < i {
                        assert(self@.take(i + 1)[j] == self@.take(i as int)[j]);
                    }
                }
            }
            i = i + 1;
        }
        proof {
            assert(self@.take(n as int) =~= self@);
        }
        true
    }

    /// Adds a region in its place in the order. A region that overlaps one
    /// already present is refused, and the selection is left as it was.
    pub fn add_region(&mut self, region: SelRegion) -> (r: bool)
        requires
            regions_ordered(old(self)@),
        ensures
            regions_ordered(final(self)@),
            r ==> exists|i: int|
                0 <= i <= old(self)@.len() && final(self)@ == old(self)@.insert(i, region),
            !r ==> final(self)@ == old(self)@ && exists|i: int|
                0 <= i < old(self)@.len() && !region_before(old(self)@[i], region)
                    && !region_before(region, old(self)@[i]),
            (forall|j: int| 0 <= j < old(self)@.len() ==> region_before(#[trigger] old(self)@[j], region))
                ==> r && final(self)@ == old(self)@.push(region),
    {
        let n = self.regions.len();
        let mut i: usize = 0;
        while i < n && region_is_before(&self.regions[i], &region)
            invariant
                n == self@.len(),
                self@ == old(self)@,
                i <= n,
                forall|j: int| 0 <= j < i ==> region_before(#[trigger] self@[j], region),
            decreases n - i,
        {
            i = i + 1;
        }
        if i < n && !region_is_before(&region, &self.regions[i]) {
            return false;
        }
        self.regions.insert(i, region);
        proof {
            let s = self@;
            let o = old(self)@;
            assert(s == o.insert(i as int, region));
            if i == n {
                assert(s =~= o.push(region));
            }
            assert forall|j: int| 0 < j < s.len() implies region_before(s[j - 1], #[trigger] s[j]) by {
                if j < i {
                    assert(s[j - 1] == o[j - 1] && s[j] == o[j]);
                } else if j == i {
                    assert(s[j - 1] == o[j - 1]);
                } else if j == i + 1 {
                    assert(s[j] == o[i as int]);
                } else {
                    assert(s[j - 1] == o[j - 2] && s[j] == o[j - 1]);
                }
            }
        }
        true
    }

    /// The selection after each of `ranges` is replaced by `content`:
    /// every offset is carried through the replacements, regions lose their
    /// horizontal position, and a caret that comes to overlap a neighbour
    /// gives way to it.
    pub fn apply_replacements(&self, ranges: &Vec<(usize, usize)>, content: &str) -> (r: Selection)
        requires
            regions_ordered(self@),
            edits_sorted(uniform_edits(ranges@, encode_utf8(content@))),
            forall|i: int|
                0 <= i < self@.len() ==> #[trigger] self@[i].max() + inserted_len(
                    uniform_edits(ranges@, encode_utf8(content@)),
                ) <= usize::MAX,
        ensures
            r@ == transform_regions(self@, uniform_edits(ranges@, encode_utf8(content@))),
            regions_ordered(r@),
    {
        let ghost edits = uniform_edits(ranges@, encode_utf8(content@));
        let n = self.regions.len();
        let mut result: Vec<SelRegion> = Vec::new();
        let mut i: usize = 0;
        proof {
            assert(self@.take(0) =~= Seq::<SelRegion>::empty());
        }
        while i < n
            invariant
                n == self@.len(),
                i <= n,
                edits == uniform_edits(ranges@, encode_utf8(content@)),
                edits_sorted(edits),
                regions_ordered(self@),
                forall|k: int|
                    0 <= k < self@.len() ==> #[trigger] self@[k].max() + inserted_len(edits)
                        <= usize::MAX,
                result@ == transform_regions(self@.take(i as int), edits),
                regions_ordered(result@),
                i > 0 && result@.len() > 0 ==> result@.last().max() <= transform_offset(
                    edits,
                    self@[i - 1].max() as nat,
                    false,
                ),
                i > 0 ==> result@.len() > 0,
            decreases n - i,
        {
            let region = self.regions[i];
            proof {
                assert(self@[i as int].max() + inserted_len(edits) <= usize::MAX);
            }
            let start = transform_offset_exec(ranges, content, region.start, region.start < region.end);
            let end = transform_offset_exec(ranges, content, region.end, region.end < region.start);
            let moved = SelRegion::new(start, end);
            proof {
                lemma_transform_monotone(
                    edits,
                    region.min() as nat,
                    !region.is_caret(),
                    region.max() as nat,
                    false,
                );
                assert(moved.min() == transform_offset(edits, region.min() as nat, !region.is_caret()));
                assert(moved.max() == transform_offset(edits, region.max() as nat, false));
                assert(moved == transform_region(edits, region));
                assert(self@.take(i + 1).drop_last() =~= self@.take(i as int));
                if i > 0 {
                    assert(region_before(self@[i - 1], self@[i as int]));
                    lemma_transform_monotone(
                        edits,
                        self@[i - 1].max() as nat,
                        false,
                        region.min() as nat,
                        !region.is_caret(),
                    );
                }
            }
            let m = result.len();
            if m > 0 && !region_is_before(&result[m - 1], &moved) {
                if !moved.is_caret() {
                    let ghost before = result@;
                    result.pop();
                    result.push(moved);
                    proof {
                        assert(result@ == before.drop_last().push(moved));
                        assert forall|j: int| 0 < j < result@.len() implies region_before(
                            result@[j - 1],
                            #[trigger] result@[j],
                        ) by {
                            if j < m - 1 {
                                assert(result@[j - 1] == before[j - 1] && result@[j] == before[j]);
                            } else {
                                assert(result@[j - 1] == before[j - 1]);
                                assert(region_before(before[j - 1], before[j]));
                            }
                        }
                    }
                }
            } else {
                let ghost before = result@;
                result.push(moved);
                proof {
                    assert(result@ == before.push(moved));
                    assert forall|j: int| 0 < j < result@.len() implies region_before(
                        result@[j - 1],
                        #[trigger] result@[j],
                    ) by {
                        if j < m {
                            assert(result@[j - 1] == before[j - 1] && result@[j] == before[j]);
                        }
                    }
                }
            }
            i = i + 1;
        }
        proof {
            assert(self@.take(n as int) =~= self@);
        }
        Selection { regions: result }
    }
}

proof fn lemma_sorted_tail(edits: Seq<Edit>)
    requires
        edits_sorted(edits),
        edits.len() > 0,
    ensures
        edits_sorted(edits.drop_first()),
{
    let rest = edits.drop_first();
    assert forall|i: int| 0 <= i < rest.len() implies #[trigger] rest[i].0 <= rest[i].1 by {
        assert(rest[i] == edits[i + 1]);
    }
    assert forall|i: int| 0 < i < rest.len() implies rest[i - 1].1 <= #[trigger] rest[i].0 by {
        assert(rest[i] == edits[i + 1]);
        assert(rest[i - 1] == edits[i]);
    }
}

/// The net change in length, summed from the front.
proof fn lemma_shift_front(edits: Seq<Edit>)
    requires
        edits.len() > 0,
    ensures
        shift(edits) == edits[0].2.len() - (edits[0].1 - edits[0].0) + shift(edits.drop_first()),
    decreases edits.len(),
{
    if edits.len() > 1 {
        lemma_shift_front(edits.drop_last());
        assert(edits.drop_last().drop_first() =~= edits.drop_first().drop_last());
        assert(edits.drop_last()[0] == edits[0]);
        assert(edits.drop_first().last() == edits.last());
        let rest = edits.drop_first();
        assert(shift(rest) == shift(rest.drop_last()) + rest.last().2.len() - (rest.last().1
            - rest.last().0));
        assert(shift(edits) == shift(edits.drop_last()) + edits.last().2.len() - (edits.last().1
            - edits.last().0));
    } else {
        assert(shift(edits.drop_first()) == 0);
        assert(shift(edits.drop_last()) == 0);
        assert(edits.last() == edits[0]);
    }
}

/// Replacements that lie within `[lo, len]` leave at least `lo` bytes before
/// the end of the first one's new content.
proof fn lemma_shift_lower(edits: Seq<Edit>, lo: nat, len: nat)
    requires
        edits_sorted(edits),
        edits.len() > 0 ==> lo <= edits[0].0,
        forall|i: int| 0 <= i < edits.len() ==> #[trigger] edits[i].1 <= len,
        lo <= len,
    ensures
        len + shift(edits) >= lo,
        edits.len() > 0 ==> len + shift(edits) >= edits[0].0 + edits[0].2.len(),
    decreases edits.len(),
{
    if edits.len() > 0 {
        let e = edits[0];
        let rest = edits.drop_first();
        lemma_sorted_tail(edits);
        lemma_shift_front(edits);
        assert forall|i: int| 0 <= i < rest.len() implies #[trigger] rest[i].1 <= len by {
            assert(rest[i] == edits[i + 1]);
        }
        if rest.len() > 0 {
            assert(rest[0] == edits[1]);
        }
        assert(e.1 <= len);
        lemma_shift_lower(rest, e.1, len);
    }
}

/// An offset within the old text lands within the new one.
pub proof fn lemma_transform_within(edits: Seq<Edit>, len: nat, o: nat, later: bool)
    requires
        edits_sorted(edits),
        forall|i: int| 0 <= i < edits.len() ==> #[trigger] edits[i].1 <= len,
        o <= len,
    ensures
        0 <= transform_offset(edits, o, later) <= len + shift(edits),
    decreases edits.len(),
{
    lemma_shift_lower(edits, 0, len);
    if edits.len() > 0 {
        let e = edits[0];
        let rest = edits.drop_first();
        lemma_sorted_tail(edits);
        lemma_shift_front(edits);
        if o >= e.0 && !lands_in_first(edits, o, later) {
            assert forall|i: int| 0 <= i < rest.len() implies #[trigger] rest[i].1 <= len by {
                assert(rest[i] == edits[i + 1]);
            }
            if rest.len() > 0 {
                assert(rest[0] == edits[1]);
            }
            lemma_transform_within(rest, len, o, later);
            lemma_transform_lower(rest, e.1, o, later);
        }
    }
}

/// Carried through the replacements, regions within the old text lie
/// within the new one.
pub proof fn lemma_transform_regions_within(s: Seq<SelRegion>, edits: Seq<Edit>, len: nat)
    requires
        edits_sorted(edits),
        forall|i: int| 0 <= i < edits.len() ==> #[trigger] edits[i].1 <= len,
        regions_within(s, len),
    ensures
        regions_within(transform_regions(s, edits), (len + shift(edits)) as nat),
    decreases s.len(),
{
    lemma_shift_lower(edits, 0, len);
    if s.len() > 0 {
        let init = s.drop_last();
        assert forall|i: int| 0 <= i < init.len() implies #[trigger] init[i].max() <= len by {
            assert(init[i] == s[i]);
        }
        lemma_transform_regions_within(init, edits, len);
        let r = s.last();
        assert(r.max() <= len);
        lemma_transform_within(edits, len, r.start as nat, r.start < r.end);
        lemma_transform_within(edits, len, r.end as nat, r.end < r.start);
        let acc = transform_regions(init, edits);
        let moved = transform_region(edits, r);
        let out = push_merged(acc, moved);
        assert forall|i: int| 0 <= i < out.len() implies #[trigger] out[i].max() <= len + shift(
            edits,
        ) by {
            if i < acc.len() && !(acc.len() > 0 && !region_before(acc.last(), moved)
                && !moved.is_caret() && i == acc.len() - 1) {
                assert(out[i] == acc[i]);
            }
        }
    }
}

} // verus!
