//! Fixed-point heights.
use vstd::prelude::*;

verus! {

/// A height measure, held as a count of 1/256 units (8 fractional bits).
///
/// Heights are integers so that sums over a sequence are exact and
/// associative; conversion to and from real-valued geometry happens at the
/// edge of the library.
#[derive(Copy, Clone, Debug, PartialEq, Eq, Structural)]
pub struct Height(usize);

impl View for Height {
    type V = nat;

    /// The height in raw fractional units.
    closed spec fn view(&self) -> nat {
        self.0 as nat
    }
}

/// The number of fractional bits in the representation.
pub const HEIGHT_FRAC_BITS: usize = 8;

impl Height {
    /// The zero height.
    pub fn zero() -> (r: Height)
        ensures
            r@ == 0,
    {
        Height(0)
    }

    pub fn from_raw_frac(frac: usize) -> (r: Height)
        ensures
            r@ == frac,
    {
        Height(frac)
    }

    pub fn as_raw_frac(self) -> (r: usize)
        ensures
            r == self@,
    {
        self.0
    }

    /// The sum of two heights.
    pub fn add(self, other: Height) -> (r: Height)
        requires
            self@ + other@ <= usize::MAX,
        ensures
            r@ == self@ + other@,
    {
        Height(self.0 + other.0)
    }

    /// Adds `other` to this height in place.
    pub fn add_assign(&mut self, other: Height)
        requires
            old(self)@ + other@ <= usize::MAX,
        ensures
            final(self)@ == old(self)@ + other@,
    {
        self.0 = self.0 + other.0;
    }

    /// The difference of two heights, where `other` is not the larger.
    pub fn sub(self, other: Height) -> (r: Height)
        requires
            other@ <= self@,
        ensures
            r@ == self@ - other@,
    {
        Height(self.0 - other.0)
    }

    /// Whether this height is strictly below `other`.
    pub fn lt(self, other: Height) -> (r: bool)
        ensures
            r == (self@ < other@),
    {
        self.0 < other.0
    }
}

/// A height fits in a machine word.
pub proof fn lemma_height_bound(h: Height)
    ensures
        h@ <= usize::MAX,
{
}

/// Heights with the same raw value are the same height.
pub proof fn lemma_height_ext(a: Height, b: Height)
    requires
        a@ == b@,
    ensures
        a == b,
{
}

} // verus!
