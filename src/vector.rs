//! A sequence in which every element carries a height.
//!
//! Elements are grouped into leaves of between `MIN_LEAF` and `MAX_LEAF`
//! elements; each leaf keeps a summary (its element count and its total
//! height), so that both metrics, the count of elements and the accumulated
//! height, can be converted into each other leaf by leaf.
use vstd::prelude::*;
use vstd::slice::slice_subrange;

use crate::height::{lemma_height_bound, Height};

verus! {

/// The fewest elements a leaf holds, unless it is the only leaf.
pub const MIN_LEAF: usize = 16;

/// The most elements a leaf holds.
pub const MAX_LEAF: usize = 32;

/// The sum of the heights of a sequence of elements.
pub open spec fn sum_heights<T>(s: Seq<(Height, T)>) -> nat
    decreases s.len(),
{
    if s.len() == 0 {
        0
    } else {
        sum_heights(s.drop_last()) + s.last().0@
    }
}

/// The height at the top of element `i`: the sum of the heights before it.
pub open spec fn prefix_height<T>(s: Seq<(Height, T)>, i: int) -> nat {
    sum_heights(s.take(i))
}

/// `r` is the first index whose element contains height `h` (closed-open),
/// or is a zero-height element at `h`; `r` is the length of `s` when there
/// is none.
pub open spec fn first_at_height<T>(s: Seq<(Height, T)>, h: nat, r: int) -> bool {
    &&& 0 <= r <= s.len()
    &&& (r == s.len() || prefix_height(s, r) == h || prefix_height(s, r + 1) > h)
    &&& forall|j: int|
        0 <= j < r ==> #[trigger] prefix_height(s, j) < h && prefix_height(s, j + 1) <= h
}

pub proof fn lemma_prefix_step<T>(s: Seq<(Height, T)>, i: int)
    requires
        0 <= i < s.len(),
    ensures
        prefix_height(s, i + 1) == prefix_height(s, i) + s[i].0@,
{
    assert(s.take(i + 1).drop_last() =~= s.take(i));
}

pub proof fn lemma_prefix_full<T>(s: Seq<(Height, T)>)
    ensures
        prefix_height(s, s.len() as int) == sum_heights(s),
{
    assert(s.take(s.len() as int) =~= s);
}

pub proof fn lemma_prefix_zero<T>(s: Seq<(Height, T)>)
    ensures
        prefix_height(s, 0) == 0,
{
}

pub proof fn lemma_prefix_mono<T>(s: Seq<(Height, T)>, i: int, j: int)
    requires
        0 <= i <= j <= s.len(),
    ensures
        prefix_height(s, i) <= prefix_height(s, j),
    decreases j - i,
{
    if i < j {
        lemma_prefix_mono(s, i, j - 1);
        lemma_prefix_step(s, j - 1);
    }
}

/// Heights of a sub-range are differences of prefix heights.
pub proof fn lemma_prefix_subrange<T>(s: Seq<(Height, T)>, a: int, b: int, j: int)
    requires
        0 <= a <= b <= s.len(),
        0 <= j <= b - a,
    ensures
        prefix_height(s.subrange(a, b), j) + prefix_height(s, a) == prefix_height(s, a + j),
    decreases j,
{
    if j > 0 {
        lemma_prefix_subrange(s, a, b, j - 1);
        lemma_prefix_step(s.subrange(a, b), j - 1);
        lemma_prefix_step(s, a + j - 1);
    }
}

proof fn lemma_prefix_insert<T>(s: Seq<(Height, T)>, idx: int, x: (Height, T), j: int)
    requires
        0 <= idx <= s.len(),
        0 <= j <= s.len() + 1,
    ensures
        j <= idx ==> prefix_height(s.insert(idx, x), j) == prefix_height(s, j),
        j > idx ==> prefix_height(s.insert(idx, x), j) == prefix_height(s, j - 1) + x.0@,
    decreases j,
{
    let s2 = s.insert(idx, x);
    if j > 0 {
        lemma_prefix_insert(s, idx, x, j - 1);
        lemma_prefix_step(s2, j - 1);
        if j - 1 < idx {
            lemma_prefix_step(s, j - 1);
        } else if j - 1 > idx {
            lemma_prefix_step(s, j - 2);
        }
    }
}

proof fn lemma_prefix_remove<T>(s: Seq<(Height, T)>, idx: int, j: int)
    requires
        0 <= idx < s.len(),
        0 <= j <= s.len() - 1,
    ensures
        j <= idx ==> prefix_height(s.remove(idx), j) == prefix_height(s, j),
        j > idx ==> prefix_height(s.remove(idx), j) + s[idx].0@ == prefix_height(s, j + 1),
    decreases j,
{
    let s2 = s.remove(idx);
    if j > 0 {
        lemma_prefix_remove(s, idx, j - 1);
        lemma_prefix_step(s2, j - 1);
        lemma_prefix_step(s, j - 1);
        if j - 1 >= idx {
            lemma_prefix_step(s, j);
        }
    }
}

proof fn lemma_prefix_update<T>(s: Seq<(Height, T)>, idx: int, x: (Height, T), j: int)
    requires
        0 <= idx < s.len(),
        0 <= j <= s.len(),
    ensures
        j <= idx ==> prefix_height(s.update(idx, x), j) == prefix_height(s, j),
        j > idx ==> prefix_height(s.update(idx, x), j) + s[idx].0@ == prefix_height(s, j) + x.0@,
    decreases j,
{
    let s2 = s.update(idx, x);
    if j > 0 {
        lemma_prefix_update(s, idx, x, j - 1);
        lemma_prefix_step(s2, j - 1);
        lemma_prefix_step(s, j - 1);
    }
}

/// The height of the first `n` elements is the height of the first `k`
/// plus the height of the elements from `k` to `n`, for every split point.
pub proof fn lemma_height_split<T>(s: Seq<(Height, T)>, k: int, n: int)
    requires
        0 <= k <= n <= s.len(),
    ensures
        prefix_height(s, n) == prefix_height(s, k) + sum_heights(s.subrange(k, n)),
{
    lemma_prefix_subrange(s, k, n, n - k);
    lemma_prefix_full(s.subrange(k, n));
}

/// `first_at_height` picks one index at most.
pub proof fn lemma_first_at_height_unique<T>(s: Seq<(Height, T)>, h: nat, r1: int, r2: int)
    requires
        first_at_height(s, h, r1),
        first_at_height(s, h, r2),
    ensures
        r1 == r2,
{
    if r1 < r2 {
        assert(prefix_height(s, r1) < h && prefix_height(s, r1 + 1) <= h);
        if r1 + 1 < r2 {
            assert(prefix_height(s, r1 + 1) < h);
        }
    } else if r2 < r1 {
        assert(prefix_height(s, r2) < h && prefix_height(s, r2 + 1) <= h);
    }
}

/// Looking up the height at the top of element `i` gives back `i`, unless
/// the element before `i` has zero height; then the lookup gives the first
/// of the zero-height run that ends at `i`.
pub proof fn lemma_index_of_height_round_trip<T>(s: Seq<(Height, T)>, i: int)
    requires
        0 <= i <= s.len(),
        i == 0 || s[i - 1].0@ > 0,
    ensures
        first_at_height(s, prefix_height(s, i), i),
        forall|r: int| first_at_height(s, prefix_height(s, i), r) ==> r == i,
{
    let h = prefix_height(s, i);
    assert forall|j: int| 0 <= j < i implies #[trigger] prefix_height(s, j) < h
        && prefix_height(s, j + 1) <= h by {
        lemma_prefix_mono(s, j + 1, i);
        lemma_prefix_mono(s, j, i - 1);
        lemma_prefix_step(s, i - 1);
    }
    assert forall|r: int| first_at_height(s, h, r) implies r == i by {
        lemma_first_at_height_unique(s, h, r, i);
    }
}

/// The summary of one leaf: how many elements it holds, and their height.
#[derive(Copy, Clone, Debug)]
pub struct VectorInfo {
    /// The number of elements in the leaf.
    pub len: usize,
    /// The total height of the leaf.
    pub height: Height,
}

/// The metric that counts elements.
pub struct BaseMetric;

/// The metric that sums heights.
pub struct HeightMetric;

impl VectorInfo {
    /// The summary of a run of elements.
    pub fn compute_info<T>(leaf: &[(Height, T)]) -> (r: VectorInfo)
        requires
            sum_heights(leaf@) <= usize::MAX,
        ensures
            r.len == leaf@.len(),
            r.height@ == sum_heights(leaf@),
    {
        proof {
            lemma_prefix_full(leaf@);
        }
        let height = HeightMetric::from_base_units(leaf, leaf.len());
        VectorInfo { len: leaf.len(), height }
    }

    /// Adds the summary of the run that follows this one.
    pub fn accumulate(&mut self, other: &VectorInfo)
        requires
            old(self).len + other.len <= usize::MAX,
            old(self).height@ + other.height@ <= usize::MAX,
        ensures
            final(self).len == old(self).len + other.len,
            final(self).height@ == old(self).height@ + other.height@,
    {
        self.len = self.len + other.len;
        self.height.add_assign(other.height);
    }
}

impl BaseMetric {
    /// The number of elements a leaf summary accounts for.
    pub fn measure(info: &VectorInfo) -> (r: usize)
        ensures
            r == info.len,
    {
        info.len
    }
}

impl HeightMetric {
    /// The height a leaf summary accounts for.
    pub fn measure(info: &VectorInfo) -> (r: Height)
        ensures
            r == info.height,
    {
        info.height
    }

    /// The height of the first `n` elements of a leaf.
    pub fn from_base_units<T>(leaf: &[(Height, T)], n: usize) -> (r: Height)
        requires
            n <= leaf@.len(),
            prefix_height(leaf@, leaf@.len() as int) <= usize::MAX,
        ensures
            r@ == prefix_height(leaf@, n as int),
    {
        let mut height = Height::zero();
        let mut i: usize = 0;
        while i < n
            invariant
                i <= n <= leaf@.len(),
                prefix_height(leaf@, leaf@.len() as int) <= usize::MAX,
                height@ == prefix_height(leaf@, i as int),
            decreases n - i,
        {
            proof {
                lemma_prefix_step(leaf@, i as int);
                lemma_prefix_mono(leaf@, i as int + 1, leaf@.len() as int);
            }
            height.add_assign(leaf[i].0);
            i = i + 1;
        }
        height
    }

    /// How many elements of a leaf lie wholly below `budget`: the index of
    /// the first element that contains `budget` or is a zero-height element
    /// at `budget`.
    pub fn to_base_units<T>(leaf: &[(Height, T)], budget: usize) -> (r: usize)
        ensures
            first_at_height(leaf@, budget as nat, r as int),
    {
        let mut m1: usize = budget;
        let mut m2: usize = 0;
        let ghost s = leaf@;
        while m2 < leaf.len()
            invariant
                m2 <= s.len(),
                s == leaf@,
                m1 + prefix_height(s, m2 as int) == budget,
                forall|j: int|
                    0 <= j < m2 ==> #[trigger] prefix_height(s, j) < budget && prefix_height(
                        s,
                        j + 1,
                    ) <= budget,
            decreases s.len() - m2,
        {
            let h = leaf[m2].0.as_raw_frac();
            proof {
                lemma_prefix_step(s, m2 as int);
            }
            if m1 == 0 || m1 < h {
                return m2;
            }
            m1 = m1 - h;
            m2 = m2 + 1;
        }
        m2
    }
}

/// Where leaf `k` starts: the number of elements in the leaves before it.
spec fn leaf_start(ls: Seq<VectorInfo>, k: int) -> nat
    decreases k,
{
    if k <= 0 {
        0
    } else {
        leaf_start(ls, k - 1) + ls[k - 1].len as nat
    }
}

/// The leaves account for every element, and each leaf summary holds the
/// height of its own elements.
spec fn leaves_cover<T>(ls: Seq<VectorInfo>, s: Seq<(Height, T)>) -> bool {
    &&& leaf_start(ls, ls.len() as int) == s.len()
    &&& forall|k: int|
        0 <= k < ls.len() ==> #[trigger] ls[k].height@ + prefix_height(s, leaf_start(ls, k) as int)
            == prefix_height(s, leaf_start(ls, k + 1) as int)
}

/// Every leaf holds between `MIN_LEAF` and `MAX_LEAF` elements, except a
/// leaf that is alone, which holds at least one.
pub open spec fn leaf_sizes_ok(lens: Seq<nat>) -> bool {
    &&& lens.len() == 1 ==> 1 <= lens[0] <= MAX_LEAF
    &&& lens.len() > 1 ==> forall|k: int|
        0 <= k < lens.len() ==> MIN_LEAF <= #[trigger] lens[k] <= MAX_LEAF
}

spec fn leaf_lens(ls: Seq<VectorInfo>) -> Seq<nat> {
    ls.map_values(|i: VectorInfo| i.len as nat)
}

proof fn lemma_start_mono(ls: Seq<VectorInfo>, i: int, j: int)
    requires
        0 <= i <= j,
    ensures
        leaf_start(ls, i) <= leaf_start(ls, j),
    decreases j - i,
{
    if i < j {
        lemma_start_mono(ls, i, j - 1);
    }
}

proof fn lemma_start_update(ls: Seq<VectorInfo>, k: int, x: VectorInfo, j: int)
    requires
        0 <= k < ls.len(),
        0 <= j <= ls.len(),
    ensures
        j <= k ==> leaf_start(ls.update(k, x), j) == leaf_start(ls, j),
        j > k ==> leaf_start(ls.update(k, x), j) + ls[k].len == leaf_start(ls, j) + x.len,
    decreases j,
{
    if j > 0 {
        lemma_start_update(ls, k, x, j - 1);
    }
}

proof fn lemma_start_insert(ls: Seq<VectorInfo>, k: int, x: VectorInfo, j: int)
    requires
        0 <= k <= ls.len(),
        0 <= j <= ls.len() + 1,
    ensures
        j <= k ==> leaf_start(ls.insert(k, x), j) == leaf_start(ls, j),
        j > k ==> leaf_start(ls.insert(k, x), j) == leaf_start(ls, j - 1) + x.len,
    decreases j,
{
    if j > 0 {
        lemma_start_insert(ls, k, x, j - 1);
    }
}

proof fn lemma_start_remove(ls: Seq<VectorInfo>, k: int, j: int)
    requires
        0 <= k < ls.len(),
        0 <= j <= ls.len() - 1,
    ensures
        j <= k ==> leaf_start(ls.remove(k), j) == leaf_start(ls, j),
        j > k ==> leaf_start(ls.remove(k), j) + ls[k].len == leaf_start(ls, j + 1),
    decreases j,
{
    if j > 0 {
        lemma_start_remove(ls, k, j - 1);
        assert(leaf_start(ls, j + 1) == leaf_start(ls, j) + ls[j].len);
        if j - 1 >= k {
            assert(ls.remove(k)[j - 1] == ls[j]);
        } else {
            assert(ls.remove(k)[j - 1] == ls[j - 1]);
        }
    }
}

/// A leaf's height is at most the height of everything up to its end.
proof fn lemma_leaf_height_bound<T>(ls: Seq<VectorInfo>, s: Seq<(Height, T)>, k: int)
    requires
        leaves_cover(ls, s),
        0 <= k < ls.len(),
    ensures
        leaf_start(ls, k) <= leaf_start(ls, k + 1) <= s.len(),
        ls[k].height@ <= sum_heights(s),
{
    lemma_start_mono(ls, k + 1, ls.len() as int);
    lemma_prefix_mono(s, leaf_start(ls, k + 1) as int, s.len() as int);
    lemma_prefix_full(s);
    assert(ls[k].height@ + prefix_height(s, leaf_start(ls, k) as int) == prefix_height(
        s,
        leaf_start(ls, k + 1) as int,
    ));
}

/// Inserting an element into leaf `k` keeps the leaves covering.
proof fn lemma_cover_insert<T>(
    ls: Seq<VectorInfo>,
    s: Seq<(Height, T)>,
    k: int,
    index: int,
    x: (Height, T),
    info: VectorInfo,
)
    requires
        leaves_cover(ls, s),
        0 <= k < ls.len(),
        leaf_start(ls, k) <= index <= leaf_start(ls, k + 1),
        info.len == ls[k].len + 1,
        info.height@ == ls[k].height@ + x.0@,
    ensures
        leaves_cover(ls.update(k, info), s.insert(index, x)),
{
    let ls2 = ls.update(k, info);
    let s2 = s.insert(index, x);
    lemma_start_update(ls, k, info, ls.len() as int);
    lemma_start_mono(ls, k + 1, ls.len() as int);
    assert forall|j: int| 0 <= j < ls2.len() implies #[trigger] ls2[j].height@ + prefix_height(
        s2,
        leaf_start(ls2, j) as int,
    ) == prefix_height(s2, leaf_start(ls2, j + 1) as int) by {
        lemma_start_update(ls, k, info, j);
        lemma_start_update(ls, k, info, j + 1);
        assert(ls[j].height@ + prefix_height(s, leaf_start(ls, j) as int) == prefix_height(
            s,
            leaf_start(ls, j + 1) as int,
        ));
        if j < k {
            lemma_start_mono(ls, j + 1, k);
        } else if j > k {
            lemma_start_mono(ls, k + 1, j);
        }
        lemma_start_mono(ls, j + 1, ls.len() as int);
        lemma_prefix_insert(s, index, x, leaf_start(ls2, j) as int);
        lemma_prefix_insert(s, index, x, leaf_start(ls2, j + 1) as int);
    }
}

/// Removing element `index` from leaf `k` keeps the leaves covering.
proof fn lemma_cover_remove<T>(
    ls: Seq<VectorInfo>,
    s: Seq<(Height, T)>,
    k: int,
    index: int,
    info: VectorInfo,
)
    requires
        leaves_cover(ls, s),
        0 <= k < ls.len(),
        leaf_start(ls, k) <= index < leaf_start(ls, k + 1),
        info.len + 1 == ls[k].len,
        info.height@ + s[index].0@ == ls[k].height@,
    ensures
        leaves_cover(ls.update(k, info), s.remove(index)),
{
    let ls2 = ls.update(k, info);
    let s2 = s.remove(index);
    lemma_start_update(ls, k, info, ls.len() as int);
    lemma_start_mono(ls, k + 1, ls.len() as int);
    lemma_prefix_step(s, index);
    assert forall|j: int| 0 <= j < ls2.len() implies #[trigger] ls2[j].height@ + prefix_height(
        s2,
        leaf_start(ls2, j) as int,
    ) == prefix_height(s2, leaf_start(ls2, j + 1) as int) by {
        lemma_start_update(ls, k, info, j);
        lemma_start_update(ls, k, info, j + 1);
        assert(ls[j].height@ + prefix_height(s, leaf_start(ls, j) as int) == prefix_height(
            s,
            leaf_start(ls, j + 1) as int,
        ));
        if j < k {
            lemma_start_mono(ls, j + 1, k);
        } else if j > k {
            lemma_start_mono(ls, k + 1, j);
        }
        lemma_start_mono(ls, j + 1, ls.len() as int);
        lemma_prefix_remove(s, index, leaf_start(ls2, j) as int);
        lemma_prefix_remove(s, index, leaf_start(ls2, j + 1) as int);
    }
}

/// Replacing element `index` of leaf `k` keeps the leaves covering.
proof fn lemma_cover_update<T>(
    ls: Seq<VectorInfo>,
    s: Seq<(Height, T)>,
    k: int,
    index: int,
    x: (Height, T),
    info: VectorInfo,
)
    requires
        leaves_cover(ls, s),
        0 <= k < ls.len(),
        leaf_start(ls, k) <= index < leaf_start(ls, k + 1),
        info.len == ls[k].len,
        info.height@ + s[index].0@ == ls[k].height@ + x.0@,
    ensures
        leaves_cover(ls.update(k, info), s.update(index, x)),
{
    let ls2 = ls.update(k, info);
    let s2 = s.update(index, x);
    lemma_start_update(ls, k, info, ls.len() as int);
    lemma_start_mono(ls, k + 1, ls.len() as int);
    assert forall|j: int| 0 <= j < ls2.len() implies #[trigger] ls2[j].height@ + prefix_height(
        s2,
        leaf_start(ls2, j) as int,
    ) == prefix_height(s2, leaf_start(ls2, j + 1) as int) by {
        lemma_start_update(ls, k, info, j);
        lemma_start_update(ls, k, info, j + 1);
        assert(ls[j].height@ + prefix_height(s, leaf_start(ls, j) as int) == prefix_height(
            s,
            leaf_start(ls, j + 1) as int,
        ));
        if j < k {
            lemma_start_mono(ls, j + 1, k);
        } else if j > k {
            lemma_start_mono(ls, k + 1, j);
        }
        lemma_start_mono(ls, j + 1, ls.len() as int);
        lemma_prefix_update(s, index, x, leaf_start(ls2, j) as int);
        lemma_prefix_update(s, index, x, leaf_start(ls2, j + 1) as int);
    }
}

/// Splitting leaf `k` into two consecutive leaves keeps the leaves covering.
proof fn lemma_cover_split<T>(
    ls: Seq<VectorInfo>,
    s: Seq<(Height, T)>,
    k: int,
    left: VectorInfo,
    right: VectorInfo,
)
    requires
        leaves_cover(ls, s),
        0 <= k < ls.len(),
        left.len + right.len == ls[k].len,
        left.height@ + prefix_height(s, leaf_start(ls, k) as int) == prefix_height(
            s,
            leaf_start(ls, k) + left.len,
        ),
        left.height@ + right.height@ == ls[k].height@,
    ensures
        leaves_cover(ls.update(k, left).insert(k + 1, right), s),
{
    let ls1 = ls.update(k, left);
    let ls2 = ls1.insert(k + 1, right);
    lemma_start_update(ls, k, left, ls.len() as int);
    lemma_start_insert(ls1, k + 1, right, ls2.len() as int);
    lemma_start_update(ls, k, left, k);
    lemma_start_update(ls, k, left, k + 1);
    assert forall|j: int| 0 <= j < ls2.len() implies #[trigger] ls2[j].height@ + prefix_height(
        s,
        leaf_start(ls2, j) as int,
    ) == prefix_height(s, leaf_start(ls2, j + 1) as int) by {
        lemma_start_insert(ls1, k + 1, right, j);
        lemma_start_insert(ls1, k + 1, right, j + 1);
        if j <= k {
            lemma_start_update(ls, k, left, j);
            lemma_start_update(ls, k, left, j + 1);
            assert(ls[j].height@ + prefix_height(s, leaf_start(ls, j) as int) == prefix_height(
                s,
                leaf_start(ls, j + 1) as int,
            ));
        } else if j == k + 1 {
            assert(ls[k].height@ + prefix_height(s, leaf_start(ls, k) as int) == prefix_height(
                s,
                leaf_start(ls, k + 1) as int,
            ));
        } else {
            lemma_start_update(ls, k, left, j - 1);
            lemma_start_update(ls, k, left, j);
            assert(ls[j - 1].height@ + prefix_height(s, leaf_start(ls, j - 1) as int)
                == prefix_height(s, leaf_start(ls, j) as int));
        }
    }
}

/// Joining leaves `k` and `k + 1` into one keeps the leaves covering.
proof fn lemma_cover_join<T>(ls: Seq<VectorInfo>, s: Seq<(Height, T)>, k: int, joined: VectorInfo)
    requires
        leaves_cover(ls, s),
        0 <= k,
        k + 1 < ls.len(),
        joined.len == ls[k].len + ls[k + 1].len,
        joined.height@ == ls[k].height@ + ls[k + 1].height@,
    ensures
        leaves_cover(ls.update(k, joined).remove(k + 1), s),
{
    let ls1 = ls.update(k, joined);
    let ls2 = ls1.remove(k + 1);
    lemma_start_update(ls, k, joined, ls.len() as int);
    lemma_start_remove(ls1, k + 1, ls2.len() as int);
    lemma_start_update(ls, k, joined, ls.len() as int);
    assert(ls[k].height@ + prefix_height(s, leaf_start(ls, k) as int) == prefix_height(
        s,
        leaf_start(ls, k + 1) as int,
    ));
    assert(ls[k + 1].height@ + prefix_height(s, leaf_start(ls, k + 1) as int) == prefix_height(
        s,
        leaf_start(ls, k + 2) as int,
    ));
    assert forall|j: int| 0 <= j < ls2.len() implies #[trigger] ls2[j].height@ + prefix_height(
        s,
        leaf_start(ls2, j) as int,
    ) == prefix_height(s, leaf_start(ls2, j + 1) as int) by {
        lemma_start_remove(ls1, k + 1, j);
        lemma_start_remove(ls1, k + 1, j + 1);
        lemma_start_update(ls, k, joined, j);
        lemma_start_update(ls, k, joined, j + 1);
        lemma_start_update(ls, k, joined, j + 2);
        if j < k {
            assert(ls[j].height@ + prefix_height(s, leaf_start(ls, j) as int) == prefix_height(
                s,
                leaf_start(ls, j + 1) as int,
            ));
        } else if j > k {
            assert(ls[j + 1].height@ + prefix_height(s, leaf_start(ls, j + 1) as int)
                == prefix_height(s, leaf_start(ls, j + 2) as int));
        }
    }
}

/// A sequence of elements, each with a height, indexed both by position
/// and by accumulated height.
pub struct Vector<T> {
    items: Vec<(Height, T)>,
    leaves: Vec<VectorInfo>,
    height: Height,
}

impl<T> View for Vector<T> {
    type V = Seq<(Height, T)>;

    closed spec fn view(&self) -> Seq<(Height, T)> {
        self.items@
    }
}

impl<T> Vector<T> {
    /// The representation is consistent: the leaf summaries cover the
    /// elements, each leaf has an allowed size, and the cached total height is
    /// the sum of all heights.
    pub closed spec fn wf(&self) -> bool {
        &&& leaves_cover(self.leaves@, self.items@)
        &&& leaf_sizes_ok(leaf_lens(self.leaves@))
        &&& self.height@ == sum_heights(self.items@)
        &&& sum_heights(self.items@) <= usize::MAX
    }

    /// The number of elements in each leaf, in order.
    pub closed spec fn leaf_lengths(&self) -> Seq<nat> {
        leaf_lens(self.leaves@)
    }

    /// The empty sequence.
    pub fn new() -> (r: Vector<T>)
        ensures
            r.wf(),
            r@ == Seq::<(Height, T)>::empty(),
    {
        Vector { items: Vec::new(), leaves: Vec::new(), height: Height::zero() }
    }

    /// A sequence holding the given elements, in order.
    pub fn from_vec(v: Vec<(Height, T)>) -> (r: Vector<T>)
        requires
            sum_heights(v@) <= usize::MAX,
        ensures
            r.wf(),
            r@ == v@,
    {
        let n = v.len();
        let mut leaves: Vec<VectorInfo> = Vec::new();
        let mut pos: usize = 0;
        let ghost s = v@;
        proof {
            lemma_prefix_full(s);
        }
        let height = HeightMetric::from_base_units(v.as_slice(), n);
        while pos < n
            invariant
                s == v@,
                n == s.len(),
                pos <= n,
                prefix_height(s, n as int) <= usize::MAX,
                leaf_start(leaves@, leaves@.len() as int) == pos,
                forall|k: int|
                    0 <= k < leaves@.len() ==> #[trigger] leaves@[k].height@ + prefix_height(
                        s,
                        leaf_start(leaves@, k) as int,
                    ) == prefix_height(s, leaf_start(leaves@, k + 1) as int),
                pos == 0 || pos == n || n - pos >= MIN_LEAF,
                forall|k: int|
                    0 <= k < leaves@.len() ==> (MIN_LEAF <= #[trigger] leaves@[k].len <= MAX_LEAF)
                        || (leaves@.len() == 1 && pos == n && 1 <= leaves@[k].len <= MAX_LEAF),
            decreases n - pos,
        {
            let rest = n - pos;
            let take = if rest <= MAX_LEAF {
                rest
            } else if rest >= MAX_LEAF + MIN_LEAF {
                MAX_LEAF
            } else {
                rest / 2
            };
            let leaf = slice_subrange(v.as_slice(), pos, pos + take);
            proof {
                lemma_prefix_subrange(s, pos as int, pos + take, take as int);
                lemma_prefix_mono(s, (pos + take) as int, n as int);
                lemma_prefix_subrange(s, pos as int, pos + take, leaf@.len() as int);
                assert(s.subrange(pos as int, pos + take) == leaf@);
            }
            let h = HeightMetric::from_base_units(leaf, take);
            let ghost old_leaves = leaves@;
            leaves.push(VectorInfo { len: take, height: h });
            proof {
                assert(leaves@ == old_leaves.push(VectorInfo { len: take, height: h }));
                assert forall|k: int| 0 <= k < leaves@.len() implies leaf_start(leaves@, k)
                    == leaf_start(old_leaves, k) by {
                    lemma_start_prefix(old_leaves, leaves@, k);
                }
                assert(leaf_start(leaves@, leaves@.len() as int) == pos + take);
                assert forall|k: int| 0 <= k < leaves@.len() implies #[trigger] leaves@[k].height@
                    + prefix_height(s, leaf_start(leaves@, k) as int) == prefix_height(
                    s,
                    leaf_start(leaves@, k + 1) as int,
                ) by {
                    if k + 1 < leaves@.len() {
                        lemma_start_prefix(old_leaves, leaves@, k + 1);
                        assert(old_leaves[k] == leaves@[k]);
                    }
                }
            }
            pos = pos + take;
        }
        proof {
            lemma_prefix_full(s);
            assert forall|k: int| 0 <= k < leaf_lens(leaves@).len() implies MIN_LEAF
                <= #[trigger] leaf_lens(leaves@)[k] <= MAX_LEAF || leaves@.len() == 1 by {
                assert(leaf_lens(leaves@)[k] == leaves@[k].len);
            }
            if leaves@.len() == 1 {
                assert(leaf_lens(leaves@)[0] == leaves@[0].len);
            }
        }
        Vector { items: v, leaves, height }
    }
}

impl<T> Vector<T> {
    /// The number of elements.
    pub fn len(&self) -> (r: usize)
        ensures
            r == self@.len(),
    {
        self.items.len()
    }

    /// The total height of all elements.
    pub fn height(&self) -> (r: Height)
        requires
            self.wf(),
        ensures
            r@ == sum_heights(self@),
    {
        self.height
    }

    /// A sequence of one element.
    pub fn singleton(height: Height, item: T) -> (r: Vector<T>)
        ensures
            r.wf(),
            r@ == seq![(height, item)],
    {
        let mut v: Vec<(Height, T)> = Vec::new();
        v.push((height, item));
        proof {
            assert(v@.len() == 1 && v@[0] == (height, item));
            lemma_prefix_step(v@, 0);
            lemma_prefix_full(v@);
            lemma_height_bound(height);
            assert(sum_heights(v@) == height@);
        }
        Vector::from_vec(v)
    }

    /// The element at `index`, if there is one.
    pub fn get(&self, index: usize) -> (r: Option<&(Height, T)>)
        ensures
            index < self@.len() ==> r == Some(&self@[index as int]),
            index >= self@.len() ==> r.is_none(),
    {
        if index < self.items.len() {
            Some(&self.items[index])
        } else {
            None
        }
    }

    /// The leaf that holds position `index`, with the position where that
    /// leaf starts. With `at_end`, a position just past a leaf's last
    /// element belongs to that leaf.
    fn locate(&self, index: usize, at_end: bool) -> (r: (usize, usize))
        requires
            self.wf(),
            self.leaves@.len() > 0,
            index < self@.len() || (at_end && index == self@.len()),
        ensures
            r.0 < self.leaves@.len(),
            r.1 == leaf_start(self.leaves@, r.0 as int),
            r.1 <= index,
            index < leaf_start(self.leaves@, r.0 + 1) || (at_end && index == leaf_start(
                self.leaves@,
                r.0 + 1,
            )),
    {
        let n = self.leaves.len();
        let total = self.items.len();
        let mut k: usize = 0;
        let mut pos: usize = 0;
        loop
            invariant
                self.wf(),
                n == self.leaves@.len(),
                k < n,
                pos == leaf_start(self.leaves@, k as int),
                pos <= index,
                index < self@.len() || (at_end && index == self@.len()),
                total == self@.len(),
            decreases n - k,
        {
            proof {
                lemma_start_mono(self.leaves@, k + 1, n as int);
                assert(leaf_start(self.leaves@, k + 1) == pos + self.leaves@[k as int].len);
            }
            let end = pos + self.leaves[k].len;
            if index < end || (at_end && index == end) || k + 1 == n {
                return (k, pos);
            }
            pos = end;
            k = k + 1;
        }
    }

    /// Splits leaf `k`, which has grown past `MAX_LEAF`, into two halves.
    fn split_leaf(&mut self, k: usize, start: usize)
        requires
            leaves_cover(old(self).leaves@, old(self).items@),
            old(self).height@ == sum_heights(old(self).items@),
            sum_heights(old(self).items@) <= usize::MAX,
            k < old(self).leaves@.len(),
            start == leaf_start(old(self).leaves@, k as int),
            MAX_LEAF < old(self).leaves@[k as int].len <= 2 * MAX_LEAF,
            forall|j: int|
                0 <= j < old(self).leaves@.len() && j != k ==> MIN_LEAF <= #[trigger] old(
                    self,
                ).leaves@[j].len <= MAX_LEAF,
        ensures
            final(self).wf(),
            final(self)@ == old(self)@,
            final(self).leaves@.len() == old(self).leaves@.len() + 1,
            final(self).leaves@[k as int].len == old(self).leaves@[k as int].len / 2,
            final(self).leaves@[k + 1].len == old(self).leaves@[k as int].len - old(
                self,
            ).leaves@[k as int].len / 2,
            forall|j: int| 0 <= j < k ==> #[trigger] final(self).leaves@[j] == old(self).leaves@[j],
            forall|j: int|
                k + 1 < j < final(self).leaves@.len() ==> #[trigger] final(self).leaves@[j] == old(
                    self,
                ).leaves@[j - 1],
    {
        let ghost ls = self.leaves@;
        let ghost s = self.items@;
        let total = self.items.len();
        let n = self.leaves.len();
        let info = self.leaves[k];
        let left_len = info.len / 2;
        assert(leaf_start(ls, k + 1) == start + info.len);
        proof {
            lemma_start_mono(ls, k + 1, ls.len() as int);
            lemma_leaf_height_bound(ls, s, k as int);
            lemma_prefix_full(s);
            lemma_prefix_mono(s, (start + info.len) as int, s.len() as int);
            lemma_prefix_subrange(s, start as int, start + info.len, info.len as int);
        }
        let leaf = slice_subrange(self.items.as_slice(), start, start + info.len);
        proof {
            lemma_prefix_subrange(s, start as int, start + info.len, left_len as int);
            lemma_prefix_mono(leaf@, left_len as int, leaf@.len() as int);
        }
        let left_height = HeightMetric::from_base_units(leaf, left_len);
        let left = VectorInfo { len: left_len, height: left_height };
        let right = VectorInfo { len: info.len - left_len, height: info.height.sub(left_height) };
        proof {
            lemma_cover_split(ls, s, k as int, left, right);
        }
        self.leaves.set(k, left);
        self.leaves.insert(k + 1, right);
        proof {
            assert(self.leaves@ == ls.update(k as int, left).insert(k + 1, right));
            let lens = leaf_lens(self.leaves@);
            assert forall|j: int| 0 <= j < lens.len() implies MIN_LEAF <= #[trigger] lens[j]
                <= MAX_LEAF by {
                if j < k {
                    assert(lens[j] == ls[j].len);
                } else if j > k + 1 {
                    assert(lens[j] == ls[j - 1].len);
                }
            }
        }
    }

    /// Restores the leaf sizes after leaf `k`, at `start`, has shrunk just
    /// below `MIN_LEAF`: joins it with a neighbour, and splits the result in
    /// two if it is too large for one leaf.
    fn rebalance(&mut self, k: usize, start: usize)
        requires
            leaves_cover(old(self).leaves@, old(self).items@),
            old(self).height@ == sum_heights(old(self).items@),
            sum_heights(old(self).items@) <= usize::MAX,
            old(self).leaves@.len() > 1,
            k < old(self).leaves@.len(),
            start == leaf_start(old(self).leaves@, k as int),
            old(self).leaves@[k as int].len + 1 == MIN_LEAF,
            forall|j: int|
                0 <= j < old(self).leaves@.len() && j != k ==> MIN_LEAF <= #[trigger] old(
                    self,
                ).leaves@[j].len <= MAX_LEAF,
        ensures
            final(self).wf(),
            final(self)@ == old(self)@,
    {
        let ghost ls = self.leaves@;
        let ghost s = self.items@;
        let n = self.leaves.len();
        let j: usize = if k + 1 < n {
            k
        } else {
            k - 1
        };
        let a = self.leaves[j];
        let b = self.leaves[j + 1];
        let j_start = if j == k {
            start
        } else {
            start - a.len
        };
        proof {
            if k > 0 {
                assert(leaf_start(ls, k as int) == leaf_start(ls, k - 1) + ls[k - 1].len);
            }
            assert(j_start == leaf_start(ls, j as int));
            lemma_leaf_height_bound(ls, s, j as int);
            lemma_leaf_height_bound(ls, s, j + 1);
            assert(a.height@ + prefix_height(s, leaf_start(ls, j as int) as int) == prefix_height(
                s,
                leaf_start(ls, j + 1) as int,
            ));
            assert(b.height@ + prefix_height(s, leaf_start(ls, j + 1) as int) == prefix_height(
                s,
                leaf_start(ls, j + 2) as int,
            ));
            lemma_start_mono(ls, j + 2, ls.len() as int);
            lemma_prefix_full(s);
            lemma_prefix_mono(s, leaf_start(ls, j + 2) as int, s.len() as int);
        }
        let joined = VectorInfo { len: a.len + b.len, height: a.height.add(b.height) };
        proof {
            lemma_cover_join(ls, s, j as int, joined);
        }
        self.leaves.set(j, joined);
        self.leaves.remove(j + 1);
        let ghost ls1 = self.leaves@;
        proof {
            assert(ls1 == ls.update(j as int, joined).remove(j + 1));
            assert forall|i: int| 0 <= i < ls1.len() && i != j implies MIN_LEAF
                <= #[trigger] ls1[i].len <= MAX_LEAF by {
                if i > j {
                    assert(ls1[i] == ls[i + 1]);
                } else {
                    assert(ls1[i] == ls[i]);
                }
            }
            lemma_start_update(ls, j as int, joined, j as int);
            lemma_start_remove(ls.update(j as int, joined), j + 1, j as int);
        }
        if joined.len > MAX_LEAF {
            self.split_leaf(j, j_start);
        } else {
            proof {
                let lens = leaf_lens(ls1);
                assert forall|i: int| 0 <= i < lens.len() implies MIN_LEAF <= #[trigger] lens[i]
                    <= MAX_LEAF by {
                    assert(lens[i] == ls1[i].len);
                }
            }
        }
    }

    /// Inserts an element before position `index`.
    pub fn insert(&mut self, index: usize, height: Height, value: T)
        requires
            old(self).wf(),
            index <= old(self)@.len(),
            sum_heights(old(self)@) + height@ <= usize::MAX,
        ensures
            final(self).wf(),
            leaf_sizes_ok(final(self).leaf_lengths()),
            final(self)@ == old(self)@.insert(index as int, (height, value)),
    {
        let ghost s = self.items@;
        let ghost ls = self.leaves@;
        let ghost x = (height, value);
        proof {
            lemma_prefix_insert(s, index as int, x, s.len() as int + 1);
            lemma_prefix_full(s);
            lemma_prefix_full(s.insert(index as int, x));
        }
        if self.leaves.len() == 0 {
            let info = VectorInfo { len: 1, height };
            self.items.insert(index, (height, value));
            self.leaves.push(info);
            self.height = height;
            proof {
                assert(self.leaves@ == seq![info]);
                assert(leaf_start(self.leaves@, 0) == 0);
                assert(leaf_start(self.leaves@, 1) == 1);
                lemma_prefix_step(self.items@, 0);
                assert(leaf_lens(self.leaves@)[0] == 1);
            }
            return ;
        }
        let (k, start) = self.locate(index, true);
        let info = self.leaves[k];
        proof {
            lemma_leaf_height_bound(ls, s, k as int);
            assert(leaf_lens(ls)[k as int] == info.len);
        }
        let grown = VectorInfo { len: info.len + 1, height: info.height.add(height) };
        proof {
            lemma_cover_insert(ls, s, k as int, index as int, x, grown);
            lemma_start_update(ls, k as int, grown, k as int);
        }
        self.items.insert(index, (height, value));
        self.leaves.set(k, grown);
        self.height = self.height.add(height);
        proof {
            assert(self.items@ == s.insert(index as int, x));
            assert(self.leaves@ == ls.update(k as int, grown));
        }
        if grown.len > MAX_LEAF {
            proof {
                assert forall|j: int| 0 <= j < self.leaves@.len() && j != k implies MIN_LEAF
                    <= #[trigger] self.leaves@[j].len <= MAX_LEAF by {
                    assert(leaf_lens(ls)[j] == ls[j].len);
                }
            }
            self.split_leaf(k, start);
        } else {
            proof {
                let lens = leaf_lens(self.leaves@);
                assert forall|j: int| 0 <= j < lens.len() implies (lens.len() > 1 ==> MIN_LEAF
                    <= #[trigger] lens[j] <= MAX_LEAF) && 1 <= lens[j] <= MAX_LEAF by {
                    assert(leaf_lens(ls)[j] == ls[j].len);
                }
            }
        }
    }

    /// Appends an element at the end.
    pub fn push(&mut self, height: Height, item: T)
        requires
            old(self).wf(),
            sum_heights(old(self)@) + height@ <= usize::MAX,
        ensures
            final(self).wf(),
            final(self)@ == old(self)@.push((height, item)),
    {
        let n = self.len();
        self.insert(n, height, item);
        proof {
            assert(old(self)@.insert(n as int, (height, item)) =~= old(self)@.push((height, item)));
        }
    }

    /// Removes the element at position `index`.
    pub fn remove(&mut self, index: usize)
        requires
            old(self).wf(),
            index < old(self)@.len(),
        ensures
            final(self).wf(),
            leaf_sizes_ok(final(self).leaf_lengths()),
            final(self)@ == old(self)@.remove(index as int),
    {
        let ghost s = self.items@;
        let ghost ls = self.leaves@;
        let (k, start) = self.locate(index, false);
        let info = self.leaves[k];
        let h = self.items[index].0;
        proof {
            assert(info.height@ + prefix_height(s, start as int) == prefix_height(
                s,
                leaf_start(ls, k + 1) as int,
            ));
            lemma_start_mono(ls, k + 1, ls.len() as int);
            lemma_prefix_step(s, index as int);
            lemma_prefix_mono(s, start as int, index as int);
            lemma_prefix_mono(s, index + 1, leaf_start(ls, k + 1) as int);
            lemma_prefix_remove(s, index as int, s.len() as int - 1);
            lemma_prefix_full(s);
            lemma_prefix_full(s.remove(index as int));
            assert(leaf_lens(ls)[k as int] == info.len);
        }
        let shrunk = VectorInfo { len: info.len - 1, height: info.height.sub(h) };
        proof {
            lemma_cover_remove(ls, s, k as int, index as int, shrunk);
            lemma_start_update(ls, k as int, shrunk, k as int);
        }
        self.items.remove(index);
        self.leaves.set(k, shrunk);
        self.height = self.height.sub(h);
        proof {
            assert(self.items@ == s.remove(index as int));
            assert(self.leaves@ == ls.update(k as int, shrunk));
        }
        if shrunk.len == 0 {
            self.leaves.remove(k);
            proof {
                assert(self.leaves@ =~= Seq::<VectorInfo>::empty());
                assert(self.items@.len() == 0);
            }
        } else if self.leaves.len() > 1 && shrunk.len < MIN_LEAF {
            proof {
                assert forall|j: int| 0 <= j < self.leaves@.len() && j != k implies MIN_LEAF
                    <= #[trigger] self.leaves@[j].len <= MAX_LEAF by {
                    assert(leaf_lens(ls)[j] == ls[j].len);
                }
            }
            self.rebalance(k, start);
        } else {
            proof {
                let lens = leaf_lens(self.leaves@);
                assert forall|j: int| 0 <= j < lens.len() implies (lens.len() > 1 ==> MIN_LEAF
                    <= #[trigger] lens[j] <= MAX_LEAF) && 1 <= lens[j] <= MAX_LEAF by {
                    assert(leaf_lens(ls)[j] == ls[j].len);
                }
            }
        }
    }

    /// Replaces the element at position `index`.
    pub fn set(&mut self, index: usize, height: Height, value: T)
        requires
            old(self).wf(),
            index < old(self)@.len(),
            sum_heights(old(self)@) - old(self)@[index as int].0@ + height@ <= usize::MAX,
        ensures
            final(self).wf(),
            leaf_sizes_ok(final(self).leaf_lengths()),
            final(self)@ == old(self)@.update(index as int, (height, value)),
    {
        let ghost s = self.items@;
        let ghost ls = self.leaves@;
        let ghost x = (height, value);
        let (k, start) = self.locate(index, false);
        let info = self.leaves[k];
        let old_h = self.items[index].0;
        proof {
            assert(info.height@ + prefix_height(s, start as int) == prefix_height(
                s,
                leaf_start(ls, k + 1) as int,
            ));
            lemma_start_mono(ls, k + 1, ls.len() as int);
            lemma_prefix_step(s, index as int);
            lemma_prefix_mono(s, start as int, index as int);
            lemma_prefix_mono(s, index + 1, leaf_start(ls, k + 1) as int);
            lemma_prefix_mono(s, leaf_start(ls, k + 1) as int, s.len() as int);
            lemma_prefix_update(s, index as int, x, s.len() as int);
            lemma_prefix_full(s);
            lemma_prefix_full(s.update(index as int, x));
        }
        let changed = VectorInfo { len: info.len, height: info.height.sub(old_h).add(height) };
        proof {
            lemma_cover_update(ls, s, k as int, index as int, x, changed);
        }
        self.items.set(index, (height, value));
        self.leaves.set(k, changed);
        self.height = self.height.sub(old_h).add(height);
        proof {
            assert(self.items@ == s.update(index as int, x));
            assert(self.leaves@ == ls.update(k as int, changed));
            assert(leaf_lens(self.leaves@) =~= leaf_lens(ls));
        }
    }

    /// The height at the top of the element at `index`: the sum of the
    /// heights of the elements before it.
    pub fn height_of_index(&self, index: usize) -> (r: Height)
        requires
            self.wf(),
            index <= self@.len(),
        ensures
            r@ == prefix_height(self@, index as int),
    {
        let ghost s = self.items@;
        let ghost ls = self.leaves@;
        let n = self.leaves.len();
        let mut k: usize = 0;
        let mut pos: usize = 0;
        let mut acc = Height::zero();
        proof {
            lemma_prefix_full(s);
        }
        let total = self.items.len();
        while k < n
            invariant
                self.wf(),
                s == self.items@,
                ls == self.leaves@,
                n == ls.len(),
                total == s.len(),
                k <= n,
                pos == leaf_start(ls, k as int),
                pos <= index <= s.len(),
                acc@ == prefix_height(s, pos as int),
                prefix_height(s, s.len() as int) <= usize::MAX,
            ensures
                k == n || index < pos + ls[k as int].len,
            decreases n - k,
        {
            proof {
                lemma_start_mono(ls, k + 1, n as int);
                assert(ls[k as int].height@ + prefix_height(s, pos as int) == prefix_height(
                    s,
                    leaf_start(ls, k + 1) as int,
                ));
                lemma_prefix_mono(s, leaf_start(ls, k + 1) as int, s.len() as int);
            }
            if pos + BaseMetric::measure(&self.leaves[k]) > index {
                break;
            }
            acc.add_assign(HeightMetric::measure(&self.leaves[k]));
            pos = pos + self.leaves[k].len;
            k = k + 1;
        }
        proof {
            if k < n {
                lemma_start_mono(ls, k + 1, n as int);
            }
        }
        let end = if k < n {
            pos + self.leaves[k].len
        } else {
            pos
        };
        proof {
            lemma_prefix_mono(s, end as int, s.len() as int);
            lemma_prefix_subrange(s, pos as int, end as int, (end - pos) as int);
            lemma_prefix_subrange(s, pos as int, end as int, (index - pos) as int);
        }
        let leaf = slice_subrange(self.items.as_slice(), pos, end);
        let within = HeightMetric::from_base_units(leaf, index - pos);
        proof {
            lemma_prefix_mono(s, index as int, s.len() as int);
        }
        acc.add(within)
    }

    /// The index of the first element that contains `height` (in the
    /// closed-open sense) or is a zero-height element at `height`; the
    /// length of the sequence if there is none.
    pub fn index_of_height(&self, height: Height) -> (r: usize)
        requires
            self.wf(),
            height@ <= sum_heights(self@),
        ensures
            first_at_height(self@, height@, r as int),
    {
        let ghost s = self.items@;
        let ghost ls = self.leaves@;
        let ghost h = height@;
        let n = self.leaves.len();
        let mut k: usize = 0;
        let mut pos: usize = 0;
        let mut acc = Height::zero();
        proof {
            lemma_prefix_full(s);
        }
        let total = self.items.len();
        while k < n
            invariant
                total == s.len(),
                self.wf(),
                s == self.items@,
                ls == self.leaves@,
                n == ls.len(),
                k <= n,
                h == height@,
                pos == leaf_start(ls, k as int),
                pos <= s.len(),
                acc@ == prefix_height(s, pos as int),
                acc@ <= h,
                k > 0 ==> acc@ < h,
                prefix_height(s, s.len() as int) <= usize::MAX,
                forall|j: int|
                    0 <= j < pos ==> #[trigger] prefix_height(s, j) < h && prefix_height(s, j + 1)
                        <= h,
            ensures
                k == n || acc@ + ls[k as int].height@ >= h,
            decreases n - k,
            {
            proof {
                lemma_start_mono(ls, k + 1, n as int);
                lemma_leaf_height_bound(ls, s, k as int);
                assert(ls[k as int].height@ + prefix_height(s, pos as int) == prefix_height(
                    s,
                    leaf_start(ls, k + 1) as int,
                ));
                lemma_prefix_mono(s, leaf_start(ls, k + 1) as int, s.len() as int);
            }
            if !acc.add(self.leaves[k].height).lt(height) {
                break;
            }
            let next = pos + self.leaves[k].len;
            proof {
                assert forall|j: int| 0 <= j < next implies #[trigger] prefix_height(s, j) < h
                    && prefix_height(s, j + 1) <= h by {
                    lemma_prefix_mono(s, j + 1, next as int);
                    lemma_prefix_mono(s, j, next as int);
                }
            }
            acc.add_assign(self.leaves[k].height);
            pos = next;
            k = k + 1;
        }
        if k == n {
            proof {
                lemma_start_mono(ls, k as int, n as int);
            }
            return pos;
        }
        proof {
            lemma_start_mono(ls, k + 1, n as int);
            assert(ls[k as int].height@ + prefix_height(s, pos as int) == prefix_height(
                s,
                leaf_start(ls, k + 1) as int,
            ));
            lemma_prefix_mono(s, leaf_start(ls, k + 1) as int, s.len() as int);
        }
        let end = pos + self.leaves[k].len;
        let leaf = slice_subrange(self.items.as_slice(), pos, end);
        let c = HeightMetric::to_base_units(leaf, height.as_raw_frac() - acc.as_raw_frac());
        proof {
            assert(leaf@ == s.subrange(pos as int, end as int));
            lemma_index_in_leaf(s, pos as int, end as int, h, c as int);
        }
        pos + c
    }

    /// The elements from `start` to `end`, as consecutive runs that each lie
    /// within one leaf.
    pub fn iter_chunks(&self, start: usize, end: usize) -> (r: Vec<&[(Height, T)]>)
        requires
            self.wf(),
            start <= end <= self@.len(),
        ensures
            concat_chunks(r@.map_values(|c: &[(Height, T)]| c@)) == self@.subrange(
                start as int,
                end as int,
            ),
            forall|i: int| 0 <= i < r@.len() ==> #[trigger] r@[i]@.len() > 0,
    {
        let ghost s = self.items@;
        let ghost ls = self.leaves@;
        let n = self.leaves.len();
        let total = self.items.len();
        let mut chunks: Vec<&[(Height, T)]> = Vec::new();
        let mut k: usize = 0;
        let mut pos: usize = 0;
        while k < n
            invariant
                self.wf(),
                s == self.items@,
                ls == self.leaves@,
                n == ls.len(),
                k <= n,
                start <= end <= s.len(),
                total == s.len(),
                pos == leaf_start(ls, k as int),
                pos <= s.len(),
                concat_chunks(chunks@.map_values(|c: &[(Height, T)]| c@)) == s.subrange(
                    start as int,
                    if pos < start {
                        start as int
                    } else if pos > end {
                        end as int
                    } else {
                        pos as int
                    },
                ),
                forall|i: int| 0 <= i < chunks@.len() ==> #[trigger] chunks@[i]@.len() > 0,
            decreases n - k,
        {
            proof {
                lemma_start_mono(ls, k + 1, n as int);
            }
            let leaf_end = pos + self.leaves[k].len;
            let a = if pos < start {
                start
            } else {
                pos
            };
            let b = if leaf_end > end {
                end
            } else {
                leaf_end
            };
            if a < b {
                let chunk = slice_subrange(self.items.as_slice(), a, b);
                let ghost before = chunks@;
                chunks.push(chunk);
                proof {
                    let f = |c: &[(Height, T)]| c@;
                    assert(chunks@.map_values(f) =~= before.map_values(f).push(chunk@));
                    lemma_concat_chunks_push(before.map_values(f), chunk@);
                    assert(s.subrange(start as int, a as int) + s.subrange(a as int, b as int)
                        =~= s.subrange(start as int, b as int));
                }
            }
            pos = leaf_end;
            k = k + 1;
        }
        proof {
            assert(pos == s.len());
        }
        chunks
    }
}

/// The runs of a chunked sequence, put back together.
pub open spec fn concat_chunks<T>(c: Seq<Seq<T>>) -> Seq<T>
    decreases c.len(),
{
    if c.len() == 0 {
        Seq::empty()
    } else {
        concat_chunks(c.drop_last()) + c.last()
    }
}

proof fn lemma_concat_chunks_push<T>(c: Seq<Seq<T>>, x: Seq<T>)
    ensures
        concat_chunks(c.push(x)) == concat_chunks(c) + x,
{
    assert(c.push(x).drop_last() =~= c);
}

/// A scan of the leaf `[pos, end)` that finds the first element at height
/// `h` there finds it in the whole sequence, given that every element before
/// `pos` lies below `h` and that `h` is reached by `end`.
proof fn lemma_index_in_leaf<T>(s: Seq<(Height, T)>, pos: int, end: int, h: nat, c: int)
    requires
        0 <= pos <= end <= s.len(),
        prefix_height(s, pos) <= h <= prefix_height(s, end),
        forall|j: int|
            0 <= j < pos ==> #[trigger] prefix_height(s, j) < h && prefix_height(s, j + 1) <= h,
        first_at_height(s.subrange(pos, end), (h - prefix_height(s, pos)) as nat, c),
    ensures
        first_at_height(s, h, pos + c),
{
    let sub = s.subrange(pos, end);
    let b = (h - prefix_height(s, pos)) as nat;
    lemma_prefix_subrange(s, pos, end, c);
    if c < sub.len() {
        lemma_prefix_subrange(s, pos, end, c + 1);
    } else {
        lemma_prefix_subrange(s, pos, end, end - pos);
        if c > 0 {
            assert(prefix_height(sub, c - 1) < b && prefix_height(sub, c) <= b);
        } else {
            lemma_prefix_zero(sub);
        }
    }
    assert forall|j: int| 0 <= j < pos + c implies #[trigger] prefix_height(s, j) < h
        && prefix_height(s, j + 1) <= h by {
        if j >= pos {
            assert(prefix_height(sub, j - pos) < b && prefix_height(sub, j - pos + 1) <= b);
            lemma_prefix_subrange(s, pos, end, j - pos);
            lemma_prefix_subrange(s, pos, end, j - pos + 1);
        }
    }
}

/// Leaf starts depend only on the leaves before.
proof fn lemma_start_prefix(a: Seq<VectorInfo>, b: Seq<VectorInfo>, k: int)
    requires
        0 <= k <= a.len(),
        k <= b.len(),
        forall|j: int| 0 <= j < k ==> a[j] == b[j],
    ensures
        leaf_start(a, k) == leaf_start(b, k),
    decreases k,
{
    if k > 0 {
        lemma_start_prefix(a, b, k - 1);
    }
}

/// Every leaf holds between `MIN_LEAF` and `MAX_LEAF` elements, except a
/// leaf that is alone; the leaves hold every element. Each operation keeps
/// `wf`, so this holds after any sequence of them.
pub proof fn lemma_leaf_sizes<T>(v: &Vector<T>)
    requires
        v.wf(),
    ensures
        leaf_sizes_ok(v.leaf_lengths()),
        v.leaf_lengths().len() == 0 <==> v@.len() == 0,
{
    let ls = v.leaves@;
    if ls.len() > 0 {
        lemma_start_mono(ls, 1, ls.len() as int);
        assert(leaf_lens(ls)[0] == ls[0].len);
        if ls.len() > 1 {
            assert(leaf_lens(ls)[0] >= MIN_LEAF);
        }
        assert(leaf_start(ls, 0) == 0);
    }
}

/// Collects elements for a `Vector`.
pub struct VectorBuilder<T> {
    items: Vec<(Height, T)>,
}

impl<T> View for VectorBuilder<T> {
    type V = Seq<(Height, T)>;

    closed spec fn view(&self) -> Seq<(Height, T)> {
        self.items@
    }
}

impl<T> VectorBuilder<T> {
    /// A builder with nothing collected.
    pub fn new() -> (r: VectorBuilder<T>)
        ensures
            r@ == Seq::<(Height, T)>::empty(),
    {
        VectorBuilder { items: Vec::new() }
    }

    /// Adds an element at the end.
    pub fn push(&mut self, height: Height, item: T)
        ensures
            final(self)@ == old(self)@.push((height, item)),
    {
        self.items.push((height, item));
    }

    /// The sequence of the collected elements.
    pub fn build(self) -> (r: Vector<T>)
        requires
            sum_heights(self@) <= usize::MAX,
        ensures
            r.wf(),
            r@ == self@,
    {
        Vector::from_vec(self.items)
    }
}

} // verus!
