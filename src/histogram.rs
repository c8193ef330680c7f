use crate::error::WalkError;
use vstd::prelude::*;

verus! {

/// How many elements of `s` equal `v`.
pub open spec fn occurrences(s: Seq<i64>, v: int) -> nat
    decreases s.len(),
{
    if s.len() == 0 {
        0
    } else {
        occurrences(s.drop_last(), v) + if s.last() == v {
            1nat
        } else {
            0nat
        }
    }
}

/// `v` is the smallest element of `s`.
pub open spec fn is_least(s: Seq<i64>, v: int) -> bool {
    &&& exists|i: int| 0 <= i < s.len() && s[i] == v
    &&& forall|i: int| 0 <= i < s.len() ==> v <= s[i]
}

/// `v` is the largest element of `s`.
pub open spec fn is_greatest(s: Seq<i64>, v: int) -> bool {
    &&& exists|i: int| 0 <= i < s.len() && s[i] == v
    &&& forall|i: int| 0 <= i < s.len() ==> s[i] <= v
}

/// Every element of `s` lies in `[lo, hi]`.
pub open spec fn within(s: Seq<i64>, lo: int, hi: int) -> bool {
    forall|i: int| 0 <= i < s.len() ==> lo <= #[trigger] s[i] <= hi
}

/// Two elements of `s` lie so far apart that a dense table over the range
/// between them has more slots than `usize` can count.
pub open spec fn too_spread(s: Seq<i64>) -> bool {
    exists|i: int, j: int| 0 <= i < s.len() && 0 <= j < s.len() && s[j] - s[i] >= usize::MAX
}

/// The direct-addressing histogram of `s`: slot `k` counts the elements equal
/// to `lo + k`.
pub open spec fn histogram(s: Seq<i64>, lo: int, width: nat) -> Seq<nat> {
    Seq::new(width, |k: int| occurrences(s, lo + k))
}

/// The sum of the counts in `c`.
pub open spec fn sum(c: Seq<nat>) -> nat
    decreases c.len(),
{
    if c.len() == 0 {
        0
    } else {
        sum(c.drop_last()) + c.last()
    }
}

/// The frequency distribution of a non-empty set of walk end points, over the
/// contiguous range from its smallest to its largest element.
pub struct Distribution {
    min: i64,
    max: i64,
    counts: Vec<usize>,
}

impl Distribution {
    #[verifier::type_invariant]
    spec fn wf(self) -> bool {
        &&& self.min <= self.max
        &&& self.counts@.len() == self.max - self.min + 1
    }

    /// The smallest value counted.
    pub closed spec fn lowest(self) -> int {
        self.min as int
    }

    /// The largest value counted.
    pub closed spec fn highest(self) -> int {
        self.max as int
    }

    /// The counts, slot `k` standing for the value `lowest() + k`.
    pub closed spec fn frequencies(self) -> Seq<nat> {
        self.counts@.map_values(|c: usize| c as nat)
    }

    /// `self` is the distribution of the end points `ends`.
    pub open spec fn describes(self, ends: Seq<i64>) -> bool {
        &&& ends.len() > 0
        &&& is_least(ends, self.lowest())
        &&& is_greatest(ends, self.highest())
        &&& self.frequencies() == histogram(
            ends,
            self.lowest(),
            (self.highest() - self.lowest() + 1) as nat,
        )
    }

    /// The smallest value counted.
    pub fn min(&self) -> (r: i64)
        ensures
            r == self.lowest(),
    {
        self.min
    }

    /// The largest value counted.
    pub fn max(&self) -> (r: i64)
        ensures
            r == self.highest(),
    {
        self.max
    }

    /// The counts, slot `k` standing for the value `min() + k`.
    pub fn counts(&self) -> (r: &Vec<usize>)
        ensures
            r@.len() == self.frequencies().len(),
            forall|k: int| 0 <= k < r@.len() ==> r@[k] as nat == self.frequencies()[k],
    {
        &self.counts
    }
}

/// No value occurs more often than `s` has elements.
proof fn lemma_occurrences_bound(s: Seq<i64>, v: int)
    ensures
        occurrences(s, v) <= s.len(),
    decreases s.len(),
{
    if s.len() > 0 {
        lemma_occurrences_bound(s.drop_last(), v);
    }
}

/// The smallest and largest of the end points, in one pass; `EmptyInput`
/// when there are none.
pub fn endpoint_range(ends: &Vec<i64>) -> (r: Result<(i64, i64), WalkError>)
    ensures
        r is Err <==> ends@.len() == 0,
        r matches Err(e) ==> e == WalkError::EmptyInput,
        r matches Ok((lo, hi)) ==> is_least(ends@, lo as int) && is_greatest(ends@, hi as int),
{
    if ends.len() == 0 {
        return Err(WalkError::EmptyInput);
    }
    let mut lo: i64 = ends[0];
    let mut hi: i64 = ends[0];
    let ghost mut lo_at: int = 0;
    let ghost mut hi_at: int = 0;
    let mut i: usize = 1;
    while i < ends.len()
        invariant
            1 <= i <= ends@.len(),
            0 <= lo_at < i && ends@[lo_at] == lo,
            0 <= hi_at < i && ends@[hi_at] == hi,
            forall|k: int| 0 <= k < i ==> lo <= #[trigger] ends@[k] <= hi,
        decreases ends@.len() - i,
    {
        let x = ends[i];
        if x < lo {
            lo = x;
            proof {
                lo_at = i as int;
            }
        }
        if x > hi {
            hi = x;
            proof {
                hi_at = i as int;
            }
        }
        i = i + 1;
    }
    Ok((lo, hi))
}

/// The dense table of how often each value of `[min, max]` occurs in `ends`:
/// slot `k` counts the end points equal to `min + k`.
pub fn bin_endpoints(ends: &Vec<i64>, min: i64, max: i64) -> (r: Vec<usize>)
    requires
        min <= max,
        max - min < usize::MAX,
        within(ends@, min as int, max as int),
    ensures
        r@.len() == max - min + 1,
        forall|k: int| 0 <= k < r@.len() ==> r@[k] as nat == occurrences(ends@, min + k),
{
    let width: usize = ((max as i128) - (min as i128) + 1) as usize;
    let mut counts: Vec<usize> = Vec::new();
    let mut k: usize = 0;
    while k < width
        invariant
            k <= width,
            counts@.len() == k,
            forall|j: int| 0 <= j < k ==> counts@[j] == 0,
        decreases width - k,
    {
        counts.push(0);
        k = k + 1;
    }
    let mut i: usize = 0;
    while i < ends.len()
        invariant
            i <= ends@.len(),
            width == max - min + 1,
            within(ends@, min as int, max as int),
            counts@.len() == width,
            forall|j: int|
                0 <= j < width ==> #[trigger] counts@[j] as nat == occurrences(
                    ends@.take(i as int),
                    min + j,
                ),
        decreases ends@.len() - i,
    {
        let x = ends[i];
        let slot: usize = ((x as i128) - (min as i128)) as usize;
        proof {
            lemma_occurrences_bound(ends@.take(i as int), min + slot);
            assert(ends@.take(i + 1).drop_last() =~= ends@.take(i as int));
        }
        let c = counts[slot];
        counts.set(slot, c + 1);
        proof {
            assert forall|j: int| 0 <= j < width implies #[trigger] counts@[j] as nat
                == occurrences(ends@.take(i + 1), min + j) by {
                assert(ends@.take(i + 1).last() == x);
            }
        }
        i = i + 1;
    }
    assert(ends@.take(i as int) =~= ends@);
    counts
}

/// The frequency distribution of the end points, over the range from the
/// smallest to the largest of them. `EmptyInput` when there are none;
/// `OverflowRisk` when that range has more values than `usize` can count.
pub fn distribution(ends: &Vec<i64>) -> (r: Result<Distribution, WalkError>)
    ensures
        r matches Err(WalkError::EmptyInput) <==> ends@.len() == 0,
        r matches Err(WalkError::OverflowRisk) <==> ends@.len() > 0 && too_spread(ends@),
        r is Ok <==> ends@.len() > 0 && !too_spread(ends@),
        r matches Ok(d) ==> d.describes(ends@),
{
    let (min, max) = match endpoint_range(ends) {
        Ok(range) => range,
        Err(e) => {
            return Err(e);
        },
    };
    let ghost s = ends@;
    let ghost i_min = choose|i: int| 0 <= i < s.len() && s[i] == min;
    let ghost i_max = choose|i: int| 0 <= i < s.len() && s[i] == max;
    if (max as i128) - (min as i128) >= (usize::MAX as i128) {
        assert(s[i_max] - s[i_min] >= usize::MAX);
        return Err(WalkError::OverflowRisk);
    }
    proof {
        assert forall|i: int, j: int| 0 <= i < s.len() && 0 <= j < s.len() implies s[j] - s[i]
            < usize::MAX by {
            assert(min <= s[i] && s[j] <= max);
        }
    }
    let counts = bin_endpoints(ends, min, max);
    let d = Distribution { min, max, counts };
    assert(d.frequencies() =~= histogram(s, min as int, (max - min + 1) as nat));
    Ok(d)
}

/// Adding one to a slot adds one to the sum.
proof fn lemma_sum_increment(c: Seq<nat>, j: int)
    requires
        0 <= j < c.len(),
    ensures
        sum(c.update(j, c[j] + 1)) == sum(c) + 1,
    decreases c.len(),
{
    let u = c.update(j, c[j] + 1);
    if j == c.len() - 1 {
        assert(u.drop_last() =~= c.drop_last());
    } else {
        assert(u.drop_last() =~= c.drop_last().update(j, c[j] + 1));
        lemma_sum_increment(c.drop_last(), j);
    }
}

/// The histogram of a set of values within its range counts each of them
/// once: its slots sum to the number of values.
proof fn lemma_histogram_sum(s: Seq<i64>, lo: int, width: nat)
    requires
        within(s, lo, lo + width - 1),
    ensures
        sum(histogram(s, lo, width)) == s.len(),
    decreases s.len(),
{
    let h = histogram(s, lo, width);
    if s.len() == 0 {
        lemma_sum_zeros(width);
        assert(h =~= Seq::new(width, |k: int| 0nat));
    } else {
        let t = s.drop_last();
        let x = s.last();
        assert(lo <= s[s.len() - 1] <= lo + width - 1);
        lemma_histogram_sum(t, lo, width);
        let g = histogram(t, lo, width);
        assert(h =~= g.update(x - lo, g[x - lo] + 1));
        lemma_sum_increment(g, x - lo);
    }
}

/// A table of zeros sums to zero.
proof fn lemma_sum_zeros(width: nat)
    ensures
        sum(Seq::new(width, |k: int| 0nat)) == 0,
    decreases width,
{
    if width > 0 {
        assert(Seq::new(width, |k: int| 0nat).drop_last() =~= Seq::new(
            (width - 1) as nat,
            |k: int| 0nat,
        ));
        lemma_sum_zeros((width - 1) as nat);
    }
}

/// Where every value of `s` is `v`, `v` occurs `s.len()` times.
proof fn lemma_occurrences_constant(s: Seq<i64>, v: int)
    requires
        forall|i: int| 0 <= i < s.len() ==> s[i] == v,
    ensures
        occurrences(s, v) == s.len(),
    decreases s.len(),
{
    if s.len() > 0 {
        lemma_occurrences_constant(s.drop_last(), v);
    }
}

/// The counts of a distribution sum to the number of end points it was
/// built from: each walker is counted exactly once.
pub proof fn law_counts_sum_to_walkers(ends: Seq<i64>, d: Distribution)
    requires
        d.describes(ends),
    ensures
        sum(d.frequencies()) == ends.len(),
{
    let lo = d.lowest();
    let hi = d.highest();
    let w = choose|i: int| 0 <= i < ends.len() && ends[i] == lo;
    assert(lo <= hi) by {
        assert(ends[w] <= hi);
    }
    lemma_histogram_sum(ends, lo, (hi - lo + 1) as nat);
}

/// Where every walker ends at the same value `v`, the distribution is a
/// single spike: it spans `v` alone, with all the walkers in its one slot.
pub proof fn law_single_spike(ends: Seq<i64>, d: Distribution, v: int)
    requires
        d.describes(ends),
        forall|i: int| 0 <= i < ends.len() ==> ends[i] == v,
    ensures
        d.lowest() == v,
        d.highest() == v,
        d.frequencies() == seq![ends.len()],
{
    let a = choose|i: int| 0 <= i < ends.len() && ends[i] == d.lowest();
    let b = choose|i: int| 0 <= i < ends.len() && ends[i] == d.highest();
    assert(ends[a] == v && ends[b] == v);
    lemma_occurrences_constant(ends, v);
    assert(d.frequencies() =~= seq![ends.len()]);
}

} // verus!
