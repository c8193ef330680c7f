use crate::coin::{flips, Coin};
use crate::error::WalkError;
use rand::rngs::SmallRng;
use vstd::prelude::*;

verus! {

/// Largest number of flips drawn in one batch.
pub const MAX_SAMPLES: u64 = 0x7fff_ffff_ffff_ffff;

/// The step a flip stands for: `+1` for `true`, `-1` for `false`.
pub open spec fn step(b: bool) -> int {
    if b {
        1
    } else {
        -1
    }
}

/// Where a walk ends after taking the steps of `s` in order.
pub open spec fn displacement(s: Seq<bool>) -> int
    decreases s.len(),
{
    if s.len() == 0 {
        0
    } else {
        displacement(s.drop_last()) + step(s.last())
    }
}

/// Number of `true` flips in `s`.
pub open spec fn successes(s: Seq<bool>) -> nat
    decreases s.len(),
{
    if s.len() == 0 {
        0
    } else {
        successes(s.drop_last()) + if s.last() {
            1nat
        } else {
            0nat
        }
    }
}

/// The positions of a walk: element `i` is where it stands after step `i`.
pub open spec fn trajectory(s: Seq<bool>) -> Seq<int> {
    Seq::new(s.len(), |i: int| displacement(s.take(i + 1)))
}

/// The end points of `m` walks of `n` steps each, walker `i` taking the
/// flips `[i * n, (i + 1) * n)` of `s`.
pub open spec fn endpoints(s: Seq<bool>, n: nat, m: nat) -> Seq<int> {
    Seq::new(m, |i: int| displacement(s.subrange(i * n, i * n + n)))
}

/// `e` holds exactly the end points that `s` gives to `m` walkers of `n` steps.
pub open spec fn folds_to(s: Seq<bool>, n: nat, m: nat, e: Seq<i64>) -> bool {
    &&& e.len() == m
    &&& forall|i: int| 0 <= i < m ==> e[i] as int == endpoints(s, n, m)[i]
}

/// A walk never strays further than its number of steps, and ends with the
/// parity of that number.
pub proof fn lemma_displacement_bounds(s: Seq<bool>)
    ensures
        -(s.len() as int) <= displacement(s) <= s.len(),
        (displacement(s) + s.len()) % 2 == 0,
    decreases s.len(),
{
    if s.len() > 0 {
        lemma_displacement_bounds(s.drop_last());
    }
}

/// With no `true` flip a walk goes straight down, with no `false` straight up.
pub proof fn lemma_displacement_constant(s: Seq<bool>)
    ensures
        (forall|i: int| 0 <= i < s.len() ==> !s[i]) ==> displacement(s) == -(s.len() as int),
        (forall|i: int| 0 <= i < s.len() ==> s[i]) ==> displacement(s) == s.len(),
    decreases s.len(),
{
    if s.len() > 0 {
        lemma_displacement_constant(s.drop_last());
    }
}

/// Successes never outnumber the flips.
pub proof fn lemma_successes_bounds(s: Seq<bool>)
    ensures
        successes(s) <= s.len(),
        (forall|i: int| 0 <= i < s.len() ==> !s[i]) ==> successes(s) == 0,
        (forall|i: int| 0 <= i < s.len() ==> s[i]) ==> successes(s) == s.len(),
    decreases s.len(),
{
    if s.len() > 0 {
        lemma_successes_bounds(s.drop_last());
    }
}

/// Counts the `true` flips.
pub fn count_successes(samples: &Vec<bool>) -> (r: u64)
    requires
        samples@.len() <= u64::MAX,
    ensures
        r == successes(samples@),
{
    let mut total: u64 = 0;
    let mut i: usize = 0;
    while i < samples.len()
        invariant
            i <= samples@.len() <= u64::MAX,
            total == successes(samples@.take(i as int)),
        decreases samples@.len() - i,
    {
        proof {
            assert(samples@.take(i + 1).drop_last() =~= samples@.take(i as int));
            lemma_successes_bounds(samples@.take(i as int));
        }
        if samples[i] {
            total = total + 1;
        }
        i = i + 1;
    }
    assert(samples@.take(i as int) =~= samples@);
    total
}

/// The running sums of the steps: the position after each step, the first
/// element being the first step itself.
pub fn running_sums(samples: &Vec<bool>) -> (r: Vec<i64>)
    requires
        samples@.len() <= i64::MAX,
    ensures
        r@.len() == samples@.len(),
        forall|i: int| 0 <= i < r@.len() ==> r@[i] as int == trajectory(samples@)[i],
{
    let mut out: Vec<i64> = Vec::new();
    let mut pos: i64 = 0;
    let mut i: usize = 0;
    while i < samples.len()
        invariant
            i <= samples@.len() <= i64::MAX,
            out@.len() == i,
            pos == displacement(samples@.take(i as int)),
            forall|k: int| 0 <= k < i ==> out@[k] as int == trajectory(samples@)[k],
        decreases samples@.len() - i,
    {
        proof {
            assert(samples@.take(i + 1).drop_last() =~= samples@.take(i as int));
            lemma_displacement_bounds(samples@.take(i as int));
        }
        if samples[i] {
            pos = pos + 1;
        } else {
            pos = pos - 1;
        }
        out.push(pos);
        i = i + 1;
    }
    out
}

/// Cuts the flips into `m` consecutive runs of `n` and sums the steps of
/// each run on its own.
pub fn fold_chunks(samples: &Vec<bool>, n: usize, m: usize) -> (r: Vec<i64>)
    requires
        samples@.len() == n * m,
        n * m <= MAX_SAMPLES,
    ensures
        folds_to(samples@, n as nat, m as nat, r@),
{
    let len = samples.len();
    let mut out: Vec<i64> = Vec::new();
    let mut w: usize = 0;
    let mut start: usize = 0;
    while w < m
        invariant
            w <= m,
            len == samples@.len() == n * m,
            n * m <= MAX_SAMPLES,
            start == w * n,
            out@.len() == w,
            forall|k: int| 0 <= k < w ==> out@[k] as int == endpoints(samples@, n as nat, m as nat)[k],
        decreases m - w,
    {
        proof {
            assert(start + n <= n * m) by (nonlinear_arith)
                requires
                    start == w * n,
                    w < m,
            ;
        }
        let mut pos: i64 = 0;
        let mut j: usize = 0;
        while j < n
            invariant
                j <= n,
                start + n <= len == samples@.len() == n * m <= MAX_SAMPLES,
                pos == displacement(samples@.subrange(start as int, start + j)),
            decreases n - j,
        {
            proof {
                assert(samples@.subrange(start as int, start + j + 1).drop_last()
                    =~= samples@.subrange(start as int, start + j));
                lemma_displacement_bounds(samples@.subrange(start as int, start + j));
            }
            if samples[start + j] {
                pos = pos + 1;
            } else {
                pos = pos - 1;
            }
            j = j + 1;
        }
        out.push(pos);
        start = start + n;
        w = w + 1;
        proof {
            assert(start == w * n) by (nonlinear_arith)
                requires
                    start == (w - 1) * n + n,
            ;
        }
    }
    out
}

/// `m` walks of `n` steps can be drawn in one batch: the number of flips
/// fits both `MAX_SAMPLES` and the platform's `usize`.
pub open spec fn batch_fits(n: nat, m: nat) -> bool {
    n * m <= MAX_SAMPLES && n * m <= usize::MAX
}

/// Consecutive positions of a walk differ by one step.
pub proof fn lemma_trajectory_steps(s: Seq<bool>, i: int)
    requires
        0 < i < s.len(),
    ensures
        trajectory(s)[i] == trajectory(s)[i - 1] + step(s[i]),
{
    assert(s.take(i + 1).drop_last() =~= s.take(i));
}

/// Where each walker's flips lie within the whole batch.
proof fn lemma_chunk_within(i: int, n: int, m: int)
    requires
        0 <= i < m,
        0 <= n,
    ensures
        0 <= i * n,
        i * n + n <= n * m,
{
    assert(0 <= i * n && i * n + n <= n * m) by (nonlinear_arith)
        requires
            0 <= i < m,
            0 <= n,
    ;
}

/// Counts the successes among `n` flips of the coin.
pub fn bernoulli_experiment(rng: &mut SmallRng, coin: &Coin, n: usize) -> (r: u64)
    ensures
        exists|s: Seq<bool>| s.len() == n && r == successes(s),
        r <= n,
        coin.never() ==> r == 0,
        coin.always() ==> r == n,
{
    let samples = flips(coin, rng, n);
    proof {
        lemma_successes_bounds(samples@);
    }
    count_successes(&samples)
}

/// One walk of `n` steps, each step `+1` on a `true` flip and `-1` on a
/// `false` one; element `i` is the position after step `i`.
pub fn random_walk(rng: &mut SmallRng, coin: &Coin, n: usize) -> (r: Vec<i64>)
    requires
        n <= i64::MAX,
    ensures
        r@.len() == n,
        exists|s: Seq<bool>|
            s.len() == n && forall|i: int| 0 <= i < n ==> r@[i] as int == #[trigger] trajectory(s)[i],
        n > 0 ==> (r@[0] == 1 || r@[0] == -1),
        forall|i: int| 0 < i < n ==> (#[trigger] r@[i] - r@[i - 1] == 1 || r@[i] - r@[i - 1] == -1),
        coin.never() ==> forall|i: int| 0 <= i < n ==> r@[i] == -(i + 1),
        coin.always() ==> forall|i: int| 0 <= i < n ==> r@[i] == i + 1,
{
    let samples = flips(coin, rng, n);
    let r = running_sums(&samples);
    proof {
        let s = samples@;
        assert forall|i: int| 0 < i < n implies (#[trigger] r@[i] - r@[i - 1] == 1 || r@[i] - r@[
            i - 1] == -1) by {
            lemma_trajectory_steps(s, i);
        }
        if n > 0 {
            assert(s.take(1).drop_last() =~= Seq::<bool>::empty());
            assert(displacement(Seq::<bool>::empty()) == 0);
            assert(displacement(s.take(1)) == step(s[0]));
        }
        assert forall|i: int| 0 <= i < n implies (coin.never() ==> r@[i] == -(i + 1)) && (
        coin.always() ==> r@[i] == i + 1) by {
            lemma_displacement_constant(s.take(i + 1));
        }
    }
    r
}

/// The number of flips that `m` walks of `n` steps need, or `OverflowRisk`
/// when the batch does not fit.
pub fn sample_count(n: usize, m: usize) -> (r: Result<usize, WalkError>)
    ensures
        r is Ok <==> batch_fits(n as nat, m as nat),
        r matches Ok(k) ==> k == n * m,
        r matches Err(e) ==> e == WalkError::OverflowRisk,
{
    match n.checked_mul(m) {
        Some(k) => {
            if k as u64 > MAX_SAMPLES {
                Err(WalkError::OverflowRisk)
            } else {
                Ok(k)
            }
        },
        None => {
            assert(n * m > usize::MAX);
            Err(WalkError::OverflowRisk)
        },
    }
}

/// The end points of `m` independent walks of `n` steps. All `n * m` flips
/// are drawn at once, and walker `i` sums the flips `[i * n, (i + 1) * n)`.
pub fn random_walk_end(rng: &mut SmallRng, coin: &Coin, n: usize, m: usize) -> (r: Result<
    Vec<i64>,
    WalkError,
>)
    ensures
        r is Ok <==> batch_fits(n as nat, m as nat),
        r matches Err(e) ==> e == WalkError::OverflowRisk,
        r matches Ok(e) ==> e@.len() == m,
        r matches Ok(e) ==> exists|s: Seq<bool>| s.len() == n * m && folds_to(s, n as nat, m as nat, e@),
        r matches Ok(e) ==> forall|i: int|
            0 <= i < m ==> -n <= #[trigger] e@[i] <= n && (e@[i] + n) % 2 == 0,
        r matches Ok(e) ==> (coin.never() ==> forall|i: int| 0 <= i < m ==> #[trigger] e@[i] == -n),
        r matches Ok(e) ==> (coin.always() ==> forall|i: int| 0 <= i < m ==> #[trigger] e@[i] == n),
{
    let total = match sample_count(n, m) {
        Ok(k) => k,
        Err(e) => {
            return Err(e);
        },
    };
    let samples = flips(coin, rng, total);
    let e = fold_chunks(&samples, n, m);
    proof {
        let s = samples@;
        assert forall|i: int| 0 <= i < m implies -n <= #[trigger] e@[i] <= n && (e@[i] + n) % 2
            == 0 && (coin.never() ==> e@[i] == -n) && (coin.always() ==> e@[i] == n) by {
            lemma_chunk_within(i, n as int, m as int);
            let c = s.subrange(i * n, i * n + n);
            lemma_displacement_bounds(c);
            lemma_displacement_constant(c);
        }
    }
    Ok(e)
}

/// The end points are fixed by the flips alone: two batches folded from the
/// same flips, with the same `n` and `m`, are identical.
pub proof fn law_same_flips_same_endpoints(
    s: Seq<bool>,
    n: nat,
    m: nat,
    e1: Seq<i64>,
    e2: Seq<i64>,
)
    requires
        folds_to(s, n, m, e1),
        folds_to(s, n, m, e2),
    ensures
        e1 == e2,
{
    assert(e1 =~= e2);
}

} // verus!
