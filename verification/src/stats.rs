//! Statistics of the observations that tell how large a penalty is worth
//! trying.
use crate::float::{Extended, Float};
use crate::line::{all_finite, reals};
use vstd::prelude::*;

verus! {

/// The sum of the first `k` numbers.
pub open spec fn sum_upto(s: Seq<real>, k: int) -> real
    decreases k,
{
    if k <= 0 {
        0real
    } else {
        sum_upto(s, k - 1) + s[k - 1]
    }
}

/// The mean of the first `k` numbers; 0 where there are none.
pub open spec fn mean_upto(s: Seq<real>, k: int) -> real {
    if k <= 0 {
        0real
    } else {
        sum_upto(s, k) / (k as real)
    }
}

/// The mean of the numbers; 0 where there are none.
pub open spec fn mean_of(s: Seq<real>) -> real {
    mean_upto(s, s.len() as int)
}

/// The sum of the first `k` numbers, each less `mean`.
pub open spec fn drift(s: Seq<real>, mean: real, k: int) -> real
    decreases k,
{
    if k <= 0 {
        0real
    } else {
        drift(s, mean, k - 1) + (s[k - 1] - mean)
    }
}

/// The distance of a real number from 0.
pub open spec fn magnitude(v: real) -> real {
    if v < 0real {
        -v
    } else {
        v
    }
}

/// The largest distance from 0 that the drift reaches within the first
/// `m` numbers, `m` at least 1.
pub open spec fn peak(s: Seq<real>, mean: real, m: int) -> real
    decreases m,
{
    let here = magnitude(drift(s, mean, m));
    if m <= 1 {
        here
    } else {
        let before = peak(s, mean, m - 1);
        if before <= here {
            here
        } else {
            before
        }
    }
}

/// The largest quotient, within the first `m` places, of the distance of
/// the drift from 0 by the penalty at that place, `m` at least 1.
pub open spec fn peak_factor(s: Seq<real>, lam: Seq<real>, mean: real, m: int) -> real
    decreases m,
{
    let here = magnitude(drift(s, mean, m)) / lam[m - 1];
    if m <= 1 {
        here
    } else {
        let before = peak_factor(s, lam, mean, m - 1);
        if before <= here {
            here
        } else {
            before
        }
    }
}

/// The peak is the largest distance from 0 that the drift reaches within
/// the first `m` numbers: none is larger, and one of them is the peak.
pub proof fn lemma_peak(s: Seq<real>, mean: real, m: int)
    requires
        1 <= m,
    ensures
        forall|k: int| 1 <= k <= m ==> magnitude(#[trigger] drift(s, mean, k)) <= peak(s, mean, m),
        exists|k: int| 1 <= k <= m && peak(s, mean, m) == magnitude(#[trigger] drift(s, mean, k)),
    decreases m,
{
    if m > 1 {
        lemma_peak(s, mean, m - 1);
        let k = choose|k: int|
            1 <= k <= m - 1 && peak(s, mean, m - 1) == magnitude(#[trigger] drift(s, mean, k));
        if peak(s, mean, m - 1) <= magnitude(drift(s, mean, m)) {
            assert(peak(s, mean, m) == magnitude(drift(s, mean, m)));
        } else {
            assert(peak(s, mean, m) == magnitude(drift(s, mean, k)));
        }
    } else {
        assert(peak(s, mean, m) == magnitude(drift(s, mean, 1)));
    }
}

/// One step of the running mean: from the mean of `k` numbers to the mean
/// with `x` as one more.
proof fn lemma_mean_step(k: real, sum: real, mean: real, x: real, next: real)
    requires
        k >= 0real,
        k * mean == sum,
        next == mean + (x - mean) / (k + 1real),
    ensures
        next == (sum + x) / (k + 1real),
{
    assert((k + 1real) * next == sum + x) by (nonlinear_arith)
        requires
            k >= 0real,
            k * mean == sum,
            next == mean + (x - mean) / (k + 1real),
    ;
    assert(next == (sum + x) / (k + 1real)) by (nonlinear_arith)
        requires
            k >= 0real,
            (k + 1real) * next == sum + x,
    ;
}

/// The mean of a list times its length is its sum.
proof fn lemma_mean_times(s: Seq<real>, k: int)
    requires
        0 <= k,
    ensures
        (k as real) * mean_upto(s, k) == sum_upto(s, k),
{
    if k > 0 {
        let (d, t) = (k as real, sum_upto(s, k));
        assert(d * (t / d) == t) by (nonlinear_arith)
            requires
                d > 0real,
        ;
    } else {
        assert((k as real) * 0real == 0real) by (nonlinear_arith);
    }
}

/// The mean of the numbers, computed as a running mean.
pub fn welford_mean<F: Float>(y: &[F]) -> (mean: F)
    requires
        all_finite(y@),
    ensures
        mean@ == Extended::Finite(mean_of(reals(y@))),
{
    let ghost s = reals(y@);
    let one: F = F::from_i16(1);
    let mut mean: F = F::from_i16(0);
    let mut i: F = F::from_i16(0);
    let mut k: usize = 0;
    while k < y.len()
        invariant
            k <= y@.len(),
            s == reals(y@),
            all_finite(y@),
            one@ == Extended::Finite(1real),
            i@ == Extended::Finite(k as real),
            mean@ == Extended::Finite(mean_upto(s, k as int)),
        decreases y@.len() - k,
    {
        let x = &y[k];
        proof {
            assert(s[k as int] == x@.value());
            lemma_mean_times(s, k as int);
            lemma_mean_step(
                k as real,
                sum_upto(s, k as int),
                mean_upto(s, k as int),
                s[k as int],
                mean_upto(s, k as int) + (s[k as int] - mean_upto(s, k as int)) / (k as real
                    + 1real),
            );
            assert((k + 1) as real == k as real + 1real);
        }
        i = i.plus(&one);
        mean = mean.plus(&x.minus(&mean).over(&i));
        k += 1;
    }
    mean
}

/// The drift of the observations about their mean, one number after the
/// other, as far as `lam` reaches where there is one.
fn drifts<F: Float>(y: &[F], mean: &F, m: usize) -> (out: Vec<F>)
    requires
        all_finite(y@),
        mean@.is_finite(),
        m <= y@.len(),
    ensures
        out@.len() == m,
        forall|k: int|
            0 <= k < m ==> (#[trigger] out@[k])@ == Extended::Finite(
                magnitude(drift(reals(y@), mean@.value(), k + 1)),
            ),
{
    let ghost s = reals(y@);
    let mut out: Vec<F> = Vec::new();
    let mut acc: F = F::from_i16(0);
    let mut k: usize = 0;
    while k < m
        invariant
            k <= m <= y@.len(),
            s == reals(y@),
            all_finite(y@),
            mean@.is_finite(),
            acc@ == Extended::Finite(drift(s, mean@.value(), k as int)),
            out@.len() == k,
            forall|j: int|
                0 <= j < k ==> (#[trigger] out@[j])@ == Extended::Finite(
                    magnitude(drift(s, mean@.value(), j + 1)),
                ),
        decreases m - k,
    {
        proof {
            assert(s[k as int] == y@[k as int]@.value());
        }
        acc = acc.plus(&y[k].minus(mean));
        out.push(acc.abs());
        k += 1;
    }
    out
}

/// The largest penalty worth trying where all edges have the same: the
/// largest distance from 0 that the drift of the observations about their
/// mean reaches.
pub fn lambda_max<F: Float>(y: &[F]) -> (lam: F)
    requires
        y@.len() > 0,
        all_finite(y@),
    ensures
        lam@ == Extended::Finite(peak(reals(y@), mean_of(reals(y@)), y@.len() as int)),
{
    let ghost s = reals(y@);
    let y_mean = welford_mean(y);
    let steps = drifts(y, &y_mean, y.len());
    let mut best: F = steps[0].copy();
    let mut k: usize = 1;
    while k < steps.len()
        invariant
            1 <= k <= steps@.len(),
            steps@.len() == y@.len(),
            s == reals(y@),
            y_mean@ == Extended::Finite(mean_of(s)),
            forall|j: int|
                0 <= j < steps@.len() ==> (#[trigger] steps@[j])@ == Extended::Finite(
                    magnitude(drift(s, mean_of(s), j + 1)),
                ),
            best@ == Extended::Finite(peak(s, mean_of(s), k as int)),
        decreases steps@.len() - k,
    {
        if !steps[k].less(&best) {
            best = steps[k].copy();
        }
        k += 1;
    }
    best
}

/// The largest factor worth trying for the penalties `lam`: the largest
/// quotient of the distance from 0 that the drift of the observations
/// about their mean reaches by the penalty of the edge there.
pub fn lambda_max_factor<F: Float>(y: &[F], lam: &[F]) -> (factor: F)
    requires
        y@.len() > 0,
        lam@.len() > 0,
        all_finite(y@),
        all_finite(lam@),
        forall|k: int| 0 <= k < lam@.len() && k < y@.len() ==> (#[trigger] lam@[k])@.value() != 0real,
    ensures
        factor@ == Extended::Finite(
            peak_factor(
                reals(y@),
                reals(lam@),
                mean_of(reals(y@)),
                if y@.len() <= lam@.len() {
                    y@.len() as int
                } else {
                    lam@.len() as int
                },
            ),
        ),
{
    let ghost s = reals(y@);
    let ghost l = reals(lam@);
    let m: usize = if y.len() <= lam.len() {
        y.len()
    } else {
        lam.len()
    };
    let y_mean = welford_mean(y);
    let steps = drifts(y, &y_mean, m);
    proof {
        assert(l[0] == lam@[0]@.value());
    }
    let mut best: F = steps[0].over(&lam[0]);
    let mut k: usize = 1;
    while k < m
        invariant
            1 <= k <= m,
            m <= y@.len(),
            m <= lam@.len(),
            steps@.len() == m,
            s == reals(y@),
            l == reals(lam@),
            all_finite(lam@),
            forall|j: int| 0 <= j < m ==> (#[trigger] lam@[j])@.value() != 0real,
            y_mean@ == Extended::Finite(mean_of(s)),
            forall|j: int|
                0 <= j < steps@.len() ==> (#[trigger] steps@[j])@ == Extended::Finite(
                    magnitude(drift(s, mean_of(s), j + 1)),
                ),
            best@ == Extended::Finite(peak_factor(s, l, mean_of(s), k as int)),
        decreases m - k,
    {
        proof {
            assert(l[k as int] == lam@[k as int]@.value());
        }
        let here = steps[k].over(&lam[k]);
        if !here.less(&best) {
            best = here;
        }
        k += 1;
    }
    best
}

} // verus!
