//! The messages of the forward pass as functions: what the breakpoints in
//! the window add up to, and what a walk along them arrives at.
use crate::float::Extended;
use crate::pwl::{clip_backward, clip_forward, walk_backward, walk_forward, Breakpoint};
use vstd::prelude::*;

verus! {

/// The positive part of a real number.
pub open spec fn pos(v: real) -> real {
    if v > 0real {
        v
    } else {
        0real
    }
}

/// The sum of the slopes of the breakpoints `a..b`.
pub open spec fn slopes(ev: Seq<Breakpoint>, a: int, b: int) -> real
    decreases b - a,
{
    if a >= b {
        0real
    } else {
        slopes(ev, a, b - 1) + ev[b - 1].slope
    }
}

/// The sum of the offsets of the breakpoints `a..b`.
pub open spec fn offsets(ev: Seq<Breakpoint>, a: int, b: int) -> real
    decreases b - a,
{
    if a >= b {
        0real
    } else {
        offsets(ev, a, b - 1) + ev[b - 1].offset()
    }
}

/// What the breakpoints `a..b` have added at `t` to a function that was 0
/// before the first of them: each its slope times the way from it to `t`,
/// where `t` lies behind it.
pub open spec fn ramp(ev: Seq<Breakpoint>, a: int, b: int, t: real) -> real
    decreases b - a,
{
    if a >= b {
        0real
    } else {
        ramp(ev, a, b - 1, t) + ev[b - 1].slope * pos(t - ev[b - 1].x)
    }
}

/// The breakpoints `a..b` lie in ascending order.
pub open spec fn ascending(ev: Seq<Breakpoint>, a: int, b: int) -> bool {
    forall|i: int, j: int| a <= i <= j < b ==> (#[trigger] ev[i]).x <= (#[trigger] ev[j]).x
}

/// The two buffers hold the same breakpoints at `a..b`.
pub open spec fn same_window(ev: Seq<Breakpoint>, other: Seq<Breakpoint>, a: int, b: int) -> bool {
    forall|k: int| a <= k < b ==> #[trigger] ev[k] == #[trigger] other[k]
}

/// The sums over `a..b` are those over `a..m` and over `m..b` together.
pub proof fn lemma_split(ev: Seq<Breakpoint>, a: int, m: int, b: int, t: real)
    requires
        a <= m <= b,
    ensures
        slopes(ev, a, b) == slopes(ev, a, m) + slopes(ev, m, b),
        offsets(ev, a, b) == offsets(ev, a, m) + offsets(ev, m, b),
        ramp(ev, a, b, t) == ramp(ev, a, m, t) + ramp(ev, m, b, t),
    decreases b - m,
{
    if m < b {
        lemma_split(ev, a, m, b - 1, t);
    }
}

/// The sums over `a..b` depend on the breakpoints `a..b` alone.
pub proof fn lemma_same_window(
    ev: Seq<Breakpoint>,
    other: Seq<Breakpoint>,
    a: int,
    b: int,
    t: real,
)
    requires
        same_window(ev, other, a, b),
    ensures
        slopes(ev, a, b) == slopes(other, a, b),
        offsets(ev, a, b) == offsets(other, a, b),
        ramp(ev, a, b, t) == ramp(other, a, b, t),
    decreases b - a,
{
    if a < b {
        assert(ev[b - 1] == other[b - 1]);
        lemma_same_window(ev, other, a, b - 1, t);
    }
}

/// Behind all the breakpoints `a..b` they add up to a line.
pub proof fn lemma_ramp_behind(ev: Seq<Breakpoint>, a: int, b: int, t: real)
    requires
        forall|k: int| a <= k < b ==> (#[trigger] ev[k]).x <= t,
    ensures
        ramp(ev, a, b, t) == slopes(ev, a, b) * t + offsets(ev, a, b),
    decreases b - a,
{
    if a < b {
        lemma_ramp_behind(ev, a, b - 1, t);
        let (s, x) = (ev[b - 1].slope, ev[b - 1].x);
        let before = slopes(ev, a, b - 1);
        assert(ev[b - 1].x <= t);
        assert(s * (t - x) == s * t + (-x) * s) by (nonlinear_arith);
        assert((before + s) * t == before * t + s * t) by (nonlinear_arith);
    } else {
        assert(0real * t == 0real) by (nonlinear_arith);
    }
}

/// Before all the breakpoints `a..b` they add nothing.
pub proof fn lemma_ramp_before(ev: Seq<Breakpoint>, a: int, b: int, t: real)
    requires
        forall|k: int| a <= k < b ==> t <= (#[trigger] ev[k]).x,
    ensures
        ramp(ev, a, b, t) == 0real,
    decreases b - a,
{
    if a < b {
        lemma_ramp_before(ev, a, b - 1, t);
        let s = ev[b - 1].slope;
        assert(t <= ev[b - 1].x);
        assert(s * 0real == 0real) by (nonlinear_arith);
    }
}

/// The breakpoint `j` of the window from `a` lies where the line that has
/// taken in the breakpoints before it is negative.
pub open spec fn passed_forward(
    ev: Seq<Breakpoint>,
    a: int,
    j: int,
    slope: real,
    offset: real,
) -> bool {
    (slope + slopes(ev, a, j)) * ev[j].x + (offset + offsets(ev, a, j)) < 0real
}

/// The breakpoint `j` of the window up to `b` lies where the line that has
/// taken in the breakpoints behind it is negative.
pub open spec fn passed_backward(
    ev: Seq<Breakpoint>,
    j: int,
    b: int,
    slope: real,
    offset: real,
) -> bool {
    (slope + slopes(ev, j + 1, b)) * ev[j].x + (offset + offsets(ev, j + 1, b)) < 0real
}

/// A forward walk that has come from `a` to `k` goes on to a place `at`:
/// it arrives with the line that has taken in the breakpoints `a..at`, all
/// of which lie where the line was negative, and the line is not negative
/// at the next breakpoint, if one is left.
pub proof fn lemma_walk_forward(
    ev: Seq<Breakpoint>,
    a: int,
    k: int,
    b: int,
    slope: real,
    offset: real,
)
    requires
        a <= k <= b,
        forall|j: int| a <= j < k ==> passed_forward(ev, a, j, slope, offset),
    ensures
        ({
            let w = walk_forward(
                ev,
                k,
                b,
                slope + slopes(ev, a, k),
                offset + offsets(ev, a, k),
            );
            &&& k <= w.at <= b
            &&& w.slope == slope + slopes(ev, a, w.at)
            &&& w.offset == offset + offsets(ev, a, w.at)
            &&& forall|j: int| a <= j < w.at ==> passed_forward(ev, a, j, slope, offset)
            &&& w.at < b ==> !passed_forward(ev, a, w.at, slope, offset)
        }),
    decreases b - k,
{
    let (s, o) = (slope + slopes(ev, a, k), offset + offsets(ev, a, k));
    if k < b && s * ev[k].x + o < 0real {
        assert(passed_forward(ev, a, k, slope, offset));
        lemma_walk_forward(ev, a, k + 1, b, slope, offset);
    }
}

/// A backward walk that has come from `b` down to `e` goes on to a place
/// `at`: it arrives with the line that has taken in the breakpoints
/// `at..b`, all of which lie where the line was negative, and the line is
/// not negative at the breakpoint before, if one is left.
pub proof fn lemma_walk_backward(
    ev: Seq<Breakpoint>,
    a: int,
    e: int,
    b: int,
    slope: real,
    offset: real,
)
    requires
        a <= e <= b,
        forall|j: int| e <= j < b ==> passed_backward(ev, j, b, slope, offset),
    ensures
        ({
            let w = walk_backward(
                ev,
                a,
                e,
                slope + slopes(ev, e, b),
                offset + offsets(ev, e, b),
            );
            &&& a <= w.at <= e
            &&& w.slope == slope + slopes(ev, w.at, b)
            &&& w.offset == offset + offsets(ev, w.at, b)
            &&& forall|j: int| w.at <= j < b ==> passed_backward(ev, j, b, slope, offset)
            &&& a < w.at ==> !passed_backward(ev, w.at - 1, b, slope, offset)
        }),
    decreases e - a,
{
    let (s, o) = (slope + slopes(ev, e, b), offset + offsets(ev, e, b));
    if a < e && s * ev[e - 1].x + o < 0real {
        assert(passed_backward(ev, e - 1, b, slope, offset));
        lemma_split(ev, e - 1, e, b, 0real);
        assert(slopes(ev, e - 1, e) == ev[e - 1].slope) by {
            assert(slopes(ev, e - 1, e - 1) == 0real);
        }
        assert(offsets(ev, e - 1, e) == ev[e - 1].offset()) by {
            assert(offsets(ev, e - 1, e - 1) == 0real);
        }
        lemma_walk_backward(ev, a, e - 1, b, slope, offset);
    }
}

/// The breakpoints `a..b` make up a message with the level `level`: a
/// function that is `-level` before them, never falls, rises with a slope
/// above the tolerance `eps` where it rises, and is `level` behind them.
pub open spec fn is_message(ev: Seq<Breakpoint>, a: int, b: int, level: real, eps: real) -> bool {
    &&& 0 <= a <= b <= ev.len()
    &&& level >= 0real
    &&& ascending(ev, a, b)
    &&& forall|m: int| a <= m <= b ==> #[trigger] slopes(ev, a, m) >= 0real
    &&& steep(ev, a, b, eps)
    &&& slopes(ev, a, b) == 0real
    &&& offsets(ev, a, b) == 2real * level
}

/// Where the function of the breakpoints `a..b` rises at all, it rises
/// with a slope above the tolerance `eps`.
pub open spec fn steep(ev: Seq<Breakpoint>, a: int, b: int, eps: real) -> bool {
    forall|m: int| a <= m <= b ==> #[trigger] slopes(ev, a, m) == 0real || slopes(ev, a, m) > eps
}

/// Taking in a breakpoint leaves a line as it is at that breakpoint.
pub proof fn lemma_continuous(ev: Seq<Breakpoint>, a: int, k: int, slope: real, offset: real)
    requires
        a <= k,
    ensures
        (slope + slopes(ev, a, k + 1)) * ev[k].x + (offset + offsets(ev, a, k + 1)) == (slope
            + slopes(ev, a, k)) * ev[k].x + (offset + offsets(ev, a, k)),
{
    let e = ev[k];
    let s = slope + slopes(ev, a, k);
    assert((s + e.slope) * e.x + (-e.x) * e.slope == s * e.x) by (nonlinear_arith);
}

/// The message of the breakpoints `a..b` with the level `level`, at `t`.
pub open spec fn message(ev: Seq<Breakpoint>, a: int, b: int, level: real, t: real) -> real {
    -level + ramp(ev, a, b, t)
}

/// A line with a slope that is not 0 is 0 at `-offset / slope`.
pub proof fn lemma_root(slope: real, offset: real)
    requires
        slope != 0real,
    ensures
        slope * (-offset / slope) + offset == 0real,
{
    assert(slope * (-offset / slope) == -offset) by (nonlinear_arith)
        requires
            slope != 0real,
    ;
}

/// Where a rising line is negative lies before its root, and where it is
/// not negative lies at the root or behind it.
pub proof fn lemma_rising(slope: real, offset: real, root: real, t: real)
    requires
        slope > 0real,
        slope * root + offset == 0real,
    ensures
        slope * t + offset < 0real ==> t < root,
        slope * t + offset >= 0real ==> root <= t,
{
    assert(slope * t + offset < 0real ==> t < root) by (nonlinear_arith)
        requires
            slope > 0real,
            slope * root + offset == 0real,
    ;
    assert(slope * t + offset >= 0real ==> root <= t) by (nonlinear_arith)
        requires
            slope > 0real,
            slope * root + offset == 0real,
    ;
}

/// Where a falling line is negative lies behind its root, and where it is
/// not negative lies at the root or before it.
pub proof fn lemma_falling(slope: real, offset: real, root: real, t: real)
    requires
        slope < 0real,
        slope * root + offset == 0real,
    ensures
        slope * t + offset < 0real ==> root < t,
        slope * t + offset >= 0real ==> t <= root,
{
    assert(slope * t + offset < 0real ==> root < t) by (nonlinear_arith)
        requires
            slope < 0real,
            slope * root + offset == 0real,
    ;
    assert(slope * t + offset >= 0real ==> t <= root) by (nonlinear_arith)
        requires
            slope < 0real,
            slope * root + offset == 0real,
    ;
}

/// The sums over one breakpoint are that breakpoint's.
pub proof fn lemma_single(ev: Seq<Breakpoint>, k: int, t: real)
    ensures
        slopes(ev, k, k + 1) == ev[k].slope,
        offsets(ev, k, k + 1) == ev[k].offset(),
        ramp(ev, k, k + 1, t) == ev[k].slope * pos(t - ev[k].x),
{
    assert(slopes(ev, k, k) == 0real);
    assert(offsets(ev, k, k) == 0real);
    assert(ramp(ev, k, k, t) == 0real);
}

/// A clip from the low end of a message, for a node with a data weight
/// above the tolerance, or with none and a penalty below the level of the
/// message: the crossing `lb` is where the message with the node's own
/// term is `-lam`. The breakpoints passed lie before `lb`, those left lie
/// at `lb` or behind it, and the breakpoint put at `lb` has the slope of
/// the line that arrived there, which is above the tolerance.
pub proof fn lemma_clip_forward(
    ev: Seq<Breakpoint>,
    a: int,
    b: int,
    level: real,
    y: real,
    lam: real,
    mu: real,
    eps: real,
)
    requires
        is_message(ev, a, b, level, eps),
        a >= 1,
        eps >= 0real,
        lam >= 0real,
        mu > eps || (mu == 0real && lam < level),
    ensures
        ({
            let f = clip_forward(ev, a, b, mu, -mu * y - level + lam, eps);
            let lb = f.x.value();
            let m = f.start + 1;
            &&& f.x is Finite
            &&& a <= m <= b
            &&& f.end == b
            &&& f.events == ev.update(m - 1, Breakpoint { x: lb, slope: mu + slopes(ev, a, m) })
            &&& mu + slopes(ev, a, m) > eps
            &&& (mu + slopes(ev, a, m)) * lb + (-mu * y - level + lam + offsets(ev, a, m)) == 0real
            &&& forall|k: int| a <= k < m ==> (#[trigger] ev[k]).x < lb
            &&& forall|k: int| m <= k < b ==> lb <= (#[trigger] ev[k]).x
            &&& mu * (lb - y) + message(ev, a, b, level, lb) == -lam
        }),
{
    let off = -mu * y - level + lam;
    lemma_walk_forward(ev, a, a, b, mu, off);
    assert(slopes(ev, a, a) == 0real);
    assert(offsets(ev, a, a) == 0real);
    let w = walk_forward(ev, a, b, mu, off);
    assert(w == walk_forward(ev, a, b, mu + slopes(ev, a, a), off + offsets(ev, a, a)));
    let m = w.at;
    assert(slopes(ev, a, m) >= 0real);
    if mu == 0real {
        assert(-mu * y == 0real) by (nonlinear_arith)
            requires
                mu == 0real,
        ;
        assert(a < b);
        if m == a {
            assert(!passed_forward(ev, a, a, mu, off));
            assert(0real * ev[a].x == 0real) by (nonlinear_arith);
            assert(false);
        }
        lemma_continuous(ev, a, m - 1, mu, off);
        if m == b {
            assert(passed_forward(ev, a, b - 1, mu, off));
            assert(0real * ev[b - 1].x == 0real) by (nonlinear_arith);
            assert(false);
        }
        if slopes(ev, a, m) == 0real {
            assert(passed_forward(ev, a, m - 1, mu, off));
            assert(!passed_forward(ev, a, m, mu, off));
            assert(0real * ev[m].x == 0real) by (nonlinear_arith);
            assert(0real * ev[m - 1].x == 0real) by (nonlinear_arith);
            assert(false);
        }
    }
    assert(w.slope > eps);
    let lb = -w.offset / w.slope;
    lemma_root(w.slope, w.offset);
    if m > a {
        assert(passed_forward(ev, a, m - 1, mu, off));
        lemma_continuous(ev, a, m - 1, mu, off);
        assert(w.slope * ev[m - 1].x + w.offset < 0real);
        lemma_rising(w.slope, w.offset, lb, ev[m - 1].x);
    }
    if m < b {
        assert(!passed_forward(ev, a, m, mu, off));
        lemma_rising(w.slope, w.offset, lb, ev[m].x);
    }
    assert forall|k: int| a <= k < m implies (#[trigger] ev[k]).x < lb by {
        assert(ev[k].x <= ev[m - 1].x);
    }
    assert forall|k: int| m <= k < b implies lb <= (#[trigger] ev[k]).x by {
        assert(ev[m].x <= ev[k].x);
    }
    lemma_split(ev, a, m, b, lb);
    lemma_ramp_behind(ev, a, m, lb);
    lemma_ramp_before(ev, m, b, lb);
    let s = slopes(ev, a, m);
    assert(mu * (lb - y) == mu * lb + (-mu) * y) by (nonlinear_arith);
    assert((mu + s) * lb == mu * lb + s * lb) by (nonlinear_arith);
}

/// The breakpoints `a..b` make up a message that a clip from the low end
/// has just cut: the breakpoint at `a` is where it leaves its level, and
/// from there on its slope is `mu` at least, and `mu` in the end.
pub open spec fn is_cut_low(ev: Seq<Breakpoint>, a: int, b: int, mu: real, eps: real) -> bool {
    &&& 0 <= a < b < ev.len()
    &&& ascending(ev, a, b)
    &&& forall|m: int| a < m <= b ==> #[trigger] slopes(ev, a, m) >= mu
    &&& steep(ev, a, b, eps)
    &&& slopes(ev, a, b) == mu
}

/// Taking in a breakpoint from behind leaves a line as it is at that
/// breakpoint.
pub proof fn lemma_continuous_backward(
    ev: Seq<Breakpoint>,
    k: int,
    b: int,
    slope: real,
    offset: real,
)
    requires
        k < b,
    ensures
        (slope + slopes(ev, k, b)) * ev[k].x + (offset + offsets(ev, k, b)) == (slope + slopes(
            ev,
            k + 1,
            b,
        )) * ev[k].x + (offset + offsets(ev, k + 1, b)),
{
    let e = ev[k];
    lemma_split(ev, k, k + 1, b, 0real);
    lemma_single(ev, k, 0real);
    let s = slope + slopes(ev, k + 1, b);
    assert((s + e.slope) * e.x + (-e.x) * e.slope == s * e.x) by (nonlinear_arith);
}

/// A clip from the high end of a message that has been cut at its low
/// end, with a line that would be `2 lam` at the low end had it taken in
/// all the breakpoints: the crossing `ub` lies behind the breakpoint at
/// the low end, the breakpoints passed lie behind `ub`, those left lie at
/// `ub` or before it, and what is left with the breakpoint put at `ub` is a
/// message with the level `lam`.
pub proof fn lemma_clip_backward(
    ev: Seq<Breakpoint>,
    a: int,
    b: int,
    offset: real,
    lam: real,
    mu: real,
    eps: real,
)
    requires
        is_cut_low(ev, a, b, mu, eps),
        eps >= 0real,
        lam >= 0real,
        mu > eps || (mu == 0real && offset < 0real),
        offset + offsets(ev, a, b) == 2real * lam,
    ensures
        ({
            let c = clip_backward(ev, a, b, -mu, offset, eps);
            let ub = c.x.value();
            let m = c.end - 1;
            &&& c.x is Finite
            &&& a < m <= b
            &&& c.start == a
            &&& c.events == ev.update(m, Breakpoint { x: ub, slope: -mu + slopes(ev, m, b) })
            &&& (-mu + slopes(ev, m, b)) * ub + (offset + offsets(ev, m, b)) == 0real
            &&& -mu + slopes(ev, m, b) == -slopes(ev, a, m)
            &&& forall|k: int| a <= k < m ==> (#[trigger] ev[k]).x <= ub
            &&& forall|k: int| m <= k < b ==> ub < (#[trigger] ev[k]).x
            &&& is_message(c.events, a, m + 1, lam, eps)
        }),
{
    lemma_walk_backward(ev, a, b, b, -mu, offset);
    assert(slopes(ev, b, b) == 0real);
    assert(offsets(ev, b, b) == 0real);
    let w = walk_backward(ev, a, b, -mu, offset);
    assert(w == walk_backward(ev, a, b, -mu + slopes(ev, b, b), offset + offsets(ev, b, b)));
    let m = w.at;
    if m == a {
        let e = ev[a];
        assert(passed_backward(ev, a, b, -mu, offset));
        lemma_split(ev, a, a + 1, b, 0real);
        lemma_single(ev, a, 0real);
        let (s1, o1) = (slopes(ev, a + 1, b), offsets(ev, a + 1, b));
        assert(s1 == mu - e.slope);
        assert(o1 == 2real * lam - offset - e.offset());
        assert((-mu + s1) * e.x + (offset + o1) == 2real * lam) by (nonlinear_arith)
            requires
                s1 == mu - e.slope,
                o1 == 2real * lam - offset - (-e.x) * e.slope,
        ;
        assert(false);
    }
    lemma_split(ev, a, m, b, 0real);
    assert(slopes(ev, a, m) >= mu);
    assert(w.slope == -slopes(ev, a, m));
    assert(!passed_backward(ev, m - 1, b, -mu, offset));
    if m < b {
        assert(passed_backward(ev, m, b, -mu, offset));
        lemma_continuous_backward(ev, m, b, -mu, offset);
        assert(w.slope * ev[m].x + w.offset < 0real);
    }
    if mu == 0real {
        if m == b {
            assert(0real * ev[b - 1].x == 0real) by (nonlinear_arith);
            assert(false);
        }
        if slopes(ev, a, m) == 0real {
            assert(0real * ev[m].x == 0real) by (nonlinear_arith);
            assert(0real * ev[m - 1].x == 0real) by (nonlinear_arith);
            assert(false);
        }
    }
    assert(slopes(ev, a, m) > eps);
    let ub = -w.offset / w.slope;
    lemma_root(w.slope, w.offset);
    lemma_falling(w.slope, w.offset, ub, ev[m - 1].x);
    if m < b {
        lemma_falling(w.slope, w.offset, ub, ev[m].x);
    }
    assert forall|k: int| a <= k < m implies (#[trigger] ev[k]).x <= ub by {
        assert(ev[k].x <= ev[m - 1].x);
    }
    assert forall|k: int| m <= k < b implies ub < (#[trigger] ev[k]).x by {
        assert(ev[m].x <= ev[k].x);
    }
    let put = Breakpoint { x: ub, slope: w.slope };
    let after = ev.update(m, put);
    assert(same_window(after, ev, a, m));
    assert forall|k: int| a <= k <= m + 1 implies #[trigger] slopes(after, a, k) >= 0real && (
    slopes(after, a, k) == 0real || slopes(after, a, k) > eps) by {
        if k <= m {
            lemma_same_window(after, ev, a, k, 0real);
            if k > a {
                assert(slopes(ev, a, k) >= mu);
            }
            assert(slopes(ev, a, k) == 0real || slopes(ev, a, k) > eps);
        } else {
            lemma_same_window(after, ev, a, m, 0real);
        }
    }
    lemma_same_window(after, ev, a, m, 0real);
    assert((-ub) * w.slope == w.offset) by (nonlinear_arith)
        requires
            w.slope * ub + w.offset == 0real,
    ;
    assert(ascending(after, a, m + 1)) by {
        assert forall|i: int, j: int| a <= i <= j < m + 1 implies (#[trigger] after[i]).x <= (
        #[trigger] after[j]).x by {
            if j < m {
                assert(ev[i].x <= ev[j].x);
            } else if i < m {
                assert(ev[i].x <= ub);
            }
        }
    }
}

/// How much more a breakpoint at `x` adds at `t2` than at `t1` for each
/// unit of its slope.
pub open spec fn gain(x: real, t1: real, t2: real) -> real {
    pos(t2 - x) - pos(t1 - x)
}

/// Breakpoints in ascending order whose slopes never add up to less than
/// 0 add at least as much at `t2` as at `t1` before it: at least what the
/// last of them gains for the sum of all slopes.
proof fn lemma_ramp_gain(ev: Seq<Breakpoint>, a: int, b: int, t1: real, t2: real)
    requires
        a < b,
        ascending(ev, a, b),
        forall|m: int| a <= m <= b ==> #[trigger] slopes(ev, a, m) >= 0real,
        t1 <= t2,
    ensures
        ramp(ev, a, b, t2) - ramp(ev, a, b, t1) >= slopes(ev, a, b) * gain(ev[b - 1].x, t1, t2),
    decreases b - a,
{
    let e = ev[b - 1];
    let g = gain(e.x, t1, t2);
    assert(e.slope * pos(t2 - e.x) - e.slope * pos(t1 - e.x) == e.slope * g) by (nonlinear_arith)
        requires
            g == pos(t2 - e.x) - pos(t1 - e.x),
    ;
    if a < b - 1 {
        lemma_ramp_gain(ev, a, b - 1, t1, t2);
        let before = slopes(ev, a, b - 1);
        let g0 = gain(ev[b - 2].x, t1, t2);
        assert(before >= 0real);
        assert(ev[b - 2].x <= ev[b - 1].x);
        assert(g0 >= g);
        assert(before * g0 >= before * g) by (nonlinear_arith)
            requires
                before >= 0real,
                g0 >= g,
        ;
        assert((before + e.slope) * g == before * g + e.slope * g) by (nonlinear_arith);
    } else {
        assert(slopes(ev, a, a) == 0real);
        assert(ramp(ev, a, a, t1) == 0real);
        assert(ramp(ev, a, a, t2) == 0real);
    }
}

/// Breakpoints in ascending order whose slopes never add up to less than
/// 0 make up a function that never falls.
pub proof fn lemma_ramp_rises(ev: Seq<Breakpoint>, a: int, b: int, t1: real, t2: real)
    requires
        ascending(ev, a, b),
        forall|m: int| a <= m <= b ==> #[trigger] slopes(ev, a, m) >= 0real,
        t1 <= t2,
    ensures
        ramp(ev, a, b, t1) <= ramp(ev, a, b, t2),
{
    if a < b {
        lemma_ramp_gain(ev, a, b, t1, t2);
        let (total, g) = (slopes(ev, a, b), gain(ev[b - 1].x, t1, t2));
        assert(total >= 0real);
        assert(total * g >= 0real) by (nonlinear_arith)
            requires
                total >= 0real,
                g >= 0real,
        ;
    }
}

/// What a node leaves of a message: the crossings `lb` and `ub` that it
/// finds and the window that goes on to the next node.
pub struct Stepped {
    /// Where the message with the node's own term crosses `-lam`.
    pub lb: real,
    /// Where it crosses `lam`.
    pub ub: real,
    /// The buffer of breakpoints.
    pub events: Seq<Breakpoint>,
    /// The start of the window.
    pub start: int,
    /// The end of the window.
    pub end: int,
}

/// A node with observation `y`, data weight `mu` and penalty `lam` clips
/// the message of the window `a..b` from both ends.
pub open spec fn stepped(
    ev: Seq<Breakpoint>,
    a: int,
    b: int,
    level: real,
    y: real,
    lam: real,
    mu: real,
    eps: real,
) -> Stepped {
    let f = clip_forward(ev, a, b, mu, -mu * y - level + lam, eps);
    let c = clip_backward(f.events, f.start, f.end, -mu, mu * y - level + lam, eps);
    Stepped { lb: f.x.value(), ub: c.x.value(), events: c.events, start: c.start, end: c.end }
}

/// A node with a data weight above the tolerance, or with none and a
/// penalty below the level of the message, turns the message into the
/// message for the next node: with the node's own term added, and held
/// between `-lam` and `lam`. At `t` that is `-lam` up to the crossing `lb`,
/// `lam` from the crossing `ub` on, and the message with the node's own
/// term between the two.
pub proof fn lemma_stepped(
    ev: Seq<Breakpoint>,
    a: int,
    b: int,
    level: real,
    y: real,
    lam: real,
    mu: real,
    eps: real,
    t: real,
)
    requires
        is_message(ev, a, b, level, eps),
        a >= 1,
        b < ev.len(),
        eps >= 0real,
        lam >= 0real,
        mu > eps || (mu == 0real && lam < level),
    ensures
        ({
            let f = clip_forward(ev, a, b, mu, -mu * y - level + lam, eps);
            let c = clip_backward(f.events, f.start, f.end, -mu, mu * y - level + lam, eps);
            let s = stepped(ev, a, b, level, y, lam, mu, eps);
            &&& f.x == Extended::Finite(s.lb)
            &&& c.x == Extended::Finite(s.ub)
            &&& s.lb <= s.ub
            &&& s.events.len() == ev.len()
            &&& a - 1 <= s.start
            &&& s.end <= b + 1
            &&& is_message(s.events, s.start, s.end, lam, eps)
            &&& mu * (s.lb - y) + message(ev, a, b, level, s.lb) == -lam
            &&& mu * (s.ub - y) + message(ev, a, b, level, s.ub) == lam
            &&& -lam <= message(s.events, s.start, s.end, lam, t) <= lam
            &&& t <= s.lb ==> message(s.events, s.start, s.end, lam, t) == -lam
            &&& t >= s.ub ==> message(s.events, s.start, s.end, lam, t) == lam
            &&& s.lb <= t <= s.ub ==> message(s.events, s.start, s.end, lam, t) == mu * (t - y)
                + message(ev, a, b, level, t)
        }),
{
    let s = stepped(ev, a, b, level, y, lam, mu, eps);
    lemma_stepped_between(ev, a, b, level, y, lam, mu, eps, t);
    lemma_stepped_between(ev, a, b, level, y, lam, mu, eps, s.lb);
    lemma_stepped_between(ev, a, b, level, y, lam, mu, eps, s.ub);
    if s.lb <= t <= s.ub {
        lemma_ramp_rises(s.events, s.start, s.end, s.lb, t);
        lemma_ramp_rises(s.events, s.start, s.end, t, s.ub);
    }
}

/// What `lemma_stepped` says of the message at `t`, but for its bounds.
proof fn lemma_stepped_between(
    ev: Seq<Breakpoint>,
    a: int,
    b: int,
    level: real,
    y: real,
    lam: real,
    mu: real,
    eps: real,
    t: real,
)
    requires
        is_message(ev, a, b, level, eps),
        a >= 1,
        b < ev.len(),
        eps >= 0real,
        lam >= 0real,
        mu > eps || (mu == 0real && lam < level),
    ensures
        ({
            let f = clip_forward(ev, a, b, mu, -mu * y - level + lam, eps);
            let c = clip_backward(f.events, f.start, f.end, -mu, mu * y - level + lam, eps);
            let s = stepped(ev, a, b, level, y, lam, mu, eps);
            &&& f.x == Extended::Finite(s.lb)
            &&& c.x == Extended::Finite(s.ub)
            &&& s.lb <= s.ub
            &&& s.events.len() == ev.len()
            &&& a - 1 <= s.start
            &&& s.end <= b + 1
            &&& is_message(s.events, s.start, s.end, lam, eps)
            &&& mu * (s.lb - y) + message(ev, a, b, level, s.lb) == -lam
            &&& t <= s.lb ==> message(s.events, s.start, s.end, lam, t) == -lam
            &&& t >= s.ub ==> message(s.events, s.start, s.end, lam, t) == lam
            &&& s.lb <= t <= s.ub ==> message(s.events, s.start, s.end, lam, t) == mu * (t - y)
                + message(ev, a, b, level, t)
        }),
{
    let off_f = -mu * y - level + lam;
    let off_b = mu * y - level + lam;
    lemma_clip_forward(ev, a, b, level, y, lam, mu, eps);
    let f = clip_forward(ev, a, b, mu, off_f, eps);
    let lb = f.x.value();
    let m = f.start + 1;
    let sf = mu + slopes(ev, a, m);
    let front = Breakpoint { x: lb, slope: sf };
    let fe = f.events;
    assert(fe[m - 1] == front);
    assert(same_window(fe, ev, m, b));
    // the window after the clip from the low end
    assert(ascending(fe, m - 1, b)) by {
        assert forall|i: int, j: int| m - 1 <= i <= j < b implies (#[trigger] fe[i]).x <= (
        #[trigger] fe[j]).x by {
            if i >= m {
                assert(ev[i].x <= ev[j].x);
            } else if j >= m {
                assert(lb <= ev[j].x);
            }
        }
    }
    assert forall|k: int| m - 1 < k <= b implies #[trigger] slopes(fe, m - 1, k) == mu + slopes(
        ev,
        a,
        k,
    ) by {
        lemma_split(fe, m - 1, m, k, 0real);
        lemma_single(fe, m - 1, 0real);
        lemma_same_window(fe, ev, m, k, 0real);
        lemma_split(ev, a, m, k, 0real);
    }
    assert forall|k: int| m - 1 < k <= b implies #[trigger] slopes(fe, m - 1, k) >= mu by {
        assert(slopes(fe, m - 1, k) == mu + slopes(ev, a, k));
        assert(slopes(ev, a, k) >= 0real);
    }
    assert forall|k: int| m - 1 <= k <= b implies #[trigger] slopes(fe, m - 1, k) == 0real
        || slopes(fe, m - 1, k) > eps by {
        if k > m - 1 {
            assert(slopes(fe, m - 1, k) == mu + slopes(ev, a, k));
            assert(slopes(ev, a, k) >= 0real);
            assert(slopes(ev, a, k) == 0real || slopes(ev, a, k) > eps);
        }
    }
    assert(slopes(fe, m - 1, b) == mu + slopes(ev, a, b));
    assert(is_cut_low(fe, m - 1, b, mu, eps));
    if mu == 0real {
        assert(mu * y == 0real) by (nonlinear_arith)
            requires
                mu == 0real,
        ;
    }
    lemma_split(fe, m - 1, m, b, 0real);
    lemma_single(fe, m - 1, 0real);
    lemma_same_window(fe, ev, m, b, 0real);
    lemma_split(ev, a, m, b, 0real);
    assert((-lb) * sf == off_f + offsets(ev, a, m)) by (nonlinear_arith)
        requires
            sf * lb + (off_f + offsets(ev, a, m)) == 0real,
    ;
    assert(-mu * y + mu * y == 0real) by (nonlinear_arith);
    assert(off_b + offsets(fe, m - 1, b) == 2real * lam);
    lemma_clip_backward(fe, m - 1, b, off_b, lam, mu, eps);
    let c = clip_backward(fe, m - 1, b, -mu, off_b, eps);
    let ub = c.x.value();
    let n = c.end - 1;
    let sb = -mu + slopes(fe, n, b);
    let ce = c.events;
    assert(fe[m - 1].x <= ub);
    assert(same_window(ce, fe, m - 1, n));
    // the message that goes on
    if t <= lb {
        assert forall|k: int| m - 1 <= k < n + 1 implies t <= (#[trigger] ce[k]).x by {
            if k < n {
                assert(fe[k].x >= lb);
            }
        }
        lemma_ramp_before(ce, m - 1, n + 1, t);
    }
    if t >= ub {
        assert forall|k: int| m - 1 <= k < n + 1 implies (#[trigger] ce[k]).x <= t by {
            if k < n {
                assert(fe[k].x <= ub);
            }
        }
        lemma_ramp_behind(ce, m - 1, n + 1, t);
        assert(0real * t == 0real) by (nonlinear_arith);
    }
    if lb <= t <= ub {
        // what goes on: the breakpoint at lb, those left between, the one at ub
        lemma_split(ce, m - 1, n, n + 1, t);
        lemma_single(ce, n, t);
        assert(sb * 0real == 0real) by (nonlinear_arith);
        lemma_same_window(ce, fe, m - 1, n, t);
        lemma_split(fe, m - 1, m, n, t);
        lemma_single(fe, m - 1, t);
        lemma_same_window(fe, ev, m, n, t);
        // what came in: the breakpoints passed, those left between, those passed behind
        lemma_split(ev, a, m, b, t);
        lemma_split(ev, m, n, b, t);
        assert forall|k: int| a <= k < m implies (#[trigger] ev[k]).x <= t by {
            assert(ev[k].x < lb);
        }
        lemma_ramp_behind(ev, a, m, t);
        assert forall|k: int| n <= k < b implies t <= (#[trigger] ev[k]).x by {
            assert(fe[k] == ev[k]);
            assert(ub < fe[k].x);
        }
        lemma_ramp_before(ev, n, b, t);
        let sa = slopes(ev, a, m);
        assert(sf * (t - lb) == (mu + sa) * t - sf * lb) by (nonlinear_arith)
            requires
                sf == mu + sa,
        ;
        assert((mu + sa) * t == mu * t + sa * t) by (nonlinear_arith);
        assert(mu * (t - y) == mu * t + (-mu) * y) by (nonlinear_arith);
    }
}

/// A message lies between its level below 0 and its level.
pub proof fn lemma_message_bounds(
    ev: Seq<Breakpoint>,
    a: int,
    b: int,
    level: real,
    eps: real,
    t: real,
)
    requires
        is_message(ev, a, b, level, eps),
    ensures
        -level <= message(ev, a, b, level, t) <= level,
{
    if a < b {
        let (low, high) = (ev[a].x, ev[b - 1].x);
        assert forall|k: int| a <= k < b implies low <= (#[trigger] ev[k]).x by {
            assert(ev[a].x <= ev[k].x);
        }
        assert forall|k: int| a <= k < b implies (#[trigger] ev[k]).x <= high by {
            assert(ev[k].x <= ev[b - 1].x);
        }
        lemma_ramp_before(ev, a, b, low);
        lemma_ramp_behind(ev, a, b, high);
        assert(0real * high == 0real) by (nonlinear_arith);
        if t <= low {
            assert forall|k: int| a <= k < b implies t <= (#[trigger] ev[k]).x by {
                assert(low <= ev[k].x);
            }
            lemma_ramp_before(ev, a, b, t);
        } else {
            lemma_ramp_rises(ev, a, b, low, t);
        }
        if t >= high {
            assert forall|k: int| a <= k < b implies (#[trigger] ev[k]).x <= t by {
                assert(ev[k].x <= high);
            }
            lemma_ramp_behind(ev, a, b, t);
            assert(0real * t == 0real) by (nonlinear_arith);
        } else {
            lemma_ramp_rises(ev, a, b, t, high);
        }
    } else {
        assert(ramp(ev, a, b, t) == 0real);
        assert(offsets(ev, a, b) == 0real);
    }
}

/// A node without a data weight and with a penalty at the level of the
/// message or above it lets the message pass as it is: both clips find a
/// flat line, and leave the window and the breakpoints alone.
pub proof fn lemma_passed_by(
    ev: Seq<Breakpoint>,
    a: int,
    b: int,
    level: real,
    y: real,
    lam: real,
    eps: real,
)
    requires
        is_message(ev, a, b, level, eps),
        eps >= 0real,
        lam >= level,
    ensures
        ({
            let f = clip_forward(ev, a, b, 0real, -0real * y - level + lam, eps);
            let c = clip_backward(f.events, f.start, f.end, -0real, 0real * y - level + lam, eps);
            &&& f.x == Extended::NegInf
            &&& c.x == Extended::PosInf
            &&& c.events == ev
            &&& c.start == a
            &&& c.end == b
        }),
{
    assert(-0real * y == 0real) by (nonlinear_arith);
    assert(0real * y == 0real) by (nonlinear_arith);
    if a < b {
        assert(0real * ev[a].x == 0real) by (nonlinear_arith);
        assert(-0real * ev[b - 1].x == 0real) by (nonlinear_arith);
    }
}

} // verus!
