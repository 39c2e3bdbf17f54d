//! The fused lasso on a line: a forward pass that clips the messages from
//! node to node, and the solution read backward from the bounds it leaves.
use crate::float::{Extended, Float};
use crate::generics::{False, True};
use crate::graphidx::weights::{ConstantWeights, Weights};
use crate::instance::Instance;
use crate::optimal::{
    anchored, is_minimizer, lemma_bounds_ordered, lemma_solution_is_minimizer, well_posed,
};
use crate::pwl::{
    breakpoints, clip, clip_backward, clip_forward, lemma_clipped_window, window_wf, Breakpoint,
    Clipped, Event,
};
use std::ops::Range;
use vstd::prelude::*;

verus! {

/// The real numbers that a sequence of values stands for.
pub open spec fn reals<F: Float>(s: Seq<F>) -> Seq<real> {
    Seq::new(s.len(), |i: int| s[i]@.value())
}

/// The numbers, real or infinite, that a sequence of values stands for.
pub open spec fn numbers<F: Float>(s: Seq<F>) -> Seq<Extended> {
    Seq::new(s.len(), |i: int| s[i]@)
}

/// Every value of the sequence stands for a real number.
pub open spec fn all_finite<F: Float>(s: Seq<F>) -> bool {
    forall|i: int| 0 <= i < s.len() ==> (#[trigger] s[i])@.is_finite()
}

/// The first `n` weights are there and are real numbers.
pub open spec fn weights_finite<F: Float, W: Weights<F>>(w: &W, n: int) -> bool {
    &&& n <= w.spec_len()
    &&& forall|i: int| 0 <= i < n ==> (#[trigger] w.spec_index(i))@.is_finite()
}

/// The first `n` weights as real numbers.
pub open spec fn weights_upto<F: Float, W: Weights<F>>(w: &W, n: int) -> Seq<real> {
    Seq::new(n as nat, |i: int| w.spec_index(i)@.value())
}

/// The data weights of an instance as real numbers: its own, or ones
/// where it has none.
pub open spec fn data_weights<F: Float>(inst: &Instance<F>) -> Seq<real> {
    match &inst.mu {
        Some(mu) => weights_upto(mu, inst.y@.len() as int),
        None => Seq::new(inst.y@.len(), |i: int| 1real),
    }
}

/// The state of the forward pass between two nodes.
pub struct Pass {
    /// The buffer of breakpoints.
    pub events: Seq<Breakpoint>,
    /// The start of the window of breakpoints not yet passed.
    pub start: int,
    /// The end of that window.
    pub end: int,
    /// The smallest penalty since the last node with a data weight.
    pub lam0: real,
    /// The lower bound of every node passed.
    pub lb: Seq<Extended>,
    /// The upper bound of every node passed.
    pub ub: Seq<Extended>,
}

/// Before the first node: `2 n` breakpoints that change nothing, the
/// window empty in the middle.
pub open spec fn pass_start(n: int) -> Pass {
    Pass {
        events: Seq::new((2 * n) as nat, |i: int| Breakpoint { x: 0real, slope: 0real }),
        start: n,
        end: n,
        lam0: 0real,
        lb: Seq::empty(),
        ub: Seq::empty(),
    }
}

/// The penalty that passes through a node: the node's own where it has a
/// data weight above the tolerance, else the smaller of the two.
pub open spec fn bridge(lam0: real, lam: real, mu: real, eps: real) -> real {
    if mu > eps {
        lam
    } else if lam0 < lam {
        lam0
    } else {
        lam
    }
}

/// Pass a node with observation `y`, data weight `mu` and penalty `lam`
/// to the next node: its lower bound is where the message with the node's
/// own term crosses `-lam`, its upper bound where it crosses `lam`.
pub open spec fn pass_step(p: Pass, y: real, lam: real, mu: real, eps: real) -> Pass {
    let f = clip_forward(p.events, p.start, p.end, mu, -mu * y - p.lam0 + lam, eps);
    let b = clip_backward(f.events, f.start, f.end, -mu, mu * y - p.lam0 + lam, eps);
    Pass {
        events: b.events,
        start: b.start,
        end: b.end,
        lam0: bridge(p.lam0, lam, mu, eps),
        lb: p.lb.push(f.x),
        ub: p.ub.push(b.x),
    }
}

/// The state after the first `i` nodes of a line of `n`.
pub open spec fn pass_upto(
    y: Seq<real>,
    lam: Seq<real>,
    mu: Seq<real>,
    eps: real,
    n: int,
    i: int,
) -> Pass
    decreases i,
{
    if i <= 0 {
        pass_start(n)
    } else {
        pass_step(pass_upto(y, lam, mu, eps, n, i - 1), y[i - 1], lam[i - 1], mu[i - 1], eps)
    }
}

/// What the last node leaves: where the message with the node's own term
/// crosses zero, and the window and the breakpoints after that clip.
pub open spec fn pass_end(y: Seq<real>, lam: Seq<real>, mu: Seq<real>, eps: real) -> Clipped {
    let n = y.len() as int;
    let p = pass_upto(y, lam, mu, eps, n, n - 1);
    clip_forward(p.events, p.start, p.end, mu[n - 1], -mu[n - 1] * y[n - 1] - p.lam0, eps)
}

/// The value of the last node: where the message with the node's own term
/// crosses zero.
pub open spec fn pass_anchor(y: Seq<real>, lam: Seq<real>, mu: Seq<real>, eps: real) -> Extended {
    pass_end(y, lam, mu, eps).x
}

/// The value of node `i`, read backward from the anchor: the value of the
/// next node, moved into the bounds of node `i`.
pub open spec fn backward(lb: Seq<Extended>, ub: Seq<Extended>, anchor: Extended, i: int) -> Extended
    decreases lb.len() - i,
{
    if i >= lb.len() {
        anchor
    } else {
        backward(lb, ub, anchor, i + 1).clip(lb[i], ub[i])
    }
}

/// The solution of the line: the value of every node.
pub open spec fn solution(y: Seq<real>, lam: Seq<real>, mu: Seq<real>, eps: real) -> Seq<Extended> {
    let n = y.len() as int;
    let p = pass_upto(y, lam, mu, eps, n, n - 1);
    Seq::new(y.len(), |i: int| backward(p.lb, p.ub, pass_anchor(y, lam, mu, eps), i))
}

/// A run of nodes that take one value: the nodes `start..end`.
pub struct Segment {
    /// The first node of the run.
    pub start: int,
    /// The node behind the last of the run.
    pub end: int,
    /// The value that the nodes take.
    pub value: Extended,
}

/// The segments as the scan meets them, from the last node down, with the
/// nodes below `j` still to look at: `x` is the value of the nodes `j..hi`.
/// Where `x` lies outside the bounds of the node below, the run ends and
/// `x` moves into those bounds.
pub open spec fn scan(lb: Seq<Extended>, ub: Seq<Extended>, j: int, x: Extended, hi: int) -> Seq<
    Segment,
>
    decreases j,
{
    if j <= 0 {
        seq![Segment { start: 0, end: hi, value: x }]
    } else if x.lt(lb[j - 1]) || ub[j - 1].lt(x) {
        seq![Segment { start: j, end: hi, value: x }] + scan(
            lb,
            ub,
            j - 1,
            x.clip(lb[j - 1], ub[j - 1]),
            j,
        )
    } else {
        scan(lb, ub, j - 1, x, hi)
    }
}

/// The segments of the solution with bounds `lb`, `ub` and the value
/// `anchor` of the last node, from the last segment to the first.
pub open spec fn segments_backward(lb: Seq<Extended>, ub: Seq<Extended>, anchor: Extended) -> Seq<
    Segment,
> {
    scan(lb, ub, lb.len() as int, anchor, lb.len() as int + 1)
}

/// The segments, in ascending order, cut the nodes `0..n` into runs that
/// follow one another, none of them empty.
pub open spec fn is_partition(segs: Seq<Segment>, n: int) -> bool {
    &&& 1 <= segs.len() <= n
    &&& segs[0].start == 0
    &&& segs[segs.len() - 1].end == n
    &&& forall|k: int| 0 <= k < segs.len() ==> (#[trigger] segs[k]).start < segs[k].end
    &&& forall|k: int| 0 <= k < segs.len() - 1 ==> (#[trigger] segs[k]).end == segs[k + 1].start
}

/// Every node of every segment has the segment's value in the solution
/// read backward from `anchor`.
pub open spec fn segments_hold(
    segs: Seq<Segment>,
    lb: Seq<Extended>,
    ub: Seq<Extended>,
    anchor: Extended,
) -> bool {
    forall|k: int, i: int|
        0 <= k < segs.len() && segs[k].start <= i < segs[k].end ==> #[trigger] backward(
            lb,
            ub,
            anchor,
            i,
        ) == (#[trigger] segs[k]).value
}

/// Two segments that follow one another have different values.
pub open spec fn runs_differ(segs: Seq<Segment>) -> bool {
    forall|k: int| 0 <= k < segs.len() - 1 ==> (#[trigger] segs[k]).value != segs[k + 1].value
}

/// No lower bound lies above the upper bound of its node.
pub open spec fn ordered(lb: Seq<Extended>, ub: Seq<Extended>) -> bool {
    forall|i: int| 0 <= i < lb.len() ==> !(#[trigger] ub[i]).lt(lb[i])
}

/// What the scan leaves, from the last segment to the first, when it
/// holds `x`, the value of the nodes `j..hi`, with the nodes below `j`
/// still to look at: runs that follow one another from `hi` down to 0,
/// none of them empty and no more than `j + 1`, each with the value that
/// its nodes have in the solution, and, where no lower bound lies above
/// its upper bound, with another value than the run before.
proof fn lemma_scan(
    lb: Seq<Extended>,
    ub: Seq<Extended>,
    anchor: Extended,
    j: int,
    x: Extended,
    hi: int,
)
    requires
        lb.len() == ub.len(),
        0 <= j < hi <= lb.len() + 1,
        forall|i: int| j <= i < hi ==> backward(lb, ub, anchor, i) == x,
    ensures
        ({
            let s = scan(lb, ub, j, x, hi);
            &&& 1 <= s.len() <= j + 1
            &&& s[0].end == hi
            &&& s[0].start <= j
            &&& s[s.len() - 1].start == 0
            &&& forall|k: int| 0 <= k < s.len() ==> (#[trigger] s[k]).start < s[k].end
            &&& forall|k: int| 0 <= k < s.len() - 1 ==> (#[trigger] s[k]).start == s[k + 1].end
            &&& segments_hold(s, lb, ub, anchor)
            &&& s[0].value == x
            &&& ordered(lb, ub) ==> forall|k: int|
                0 <= k < s.len() - 1 ==> (#[trigger] s[k]).value != s[k + 1].value
        }),
    decreases j,
{
    let s = scan(lb, ub, j, x, hi);
    if j <= 0 {
    } else {
        let below = backward(lb, ub, anchor, j - 1);
        assert(backward(lb, ub, anchor, j) == x);
        assert(below == x.clip(lb[j - 1], ub[j - 1]));
        if x.lt(lb[j - 1]) || ub[j - 1].lt(x) {
            let first = Segment { start: j, end: hi, value: x };
            let rest = scan(lb, ub, j - 1, below, j);
            lemma_scan(lb, ub, anchor, j - 1, below, j);
            assert(s == seq![first] + rest);
            assert(s[0] == first);
            assert forall|k: int| 1 <= k < s.len() implies s[k] == rest[k - 1] by {}
            assert forall|k: int| 0 <= k < s.len() implies (#[trigger] s[k]).start < s[k].end by {
                if k > 0 {
                    assert(rest[k - 1].start < rest[k - 1].end);
                }
            }
            assert forall|k: int| 0 <= k < s.len() - 1 implies (#[trigger] s[k]).start == s[k
                + 1].end by {
                if k > 0 {
                    assert(rest[k - 1].start == rest[k - 1 + 1].end);
                }
            }
            assert forall|k: int, i: int|
                0 <= k < s.len() && s[k].start <= i < s[k].end implies #[trigger] backward(
                lb,
                ub,
                anchor,
                i,
            ) == (#[trigger] s[k]).value by {
                if k > 0 {
                    assert(rest[k - 1].start <= i < rest[k - 1].end);
                    assert(backward(lb, ub, anchor, i) == rest[k - 1].value);
                }
            }
            if ordered(lb, ub) {
                assert(!ub[j - 1].lt(lb[j - 1]));
                assert(below != x);
                assert forall|k: int| 0 <= k < s.len() - 1 implies (#[trigger] s[k]).value != s[k
                    + 1].value by {
                    if k > 0 {
                        assert(rest[k - 1].value != rest[k - 1 + 1].value);
                    }
                }
            }
        } else {
            assert(below == x);
            assert forall|i: int| j - 1 <= i < hi implies backward(lb, ub, anchor, i) == x by {}
            lemma_scan(lb, ub, anchor, j - 1, x, hi);
        }
    }
}

/// The segments in ascending order cut the nodes `0..n` into runs that
/// follow one another, none of them empty and no more than `n`, and every
/// node of a segment has the segment's value in the solution read
/// backward from `anchor`.
pub proof fn lemma_segments_partition(lb: Seq<Extended>, ub: Seq<Extended>, anchor: Extended)
    requires
        lb.len() == ub.len(),
    ensures
        is_partition(segments_backward(lb, ub, anchor).reverse(), lb.len() as int + 1),
        segments_hold(segments_backward(lb, ub, anchor).reverse(), lb, ub, anchor),
{
    let n = lb.len() as int + 1;
    let s = segments_backward(lb, ub, anchor);
    let r = s.reverse();
    lemma_scan(lb, ub, anchor, n - 1, anchor, n);
    assert forall|k: int| 0 <= k < r.len() implies r[k] == s[s.len() - 1 - k] by {}
    assert forall|k: int| 0 <= k < r.len() implies (#[trigger] r[k]).start < r[k].end by {
        assert(s[s.len() - 1 - k].start < s[s.len() - 1 - k].end);
    }
    assert forall|k: int| 0 <= k < r.len() - 1 implies (#[trigger] r[k]).end == r[k + 1].start by {
        let m = s.len() - 1 - (k + 1);
        assert(s[m].start == s[m + 1].end);
    }
    assert forall|k: int, i: int|
        0 <= k < r.len() && r[k].start <= i < r[k].end implies #[trigger] backward(
        lb,
        ub,
        anchor,
        i,
    ) == (#[trigger] r[k]).value by {
        let m = s.len() - 1 - k;
        assert(s[m].start <= i < s[m].end);
        assert(backward(lb, ub, anchor, i) == s[m].value);
    }
}

/// Two solutions of the same line are the same: whatever two solvers
/// store for inputs that stand for the same numbers, they store values
/// that stand for the same numbers.
pub proof fn lemma_solve_repeats<F: Float>(
    y: Seq<real>,
    lam: Seq<real>,
    mu: Seq<real>,
    first: Seq<F>,
    second: Seq<F>,
)
    requires
        numbers(first) == solution(y, lam, mu, F::tolerance().value()),
        numbers(second) == solution(y, lam, mu, F::tolerance().value()),
    ensures
        first.len() == second.len(),
        forall|i: int| 0 <= i < first.len() ==> (#[trigger] first[i])@ == second[i]@,
{
    assert(numbers(first).len() == first.len());
    assert(numbers(second).len() == second.len());
    assert forall|i: int| 0 <= i < first.len() implies (#[trigger] first[i])@ == second[i]@ by {
        assert(numbers(first)[i] == first[i]@);
        assert(numbers(second)[i] == second[i]@);
    }
}

/// The segments are the longest runs of one value: where no lower bound
/// lies above the upper bound of its node, two segments that follow one
/// another have different values.
pub proof fn lemma_segments_maximal(lb: Seq<Extended>, ub: Seq<Extended>, anchor: Extended)
    requires
        lb.len() == ub.len(),
        ordered(lb, ub),
    ensures
        runs_differ(segments_backward(lb, ub, anchor).reverse()),
{
    let n = lb.len() as int + 1;
    let s = segments_backward(lb, ub, anchor);
    let r = s.reverse();
    lemma_scan(lb, ub, anchor, n - 1, anchor, n);
    assert forall|k: int| 0 <= k < r.len() - 1 implies (#[trigger] r[k]).value != r[k
        + 1].value by {
        let m = s.len() - 1 - (k + 1);
        assert(s[m].value != s[m + 1].value);
        assert(r[k] == s[m + 1]);
        assert(r[k + 1] == s[m]);
    }
}

/// The segment that a pair of a range and a value stands for.
pub open spec fn segment_of<F: Float>(s: (Range<usize>, F)) -> Segment {
    Segment { start: s.0.start as int, end: s.0.end as int, value: s.1@ }
}

/// The segments that a sequence of pairs stands for.
pub open spec fn segments_of<F: Float>(s: Seq<(Range<usize>, F)>) -> Seq<Segment> {
    Seq::new(s.len(), |i: int| segment_of(s[i]))
}

/// The window of the forward pass stays within `i` slots of the middle, on
/// both sides, and the bounds are one per node passed.
pub proof fn lemma_pass_window(
    y: Seq<real>,
    lam: Seq<real>,
    mu: Seq<real>,
    eps: real,
    n: int,
    i: int,
)
    requires
        0 <= i < n,
    ensures
        ({
            let p = pass_upto(y, lam, mu, eps, n, i);
            &&& p.events.len() == 2 * n
            &&& n - i <= p.start <= p.end <= n + i
            &&& p.lb.len() == i
            &&& p.ub.len() == i
        }),
    decreases i,
{
    if i > 0 {
        lemma_pass_window(y, lam, mu, eps, n, i - 1);
        let p = pass_upto(y, lam, mu, eps, n, i - 1);
        let (yi, li, mi) = (y[i - 1], lam[i - 1], mu[i - 1]);
        lemma_clipped_window(true, p.events, p.start, p.end, mi, -mi * yi - p.lam0 + li, eps);
        let f = clip_forward(p.events, p.start, p.end, mi, -mi * yi - p.lam0 + li, eps);
        lemma_clipped_window(false, f.events, f.start, f.end, -mi, mi * yi - p.lam0 + li, eps);
    }
}

/// Fused lasso solver for a line of `n` nodes.
pub struct LineDP<F: Float> {
    lb: Vec<F>,
    ub: Vec<F>,
    event: Vec<Event<F>>,
    pq: Range<usize>,
    startx: Option<F>,
}

impl<F: Float> LineDP<F> {
    /// The number of nodes that the solver was made for.
    pub closed spec fn size(&self) -> int {
        self.lb@.len() as int + 1
    }

    /// The lower bound of every node but the last.
    pub closed spec fn lower(&self) -> Seq<Extended> {
        numbers(self.lb@)
    }

    /// The upper bound of every node but the last.
    pub closed spec fn upper(&self) -> Seq<Extended> {
        numbers(self.ub@)
    }

    /// The value of the last node, once the forward pass has run.
    pub closed spec fn anchor(&self) -> Option<Extended> {
        match self.startx {
            Some(s) => Some(s@),
            None => None,
        }
    }

    /// The buffer of breakpoints.
    pub closed spec fn queue(&self) -> Seq<Breakpoint> {
        breakpoints(self.event@)
    }

    /// The window of breakpoints not yet passed, as its start and its end.
    pub closed spec fn window(&self) -> (int, int) {
        (self.pq.start as int, self.pq.end as int)
    }

    /// The buffers have the lengths that the number of nodes asks for, and
    /// the window holds real numbers.
    pub closed spec fn wf(&self) -> bool {
        &&& self.ub@.len() == self.lb@.len()
        &&& self.event@.len() == 2 * self.size()
        &&& window_wf(self.event@, self.pq.start as int, self.pq.end as int)
    }

    /// No forward pass has run yet.
    pub open spec fn is_fresh(&self) -> bool {
        &&& self.queue() == pass_start(self.size()).events
        &&& self.window() == (self.size(), self.size())
        &&& self.anchor() is None
    }

    /// A solver for lines of `n` nodes.
    pub fn new(n: usize) -> (solver: Self)
        requires
            n >= 1,
        ensures
            solver.wf(),
            solver.is_fresh(),
            solver.size() == n,
            solver.lower().len() == n - 1,
            solver.upper().len() == n - 1,
    {
        let mut event: Vec<Event<F>> = Vec::new();
        let mut lb: Vec<F> = Vec::new();
        let mut ub: Vec<F> = Vec::new();
        let mut i: usize = 0;
        while i < n
            invariant
                i <= n,
                event@.len() == 2 * i,
                lb@.len() == (if i == 0 {
                    0
                } else {
                    i - 1
                }),
                ub@.len() == lb@.len(),
                forall|j: int|
                    0 <= j < event@.len() ==> (#[trigger] event@[j])@ == (Breakpoint {
                        x: 0real,
                        slope: 0real,
                    }),
            decreases n - i,
        {
            event.push(Event::zero());
            event.push(Event::zero());
            if i > 0 {
                lb.push(F::from_i16(0));
                ub.push(F::from_i16(0));
            }
            i += 1;
        }
        let solver = LineDP { lb, ub, event, pq: n..n, startx: None };
        proof {
            assert(solver.queue() =~= pass_start(n as int).events);
        }
        solver
    }

    /// The lower and the upper bounds that the forward pass has left.
    pub fn get_bounds(&self) -> (bounds: (&[F], &[F]))
        ensures
            numbers(bounds.0@) == self.lower(),
            numbers(bounds.1@) == self.upper(),
    {
        (self.lb.as_slice(), self.ub.as_slice())
    }

    /// Dynamic programming forward pass: leave the bounds of every node
    /// but the last, and return the value of the last.
    pub fn dp_optimize<L: Weights<F>, M: Weights<F>>(&mut self, y: &[F], lam: &L, mu: &M) -> (s: F)
        requires
            old(self).wf(),
            old(self).is_fresh(),
            y@.len() == old(self).size(),
            all_finite(y@),
            weights_finite(lam, y@.len() - 1),
            weights_finite(mu, y@.len() as int),
        ensures
            final(self).wf(),
            final(self).size() == old(self).size(),
            ({
                let n = y@.len() as int;
                let (ys, lams, mus) = (reals(y@), weights_upto(lam, n - 1), weights_upto(mu, n));
                let p = pass_upto(ys, lams, mus, F::tolerance().value(), n, n - 1);
                let end = pass_end(ys, lams, mus, F::tolerance().value());
                &&& final(self).lower() == p.lb
                &&& final(self).upper() == p.ub
                &&& s@ == end.x
                &&& final(self).anchor() == Some(s@)
                &&& final(self).queue() == end.events
                &&& final(self).window() == (end.start, end.end)
                &&& well_posed(ys, lams, mus, F::tolerance().value()) ==> ordered(
                    final(self).lower(),
                    final(self).upper(),
                )
            }),
    {
        let n: usize = y.len();
        let ghost ys = reals(y@);
        let ghost lams = weights_upto(lam, n - 1);
        let ghost mus = weights_upto(mu, n as int);
        let ghost tol = F::tolerance().value();
        let eps = F::eps();
        let mut lam0: F = F::from_i16(0);
        let mut i: usize = 0;
        while i < n - 1
            invariant
                n == y@.len(),
                n == self.size(),
                n >= 1,
                i <= n - 1,
                ys == reals(y@),
                lams == weights_upto(lam, n - 1),
                mus == weights_upto(mu, n as int),
                tol == F::tolerance().value(),
                eps@ == F::tolerance(),
                F::tolerance().is_finite(),
                all_finite(y@),
                weights_finite(lam, n - 1),
                weights_finite(mu, n as int),
                self.ub@.len() == self.lb@.len(),
                self.event@.len() == 2 * n,
                window_wf(self.event@, self.pq.start as int, self.pq.end as int),
                lam0@ == Extended::Finite(pass_upto(ys, lams, mus, tol, n as int, i as int).lam0),
                breakpoints(self.event@) == pass_upto(ys, lams, mus, tol, n as int, i as int).events,
                self.pq.start == pass_upto(ys, lams, mus, tol, n as int, i as int).start,
                self.pq.end == pass_upto(ys, lams, mus, tol, n as int, i as int).end,
                pass_upto(ys, lams, mus, tol, n as int, i as int).lb.len() == i,
                pass_upto(ys, lams, mus, tol, n as int, i as int).ub.len() == i,
                forall|j: int|
                    0 <= j < i ==> (#[trigger] self.lb@[j])@ == pass_upto(
                        ys,
                        lams,
                        mus,
                        tol,
                        n as int,
                        i as int,
                    ).lb[j],
                forall|j: int|
                    0 <= j < i ==> (#[trigger] self.ub@[j])@ == pass_upto(
                        ys,
                        lams,
                        mus,
                        tol,
                        n as int,
                        i as int,
                    ).ub[j],
            decreases n - 1 - i,
        {
            let ghost p = pass_upto(ys, lams, mus, tol, n as int, i as int);
            proof {
                lemma_pass_window(ys, lams, mus, tol, n as int, i as int);
                lemma_pass_window(ys, lams, mus, tol, n as int, i as int + 1);
                assert(ys[i as int] == y@[i as int]@.value());
                assert(lams[i as int] == lam.spec_index(i as int)@.value());
                assert(mus[i as int] == mu.spec_index(i as int)@.value());
            }
            let mu_i = mu.weight(i);
            let lam_i = lam.weight(i);
            let y_i = &y[i];
            let ghost f = clip_forward(
                p.events,
                p.start,
                p.end,
                mus[i as int],
                -mus[i as int] * ys[i as int] - p.lam0 + lams[i as int],
                tol,
            );
            proof {
                lemma_clipped_window(
                    true,
                    p.events,
                    p.start,
                    p.end,
                    mus[i as int],
                    -mus[i as int] * ys[i as int] - p.lam0 + lams[i as int],
                    tol,
                );
            }
            let lb_i = clip::<F, True>(
                self.event.as_mut_slice(),
                &mut self.pq,
                mu_i.copy(),
                mu_i.negated().times(y_i).minus(&lam0).plus(lam_i),
            );
            self.lb[i] = lb_i;
            let ub_i = clip::<F, False>(
                self.event.as_mut_slice(),
                &mut self.pq,
                mu_i.negated(),
                mu_i.times(y_i).minus(&lam0).plus(lam_i),
            );
            self.ub[i] = ub_i;
            lam0 = if eps.less(mu_i) {
                lam_i.copy()
            } else {
                lam0.min(lam_i)
            };
            i += 1;
        }
        let ghost p = pass_upto(ys, lams, mus, tol, n as int, n - 1);
        proof {
            lemma_pass_window(ys, lams, mus, tol, n as int, n - 1);
            assert(ys[n - 1] == y@[n - 1]@.value());
            assert(mus[n - 1] == mu.spec_index(n - 1)@.value());
            lemma_clipped_window(
                true,
                p.events,
                p.start,
                p.end,
                mus[n - 1],
                -mus[n - 1] * ys[n - 1] - p.lam0,
                tol,
            );
        }
        let mu_n = mu.weight(n - 1);
        let s = clip::<F, True>(
            self.event.as_mut_slice(),
            &mut self.pq,
            mu_n.copy(),
            mu_n.negated().times(&y[n - 1]).minus(&lam0),
        );
        self.startx = Some(s.copy());
        proof {
            assert(self.event@.len() == breakpoints(self.event@).len());
            assert(self.lower() =~= p.lb);
            assert(self.upper() =~= p.ub);
            if well_posed(ys, lams, mus, tol) {
                lemma_bounds_ordered(ys, lams, mus, tol);
            }
        }
        s
    }

    /// Store the optimal solution in `x`: the forward pass, then every
    /// value read backward from that of the last node.
    pub fn solve<L: Weights<F>, M: Weights<F>>(&mut self, x: &mut [F], y: &[F], lam: &L, mu: &M)
        requires
            old(self).wf(),
            old(self).is_fresh(),
            y@.len() == old(self).size(),
            old(x)@.len() == y@.len(),
            all_finite(y@),
            weights_finite(lam, y@.len() - 1),
            weights_finite(mu, y@.len() as int),
        ensures
            final(self).wf(),
            final(self).size() == old(self).size(),
            ({
                let n = y@.len() as int;
                let (ys, lams, mus) = (reals(y@), weights_upto(lam, n - 1), weights_upto(mu, n));
                let p = pass_upto(ys, lams, mus, F::tolerance().value(), n, n - 1);
                &&& final(self).lower() == p.lb
                &&& final(self).upper() == p.ub
                &&& final(self).anchor() == Some(pass_anchor(ys, lams, mus, F::tolerance().value()))
                &&& numbers(final(x)@) == solution(ys, lams, mus, F::tolerance().value())
                &&& well_posed(ys, lams, mus, F::tolerance().value()) ==> ordered(
                    final(self).lower(),
                    final(self).upper(),
                )
                &&& well_posed(ys, lams, mus, F::tolerance().value()) && anchored(
                    ys,
                    lams,
                    mus,
                    F::tolerance().value(),
                ) ==> is_minimizer(numbers(final(x)@), ys, lams, mus)
            }),
    {
        let n: usize = y.len();
        let s = self.dp_optimize(y, lam, mu);
        let ghost lb = self.lower();
        let ghost ub = self.upper();
        let ghost anchor = s@;
        x[n - 1] = s;
        let mut i: usize = n - 1;
        while i > 0
            invariant
                self.wf(),
                n == self.size(),
                x@.len() == n,
                i <= n - 1,
                lb == self.lower(),
                ub == self.upper(),
                lb.len() == n - 1,
                forall|j: int| i <= j < n ==> (#[trigger] x@[j])@ == backward(lb, ub, anchor, j),
            decreases i,
        {
            i -= 1;
            let v = x[i + 1].clip(&self.lb[i], &self.ub[i]);
            x[i] = v;
        }
        proof {
            let (ys, lams, mus) = (
                reals(y@),
                weights_upto(lam, n - 1),
                weights_upto(mu, n as int),
            );
            assert(numbers(x@) =~= solution(ys, lams, mus, F::tolerance().value()));
            if well_posed(ys, lams, mus, F::tolerance().value()) && anchored(
                ys,
                lams,
                mus,
                F::tolerance().value(),
            ) {
                lemma_solution_is_minimizer(ys, lams, mus, F::tolerance().value());
            }
        }
    }

    /// The segments of the solution from the last to the first: the runs
    /// of nodes that take one value, each with that value.
    pub fn segments_rev(&self) -> (segs: Vec<(Range<usize>, F)>)
        requires
            self.wf(),
            self.anchor() is Some,
        ensures
            segments_of(segs@) == segments_backward(
                self.lower(),
                self.upper(),
                self.anchor()->Some_0,
            ),
    {
        let ghost lb = self.lower();
        let ghost ub = self.upper();
        let mut segs: Vec<(Range<usize>, F)> = Vec::new();
        let mut x: F = match &self.startx {
            Some(s) => s.copy(),
            None => vstd::pervasive::unreached(),
        };
        let mut j: usize = self.lb.len();
        assert(j + 1 <= self.event.len());
        let mut hi: usize = j + 1;
        while j > 0
            invariant
                self.wf(),
                lb == self.lower(),
                ub == self.upper(),
                j <= self.lb@.len(),
                j < hi <= self.lb@.len() + 1,
                segments_of(segs@) + scan(lb, ub, j as int, x@, hi as int) == segments_backward(
                    lb,
                    ub,
                    self.anchor()->Some_0,
                ),
            decreases j,
        {
            let k: usize = j - 1;
            if x.less(&self.lb[k]) || self.ub[k].less(&x) {
                let below = x.clip(&self.lb[k], &self.ub[k]);
                let ghost before = segments_of(segs@);
                let ghost seg = Segment { start: j as int, end: hi as int, value: x@ };
                segs.push((j..hi, x));
                x = below;
                hi = j;
                proof {
                    assert(segments_of(segs@) =~= before + seq![seg]);
                    assert((before + seq![seg]) + scan(lb, ub, k as int, x@, hi as int) =~= before
                        + (seq![seg] + scan(lb, ub, k as int, x@, hi as int)));
                }
            }
            j = k;
        }
        let ghost before = segments_of(segs@);
        let ghost seg = Segment { start: 0, end: hi as int, value: x@ };
        segs.push((0..hi, x));
        proof {
            assert(segments_of(segs@) =~= before + seq![seg]);
        }
        segs
    }

    /// The segments of the solution in ascending order: the runs of nodes
    /// that take one value, each with that value.
    pub fn segments(&self) -> (segs: Vec<(Range<usize>, F)>)
        requires
            self.wf(),
            self.anchor() is Some,
        ensures
            segments_of(segs@) == segments_backward(
                self.lower(),
                self.upper(),
                self.anchor()->Some_0,
            ).reverse(),
            is_partition(segments_of(segs@), self.size()),
            segments_hold(
                segments_of(segs@),
                self.lower(),
                self.upper(),
                self.anchor()->Some_0,
            ),
            ordered(self.lower(), self.upper()) ==> runs_differ(segments_of(segs@)),
    {
        proof {
            lemma_segments_partition(self.lower(), self.upper(), self.anchor()->Some_0);
            if ordered(self.lower(), self.upper()) {
                lemma_segments_maximal(self.lower(), self.upper(), self.anchor()->Some_0);
            }
        }
        let mut rev = self.segments_rev();
        let ghost all = segments_of(rev@);
        let mut segs: Vec<(Range<usize>, F)> = Vec::new();
        while rev.len() > 0
            invariant
                rev@.len() + segs@.len() == all.len(),
                segments_of(rev@) == all.subrange(0, rev@.len() as int),
                forall|i: int|
                    0 <= i < segs@.len() ==> #[trigger] segments_of(segs@)[i] == all[all.len() - 1
                        - i],
            decreases rev@.len(),
        {
            let ghost rev_before = rev@;
            let ghost segs_before = segs@;
            match rev.pop() {
                Some(s) => {
                    proof {
                        assert(segments_of(rev_before)[rev_before.len() - 1] == segment_of(s));
                        assert(segments_of(rev@) =~= all.subrange(0, rev@.len() as int));
                    }
                    segs.push(s);
                    proof {
                        assert forall|i: int| 0 <= i < segs@.len() implies #[trigger] segments_of(
                            segs@,
                        )[i] == all[all.len() - 1 - i] by {
                            if i < segs_before.len() {
                                assert(segments_of(segs_before)[i] == all[all.len() - 1 - i]);
                            }
                        }
                    }
                },
                None => {},
            }
        }
        proof {
            assert(segments_of(segs@) =~= all.reverse());
        }
        segs
    }

    /// The degrees of freedom of the solution: the number of its segments.
    pub fn dof(&self) -> (d: usize)
        requires
            self.wf(),
            self.anchor() is Some,
        ensures
            d == segments_backward(self.lower(), self.upper(), self.anchor()->Some_0).len(),
            1 <= d <= self.size(),
    {
        let segs = self.segments_rev();
        proof {
            lemma_segments_partition(self.lower(), self.upper(), self.anchor()->Some_0);
            assert(segments_of(segs@).len() == segs@.len());
        }
        segs.len()
    }

    /// Store the optimal solution of the instance in `x`, with data weights
    /// of one where the instance has none.
    pub fn solve_instance(&mut self, x: &mut [F], inst: &Instance<F>)
        requires
            old(self).wf(),
            old(self).is_fresh(),
            inst.y@.len() == old(self).size(),
            old(x)@.len() == inst.y@.len(),
            all_finite(inst.y@),
            weights_finite(&inst.lam, inst.y@.len() - 1),
            match &inst.mu {
                Some(mu) => weights_finite(mu, inst.y@.len() as int),
                None => true,
            },
        ensures
            final(self).wf(),
            final(self).size() == old(self).size(),
            final(self).anchor() is Some,
            numbers(final(x)@) == solution(
                reals(inst.y@),
                weights_upto(&inst.lam, inst.y@.len() - 1),
                data_weights(inst),
                F::tolerance().value(),
            ),
            well_posed(
                reals(inst.y@),
                weights_upto(&inst.lam, inst.y@.len() - 1),
                data_weights(inst),
                F::tolerance().value(),
            ) && anchored(
                reals(inst.y@),
                weights_upto(&inst.lam, inst.y@.len() - 1),
                data_weights(inst),
                F::tolerance().value(),
            ) ==> is_minimizer(
                numbers(final(x)@),
                reals(inst.y@),
                weights_upto(&inst.lam, inst.y@.len() - 1),
                data_weights(inst),
            ),
    {
        match &inst.mu {
            Some(mu) => {
                self.solve(x, inst.y.as_slice(), &inst.lam, mu);
            },
            None => {
                let ones = ConstantWeights::new(F::from_i16(1));
                proof {
                    assert(weights_upto(&ones, inst.y@.len() as int) =~= data_weights(inst));
                }
                self.solve(x, inst.y.as_slice(), &inst.lam, &ones);
            },
        }
    }
}

} // verus!
