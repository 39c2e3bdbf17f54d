//! Why the solution of the line is optimal: the forward pass keeps a
//! message, the messages give every edge a tension, and the tensions
//! show that no other values cost less.
use crate::float::Extended;
use crate::line::{
    backward, ordered, pass_anchor, pass_start, pass_step, pass_upto, solution, Pass,
};
use crate::message::{
    is_message, lemma_clip_forward, lemma_message_bounds, lemma_passed_by, lemma_stepped, message,
    offsets, ramp, slopes, stepped,
};
use crate::stats::magnitude;
use vstd::prelude::*;

verus! {

/// A line of at least one node whose data weights are 0 or lie above the
/// tolerance and whose penalties are not negative.
pub open spec fn well_posed(y: Seq<real>, lam: Seq<real>, mu: Seq<real>, eps: real) -> bool {
    &&& y.len() >= 1
    &&& lam.len() + 1 >= y.len()
    &&& mu.len() >= y.len()
    &&& eps >= 0real
    &&& forall|i: int| 0 <= i < y.len() ==> #[trigger] mu[i] == 0real || mu[i] > eps
    &&& forall|i: int| 0 <= i < y.len() - 1 ==> #[trigger] lam[i] >= 0real
}

/// The value of the last node is a real number. It is not where the last
/// node has no data weight and no message reaches it: any value is as
/// good there as any other.
pub open spec fn anchored(y: Seq<real>, lam: Seq<real>, mu: Seq<real>, eps: real) -> bool {
    pass_anchor(y, lam, mu, eps).is_finite()
}

/// What the first `k` nodes of the line cost at the values `x`: for every
/// node half its data weight times the square of its distance from the
/// observation, and for every edge between two of them its penalty times
/// the distance of the two values.
pub open spec fn cost_upto(x: Seq<real>, y: Seq<real>, lam: Seq<real>, mu: Seq<real>, k: int) -> real
    decreases k,
{
    if k <= 0 {
        0real
    } else {
        cost_upto(x, y, lam, mu, k - 1) + mu[k - 1] * ((x[k - 1] - y[k - 1]) * (x[k - 1] - y[k
            - 1])) / 2real + (if k >= 2 {
            lam[k - 2] * magnitude(x[k - 2] - x[k - 1])
        } else {
            0real
        })
    }
}

/// What the line costs at the values `x`: the objective of the fused lasso.
pub open spec fn objective(x: Seq<real>, y: Seq<real>, lam: Seq<real>, mu: Seq<real>) -> real {
    cost_upto(x, y, lam, mu, y.len() as int)
}

/// The real numbers of a sequence of numbers.
pub open spec fn values(s: Seq<Extended>) -> Seq<real> {
    Seq::new(s.len(), |i: int| s[i].value())
}

/// The message that the forward pass has arrived with, at `t`.
pub open spec fn pass_message(p: Pass, t: real) -> real {
    message(p.events, p.start, p.end, p.lam0, t)
}

/// After `i` nodes of `n` the forward pass holds a message within `i`
/// slots of the middle of the buffer, and the bounds of `i` nodes.
pub open spec fn in_buffer(p: Pass, n: int, i: int, eps: real) -> bool {
    &&& is_message(p.events, p.start, p.end, p.lam0, eps)
    &&& p.events.len() == 2 * n
    &&& n - i <= p.start
    &&& p.end <= n + i
    &&& p.lb.len() == i
    &&& p.ub.len() == i
}

/// The forward pass carries a message from node to node, within the
/// buffer, and the bounds that a node has left stay as they are.
pub proof fn lemma_pass(y: Seq<real>, lam: Seq<real>, mu: Seq<real>, eps: real, i: int)
    requires
        well_posed(y, lam, mu, eps),
        0 <= i <= y.len() - 1,
    ensures
        ({
            let n = y.len() as int;
            let p = pass_upto(y, lam, mu, eps, n, i);
            &&& in_buffer(p, n, i, eps)
            &&& forall|j: int|
                0 <= j < i ==> #[trigger] p.lb[j] == pass_upto(y, lam, mu, eps, n, j + 1).lb[j]
            &&& forall|j: int|
                0 <= j < i ==> #[trigger] p.ub[j] == pass_upto(y, lam, mu, eps, n, j + 1).ub[j]
        }),
    decreases i,
{
    let n = y.len() as int;
    if i <= 0 {
        let p = pass_start(n);
        assert(slopes(p.events, n, n) == 0real);
        assert(offsets(p.events, n, n) == 0real);
    } else {
        lemma_pass(y, lam, mu, eps, i - 1);
        lemma_node(y, lam, mu, eps, i - 1, 0real);
        let q = pass_upto(y, lam, mu, eps, n, i - 1);
        let p = pass_upto(y, lam, mu, eps, n, i);
        assert(p == pass_step(q, y[i - 1], lam[i - 1], mu[i - 1], eps));
        assert forall|j: int| 0 <= j < i implies #[trigger] p.lb[j] == pass_upto(
            y,
            lam,
            mu,
            eps,
            n,
            j + 1,
        ).lb[j] by {
            if j < i - 1 {
                assert(p.lb[j] == q.lb[j]);
            }
        }
        assert forall|j: int| 0 <= j < i implies #[trigger] p.ub[j] == pass_upto(
            y,
            lam,
            mu,
            eps,
            n,
            j + 1,
        ).ub[j] by {
            if j < i - 1 {
                assert(p.ub[j] == q.ub[j]);
            }
        }
    }
}

/// What node `i` makes of the message that reaches it, seen from a value
/// `t` of the next node: the message that it sends on is a message within
/// the buffer, and its lower bound does not lie above its upper bound.
/// With `t` moved into the node's bounds as the node's own value, the
/// message that reached the node, with the node's own term, is at that
/// value what the message sent on is at `t`. That is within the penalty of
/// the edge, and it is that penalty where the two values differ: the
/// penalty itself where `t` is above, and below 0 where `t` is below.
pub proof fn lemma_node(y: Seq<real>, lam: Seq<real>, mu: Seq<real>, eps: real, i: int, t: real)
    requires
        well_posed(y, lam, mu, eps),
        0 <= i < y.len() - 1,
        in_buffer(pass_upto(y, lam, mu, eps, y.len() as int, i), y.len() as int, i, eps),
    ensures
        ({
            let n = y.len() as int;
            let p = pass_upto(y, lam, mu, eps, n, i);
            let q = pass_upto(y, lam, mu, eps, n, i + 1);
            let moved = Extended::Finite(t).clip(q.lb[i], q.ub[i]);
            let x = moved.value();
            &&& in_buffer(q, n, i + 1, eps)
            &&& forall|j: int| 0 <= j < i ==> q.lb[j] == p.lb[j] && q.ub[j] == p.ub[j]
            &&& !q.ub[i].lt(q.lb[i])
            &&& moved.is_finite()
            &&& mu[i] * (x - y[i]) + pass_message(p, x) == pass_message(q, t)
            &&& -lam[i] <= pass_message(q, t) <= lam[i]
            &&& x < t ==> pass_message(q, t) == lam[i]
            &&& x > t ==> pass_message(q, t) == -lam[i]
        }),
{
    let n = y.len() as int;
    let p = pass_upto(y, lam, mu, eps, n, i);
    let q = pass_upto(y, lam, mu, eps, n, i + 1);
    assert(q == pass_step(p, y[i], lam[i], mu[i], eps));
    assert(mu[i] == 0real || mu[i] > eps);
    assert(lam[i] >= 0real);
    if mu[i] > eps || lam[i] < p.lam0 {
        lemma_stepped(p.events, p.start, p.end, p.lam0, y[i], lam[i], mu[i], eps, t);
        let s = stepped(p.events, p.start, p.end, p.lam0, y[i], lam[i], mu[i], eps);
        assert(q.lam0 == lam[i]);
        assert(q.events == s.events);
    } else {
        lemma_passed_by(p.events, p.start, p.end, p.lam0, y[i], lam[i], eps);
        lemma_message_bounds(p.events, p.start, p.end, p.lam0, eps, t);
        assert(q.lam0 == p.lam0);
        assert(mu[i] * (t - y[i]) == 0real) by (nonlinear_arith)
            requires
                mu[i] == 0real,
        ;
    }
}

/// No node gets a lower bound above its upper bound.
pub proof fn lemma_bounds_ordered(y: Seq<real>, lam: Seq<real>, mu: Seq<real>, eps: real)
    requires
        well_posed(y, lam, mu, eps),
    ensures
        ({
            let p = pass_upto(y, lam, mu, eps, y.len() as int, y.len() - 1);
            &&& p.lb.len() == y.len() - 1
            &&& p.ub.len() == y.len() - 1
            &&& ordered(p.lb, p.ub)
        }),
{
    let n = y.len() as int;
    let p = pass_upto(y, lam, mu, eps, n, n - 1);
    lemma_pass(y, lam, mu, eps, n - 1);
    assert forall|i: int| 0 <= i < p.lb.len() implies !(#[trigger] p.ub[i]).lt(p.lb[i]) by {
        lemma_pass(y, lam, mu, eps, i);
        lemma_node(y, lam, mu, eps, i, 0real);
        assert(p.lb[i] == pass_upto(y, lam, mu, eps, n, i + 1).lb[i]);
        assert(p.ub[i] == pass_upto(y, lam, mu, eps, n, i + 1).ub[i]);
    }
}

/// The value of node `i` in the solution, as a real number.
pub open spec fn value_at(y: Seq<real>, lam: Seq<real>, mu: Seq<real>, eps: real, i: int) -> real {
    let n = y.len() as int;
    let p = pass_upto(y, lam, mu, eps, n, n - 1);
    backward(p.lb, p.ub, pass_anchor(y, lam, mu, eps), i).value()
}

/// The tension of the edge behind node `i`: the message that node `i`
/// sends on, at the value of the next node. There is none before the
/// first node and none behind the last.
pub open spec fn tension(y: Seq<real>, lam: Seq<real>, mu: Seq<real>, eps: real, i: int) -> real {
    let n = y.len() as int;
    if 0 <= i < n - 1 {
        pass_message(pass_upto(y, lam, mu, eps, n, i + 1), value_at(y, lam, mu, eps, i + 1))
    } else {
        0real
    }
}

/// Where the value of the last node is a real number, so is every value
/// of the solution: that of the last node is where the message with the
/// node's own term is 0, and that of any other node is the value of the
/// next node, moved into the node's bounds.
pub proof fn lemma_values(y: Seq<real>, lam: Seq<real>, mu: Seq<real>, eps: real, i: int)
    requires
        well_posed(y, lam, mu, eps),
        anchored(y, lam, mu, eps),
        0 <= i < y.len(),
    ensures
        ({
            let n = y.len() as int;
            let p = pass_upto(y, lam, mu, eps, n, n - 1);
            let x = value_at(y, lam, mu, eps, i);
            &&& backward(p.lb, p.ub, pass_anchor(y, lam, mu, eps), i) == Extended::Finite(x)
            &&& solution(y, lam, mu, eps)[i] == Extended::Finite(x)
            &&& i == n - 1 ==> mu[i] * (x - y[i]) + pass_message(p, x) == 0real
            &&& i < n - 1 ==> Extended::Finite(x) == Extended::Finite(
                value_at(y, lam, mu, eps, i + 1),
            ).clip(
                pass_upto(y, lam, mu, eps, n, i + 1).lb[i],
                pass_upto(y, lam, mu, eps, n, i + 1).ub[i],
            )
        }),
    decreases y.len() - i,
{
    let n = y.len() as int;
    let p = pass_upto(y, lam, mu, eps, n, n - 1);
    lemma_pass(y, lam, mu, eps, n - 1);
    if i == n - 1 {
        assert(mu[i] == 0real || mu[i] > eps);
        if mu[i] > eps || 0real < p.lam0 {
            lemma_clip_forward(p.events, p.start, p.end, p.lam0, y[i], 0real, mu[i], eps);
            assert(-mu[i] * y[i] - p.lam0 + 0real == -mu[i] * y[i] - p.lam0);
        } else {
            lemma_passed_by(p.events, p.start, p.end, p.lam0, y[i], 0real, eps);
            assert(-0real * y[i] - p.lam0 + 0real == -mu[i] * y[i] - p.lam0);
            assert(false);
        }
    } else {
        lemma_values(y, lam, mu, eps, i + 1);
        lemma_pass(y, lam, mu, eps, i);
        lemma_node(y, lam, mu, eps, i, value_at(y, lam, mu, eps, i + 1));
        assert(p.lb[i] == pass_upto(y, lam, mu, eps, n, i + 1).lb[i]);
        assert(p.ub[i] == pass_upto(y, lam, mu, eps, n, i + 1).ub[i]);
    }
}

/// The tensions balance every node: the pull of the node's observation,
/// with the tension of the edge before it, is the tension of the edge
/// behind it. No tension is beyond the penalty of its edge, and where the
/// two values of an edge differ the tension is that penalty, pulling the
/// lower value up and the higher value down.
pub proof fn lemma_balance(y: Seq<real>, lam: Seq<real>, mu: Seq<real>, eps: real, i: int)
    requires
        well_posed(y, lam, mu, eps),
        anchored(y, lam, mu, eps),
        0 <= i < y.len(),
    ensures
        ({
            let x = value_at(y, lam, mu, eps, i);
            let next = value_at(y, lam, mu, eps, i + 1);
            let u = tension(y, lam, mu, eps, i);
            &&& mu[i] * (x - y[i]) + tension(y, lam, mu, eps, i - 1) == u
            &&& i < y.len() - 1 ==> -lam[i] <= u <= lam[i]
            &&& i < y.len() - 1 && x < next ==> u == lam[i]
            &&& i < y.len() - 1 && x > next ==> u == -lam[i]
        }),
{
    let n = y.len() as int;
    let x = value_at(y, lam, mu, eps, i);
    let p = pass_upto(y, lam, mu, eps, n, i);
    lemma_pass(y, lam, mu, eps, i);
    lemma_values(y, lam, mu, eps, i);
    // the message that reaches the node, at the node's value, is the tension before it
    if i == 0 {
        assert(ramp(p.events, p.start, p.end, x) == 0real);
    }
    assert(pass_message(p, x) == tension(y, lam, mu, eps, i - 1));
    if i < n - 1 {
        lemma_node(y, lam, mu, eps, i, value_at(y, lam, mu, eps, i + 1));
    }
}

/// Half a weight that is not negative times a square grows from `x` to
/// `other` by at least the pull at `x` times the way.
proof fn lemma_square_gap(mu: real, x: real, other: real, y: real)
    requires
        mu >= 0real,
    ensures
        mu * ((other - y) * (other - y)) / 2real - mu * ((x - y) * (x - y)) / 2real >= (mu * (x
            - y)) * (other - x),
{
    let (a, d) = (x - y, other - x);
    assert(other - y == a + d);
    assert((a + d) * (a + d) == a * a + 2real * (a * d) + d * d) by (nonlinear_arith);
    assert(mu * (a * a + 2real * (a * d) + d * d) == mu * (a * a) + 2real * (mu * (a * d)) + mu
        * (d * d)) by (nonlinear_arith);
    assert(mu * (a * d) == (mu * a) * d) by (nonlinear_arith);
    assert(mu * (d * d) >= 0real) by (nonlinear_arith)
        requires
            mu >= 0real,
    ;
}

/// A penalty times a distance grows from the difference `a` to the
/// difference `other` by at least a tension within the penalty, which is
/// the penalty against the sign of `a`, times the way.
proof fn lemma_distance_gap(lam: real, u: real, a: real, other: real)
    requires
        -lam <= u <= lam,
        a > 0real ==> u == -lam,
        a < 0real ==> u == lam,
    ensures
        lam * magnitude(other) - lam * magnitude(a) >= (-u) * (other - a),
{
    assert(lam * magnitude(a) == (-u) * a) by (nonlinear_arith)
        requires
            -lam <= u <= lam,
            a > 0real ==> u == -lam,
            a < 0real ==> u == lam,
            magnitude(a) == (if a < 0real {
                -a
            } else {
                a
            }),
    ;
    assert(lam * magnitude(other) >= (-u) * other) by (nonlinear_arith)
        requires
            -lam <= u <= lam,
            magnitude(other) == (if other < 0real {
                -other
            } else {
                other
            }),
    ;
    assert((-u) * (other - a) == (-u) * other - (-u) * a) by (nonlinear_arith);
}

/// Over the first `k` nodes any other values cost more than the solution
/// by at least the tension behind node `k - 1` times the way of that
/// node's value.
proof fn lemma_cost_gap(
    y: Seq<real>,
    lam: Seq<real>,
    mu: Seq<real>,
    eps: real,
    other: Seq<real>,
    k: int,
)
    requires
        well_posed(y, lam, mu, eps),
        anchored(y, lam, mu, eps),
        other.len() == y.len(),
        1 <= k <= y.len(),
    ensures
        ({
            let x = values(solution(y, lam, mu, eps));
            cost_upto(other, y, lam, mu, k) - cost_upto(x, y, lam, mu, k) >= tension(
                y,
                lam,
                mu,
                eps,
                k - 1,
            ) * (other[k - 1] - x[k - 1])
        }),
    decreases k,
{
    let x = values(solution(y, lam, mu, eps));
    let i = k - 1;
    lemma_values(y, lam, mu, eps, i);
    lemma_balance(y, lam, mu, eps, i);
    assert(x[i] == value_at(y, lam, mu, eps, i));
    let u = tension(y, lam, mu, eps, i);
    let before = tension(y, lam, mu, eps, i - 1);
    let d = other[i] - x[i];
    assert(mu[i] == 0real || mu[i] > eps);
    lemma_square_gap(mu[i], x[i], other[i], y[i]);
    assert((mu[i] * (x[i] - y[i])) * d == u * d - before * d) by (nonlinear_arith)
        requires
            mu[i] * (x[i] - y[i]) + before == u,
    ;
    if k >= 2 {
        lemma_cost_gap(y, lam, mu, eps, other, k - 1);
        lemma_values(y, lam, mu, eps, i - 1);
        lemma_balance(y, lam, mu, eps, i - 1);
        assert(x[i - 1] == value_at(y, lam, mu, eps, i - 1));
        let d0 = other[i - 1] - x[i - 1];
        lemma_distance_gap(lam[i - 1], before, x[i - 1] - x[i], other[i - 1] - other[i]);
        assert((-before) * ((other[i - 1] - other[i]) - (x[i - 1] - x[i])) == before * d - before
            * d0) by (nonlinear_arith)
            requires
                d == other[i] - x[i],
                d0 == other[i - 1] - x[i - 1],
        ;
    } else {
        assert(before == 0real);
        assert(before * d == 0real) by (nonlinear_arith)
            requires
                before == 0real,
        ;
        assert(cost_upto(other, y, lam, mu, 0) == 0real);
        assert(cost_upto(x, y, lam, mu, 0) == 0real);
    }
}

/// The solution is optimal: on a line whose data weights are 0 or lie
/// above the tolerance and whose penalties are not negative, if the value
/// of the last node is a real number, then every value of the solution
/// is, and no other values cost less.
pub proof fn lemma_solution_is_optimal(
    y: Seq<real>,
    lam: Seq<real>,
    mu: Seq<real>,
    eps: real,
    other: Seq<real>,
)
    requires
        well_posed(y, lam, mu, eps),
        anchored(y, lam, mu, eps),
        other.len() == y.len(),
    ensures
        forall|i: int| 0 <= i < y.len() ==> (#[trigger] solution(y, lam, mu, eps)[i]).is_finite(),
        objective(values(solution(y, lam, mu, eps)), y, lam, mu) <= objective(other, y, lam, mu),
{
    let n = y.len() as int;
    let x = values(solution(y, lam, mu, eps));
    assert forall|i: int| 0 <= i < y.len() implies (#[trigger] solution(
        y,
        lam,
        mu,
        eps,
    )[i]).is_finite() by {
        lemma_values(y, lam, mu, eps, i);
    }
    lemma_cost_gap(y, lam, mu, eps, other, n);
    let d = other[n - 1] - x[n - 1];
    assert(tension(y, lam, mu, eps, n - 1) == 0real);
    assert(0real * d == 0real) by (nonlinear_arith);
}

/// No single value of the solution can be bettered: on a line whose data
/// weights are 0 or lie above the tolerance and whose penalties are not
/// negative, if the value of the last node is a real number, then the
/// solution with the value of node `i` moved to `t` costs no less than the
/// solution.
pub proof fn lemma_solution_is_stationary(
    y: Seq<real>,
    lam: Seq<real>,
    mu: Seq<real>,
    eps: real,
    i: int,
    t: real,
)
    requires
        well_posed(y, lam, mu, eps),
        anchored(y, lam, mu, eps),
        0 <= i < y.len(),
    ensures
        objective(values(solution(y, lam, mu, eps)), y, lam, mu) <= objective(
            values(solution(y, lam, mu, eps)).update(i, t),
            y,
            lam,
            mu,
        ),
{
    lemma_solution_is_optimal(y, lam, mu, eps, values(solution(y, lam, mu, eps)).update(i, t));
}

/// The values `x` are real numbers, one for every node, and no other
/// values cost less.
pub open spec fn is_minimizer(x: Seq<Extended>, y: Seq<real>, lam: Seq<real>, mu: Seq<real>) -> bool {
    &&& x.len() == y.len()
    &&& forall|i: int| 0 <= i < x.len() ==> (#[trigger] x[i]).is_finite()
    &&& forall|other: Seq<real>|
        other.len() == y.len() ==> objective(values(x), y, lam, mu) <= #[trigger] objective(
            other,
            y,
            lam,
            mu,
        )
}

/// The solution is a minimizer of the objective: on a line whose data
/// weights are 0 or lie above the tolerance and whose penalties are not
/// negative, if the value of the last node is a real number.
pub proof fn lemma_solution_is_minimizer(y: Seq<real>, lam: Seq<real>, mu: Seq<real>, eps: real)
    requires
        well_posed(y, lam, mu, eps),
        anchored(y, lam, mu, eps),
    ensures
        is_minimizer(solution(y, lam, mu, eps), y, lam, mu),
{
    let x = solution(y, lam, mu, eps);
    lemma_solution_is_optimal(y, lam, mu, eps, y);
    assert forall|other: Seq<real>| other.len() == y.len() implies objective(
        values(x),
        y,
        lam,
        mu,
    ) <= #[trigger] objective(other, y, lam, mu) by {
        lemma_solution_is_optimal(y, lam, mu, eps, other);
    }
}

} // verus!
