//! The fused lasso on a rooted tree.
use crate::float::Float;
use crate::graphidx::weights::Weights;
use crate::line::numbers;
use vstd::prelude::*;

verus! {

/// Solver for trees, which so far hands the observations back.
pub struct TreeDP {
    post_order: Vec<usize>,
}

impl TreeDP {
    /// The nodes in the order in which the solver visits them.
    pub closed spec fn order(&self) -> Seq<usize> {
        self.post_order@
    }

    /// A solver that visits the nodes in the order `post_order`.
    pub fn new(post_order: Vec<usize>) -> (solver: Self)
        ensures
            solver.order() == post_order@,
    {
        TreeDP { post_order }
    }

    /// Give every node that is visited its observation as its value, and
    /// leave the others as they are.
    pub fn solve<F: Float, W1: Weights<F>, W2: Weights<F>>(
        &self,
        x: &mut [F],
        y: &[F],
        lam: W1,
        mu: W2,
    )
        requires
            old(x)@.len() == y@.len(),
            mu.spec_len() >= y@.len(),
            lam.spec_len() + 1 >= y@.len(),
            forall|k: int| 0 <= k < self.order().len() ==> (#[trigger] self.order()[k]) < y@.len(),
        ensures
            final(x)@.len() == y@.len(),
            forall|v: int|
                0 <= v < y@.len() ==> (#[trigger] final(x)@[v])@ == (if self.order().contains(
                    v as usize,
                ) {
                    y@[v]@
                } else {
                    old(x)@[v]@
                }),
    {
        let mut k: usize = 0;
        while k < self.post_order.len()
            invariant
                k <= self.post_order@.len(),
                x@.len() == y@.len(),
                forall|j: int|
                    0 <= j < self.order().len() ==> (#[trigger] self.order()[j]) < y@.len(),
                forall|v: int|
                    0 <= v < y@.len() ==> (#[trigger] x@[v])@ == (if self.order().subrange(
                        0,
                        k as int,
                    ).contains(v as usize) {
                        y@[v]@
                    } else {
                        old(x)@[v]@
                    }),
            decreases self.post_order@.len() - k,
        {
            let v: usize = self.post_order[k];
            assert(self.order()[k as int] < y@.len());
            let ghost before = x@;
            x[v] = y[v].copy();
            proof {
                let seen = self.order().subrange(0, k as int);
                let now = self.order().subrange(0, k as int + 1);
                assert(now =~= seen.push(v));
                assert forall|u: int| 0 <= u < y@.len() implies (#[trigger] x@[u])@ == (if now.contains(
                    u as usize,
                ) {
                    y@[u]@
                } else {
                    old(x)@[u]@
                }) by {
                    assert(before[u]@ == (if seen.contains(u as usize) {
                        y@[u]@
                    } else {
                        old(x)@[u]@
                    }));
                    if u == v {
                        assert(now[k as int] == v);
                    } else if seen.contains(u as usize) {
                        let t = choose|t: int| 0 <= t < seen.len() && seen[t] == u as usize;
                        assert(now[t] == u as usize);
                    } else if now.contains(u as usize) {
                        let t = choose|t: int| 0 <= t < now.len() && now[t] == u as usize;
                        assert(t < k);
                        assert(seen[t] == u as usize);
                    }
                }
            }
            k += 1;
        }
        proof {
            assert(self.order().subrange(0, self.order().len() as int) =~= self.order());
        }
    }
}

} // verus!
