//! Problem instances of the fused lasso, as they are kept in files of
//! named lists of instances.
use crate::float::Float;
use vstd::prelude::*;

verus! {

/// Weights of an instance: one for all elements, or one per element.
#[derive(Debug, PartialEq)]
pub enum Weights<T> {
    /// The same weight for every element.
    Const(T),
    /// The weight of every element.
    Array(Vec<T>),
}

impl<T> crate::graphidx::weights::Weights<T> for Weights<T> {
    open spec fn spec_len(&self) -> nat {
        match self {
            Weights::Const(_) => usize::MAX as nat,
            Weights::Array(a) => a@.len(),
        }
    }

    open spec fn spec_index(&self, i: int) -> T {
        match self {
            Weights::Const(c) => *c,
            Weights::Array(a) => a@[i],
        }
    }

    fn len(&self) -> (n: usize) {
        match self {
            Weights::Const(_) => usize::MAX,
            Weights::Array(a) => a.len(),
        }
    }

    fn weight(&self, i: usize) -> (w: &T) {
        match self {
            Weights::Const(c) => c,
            Weights::Array(a) => &a[i],
        }
    }
}

/// All data needed in a fused lasso line problem.
#[derive(Debug, PartialEq)]
pub struct Instance<F: Float> {
    /// What the instance is called.
    pub name: Option<String>,
    /// The observations.
    pub y: Vec<F>,
    /// The fusion penalties, by edge.
    pub lam: Weights<F>,
    /// The solution that is expected.
    pub x: Option<Vec<F>>,
    /// The place in its list, from 1.
    pub nr: Option<u32>,
    /// The data weights, by node; ones where there are none.
    pub mu: Option<Weights<F>>,
    /// The parent of every node, for instances on a tree.
    pub parent: Option<Vec<i64>>,
    /// The root, for instances on a tree.
    pub root: Option<i64>,
}

/// The place of the first list with name `kind` among the named lists
/// from place `from` on, if there is one.
pub open spec fn place_from<F: Float>(
    instances: Seq<(String, Vec<Instance<F>>)>,
    kind: Seq<char>,
    from: int,
) -> Option<int>
    decreases instances.len() - from,
{
    if from < 0 || from >= instances.len() {
        None
    } else if instances[from].0@ == kind {
        Some(from)
    } else {
        place_from(instances, kind, from + 1)
    }
}

/// The place of the first list with name `kind` among the named lists, if
/// there is one.
pub open spec fn place_of<F: Float>(
    instances: Seq<(String, Vec<Instance<F>>)>,
    kind: Seq<char>,
) -> Option<int> {
    place_from(instances, kind, 0)
}

/// The number that the instance at place `i` of its list gets: one more
/// than the place, as far as 32 bits hold it.
pub open spec fn number_at(i: int) -> u32 {
    (i + 1) as u32
}

impl<F: Float> Instance<F> {
    /// The instance with the number `nr`.
    pub open spec fn numbered(self, nr: u32) -> Self {
        Instance { nr: Some(nr), ..self }
    }

    /// The instances of the list with name `kind`, each with its number; none
    /// if there is no such list.
    pub fn from_map(instances: Vec<(String, Vec<Self>)>, kind: &str) -> (out: Vec<Self>)
        ensures
            match place_of(instances@, kind@) {
                Some(k) => {
                    &&& out@.len() == instances@[k].1@.len()
                    &&& forall|i: int|
                        0 <= i < out@.len() ==> #[trigger] out@[i] == instances@[k].1@[i].numbered(
                            number_at(i),
                        )
                },
                None => out@.len() == 0,
            },
    {
        let ghost all = instances@;
        let mut lists = instances;
        let wanted: String = kind.to_owned();
        let mut k: usize = 0;
        while k < lists.len()
            invariant
                all == instances@,
                lists@ == all,
                wanted@ == kind@,
                k <= all.len(),
                place_from(all, kind@, k as int) == place_of(all, kind@),
            decreases all.len() - k,
        {
            if lists[k].0 == wanted {
                let (_, mut trees) = lists.remove(k);
                let ghost listed = trees@;
                let mut i: usize = 0;
                while i < trees.len()
                    invariant
                        trees@.len() == listed.len(),
                        i <= listed.len(),
                        forall|j: int|
                            0 <= j < i ==> #[trigger] trees@[j] == listed[j].numbered(number_at(j)),
                        forall|j: int| i <= j < listed.len() ==> #[trigger] trees@[j] == listed[j],
                    decreases listed.len() - i,
                {
                    let nr: u32 = #[verifier::truncate]
                    ((i + 1) as u32);
                    trees[i].nr = Some(nr);
                    i += 1;
                }
                return trees;
            }
            k += 1;
        }
        Vec::new()
    }

    /// The number of nodes.
    pub fn len(&self) -> (n: usize)
        ensures
            n == self.y@.len(),
    {
        self.y.len()
    }
}

} // verus!
