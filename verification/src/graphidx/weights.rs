//! Weight parameters associated to a collection, e.g. nodes or edges.
//!
//! There are two kinds of weights: [`ConstantWeights`] provides the same
//! weight for every element, [`ArrayWeights`] a weight stored in a vector.
//! Both are read by index.
use std::ops::Index;
use vstd::prelude::*;

verus! {

/// Read access by index to one weight per element.
pub trait Weights<T> {
    /// The number of elements that have a weight.
    spec fn spec_len(&self) -> nat;

    /// The weight of element `i`.
    spec fn spec_index(&self, i: int) -> T;

    /// The number of elements that have a weight: without bound in effect
    /// where every element has the same.
    fn len(&self) -> (n: usize)
        ensures
            n == self.spec_len(),
    ;

    /// The weight of element `i`.
    fn weight(&self, i: usize) -> (w: &T)
        requires
            i < self.spec_len(),
        ensures
            *w == self.spec_index(i as int),
    ;
}

/// Same weight for every element.
#[derive(PartialEq, Debug)]
pub struct ConstantWeights<T> {
    c: T,
}

impl<T> ConstantWeights<T> {
    /// The weight of every element.
    pub closed spec fn value(&self) -> T {
        self.c
    }

    /// The weight `c` for every element.
    pub fn new(c: T) -> (w: Self)
        ensures
            w.value() == c,
    {
        ConstantWeights { c }
    }
}

impl<T> Index<usize> for ConstantWeights<T> {
    type Output = T;

    fn index(&self, _i: usize) -> (w: &T)
        ensures
            *w == self.value(),
    {
        &self.c
    }
}

impl<T> vstd::std_specs::core::IndexSpecImpl<usize> for ConstantWeights<T> {
    open spec fn index_req(&self, index: &usize) -> bool {
        true
    }
}

impl<T> Weights<T> for ConstantWeights<T> {
    open spec fn spec_len(&self) -> nat {
        usize::MAX as nat
    }

    open spec fn spec_index(&self, i: int) -> T {
        self.value()
    }

    fn len(&self) -> (n: usize) {
        usize::MAX
    }

    fn weight(&self, i: usize) -> (w: &T) {
        &self.c
    }
}

/// Weights stored in an array.
#[derive(PartialEq, Debug)]
pub struct ArrayWeights<T> {
    a: Vec<T>,
}

impl<T> ArrayWeights<T> {
    /// The weights, by element.
    pub closed spec fn values(&self) -> Seq<T> {
        self.a@
    }

    /// The weight `a[i]` for element `i`.
    pub fn new(a: Vec<T>) -> (w: Self)
        ensures
            w.values() == a@,
    {
        ArrayWeights { a }
    }
}

impl<T> Index<usize> for ArrayWeights<T> {
    type Output = T;

    fn index(&self, i: usize) -> (w: &T)
        ensures
            *w == self.values()[i as int],
    {
        &self.a[i]
    }
}

impl<T> vstd::std_specs::core::IndexSpecImpl<usize> for ArrayWeights<T> {
    open spec fn index_req(&self, index: &usize) -> bool {
        *index < self.values().len()
    }
}

impl<T> Weights<T> for ArrayWeights<T> {
    open spec fn spec_len(&self) -> nat {
        self.values().len()
    }

    open spec fn spec_index(&self, i: int) -> T {
        self.values()[i]
    }

    fn len(&self) -> (n: usize) {
        self.a.len()
    }

    fn weight(&self, i: usize) -> (w: &T) {
        &self.a[i]
    }
}

} // verus!
