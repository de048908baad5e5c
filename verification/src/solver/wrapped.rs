//! A formula together with the clauses learnt during the search.
use crate::problem::{Disjunction, Literal, Problem};
use vstd::prelude::*;

verus! {

/// A formula together with the clauses learnt for it so far.
pub struct WrappedProblem {
    pub problem: Problem,
    pub learnt_disjunctions: Vec<Disjunction>,
}

impl View for WrappedProblem {
    type V = Seq<Seq<Literal>>;

    /// The clauses of the formula, then the learnt ones, each in its order.
    open spec fn view(&self) -> Seq<Seq<Literal>> {
        self.problem@ + Seq::new(
            self.learnt_disjunctions@.len(),
            |i: int| self.learnt_disjunctions@[i]@,
        )
    }
}

impl WrappedProblem {
    /// All clauses now in force: those of the formula first, then the learnt
    /// ones, each group in the order in which it was built.
    pub fn disjunctions(&self) -> (all: Vec<&Disjunction>)
        ensures
            all@.len() == self.problem.disjunctions@.len() + self.learnt_disjunctions@.len(),
            forall|i: int|
                0 <= i < self.problem.disjunctions@.len() ==> *all@[i]
                    == self.problem.disjunctions@[i],
            forall|i: int|
                0 <= i < self.learnt_disjunctions@.len() ==> *all@[self.problem.disjunctions@.len()
                    + i] == self.learnt_disjunctions@[i],
            Seq::new(all@.len(), |i: int| all@[i]@) == self@,
    {
        let mut all: Vec<&Disjunction> = Vec::new();
        for d in iter: self.problem.disjunctions.iter()
            invariant
                iter.seq().unref() == self.problem.disjunctions@,
                all@.len() == iter.index(),
                forall|i: int| 0 <= i < all@.len() ==> *all@[i] == self.problem.disjunctions@[i],
        {
            all.push(d);
        }
        let ghost first = all@.len();
        for d in iter: self.learnt_disjunctions.iter()
            invariant
                iter.seq().unref() == self.learnt_disjunctions@,
                first == self.problem.disjunctions@.len(),
                all@.len() == first + iter.index(),
                forall|i: int| 0 <= i < first ==> *all@[i] == self.problem.disjunctions@[i],
                forall|i: int|
                    0 <= i < iter.index() ==> *all@[first + i] == self.learnt_disjunctions@[i],
        {
            all.push(d);
        }
        all
    }
}

} // verus!
