//! A state-based endorsement: the holder of a policy expression.

use crate::expression::{Expression, Policy};
use vstd::prelude::*;

verus! {

/// The overall endorsement: the root of a policy expression.
#[derive(Debug, PartialEq)]
pub struct StateBasedEndorsement {
    root: Expression,
}

impl View for StateBasedEndorsement {
    type V = Policy;

    closed spec fn view(&self) -> Policy {
        self.root@
    }
}

impl StateBasedEndorsement {
    /// Wraps an expression as an endorsement.
    pub fn build(expr: Expression) -> (sbe: Self)
        ensures
            sbe@ == expr@,
    {
        StateBasedEndorsement { root: expr }
    }

    /// The endorsement's expression.
    pub fn root(&self) -> (expr: &Expression)
        ensures
            expr@ == self@,
    {
        &self.root
    }
}

} // verus!
