//! The policy expression tree and its mathematical model.

use vstd::prelude::*;

verus! {

/// The role a principal must hold.
#[derive(Debug, Clone, Copy, PartialEq, Eq, Hash, Structural)]
pub enum ROLE {
    MEMBER,
    PEER,
    ADMIN,
    CLIENT,
}

/// A policy expression: a combinator over sub-expressions, or a principal.
#[derive(Debug)]
pub enum Expression {
    /// Satisfied when every child is satisfied.
    AND(Vec<Expression>),
    /// Satisfied when at least one child is satisfied.
    OR(Vec<Expression>),
    /// Satisfied when at least the given number of children are satisfied.
    OUTOF(Vec<Expression>, usize),
    /// A named identity together with the role it must hold.
    Principal(String, ROLE),
}

/// The mathematical value of an [`Expression`].
pub enum Policy {
    And(Seq<Policy>),
    Or(Seq<Policy>),
    AtLeast(Seq<Policy>, nat),
    Principal(Seq<char>, ROLE),
}

/// The values of a sequence of expressions, in order.
pub open spec fn policies(exprs: Seq<Expression>) -> Seq<Policy>
    decreases exprs,
{
    Seq::new(
        exprs.len(),
        |i: int|
            if 0 <= i < exprs.len() {
                exprs[i].view()
            } else {
                arbitrary()
            },
    )
}

/// The values of a list of expressions are the values of its members.
pub proof fn lemma_policies(exprs: Seq<Expression>)
    ensures
        policies(exprs).len() == exprs.len(),
        forall|i: int| 0 <= i < exprs.len() ==> #[trigger] policies(exprs)[i] == exprs[i]@,
{
}

impl View for Expression {
    type V = Policy;

    open spec fn view(&self) -> Policy
        decreases self,
    {
        match self {
            Expression::AND(children) => Policy::And(policies(children@)),
            Expression::OR(children) => Policy::Or(policies(children@)),
            Expression::OUTOF(children, threshold) => Policy::AtLeast(
                policies(children@),
                *threshold as nat,
            ),
            Expression::Principal(identity, role) => Policy::Principal(identity@, *role),
        }
    }
}

/// Copies a list of expressions, child by child.
fn clone_all(exprs: &Vec<Expression>) -> (res: Vec<Expression>)
    ensures
        policies(res@) == policies(exprs@),
    decreases exprs,
{
    let mut res: Vec<Expression> = Vec::new();
    let mut i: usize = 0;
    while i < exprs.len()
        invariant
            i <= exprs.len(),
            res.len() == i,
            forall|j: int| 0 <= j < i ==> res[j]@ == exprs[j]@,
        decreases exprs.len() - i,
    {
        let copy = exprs[i].clone();
        res.push(copy);
        i += 1;
    }
    assert(policies(res@) =~= policies(exprs@));
    res
}

impl Clone for Expression {
    fn clone(&self) -> (res: Self)
        ensures
            res@ == self@,
        decreases self,
    {
        match self {
            Expression::AND(children) => Expression::AND(clone_all(children)),
            Expression::OR(children) => Expression::OR(clone_all(children)),
            Expression::OUTOF(children, threshold) => Expression::OUTOF(
                clone_all(children),
                *threshold,
            ),
            Expression::Principal(identity, role) => Expression::Principal(
                identity.clone(),
                *role,
            ),
        }
    }
}

} // verus!
