//! Equality of policies that ignores the order of children.

use crate::expression::{lemma_policies, policies, Expression, Policy};
use vstd::prelude::*;
use vstd::seq_lib::{to_multiset_contains, to_multiset_len, to_multiset_remove};
use vstd::std_specs::cmp::PartialEqSpecImpl;

verus! {

/// Whether two policies are the same policy: the same variant, for a principal
/// the same identity and role, for a combinator the same children whatever
/// their order, and for `AtLeast` the same threshold too.
pub open spec fn equivalent(a: Policy, b: Policy) -> bool
    decreases a, 0nat, 0nat,
{
    match a {
        Policy::And(c1) => match b {
            Policy::And(c2) => same_members(c1, c2),
            _ => false,
        },
        Policy::Or(c1) => match b {
            Policy::Or(c2) => same_members(c1, c2),
            _ => false,
        },
        Policy::AtLeast(c1, k1) => match b {
            Policy::AtLeast(c2, k2) => same_members(c1, c2) && k1 == k2,
            _ => false,
        },
        Policy::Principal(s1, r1) => match b {
            Policy::Principal(s2, r2) => s1 == s2 && r1 == r2,
            _ => false,
        },
    }
}

/// How many members of `s` are equivalent to `x`.
pub open spec fn occurrences(x: Policy, s: Seq<Policy>) -> nat
    decreases x, 1nat, s.len(),
{
    if s.len() == 0 {
        0
    } else {
        occurrences(x, s.drop_last()) + if equivalent(x, s.last()) {
            1nat
        } else {
            0nat
        }
    }
}

/// Whether two child lists hold the same members, counted with multiplicity
/// and up to equivalence: they are equally long, and each member of the first
/// occurs as often in the second as in the first.
pub open spec fn same_members(c1: Seq<Policy>, c2: Seq<Policy>) -> bool
    decreases c1, 2nat, 0nat,
{
    &&& c1.len() == c2.len()
    &&& forall|i: int|
        0 <= i < c1.len() ==> occurrences(#[trigger] c1[i], c1) == occurrences(c1[i], c2)
}

/// Counting over one more member.
proof fn lemma_occurrences_step(x: Policy, s: Seq<Policy>, j: int)
    requires
        0 <= j < s.len(),
    ensures
        occurrences(x, s.take(j + 1)) == occurrences(x, s.take(j)) + if equivalent(x, s[j]) {
            1nat
        } else {
            0nat
        },
        occurrences(x, s.take(0)) == 0,
{
    assert(s.take(j + 1).drop_last() =~= s.take(j));
    assert(s.take(j + 1).last() == s[j]);
}

/// Counting over two lists laid end to end adds the counts.
pub proof fn lemma_occurrences_concat(x: Policy, a: Seq<Policy>, b: Seq<Policy>)
    ensures
        occurrences(x, a + b) == occurrences(x, a) + occurrences(x, b),
    decreases b.len(),
{
    if b.len() == 0 {
        assert(a + b =~= a);
    } else {
        assert((a + b).drop_last() =~= a + b.drop_last());
        assert((a + b).last() == b.last());
        lemma_occurrences_concat(x, a, b.drop_last());
    }
}

/// Where `x` and `y` equal the same members of `s`, they occur equally often.
pub proof fn lemma_occurrences_same(x: Policy, y: Policy, s: Seq<Policy>)
    requires
        forall|j: int| 0 <= j < s.len() ==> equivalent(x, #[trigger] s[j]) == equivalent(y, s[j]),
    ensures
        occurrences(x, s) == occurrences(y, s),
    decreases s.len(),
{
    if s.len() > 0 {
        let rest = s.drop_last();
        assert forall|j: int| 0 <= j < rest.len() implies equivalent(x, #[trigger] rest[j])
            == equivalent(y, rest[j]) by {
            assert(rest[j] == s[j]);
        }
        lemma_occurrences_same(x, y, rest);
        assert(equivalent(x, s[s.len() - 1]) == equivalent(y, s[s.len() - 1]));
    }
}

/// Taking a member out lowers the count by one where `x` equals that member.
proof fn lemma_occurrences_remove(x: Policy, s: Seq<Policy>, k: int)
    requires
        0 <= k < s.len(),
    ensures
        occurrences(x, s) == occurrences(x, s.remove(k)) + if equivalent(x, s[k]) {
            1nat
        } else {
            0nat
        },
    decreases s.len(),
{
    if k == s.len() - 1 {
        assert(s.remove(k) =~= s.drop_last());
    } else {
        lemma_occurrences_remove(x, s.drop_last(), k);
        assert(s.remove(k).drop_last() =~= s.drop_last().remove(k));
        assert(s.remove(k).last() == s.last());
        assert(s.drop_last()[k] == s[k]);
    }
}

/// Two lists with the same members in any order hold `x` equally often.
proof fn lemma_occurrences_permuted(x: Policy, c1: Seq<Policy>, c2: Seq<Policy>)
    requires
        c1.to_multiset() == c2.to_multiset(),
    ensures
        occurrences(x, c1) == occurrences(x, c2),
        c1.len() == c2.len(),
    decreases c1.len(),
{
    to_multiset_len(c1);
    to_multiset_len(c2);
    if c1.len() > 0 {
        let at = c1.len() - 1;
        let last = c1[at];
        assert(c1.contains(last));
        to_multiset_contains(c1, last);
        to_multiset_contains(c2, last);
        let k = choose|k: int| 0 <= k < c2.len() && c2[k] == last;
        to_multiset_remove(c1, at);
        to_multiset_remove(c2, k);
        assert(c1.remove(at) =~= c1.drop_last());
        lemma_occurrences_permuted(x, c1.drop_last(), c2.remove(k));
        lemma_occurrences_remove(x, c2, k);
    }
}

/// How often `x` occurs in a list of two.
proof fn lemma_occurrences_pair(x: Policy, a: Policy, b: Policy)
    ensures
        occurrences(x, seq![a, b]) == (if equivalent(x, a) {
            1nat
        } else {
            0nat
        }) + (if equivalent(x, b) {
            1nat
        } else {
            0nat
        }),
{
    let both = seq![a, b];
    let first = both.drop_last();
    assert(first =~= seq![a]);
    assert(first.drop_last() =~= Seq::<Policy>::empty());
    assert(occurrences(x, first.drop_last()) == 0);
    assert(occurrences(x, first) == occurrences(x, first.drop_last()) + if equivalent(
        x,
        first.last(),
    ) {
        1nat
    } else {
        0nat
    });
}

/// Every policy is equivalent to itself.
pub proof fn law_reflexive(policy: Policy)
    ensures
        equivalent(policy, policy),
{
    match policy {
        Policy::And(c) => {
            assert(same_members(c, c));
        },
        Policy::Or(c) => {
            assert(same_members(c, c));
        },
        Policy::AtLeast(c, _) => {
            assert(same_members(c, c));
        },
        Policy::Principal(_, _) => {},
    }
}

/// The order of children does not matter: two lists that hold the same
/// children, each as often as the other, make equivalent combinators.
pub proof fn law_order_of_children(c1: Seq<Policy>, c2: Seq<Policy>, threshold: nat)
    requires
        c1.to_multiset() == c2.to_multiset(),
    ensures
        same_members(c1, c2),
        equivalent(Policy::And(c1), Policy::And(c2)),
        equivalent(Policy::Or(c1), Policy::Or(c2)),
        equivalent(Policy::AtLeast(c1, threshold), Policy::AtLeast(c2, threshold)),
{
    to_multiset_len(c1);
    to_multiset_len(c2);
    assert forall|i: int| 0 <= i < c1.len() implies occurrences(#[trigger] c1[i], c1)
        == occurrences(c1[i], c2) by {
        lemma_occurrences_permuted(c1[i], c1, c2);
    }
}

/// The order of two children does not matter: a combinator over `a` and `b`
/// is equivalent to the same combinator over `b` and `a`.
pub proof fn law_two_children_commute(a: Policy, b: Policy, threshold: nat)
    ensures
        equivalent(Policy::And(seq![a, b]), Policy::And(seq![b, a])),
        equivalent(Policy::Or(seq![a, b]), Policy::Or(seq![b, a])),
        equivalent(Policy::AtLeast(seq![a, b], threshold), Policy::AtLeast(seq![b, a], threshold)),
{
    let ab = seq![a, b];
    let ba = seq![b, a];
    assert forall|i: int| 0 <= i < ab.len() implies occurrences(#[trigger] ab[i], ab)
        == occurrences(ab[i], ba) by {
        lemma_occurrences_pair(ab[i], a, b);
        lemma_occurrences_pair(ab[i], b, a);
    }
    assert(same_members(ab, ba));
}

/// Counts the members of `s` that equal `x`.
fn count_equal(x: &Expression, s: &Vec<Expression>) -> (n: usize)
    ensures
        n == occurrences(x@, policies(s@)),
    decreases x, 1nat,
{
    let ghost all = policies(s@);
    proof {
        lemma_policies(s@);
    }
    let mut n: usize = 0;
    let mut j: usize = 0;
    assert(occurrences(x@, all.take(0)) == 0);
    while j < s.len()
        invariant
            j <= s.len(),
            n <= j,
            all == policies(s@),
            all.len() == s.len(),
            forall|i: int| 0 <= i < s.len() ==> #[trigger] all[i] == s[i]@,
            n == occurrences(x@, all.take(j as int)),
        decreases s.len() - j,
    {
        proof {
            lemma_occurrences_step(x@, all, j as int);
        }
        if expression_eq(x, &s[j]) {
            n += 1;
        }
        j += 1;
    }
    assert(all.take(s.len() as int) =~= all);
    n
}

/// Compares two lists of expressions without regard to order.
pub fn iters_equal_anyorder(i1: &Vec<Expression>, i2: &Vec<Expression>) -> (res: bool)
    ensures
        res == same_members(policies(i1@), policies(i2@)),
    decreases i1, 2nat,
{
    let ghost c1 = policies(i1@);
    let ghost c2 = policies(i2@);
    proof {
        lemma_policies(i1@);
        lemma_policies(i2@);
    }
    if i1.len() != i2.len() {
        return false;
    }
    let mut i: usize = 0;
    while i < i1.len()
        invariant
            i <= i1.len(),
            c1 == policies(i1@),
            c2 == policies(i2@),
            c1.len() == i1.len(),
            c1.len() == c2.len(),
            forall|j: int| 0 <= j < i1.len() ==> #[trigger] c1[j] == i1[j]@,
            forall|j: int| 0 <= j < i ==> occurrences(#[trigger] c1[j], c1) == occurrences(c1[j], c2),
        decreases i1.len() - i,
    {
        let here = count_equal(&i1[i], i1);
        let there = count_equal(&i1[i], i2);
        if here != there {
            assert(occurrences(c1[i as int], c1) != occurrences(c1[i as int], c2));
            return false;
        }
        i += 1;
    }
    true
}

/// Compares two expressions without regard to the order of children.
pub fn expression_eq(a: &Expression, b: &Expression) -> (res: bool)
    ensures
        res == equivalent(a@, b@),
    decreases a, 0nat,
{
    match a {
        Expression::AND(e1) => match b {
            Expression::AND(e2) => iters_equal_anyorder(e1, e2),
            _ => false,
        },
        Expression::OR(e1) => match b {
            Expression::OR(e2) => iters_equal_anyorder(e1, e2),
            _ => false,
        },
        Expression::OUTOF(e1, i1) => match b {
            Expression::OUTOF(e2, i2) => iters_equal_anyorder(e1, e2) && *i1 == *i2,
            _ => false,
        },
        Expression::Principal(s1, r1) => match b {
            Expression::Principal(s2, r2) => *s1 == *s2 && *r1 == *r2,
            _ => false,
        },
    }
}

impl PartialEq for Expression {
    fn eq(&self, other: &Self) -> (res: bool) {
        expression_eq(self, other)
    }
}

impl PartialEqSpecImpl for Expression {
    open spec fn obeys_eq_spec() -> bool {
        true
    }

    open spec fn eq_spec(&self, other: &Self) -> bool {
        equivalent(self@, other@)
    }
}

impl Eq for Expression {

}

} // verus!
