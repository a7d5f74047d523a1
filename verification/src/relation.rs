//! Equivalence of policies is an equivalence relation.

use crate::equivalence::{
    equivalent, law_reflexive, lemma_occurrences_same, occurrences, same_members,
};
use crate::expression::Policy;
use vstd::prelude::*;

verus! {

/// The children of a combinator; a principal has none.
spec fn children_of(policy: Policy) -> Seq<Policy> {
    match policy {
        Policy::And(children) => children,
        Policy::Or(children) => children,
        Policy::AtLeast(children, _) => children,
        Policy::Principal(_, _) => Seq::empty(),
    }
}

/// How many combinators lie on the longest path down from a policy.
spec fn depth(policy: Policy) -> nat
    decreases policy, 0nat,
{
    match policy {
        Policy::And(children) => 1 + deepest(children),
        Policy::Or(children) => 1 + deepest(children),
        Policy::AtLeast(children, _) => 1 + deepest(children),
        Policy::Principal(_, _) => 0,
    }
}

/// The greatest depth among a list of policies.
spec fn deepest(children: Seq<Policy>) -> nat
    decreases children, 1nat,
{
    if children.len() == 0 {
        0
    } else {
        let rest = deepest(children.drop_last());
        let last = depth(children.last());
        if last > rest {
            last
        } else {
            rest
        }
    }
}

proof fn lemma_child_depth(children: Seq<Policy>, i: int)
    requires
        0 <= i < children.len(),
    ensures
        depth(children[i]) <= deepest(children),
    decreases children.len(),
{
    if i < children.len() - 1 {
        lemma_child_depth(children.drop_last(), i);
        assert(children.drop_last()[i] == children[i]);
    }
}

/// Whether every member of `s` is less than `h` deep.
spec fn shallow(s: Seq<Policy>, h: nat) -> bool {
    forall|i: int| 0 <= i < s.len() ==> depth(#[trigger] s[i]) < h
}

proof fn lemma_children_shallow(policy: Policy, h: nat)
    requires
        depth(policy) <= h,
    ensures
        shallow(children_of(policy), h),
{
    let children = children_of(policy);
    assert forall|i: int| 0 <= i < children.len() implies depth(#[trigger] children[i]) < h by {
        lemma_child_depth(children, i);
    }
}

/// Whether equivalence is symmetric and transitive among the policies less
/// than `h` deep.
#[verifier::opaque]
spec fn settled(h: nat) -> bool {
    &&& forall|u: Policy, v: Policy|
        depth(u) < h && depth(v) < h && #[trigger] equivalent(u, v) ==> equivalent(v, u)
    &&& forall|u: Policy, v: Policy, w: Policy|
        depth(u) < h && depth(v) < h && depth(w) < h && #[trigger] equivalent(u, v)
            && #[trigger] equivalent(v, w) ==> equivalent(u, w)
}

proof fn lemma_flip(h: nat, u: Policy, v: Policy)
    requires
        settled(h),
        depth(u) < h,
        depth(v) < h,
    ensures
        equivalent(u, v) == equivalent(v, u),
{
    reveal(settled);
}

proof fn lemma_chain(h: nat, u: Policy, v: Policy, w: Policy)
    requires
        settled(h),
        depth(u) < h,
        depth(v) < h,
        depth(w) < h,
        equivalent(u, v),
        equivalent(v, w),
    ensures
        equivalent(u, w),
{
    reveal(settled);
}

/// Two equivalent policies occur equally often in any list.
proof fn lemma_same_class_counts(h: nat, x: Policy, y: Policy, s: Seq<Policy>)
    requires
        settled(h),
        depth(x) < h,
        depth(y) < h,
        shallow(s, h),
        equivalent(x, y),
    ensures
        occurrences(x, s) == occurrences(y, s),
{
    lemma_flip(h, x, y);
    assert forall|j: int| 0 <= j < s.len() implies equivalent(x, #[trigger] s[j]) == equivalent(
        y,
        s[j],
    ) by {
        if equivalent(x, s[j]) {
            lemma_chain(h, y, x, s[j]);
        }
        if equivalent(y, s[j]) {
            lemma_chain(h, x, y, s[j]);
        }
    }
    lemma_occurrences_same(x, y, s);
}

/// A member that `x` equals is counted.
proof fn lemma_occurs(x: Policy, s: Seq<Policy>, j: int)
    requires
        0 <= j < s.len(),
        equivalent(x, s[j]),
    ensures
        occurrences(x, s) >= 1,
    decreases s.len(),
{
    if j < s.len() - 1 {
        lemma_occurs(x, s.drop_last(), j);
        assert(s.drop_last()[j] == s[j]);
    }
}

/// Where `x` occurs at all, it equals some member.
proof fn lemma_find(x: Policy, s: Seq<Policy>) -> (j: int)
    requires
        occurrences(x, s) >= 1,
    ensures
        0 <= j < s.len(),
        equivalent(x, s[j]),
    decreases s.len(),
{
    if equivalent(x, s.last()) {
        s.len() - 1
    } else {
        let j = lemma_find(x, s.drop_last());
        assert(s.drop_last()[j] == s[j]);
        j
    }
}

/// The members of `s` that `x` does not equal, in order.
spec fn without(x: Policy, s: Seq<Policy>) -> Seq<Policy>
    decreases s.len(),
{
    if s.len() == 0 {
        Seq::empty()
    } else {
        let rest = without(x, s.drop_last());
        if equivalent(x, s.last()) {
            rest
        } else {
            rest.push(s.last())
        }
    }
}

proof fn lemma_without_len(x: Policy, s: Seq<Policy>)
    ensures
        without(x, s).len() + occurrences(x, s) == s.len(),
    decreases s.len(),
{
    if s.len() > 0 {
        lemma_without_len(x, s.drop_last());
    }
}

/// Each member of `without(x, s)` is a member of `s` that `x` does not equal.
proof fn lemma_without_member(x: Policy, s: Seq<Policy>, i: int) -> (j: int)
    requires
        0 <= i < without(x, s).len(),
    ensures
        0 <= j < s.len(),
        s[j] == without(x, s)[i],
        !equivalent(x, s[j]),
    decreases s.len(),
{
    let rest = s.drop_last();
    if !equivalent(x, s.last()) && i == without(x, rest).len() {
        s.len() - 1
    } else {
        let j = lemma_without_member(x, rest, i);
        assert(rest[j] == s[j]);
        j
    }
}

/// Each member of `s` that `x` does not equal is a member of `without(x, s)`.
proof fn lemma_without_keeps(x: Policy, s: Seq<Policy>, k: int) -> (i: int)
    requires
        0 <= k < s.len(),
        !equivalent(x, s[k]),
    ensures
        0 <= i < without(x, s).len(),
        without(x, s)[i] == s[k],
    decreases s.len(),
{
    let rest = s.drop_last();
    if k == s.len() - 1 {
        without(x, rest).len() as int
    } else {
        assert(rest[k] == s[k]);
        lemma_without_keeps(x, rest, k)
    }
}

proof fn lemma_without_shallow(x: Policy, s: Seq<Policy>, h: nat)
    requires
        shallow(s, h),
    ensures
        shallow(without(x, s), h),
{
    let kept = without(x, s);
    assert forall|i: int| 0 <= i < kept.len() implies depth(#[trigger] kept[i]) < h by {
        let j = lemma_without_member(x, s, i);
    }
}

/// Taking out the members that `x` equals takes out none that `y` equals,
/// where `x` and `y` are not equivalent.
proof fn lemma_without_counts(h: nat, x: Policy, y: Policy, s: Seq<Policy>)
    requires
        settled(h),
        depth(x) < h,
        depth(y) < h,
        shallow(s, h),
        !equivalent(x, y),
    ensures
        occurrences(y, without(x, s)) == occurrences(y, s),
    decreases s.len(),
{
    if s.len() > 0 {
        let rest = s.drop_last();
        let last = s.last();
        assert(depth(s[s.len() - 1]) < h);
        assert forall|i: int| 0 <= i < rest.len() implies depth(#[trigger] rest[i]) < h by {
            assert(rest[i] == s[i]);
        }
        lemma_without_counts(h, x, y, rest);
        if equivalent(x, last) {
            if equivalent(y, last) {
                lemma_flip(h, y, last);
                lemma_chain(h, x, last, y);
            }
        } else {
            let kept = without(x, s);
            assert(kept.drop_last() =~= without(x, rest));
            assert(kept.last() == last);
        }
    }
}

/// Whether each member of `c1` occurs as often in `c2` as in `c1`.
spec fn counts_agree(c1: Seq<Policy>, c2: Seq<Policy>) -> bool {
    forall|i: int| 0 <= i < c1.len() ==> occurrences(#[trigger] c1[i], c1) == occurrences(c1[i], c2)
}

/// Where two equally long lists agree on the counts of the first one's
/// members, every member of the second equals some member of the first.
proof fn lemma_all_covered(h: nat, c1: Seq<Policy>, c2: Seq<Policy>)
    requires
        settled(h),
        shallow(c1, h),
        shallow(c2, h),
        c1.len() == c2.len(),
        counts_agree(c1, c2),
    ensures
        forall|k: int| 0 <= k < c2.len() ==> occurrences(#[trigger] c2[k], c1) >= 1,
    decreases c1.len(),
{
    if c1.len() > 0 {
        let at = c1.len() - 1;
        let x = c1[at];
        let r1 = without(x, c1);
        let r2 = without(x, c2);
        law_reflexive(x);
        lemma_occurs(x, c1, at);
        lemma_without_len(x, c1);
        lemma_without_len(x, c2);
        lemma_without_shallow(x, c1, h);
        lemma_without_shallow(x, c2, h);
        assert(occurrences(c1[at], c1) == occurrences(c1[at], c2));
        assert forall|i: int| 0 <= i < r1.len() implies occurrences(#[trigger] r1[i], r1)
            == occurrences(r1[i], r2) by {
            let j = lemma_without_member(x, c1, i);
            lemma_without_counts(h, x, c1[j], c1);
            lemma_without_counts(h, x, c1[j], c2);
            assert(occurrences(c1[j], c1) == occurrences(c1[j], c2));
        }
        lemma_all_covered(h, r1, r2);
        assert forall|k: int| 0 <= k < c2.len() implies occurrences(#[trigger] c2[k], c1)
            >= 1 by {
            let y = c2[k];
            if equivalent(x, y) {
                lemma_flip(h, x, y);
                lemma_occurs(y, c1, at);
            } else {
                let i = lemma_without_keeps(x, c2, k);
                assert(occurrences(r2[i], r1) >= 1);
                lemma_without_counts(h, x, y, c1);
            }
        }
    }
}

/// Having the same members is symmetric, where equivalence of the members is
/// settled.
proof fn lemma_members_symmetric(h: nat, c1: Seq<Policy>, c2: Seq<Policy>)
    requires
        settled(h),
        shallow(c1, h),
        shallow(c2, h),
        same_members(c1, c2),
    ensures
        same_members(c2, c1),
{
    assert(counts_agree(c1, c2));
    lemma_all_covered(h, c1, c2);
    assert forall|k: int| 0 <= k < c2.len() implies occurrences(#[trigger] c2[k], c2)
        == occurrences(c2[k], c1) by {
        let y = c2[k];
        assert(occurrences(c2[k], c1) >= 1);
        let i = lemma_find(y, c1);
        lemma_same_class_counts(h, y, c1[i], c2);
        lemma_same_class_counts(h, y, c1[i], c1);
        assert(occurrences(c1[i], c1) == occurrences(c1[i], c2));
    }
}

/// Having the same members is transitive, where equivalence of the members
/// is settled.
proof fn lemma_members_transitive(h: nat, c1: Seq<Policy>, c2: Seq<Policy>, c3: Seq<Policy>)
    requires
        settled(h),
        shallow(c1, h),
        shallow(c2, h),
        shallow(c3, h),
        same_members(c1, c2),
        same_members(c2, c3),
    ensures
        same_members(c1, c3),
{
    assert forall|i: int| 0 <= i < c1.len() implies occurrences(#[trigger] c1[i], c1)
        == occurrences(c1[i], c3) by {
        let x = c1[i];
        law_reflexive(x);
        lemma_occurs(x, c1, i);
        assert(occurrences(c1[i], c1) == occurrences(c1[i], c2));
        let k = lemma_find(x, c2);
        lemma_same_class_counts(h, x, c2[k], c2);
        lemma_same_class_counts(h, x, c2[k], c3);
        assert(occurrences(c2[k], c2) == occurrences(c2[k], c3));
    }
}

/// Equivalence is settled at every depth.
proof fn lemma_settled(h: nat)
    ensures
        settled(h),
    decreases h,
{
    reveal(settled);
    if h > 0 {
        let below = (h - 1) as nat;
        lemma_settled(below);
        assert forall|u: Policy, v: Policy|
            depth(u) < h && depth(v) < h && #[trigger] equivalent(u, v) implies equivalent(
            v,
            u,
        ) by {
            lemma_children_shallow(u, below);
            lemma_children_shallow(v, below);
            if !(u is Principal) {
                assert(same_members(children_of(u), children_of(v)));
                lemma_members_symmetric(below, children_of(u), children_of(v));
            }
        }
        assert forall|u: Policy, v: Policy, w: Policy|
            depth(u) < h && depth(v) < h && depth(w) < h && #[trigger] equivalent(u, v)
                && #[trigger] equivalent(v, w) implies equivalent(u, w) by {
            lemma_children_shallow(u, below);
            lemma_children_shallow(v, below);
            lemma_children_shallow(w, below);
            if !(u is Principal) {
                assert(same_members(children_of(u), children_of(v)));
                assert(same_members(children_of(v), children_of(w)));
                lemma_members_transitive(below, children_of(u), children_of(v), children_of(w));
            }
        }
    }
}

/// Equivalence is symmetric.
pub proof fn law_symmetric(a: Policy, b: Policy)
    ensures
        equivalent(a, b) == equivalent(b, a),
{
    let h = depth(a) + depth(b) + 1;
    lemma_settled(h);
    lemma_flip(h, a, b);
}

/// Equivalence is transitive.
pub proof fn law_transitive(a: Policy, b: Policy, c: Policy)
    requires
        equivalent(a, b),
        equivalent(b, c),
    ensures
        equivalent(a, c),
{
    let h = depth(a) + depth(b) + depth(c) + 1;
    lemma_settled(h);
    lemma_chain(h, a, b, c);
}

/// Lists that are equivalent member by member hold `x` equally often.
proof fn lemma_occurrences_pointwise(x: Policy, s1: Seq<Policy>, s2: Seq<Policy>)
    requires
        s1.len() == s2.len(),
        forall|j: int|
            0 <= j < s1.len() ==> equivalent(x, #[trigger] s1[j]) == equivalent(x, s2[j]),
    ensures
        occurrences(x, s1) == occurrences(x, s2),
    decreases s1.len(),
{
    if s1.len() > 0 {
        let r1 = s1.drop_last();
        let r2 = s2.drop_last();
        assert forall|j: int| 0 <= j < r1.len() implies equivalent(x, #[trigger] r1[j])
            == equivalent(x, r2[j]) by {
            assert(r1[j] == s1[j]);
            assert(r2[j] == s2[j]);
        }
        lemma_occurrences_pointwise(x, r1, r2);
        assert(equivalent(x, s1[s1.len() - 1]) == equivalent(x, s2[s1.len() - 1]));
    }
}

/// Equivalence reaches through every level: combinators of the same variant
/// whose children are equivalent one by one are equivalent.
pub proof fn law_equivalent_children(c1: Seq<Policy>, c2: Seq<Policy>, threshold: nat)
    requires
        c1.len() == c2.len(),
        forall|i: int| 0 <= i < c1.len() ==> equivalent(#[trigger] c1[i], c2[i]),
    ensures
        same_members(c1, c2),
        equivalent(Policy::And(c1), Policy::And(c2)),
        equivalent(Policy::Or(c1), Policy::Or(c2)),
        equivalent(Policy::AtLeast(c1, threshold), Policy::AtLeast(c2, threshold)),
{
    assert forall|i: int| 0 <= i < c1.len() implies occurrences(#[trigger] c1[i], c1)
        == occurrences(c1[i], c2) by {
        assert forall|j: int| 0 <= j < c1.len() implies equivalent(c1[i], #[trigger] c1[j])
            == equivalent(c1[i], c2[j]) by {
            assert(equivalent(c1[j], c2[j]));
            law_symmetric(c1[j], c2[j]);
            if equivalent(c1[i], c1[j]) {
                law_transitive(c1[i], c1[j], c2[j]);
            }
            if equivalent(c1[i], c2[j]) {
                law_transitive(c1[i], c2[j], c1[j]);
            }
        }
        lemma_occurrences_pointwise(c1[i], c1, c2);
    }
}

} // verus!
