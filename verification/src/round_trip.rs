//! What a passage through the wire does to a policy, and the laws that follow.

use crate::decoder::{decode, decode_entries, decode_entry, decode_rules, resolve, role_from_wire};
use crate::encoder::{
    encode, encode_node, leaf_entries, lemma_entries_count, role_to_wire, sub_rules,
};
use crate::equivalence::{
    equivalent, law_reflexive, law_two_children_commute, lemma_occurrences_concat,
    lemma_occurrences_same, occurrences, same_members,
};
use crate::expression::{Policy, ROLE};
use crate::wire::{wrap_i32, Entry, Rule};
use vstd::prelude::*;

verus! {

/// The policies that the wire carries without loss. A principal always is one.
/// A combinator is one when its children are, when its minimum fits the
/// wire's 32-bit field, and when the decoder's inference gives its own variant
/// back: an `And` has not exactly one child, an `Or` is not over one lone
/// principal, and the threshold of an `AtLeast` lies strictly between one and
/// the number of children.
pub open spec fn faithful(policy: Policy) -> bool
    decreases policy,
{
    match policy {
        Policy::Principal(_, _) => true,
        Policy::And(children) => {
            &&& children.len() != 1
            &&& children.len() <= i32::MAX
            &&& forall|i: int| 0 <= i < children.len() ==> faithful(#[trigger] children[i])
        },
        Policy::Or(children) => {
            &&& !(children.len() == 1 && children[0] is Principal)
            &&& forall|i: int| 0 <= i < children.len() ==> faithful(#[trigger] children[i])
        },
        Policy::AtLeast(children, threshold) => {
            &&& 1 < threshold < children.len()
            &&& threshold <= i32::MAX
            &&& forall|i: int| 0 <= i < children.len() ==> faithful(#[trigger] children[i])
        },
    }
}

/// The children that are principals, in order.
pub open spec fn principals_of(children: Seq<Policy>) -> Seq<Policy>
    decreases children.len(),
{
    if children.len() == 0 {
        Seq::empty()
    } else {
        let rest = principals_of(children.drop_last());
        if children.last() is Principal {
            rest.push(children.last())
        } else {
            rest
        }
    }
}

/// The children that are combinators, in order, each regrouped.
pub open spec fn combinators_of(children: Seq<Policy>) -> Seq<Policy>
    decreases children, 1nat,
{
    if children.len() == 0 {
        Seq::empty()
    } else {
        let rest = combinators_of(children.drop_last());
        if children.last() is Principal {
            rest
        } else {
            rest.push(regrouped(children.last()))
        }
    }
}

/// The policy with, at every level, the combinator children moved in front
/// of the principals, each group keeping its order.
pub open spec fn regrouped(policy: Policy) -> Policy
    decreases policy, 0nat,
{
    match policy {
        Policy::And(children) => Policy::And(combinators_of(children) + principals_of(children)),
        Policy::Or(children) => Policy::Or(combinators_of(children) + principals_of(children)),
        Policy::AtLeast(children, threshold) => Policy::AtLeast(
            combinators_of(children) + principals_of(children),
            threshold,
        ),
        Policy::Principal(_, _) => policy,
    }
}

/// Roles keep their name through the wire.
pub proof fn lemma_role_round_trip(role: ROLE)
    ensures
        role_from_wire(role_to_wire(role)) == role,
{
}

/// Regrouping keeps the number of children.
proof fn lemma_regrouped_count(children: Seq<Policy>)
    ensures
        combinators_of(children).len() + principals_of(children).len() == children.len(),
        combinators_of(children).len() == sub_rules(children).len(),
        principals_of(children).len() == leaf_entries(children).len(),
    decreases children.len(),
{
    if children.len() > 0 {
        lemma_regrouped_count(children.drop_last());
    }
}

/// Decoding what a list of faithful children leaves on its node gives the
/// children regrouped.
proof fn lemma_decode_children(children: Seq<Policy>)
    requires
        forall|i: int| 0 <= i < children.len() ==> faithful(#[trigger] children[i]),
    ensures
        decode_rules(sub_rules(children)) == combinators_of(children),
        decode_entries(leaf_entries(children)) == principals_of(children),
    decreases children, 1nat,
{
    lemma_regrouped_count(children);
    if children.len() > 0 {
        let rest = children.drop_last();
        let last = children.last();
        assert forall|i: int| 0 <= i < rest.len() implies faithful(#[trigger] rest[i]) by {
            assert(rest[i] == children[i]);
        }
        lemma_decode_children(rest);
        lemma_regrouped_count(rest);
        assert(faithful(children[children.len() - 1]));
        match last {
            Policy::Principal(identity, role) => {
                lemma_role_round_trip(role);
                assert(sub_rules(children) == sub_rules(rest));
                assert(decode_entries(leaf_entries(children)) =~= principals_of(children));
            },
            _ => {
                lemma_decode_node(last);
                assert(leaf_entries(children) == leaf_entries(rest));
                assert(decode_rules(sub_rules(children)) =~= combinators_of(children));
            },
        }
    } else {
        assert(decode_rules(sub_rules(children)) =~= combinators_of(children));
        assert(decode_entries(leaf_entries(children)) =~= principals_of(children));
    }
}

/// Decoding the wire node of a faithful combinator gives it back regrouped.
proof fn lemma_decode_node(policy: Policy)
    requires
        faithful(policy),
        !(policy is Principal),
    ensures
        decode(encode_node(policy)) == regrouped(policy),
    decreases policy, 0nat,
{
    let children = match policy {
        Policy::And(c) => c,
        Policy::Or(c) => c,
        Policy::AtLeast(c, _) => c,
        Policy::Principal(_, _) => Seq::empty(),
    };
    lemma_decode_children(children);
    lemma_regrouped_count(children);
    lemma_entries_count(children);
    let subs = combinators_of(children);
    let leaves = principals_of(children);
    let node = encode_node(policy);
    assert(decode(node) == resolve(subs, leaves, node.min_endorsements));
    if leaves.len() == 1 && subs.len() == 0 {
        assert(children.len() == 1);
        assert(children.drop_last().len() == 0);
        assert(children[0] is Principal);
    }
}

/// Decoding the top rule of a faithful policy gives the policy regrouped.
pub proof fn lemma_round_trip_regroups(policy: Policy)
    requires
        faithful(policy),
    ensures
        decode(encode(policy)) == regrouped(policy),
{
    let top = encode(policy);
    match policy {
        Policy::Principal(identity, role) => {
            lemma_role_round_trip(role);
            assert(top.principals =~= seq![Entry { msp_id: identity, role: role_to_wire(role) }]);
            assert(top.rules =~= Seq::<Rule>::empty());
            assert(decode_rules(top.rules) =~= Seq::<Policy>::empty());
            assert(decode_entries(top.principals) =~= seq![policy]);
        },
        _ => {
            lemma_decode_node(policy);
            assert(top.rules =~= seq![encode_node(policy)]);
            assert(top.principals =~= Seq::<Entry>::empty());
            assert(decode_entries(top.principals) =~= Seq::<Policy>::empty());
            assert(decode_rules(top.rules) =~= seq![regrouped(policy)]);
            assert(decode_rules(top.rules) + decode_entries(top.principals) =~= seq![
                regrouped(policy),
            ]);
        },
    }
}

/// Where regrouping a member never changes whether `x` equals it, `x` occurs
/// as often among the regrouped children as among the children.
proof fn lemma_occurrences_regrouped(x: Policy, children: Seq<Policy>)
    requires
        forall|j: int|
            0 <= j < children.len() ==> equivalent(x, regrouped(#[trigger] children[j]))
                == equivalent(x, children[j]),
    ensures
        occurrences(x, combinators_of(children) + principals_of(children)) == occurrences(
            x,
            children,
        ),
    decreases children.len(),
{
    let combinators = combinators_of(children);
    let principals = principals_of(children);
    lemma_occurrences_concat(x, combinators, principals);
    if children.len() > 0 {
        let rest = children.drop_last();
        let last = children.last();
        assert forall|j: int| 0 <= j < rest.len() implies equivalent(
            x,
            regrouped(#[trigger] rest[j]),
        ) == equivalent(x, rest[j]) by {
            assert(rest[j] == children[j]);
        }
        lemma_occurrences_regrouped(x, rest);
        lemma_occurrences_concat(x, combinators_of(rest), principals_of(rest));
        assert(equivalent(x, regrouped(children[children.len() - 1])) == equivalent(x, last));
        if last is Principal {
            assert(principals.drop_last() =~= principals_of(rest));
            assert(principals.last() == last);
        } else {
            assert(combinators.drop_last() =~= combinators_of(rest));
            assert(combinators.last() == regrouped(last));
        }
    }
}

/// Whether every member of `s` satisfies `holds`.
spec fn every(s: Seq<Policy>, holds: spec_fn(Policy) -> bool) -> bool {
    forall|i: int| 0 <= i < s.len() ==> holds(#[trigger] s[i])
}

/// A property holds of every regrouped child exactly when it holds of the
/// regrouping of every child.
proof fn lemma_every_regrouped(children: Seq<Policy>, holds: spec_fn(Policy) -> bool)
    ensures
        every(combinators_of(children) + principals_of(children), holds) <==> (forall|j: int|
            0 <= j < children.len() ==> holds(regrouped(#[trigger] children[j]))),
    decreases children.len(),
{
    let combinators = combinators_of(children);
    let principals = principals_of(children);
    let all = combinators + principals;
    lemma_regrouped_count(children);
    if children.len() == 0 {
    } else {
        let rest = children.drop_last();
        let last = children.last();
        let n = children.len() - 1;
        lemma_every_regrouped(rest, holds);
        lemma_regrouped_count(rest);
        let rest_all = combinators_of(rest) + principals_of(rest);
        // the place that the last child's regrouping takes among the regrouped children
        let at = if last is Principal {
            all.len() - 1
        } else {
            combinators.len() - 1
        };
        assert(all[at] == regrouped(last));
        assert(rest_all =~= all.remove(at));
        if every(all, holds) {
            assert forall|j: int| 0 <= j < children.len() implies holds(
                regrouped(#[trigger] children[j]),
            ) by {
                if j < n {
                    assert(rest[j] == children[j]);
                    assert forall|i: int| 0 <= i < rest_all.len() implies holds(
                        #[trigger] rest_all[i],
                    ) by {
                        if i < at {
                            assert(rest_all[i] == all[i]);
                        } else {
                            assert(rest_all[i] == all[i + 1]);
                        }
                    }
                    assert(every(rest_all, holds));
                    assert(holds(regrouped(rest[j])));
                } else {
                    assert(holds(all[at]));
                }
            }
        }
        if forall|j: int| 0 <= j < children.len() ==> holds(regrouped(#[trigger] children[j])) {
            assert forall|j: int| 0 <= j < rest.len() implies holds(
                regrouped(#[trigger] rest[j]),
            ) by {
                assert(rest[j] == children[j]);
            }
            assert(every(rest_all, holds));
            assert(holds(regrouped(children[n])));
            assert forall|i: int| 0 <= i < all.len() implies holds(#[trigger] all[i]) by {
                if i < at {
                    assert(all[i] == rest_all[i]);
                } else if i == at {
                } else {
                    assert(all[i] == rest_all[i - 1]);
                }
            }
        }
    }
}

/// Regrouping the second of two policies does not change whether they are
/// equivalent.
pub proof fn lemma_regrouped_right(y: Policy, x: Policy)
    ensures
        equivalent(y, regrouped(x)) == equivalent(y, x),
    decreases x,
{
    let (cx, cy) = match (x, y) {
        (Policy::And(cx), Policy::And(cy)) => (cx, cy),
        (Policy::Or(cx), Policy::Or(cy)) => (cx, cy),
        (Policy::AtLeast(cx, _), Policy::AtLeast(cy, _)) => (cx, cy),
        _ => (Seq::empty(), Seq::empty()),
    };
    let moved = combinators_of(cx) + principals_of(cx);
    lemma_regrouped_count(cx);
    assert forall|i: int| 0 <= i < cy.len() implies occurrences(#[trigger] cy[i], moved)
        == occurrences(cy[i], cx) by {
        assert forall|j: int| 0 <= j < cx.len() implies equivalent(
            cy[i],
            regrouped(#[trigger] cx[j]),
        ) == equivalent(cy[i], cx[j]) by {
            lemma_regrouped_right(cy[i], cx[j]);
        }
        lemma_occurrences_regrouped(cy[i], cx);
    }
    assert(same_members(cy, moved) == same_members(cy, cx));
}

/// Regrouping the first of two policies does not change whether they are
/// equivalent.
pub proof fn lemma_regrouped_left(x: Policy, y: Policy)
    ensures
        equivalent(regrouped(x), y) == equivalent(x, y),
    decreases x,
{
    let (cx, cy) = match (x, y) {
        (Policy::And(cx), Policy::And(cy)) => (cx, cy),
        (Policy::Or(cx), Policy::Or(cy)) => (cx, cy),
        (Policy::AtLeast(cx, _), Policy::AtLeast(cy, _)) => (cx, cy),
        _ => (Seq::empty(), Seq::empty()),
    };
    let moved = combinators_of(cx) + principals_of(cx);
    lemma_regrouped_count(cx);
    let holds = |w: Policy| occurrences(w, moved) == occurrences(w, cy);
    assert forall|j: int| 0 <= j < cx.len() implies (holds(regrouped(#[trigger] cx[j])) <==> (
    occurrences(cx[j], cx) == occurrences(cx[j], cy))) by {
        let z = regrouped(cx[j]);
        assert forall|l: int| 0 <= l < cx.len() implies equivalent(z, regrouped(#[trigger] cx[l]))
            == equivalent(z, cx[l]) by {
            lemma_regrouped_right(z, cx[l]);
        }
        lemma_occurrences_regrouped(z, cx);
        assert forall|l: int| 0 <= l < cx.len() implies equivalent(z, #[trigger] cx[l])
            == equivalent(cx[j], cx[l]) by {
            lemma_regrouped_left(cx[j], cx[l]);
        }
        lemma_occurrences_same(z, cx[j], cx);
        assert forall|l: int| 0 <= l < cy.len() implies equivalent(z, #[trigger] cy[l])
            == equivalent(cx[j], cy[l]) by {
            lemma_regrouped_left(cx[j], cy[l]);
        }
        lemma_occurrences_same(z, cx[j], cy);
    }
    lemma_every_regrouped(cx, holds);
    assert(every(moved, holds) <==> (forall|i: int|
        0 <= i < moved.len() ==> occurrences(#[trigger] moved[i], moved) == occurrences(
            moved[i],
            cy,
        )));
    assert(same_members(moved, cy) == same_members(cx, cy));
}

/// A faithful policy comes back from the wire as an equivalent policy:
/// decoding the top rule that it encodes to gives a policy equivalent to it,
/// whichever of the two is put first.
pub proof fn law_round_trip(policy: Policy)
    requires
        faithful(policy),
    ensures
        equivalent(decode(encode(policy)), policy),
        equivalent(policy, decode(encode(policy))),
{
    lemma_round_trip_regroups(policy);
    lemma_regrouped_left(policy, policy);
    lemma_regrouped_right(policy, policy);
    law_reflexive(policy);
}

/// A passage through the wire changes nothing that equivalence can see: what
/// a faithful policy decodes to is equivalent to exactly the policies that the
/// policy itself is equivalent to.
pub proof fn law_round_trip_keeps_equivalences(policy: Policy, other: Policy)
    requires
        faithful(policy),
    ensures
        equivalent(decode(encode(policy)), other) == equivalent(policy, other),
        equivalent(other, decode(encode(policy))) == equivalent(other, policy),
{
    lemma_round_trip_regroups(policy);
    lemma_regrouped_left(policy, other);
    lemma_regrouped_right(other, policy);
}

/// A principal comes back from the wire as itself.
pub proof fn law_principal_round_trip(identity: Seq<char>, role: ROLE)
    ensures
        decode(encode(Policy::Principal(identity, role))) == Policy::Principal(identity, role),
{
    lemma_round_trip_regroups(Policy::Principal(identity, role));
}

/// A threshold of one is an `Or` on the wire: both encode to the same rule,
/// and where the `Or` is faithful the `AtLeast` decodes to a policy equivalent
/// to the `Or`.
pub proof fn law_threshold_one_is_or(children: Seq<Policy>)
    ensures
        encode(Policy::AtLeast(children, 1)) == encode(Policy::Or(children)),
        faithful(Policy::Or(children)) ==> equivalent(
            decode(encode(Policy::AtLeast(children, 1))),
            Policy::Or(children),
        ),
{
    assert(wrap_i32(1) == 1);
    if faithful(Policy::Or(children)) {
        law_round_trip(Policy::Or(children));
    }
}

/// A threshold equal to the number of children is an `And` on the wire: both
/// encode to the same rule, and where the `And` is faithful the `AtLeast`
/// decodes to a policy equivalent to the `And`.
pub proof fn law_threshold_all_is_and(children: Seq<Policy>)
    ensures
        encode(Policy::AtLeast(children, children.len())) == encode(Policy::And(children)),
        faithful(Policy::And(children)) ==> equivalent(
            decode(encode(Policy::AtLeast(children, children.len()))),
            Policy::And(children),
        ),
{
    if faithful(Policy::And(children)) {
        law_round_trip(Policy::And(children));
    }
}

/// The order of two children survives the wire as little as it matters
/// before: where an `And` over `a` and `b` is faithful, what either order
/// decodes to is equivalent to both orders.
pub proof fn law_order_independence(a: Policy, b: Policy)
    requires
        faithful(Policy::And(seq![a, b])),
    ensures
        equivalent(Policy::And(seq![a, b]), Policy::And(seq![b, a])),
        equivalent(decode(encode(Policy::And(seq![a, b]))), Policy::And(seq![a, b])),
        equivalent(decode(encode(Policy::And(seq![a, b]))), Policy::And(seq![b, a])),
        equivalent(decode(encode(Policy::And(seq![b, a]))), Policy::And(seq![a, b])),
        equivalent(decode(encode(Policy::And(seq![b, a]))), Policy::And(seq![b, a])),
{
    let ab = Policy::And(seq![a, b]);
    let ba = Policy::And(seq![b, a]);
    assert(faithful(ba)) by {
        assert(faithful(seq![a, b][0]));
        assert(faithful(seq![a, b][1]));
    }
    law_two_children_commute(a, b, 0);
    law_two_children_commute(b, a, 0);
    law_round_trip_keeps_equivalences(ab, ab);
    law_round_trip_keeps_equivalences(ab, ba);
    law_round_trip_keeps_equivalences(ba, ab);
    law_round_trip_keeps_equivalences(ba, ba);
    law_reflexive(ab);
    law_reflexive(ba);
}

/// A minimum of zero on a node with two or more entries stands for the first
/// entry alone, sub-rules counted before principals.
pub proof fn law_zero_minimum_takes_first(rule: Rule)
    requires
        rule.min_endorsements == 0,
        rule.total() >= 2,
    ensures
        decode(rule) == (decode_rules(rule.rules) + decode_entries(rule.principals))[0],
        rule.rules.len() > 0 ==> decode(rule) == decode(rule.rules[0]),
        rule.rules.len() == 0 ==> decode(rule) == decode_entry(rule.principals[0]),
{
    assert(decode_rules(rule.rules).len() == rule.rules.len());
    if rule.rules.len() > 0 {
        assert(decode_rules(rule.rules)[0] == decode(rule.rules[0]));
    }
}

} // verus!
