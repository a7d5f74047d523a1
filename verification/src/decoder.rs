//! Reconstructing a policy expression from the wire rule tree, which means
//! inferring each node's combinator from its minimum and its entry count.

use crate::expression::{lemma_policies, policies, Expression, Policy, ROLE};
use crate::wire::{lemma_rule_values, threshold_from_wire, threshold_of, Entry, Rule, WireRole, WireRule};
use vstd::prelude::*;

verus! {

/// The policy role of a wire role: the one of the same name.
pub open spec fn role_from_wire(role: WireRole) -> ROLE {
    match role {
        WireRole::MEMBER => ROLE::MEMBER,
        WireRole::ADMIN => ROLE::ADMIN,
        WireRole::CLIENT => ROLE::CLIENT,
        WireRole::PEER => ROLE::PEER,
    }
}

/// The principal that a wire entry stands for.
pub open spec fn decode_entry(entry: Entry) -> Policy {
    Policy::Principal(entry.msp_id, role_from_wire(entry.role))
}

/// The principals that a node's entries stand for, in order.
pub open spec fn decode_entries(principals: Seq<Entry>) -> Seq<Policy> {
    Seq::new(principals.len(), |i: int| decode_entry(principals[i]))
}

/// The policies that a node's sub-rules stand for, in order.
pub open spec fn decode_rules(rules: Seq<Rule>) -> Seq<Policy>
    decreases rules, 1nat,
{
    Seq::new(
        rules.len(),
        |i: int|
            if 0 <= i < rules.len() {
                decode(rules[i])
            } else {
                arbitrary()
            },
    )
}

/// The combinator inferred for a node, given what its sub-rules and its
/// principals decode to and its minimum. In order of priority:
/// a lone principal stands for itself; a minimum of one is an `Or`; a minimum
/// equal to the number of entries is an `And`; a minimum of zero stands for the
/// first entry alone; anything else is an `AtLeast` with the minimum as its
/// threshold. Sub-rules come before principals among the children.
pub open spec fn resolve(subs: Seq<Policy>, leaves: Seq<Policy>, min: int) -> Policy {
    let combined = subs + leaves;
    if leaves.len() == 1 && subs.len() == 0 {
        leaves[0]
    } else if min == 1 {
        Policy::Or(combined)
    } else if min == combined.len() {
        Policy::And(combined)
    } else if min == 0 {
        combined[0]
    } else {
        Policy::AtLeast(combined, threshold_of(min))
    }
}

/// The policy that a wire rule stands for.
pub open spec fn decode(rule: Rule) -> Policy
    decreases rule, 0nat,
{
    resolve(decode_rules(rule.rules), decode_entries(rule.principals), rule.min_endorsements)
}

/// What a list of sub-rules decodes to is what its members decode to.
pub proof fn lemma_decode_rules(rules: Seq<Rule>)
    ensures
        decode_rules(rules).len() == rules.len(),
        forall|i: int| 0 <= i < rules.len() ==> #[trigger] decode_rules(rules)[i] == decode(rules[i]),
{
}

/// Maps a wire role to the policy role of the same name.
pub fn policy_role(role: WireRole) -> (res: ROLE)
    ensures
        res == role_from_wire(role),
{
    match role {
        WireRole::MEMBER => ROLE::MEMBER,
        WireRole::ADMIN => ROLE::ADMIN,
        WireRole::CLIENT => ROLE::CLIENT,
        WireRole::PEER => ROLE::PEER,
    }
}

/// Decides which expression a node stands for, from its decoded sub-rules,
/// its decoded principals and its minimum.
pub fn resolve_combinator(
    vec_rules: Vec<Expression>,
    vec_principals: Vec<Expression>,
    min: i32,
) -> (expr: Expression)
    ensures
        expr@ == resolve(policies(vec_rules@), policies(vec_principals@), min as int),
{
    let ghost subs = policies(vec_rules@);
    let ghost leaves = policies(vec_principals@);
    proof {
        lemma_policies(vec_rules@);
        lemma_policies(vec_principals@);
    }
    let mut vec_principals = vec_principals;
    let mut concatenated = vec_rules;
    if vec_principals.len() == 1 && concatenated.len() == 0 {
        return vec_principals.remove(0);
    }
    concatenated.append(&mut vec_principals);
    proof {
        lemma_policies(concatenated@);
        assert(policies(concatenated@) =~= subs + leaves);
    }
    if min == 1 {
        Expression::OR(concatenated)
    } else if min >= 0 && min as usize == concatenated.len() {
        Expression::AND(concatenated)
    } else if min == 0 {
        concatenated.remove(0)
    } else {
        Expression::OUTOF(concatenated, threshold_from_wire(min))
    }
}

/// Reads a wire rule back into the expression it stands for.
pub fn read_policy(r: &WireRule) -> (expr: Expression)
    ensures
        expr@ == decode(r@),
    decreases r,
{
    let min = r.min_endorsements;
    proof {
        lemma_rule_values(r.rules@);
        lemma_decode_rules(r@.rules);
    }
    let mut vec_rules: Vec<Expression> = Vec::new();
    let mut i: usize = 0;
    while i < r.rules.len()
        invariant
            i <= r.rules.len(),
            vec_rules.len() == i,
            forall|j: int| 0 <= j < i ==> vec_rules[j]@ == decode(#[trigger] r.rules[j]@),
        decreases r.rules.len() - i,
    {
        let sub = read_policy(&r.rules[i]);
        vec_rules.push(sub);
        i += 1;
    }
    let mut vec_principals: Vec<Expression> = Vec::new();
    let mut k: usize = 0;
    while k < r.principals.len()
        invariant
            k <= r.principals.len(),
            vec_principals.len() == k,
            forall|j: int| 0 <= j < k ==> vec_principals[j]@ == decode_entry(#[trigger] r.principals[j]@),
        decreases r.principals.len() - k,
    {
        let p = &r.principals[k];
        vec_principals.push(Expression::Principal(p.msp_id.clone(), policy_role(p.role)));
        k += 1;
    }
    proof {
        lemma_policies(vec_rules@);
        lemma_policies(vec_principals@);
        assert(policies(vec_rules@) =~= decode_rules(r@.rules));
        assert(policies(vec_principals@) =~= decode_entries(r@.principals));
    }
    resolve_combinator(vec_rules, vec_principals, min)
}

} // verus!
