//! Lowering a policy expression into the wire rule tree.

use crate::expression::{lemma_policies, policies, Expression, Policy, ROLE};
use crate::wire::{count_to_wire, entries, lemma_rule_values, rule_values, wrap_i32, Entry, Rule, WirePrincipal, WireRole, WireRule};
use vstd::prelude::*;

verus! {

/// The wire role of a policy role: the one of the same name.
pub open spec fn role_to_wire(role: ROLE) -> WireRole {
    match role {
        ROLE::MEMBER => WireRole::MEMBER,
        ROLE::PEER => WireRole::PEER,
        ROLE::ADMIN => WireRole::ADMIN,
        ROLE::CLIENT => WireRole::CLIENT,
    }
}

/// The principal entries that a list of children leaves on its node: one for
/// each child that is a principal, in the children's order.
pub open spec fn leaf_entries(children: Seq<Policy>) -> Seq<Entry>
    decreases children.len(),
{
    if children.len() == 0 {
        Seq::empty()
    } else {
        let rest = leaf_entries(children.drop_last());
        match children.last() {
            Policy::Principal(identity, role) => rest.push(
                Entry { msp_id: identity, role: role_to_wire(role) },
            ),
            _ => rest,
        }
    }
}

/// The sub-rules that a list of children leaves on its node: one for each
/// child that is a combinator, in the children's order.
pub open spec fn sub_rules(children: Seq<Policy>) -> Seq<Rule>
    decreases children, 1nat,
{
    if children.len() == 0 {
        Seq::empty()
    } else {
        let rest = sub_rules(children.drop_last());
        match children.last() {
            Policy::Principal(_, _) => rest,
            node => rest.push(encode_node(node)),
        }
    }
}

/// The wire node of a combinator. Its principals and sub-rules are those of
/// its children; its minimum is the number of children for `And`, one for
/// `Or`, and the threshold for `AtLeast`, each as the 32-bit field holds it.
/// A principal makes no node of its own: here it stands for the rule that
/// holds that principal and nothing else.
pub open spec fn encode_node(policy: Policy) -> Rule
    decreases policy, 0nat,
{
    match policy {
        Policy::And(children) => Rule {
            min_endorsements: wrap_i32(children.len() as int),
            principals: leaf_entries(children),
            rules: sub_rules(children),
        },
        Policy::Or(children) => Rule {
            min_endorsements: 1,
            principals: leaf_entries(children),
            rules: sub_rules(children),
        },
        Policy::AtLeast(children, threshold) => Rule {
            min_endorsements: wrap_i32(threshold as int),
            principals: leaf_entries(children),
            rules: sub_rules(children),
        },
        Policy::Principal(identity, role) => Rule {
            min_endorsements: 0,
            principals: seq![Entry { msp_id: identity, role: role_to_wire(role) }],
            rules: Seq::empty(),
        },
    }
}

/// What encoding a policy adds to the rule it is encoded into: a principal
/// becomes one more principal entry, a combinator one more sub-rule.
pub open spec fn encode_into(policy: Policy, parent: Rule) -> Rule {
    match policy {
        Policy::Principal(identity, role) => Rule {
            principals: parent.principals.push(
                Entry { msp_id: identity, role: role_to_wire(role) },
            ),
            ..parent
        },
        node => Rule { rules: parent.rules.push(encode_node(node)), ..parent },
    }
}

/// What encoding a list of children, one after the other, adds to a rule.
pub open spec fn encode_all_into(children: Seq<Policy>, parent: Rule) -> Rule {
    Rule {
        principals: parent.principals + leaf_entries(children),
        rules: parent.rules + sub_rules(children),
        ..parent
    }
}

/// The rule that a policy's top rule is: the empty rule with the policy
/// encoded into it.
pub open spec fn encode(policy: Policy) -> Rule {
    encode_into(policy, Rule::empty())
}

/// Every child leaves exactly one entry: a principal or a sub-rule.
pub proof fn lemma_entries_count(children: Seq<Policy>)
    ensures
        leaf_entries(children).len() + sub_rules(children).len() == children.len(),
    decreases children.len(),
{
    if children.len() > 0 {
        lemma_entries_count(children.drop_last());
    }
}

/// Encoding one more child after a list is encoding the longer list.
proof fn lemma_encode_step(children: Seq<Policy>, i: int, parent: Rule)
    requires
        0 <= i < children.len(),
    ensures
        encode_into(children[i], encode_all_into(children.take(i), parent))
            == encode_all_into(children.take(i + 1), parent),
{
    let longer = children.take(i + 1);
    assert(longer.drop_last() =~= children.take(i));
    assert(longer.last() == children[i]);
    let before = encode_all_into(children.take(i), parent);
    let after = encode_all_into(longer, parent);
    let next = encode_into(children[i], before);
    assert(next.principals =~= after.principals);
    assert(next.rules =~= after.rules);
}

/// Maps a policy role to the wire role of the same name.
pub fn wire_role(role: ROLE) -> (wire: WireRole)
    ensures
        wire == role_to_wire(role),
{
    match role {
        ROLE::MEMBER => WireRole::MEMBER,
        ROLE::PEER => WireRole::PEER,
        ROLE::ADMIN => WireRole::ADMIN,
        ROLE::CLIENT => WireRole::CLIENT,
    }
}

/// Encodes each child in turn into `rule`.
fn encode_children(children: &Vec<Expression>, rule: &mut WireRule)
    ensures
        final(rule)@ == encode_all_into(policies(children@), old(rule)@),
    decreases children, 1nat,
{
    let ghost start = rule@;
    let ghost all = policies(children@);
    let mut i: usize = 0;
    proof {
        assert(all.take(0) =~= Seq::<Policy>::empty());
        assert(encode_all_into(all.take(0), start).principals =~= start.principals);
        assert(encode_all_into(all.take(0), start).rules =~= start.rules);
    }
    while i < children.len()
        invariant
            i <= children.len(),
            all == policies(children@),
            rule@ == encode_all_into(all.take(i as int), start),
        decreases children.len() - i,
    {
        proof {
            lemma_encode_step(all, i as int, start);
        }
        match_expr(&children[i], rule);
        i += 1;
    }
    assert(all.take(children.len() as int) =~= all);
}

/// Appends the finished node `node` to the sub-rules of `rule`.
fn push_node(rule: &mut WireRule, node: WireRule)
    ensures
        final(rule)@ == (Rule { rules: old(rule)@.rules.push(node@), ..old(rule)@ }),
{
    let ghost before = rule.rules@;
    rule.rules.push(node);
    assert(rule_values(rule.rules@) =~= rule_values(before).push(node@));
}

/// Encodes `expr` into `rule`: a principal is appended to the rule's
/// principals, a combinator becomes a new node appended to its sub-rules.
pub fn match_expr(expr: &Expression, rule: &mut WireRule)
    ensures
        final(rule)@ == encode_into(expr@, old(rule)@),
    decreases expr, 0nat,
{
    match expr {
        Expression::AND(e) => {
            let mut r = WireRule::new();
            encode_children(e, &mut r);
            proof {
                lemma_entries_count(policies(e@));
                assert(r@.principals =~= leaf_entries(policies(e@)));
                assert(r@.rules =~= sub_rules(policies(e@)));
                lemma_rule_values(r.rules@);
                lemma_policies(e@);
                assert(r.principals@.len() == leaf_entries(policies(e@)).len());
                assert(r.rules@.len() == sub_rules(policies(e@)).len());
                assert(r.principals.len() + r.rules.len() == e.len());
            }
            let min_endorsements: usize = r.principals.len() + r.rules.len();
            r.min_endorsements = count_to_wire(min_endorsements);
            assert(r@ == encode_node(expr@));
            push_node(rule, r);
        },
        Expression::OR(e) => {
            let mut r = WireRule::new();
            r.min_endorsements = 1;
            encode_children(e, &mut r);
            proof {
                assert(r@.principals =~= leaf_entries(policies(e@)));
                assert(r@.rules =~= sub_rules(policies(e@)));
            }
            push_node(rule, r);
        },
        Expression::OUTOF(e, i) => {
            let mut r = WireRule::new();
            encode_children(e, &mut r);
            r.min_endorsements = count_to_wire(*i);
            proof {
                assert(r@.principals =~= leaf_entries(policies(e@)));
                assert(r@.rules =~= sub_rules(policies(e@)));
            }
            push_node(rule, r);
        },
        Expression::Principal(name, role) => {
            let ghost before = rule.principals@;
            let p = WirePrincipal { msp_id: name.clone(), role: wire_role(*role) };
            rule.principals.push(p);
            assert(entries(rule.principals@) =~= entries(before).push(
                Entry { msp_id: name@, role: role_to_wire(*role) },
            ));
        },
    }
}

/// Encodes `root` as the top rule of a policy message: a fresh rule with the
/// expression encoded into it.
pub fn policy_rule(root: &Expression) -> (rule: WireRule)
    ensures
        rule@ == encode(root@),
{
    let mut rule = WireRule::new();
    match_expr(root, &mut rule);
    rule
}

} // verus!
