use endorsement_policy::decoder::{policy_role, read_policy, resolve_combinator};
use endorsement_policy::encoder::{match_expr, policy_rule, wire_role};
use endorsement_policy::expression::{Expression, ROLE};
use endorsement_policy::wire::{
    count_to_wire, threshold_from_wire, WirePrincipal, WireRole, WireRule,
};

fn peer(name: &str) -> Expression {
    Expression::Principal(name.to_string(), ROLE::PEER)
}

fn entry(name: &str, role: WireRole) -> WirePrincipal {
    WirePrincipal { msp_id: name.to_string(), role }
}

fn round_trip(expr: Expression) -> Expression {
    let rule = policy_rule(&expr);
    read_policy(&rule)
}

#[test]
fn single_principal_round_trips_to_itself() {
    assert_eq!(round_trip(peer("ORG1")), peer("ORG1"));
    let rule = policy_rule(&peer("ORG1"));
    assert_eq!(rule.min_endorsements, 0);
    assert_eq!(rule.rules.len(), 0);
    assert_eq!(rule.principals.len(), 1);
    assert_eq!(rule.principals[0].msp_id, "ORG1");
    assert_eq!(rule.principals[0].role, WireRole::PEER);
}

#[test]
fn two_of_three_round_trips() {
    let expr = Expression::OUTOF(vec![peer("ORG1"), peer("ORG2"), peer("ORG3")], 2);
    let back = round_trip(expr);
    match &back {
        Expression::OUTOF(children, threshold) => {
            assert_eq!(*threshold, 2);
            assert_eq!(children.len(), 3);
        }
        other => panic!("expected OUTOF, got {:?}", other),
    }
    assert_eq!(
        back,
        Expression::OUTOF(vec![peer("ORG1"), peer("ORG2"), peer("ORG3")], 2)
    );
    assert_ne!(
        back,
        Expression::OUTOF(vec![peer("ORG1"), peer("ORG2"), peer("ORG3")], 3)
    );
}

#[test]
fn and_of_leaf_and_or_round_trips() {
    let expr = Expression::AND(vec![
        peer("ORG1"),
        Expression::OR(vec![peer("ORG3"), peer("ORG4")]),
    ]);
    let back = round_trip(expr);
    match &back {
        Expression::AND(children) => {
            assert_eq!(children.len(), 2);
            assert!(matches!(&children[0], Expression::OR(inner) if inner.len() == 2));
            assert_eq!(children[1], peer("ORG1"));
        }
        other => panic!("expected AND, got {:?}", other),
    }
    assert_eq!(
        back,
        Expression::AND(vec![
            peer("ORG1"),
            Expression::OR(vec![peer("ORG3"), peer("ORG4")]),
        ])
    );
}

#[test]
fn and_of_two_ors_round_trips() {
    let build = || {
        Expression::AND(vec![
            Expression::OR(vec![peer("ORG1"), peer("ORG2")]),
            Expression::OR(vec![peer("ORG3"), peer("ORG4")]),
        ])
    };
    assert_eq!(round_trip(build()), build());
}

#[test]
fn threshold_one_comes_back_as_or() {
    let back = round_trip(Expression::OUTOF(vec![peer("ORG1"), peer("ORG2")], 1));
    assert!(matches!(back, Expression::OR(_)));
    assert_eq!(back, Expression::OR(vec![peer("ORG1"), peer("ORG2")]));
}

#[test]
fn threshold_of_all_comes_back_as_and() {
    let back = round_trip(Expression::OUTOF(
        vec![peer("ORG1"), peer("ORG2"), peer("ORG3")],
        3,
    ));
    assert!(matches!(back, Expression::AND(_)));
    assert_eq!(
        back,
        Expression::AND(vec![peer("ORG1"), peer("ORG2"), peer("ORG3")])
    );
}

#[test]
fn and_of_one_combinator_comes_back_as_or() {
    let back = round_trip(Expression::AND(vec![Expression::OR(vec![
        peer("ORG1"),
        peer("ORG2"),
    ])]));
    assert_eq!(
        back,
        Expression::OR(vec![Expression::OR(vec![peer("ORG1"), peer("ORG2")])])
    );
}

#[test]
fn lone_principal_under_a_combinator_collapses() {
    assert_eq!(round_trip(Expression::AND(vec![peer("ORG1")])), peer("ORG1"));
    assert_eq!(round_trip(Expression::OR(vec![peer("ORG1")])), peer("ORG1"));
    assert_eq!(
        round_trip(Expression::OUTOF(vec![peer("ORG1")], 1)),
        peer("ORG1")
    );
}

#[test]
fn child_order_is_ignored_after_a_round_trip() {
    let ab = || Expression::AND(vec![peer("A"), Expression::OR(vec![peer("B"), peer("C")])]);
    let ba = || Expression::AND(vec![Expression::OR(vec![peer("C"), peer("B")]), peer("A")]);
    assert_eq!(ab(), ba());
    assert_eq!(round_trip(ab()), ab());
    assert_eq!(round_trip(ab()), ba());
    assert_eq!(round_trip(ba()), ab());
    assert_eq!(round_trip(ba()), ba());
}

#[test]
fn every_role_keeps_its_name() {
    for role in [ROLE::MEMBER, ROLE::PEER, ROLE::ADMIN, ROLE::CLIENT] {
        assert_eq!(policy_role(wire_role(role)), role);
        let expr = Expression::OR(vec![
            Expression::Principal("ORG1".to_string(), role),
            peer("ORG2"),
        ]);
        let back = round_trip(expr);
        assert_eq!(
            back,
            Expression::OR(vec![
                Expression::Principal("ORG1".to_string(), role),
                peer("ORG2"),
            ])
        );
    }
    assert_eq!(wire_role(ROLE::MEMBER), WireRole::MEMBER);
    assert_eq!(wire_role(ROLE::PEER), WireRole::PEER);
    assert_eq!(wire_role(ROLE::ADMIN), WireRole::ADMIN);
    assert_eq!(wire_role(ROLE::CLIENT), WireRole::CLIENT);
    assert_eq!(policy_role(WireRole::ADMIN), ROLE::ADMIN);
    assert_eq!(policy_role(WireRole::CLIENT), ROLE::CLIENT);
}

#[test]
fn encoding_fills_the_parent_it_is_given() {
    let mut parent = WireRule::new();
    parent.min_endorsements = 7;
    match_expr(&peer("ORG1"), &mut parent);
    match_expr(
        &Expression::AND(vec![peer("ORG2"), peer("ORG3"), Expression::OR(vec![])]),
        &mut parent,
    );
    match_expr(
        &Expression::OUTOF(vec![peer("ORG4"), peer("ORG5"), peer("ORG6")], 2),
        &mut parent,
    );
    match_expr(
        &Expression::Principal("ORG7".to_string(), ROLE::ADMIN),
        &mut parent,
    );
    assert_eq!(parent.min_endorsements, 7);
    assert_eq!(parent.principals.len(), 2);
    assert_eq!(parent.principals[0].msp_id, "ORG1");
    assert_eq!(parent.principals[1].msp_id, "ORG7");
    assert_eq!(parent.principals[1].role, WireRole::ADMIN);
    assert_eq!(parent.rules.len(), 2);
    let and = &parent.rules[0];
    assert_eq!(and.min_endorsements, 3);
    assert_eq!(and.principals.len(), 2);
    assert_eq!(and.principals[0].msp_id, "ORG2");
    assert_eq!(and.principals[1].msp_id, "ORG3");
    assert_eq!(and.rules.len(), 1);
    assert_eq!(and.rules[0].min_endorsements, 1);
    assert_eq!(and.rules[0].principals.len(), 0);
    assert_eq!(and.rules[0].rules.len(), 0);
    let out_of = &parent.rules[1];
    assert_eq!(out_of.min_endorsements, 2);
    assert_eq!(out_of.principals.len(), 3);
    assert_eq!(out_of.rules.len(), 0);
}

#[test]
fn top_rule_of_a_combinator_has_minimum_zero_and_one_sub_rule() {
    let rule = policy_rule(&Expression::OR(vec![peer("A"), peer("B")]));
    assert_eq!(rule.min_endorsements, 0);
    assert_eq!(rule.principals.len(), 0);
    assert_eq!(rule.rules.len(), 1);
    assert_eq!(rule.rules[0].min_endorsements, 1);
    assert_eq!(rule.rules[0].principals.len(), 2);
}

#[test]
fn zero_minimum_with_several_entries_decodes_to_the_first() {
    let mut first = WireRule::new();
    first.min_endorsements = 1;
    first.principals.push(entry("X", WireRole::PEER));
    first.principals.push(entry("Y", WireRole::PEER));
    let mut node = WireRule::new();
    node.min_endorsements = 0;
    node.principals.push(entry("ORG1", WireRole::PEER));
    node.principals.push(entry("ORG2", WireRole::PEER));
    node.rules.push(first);
    let back = read_policy(&node);
    assert!(matches!(back, Expression::OR(_)));
    assert_eq!(back, Expression::OR(vec![peer("X"), peer("Y")]));

    let mut leaves = WireRule::new();
    leaves.principals.push(entry("ORG1", WireRole::PEER));
    leaves.principals.push(entry("ORG2", WireRole::PEER));
    assert_eq!(read_policy(&leaves), peer("ORG1"));
}

#[test]
fn degenerate_nodes_decode_without_failing() {
    let empty = WireRule::new();
    let back = read_policy(&empty);
    assert!(matches!(&back, Expression::AND(children) if children.is_empty()));

    let mut or_of_nothing = WireRule::new();
    or_of_nothing.min_endorsements = 1;
    let back = read_policy(&or_of_nothing);
    assert!(matches!(&back, Expression::OR(children) if children.is_empty()));

    let mut too_many = WireRule::new();
    too_many.min_endorsements = 5;
    too_many.principals.push(entry("A", WireRole::MEMBER));
    too_many.principals.push(entry("B", WireRole::CLIENT));
    let back = read_policy(&too_many);
    match &back {
        Expression::OUTOF(children, threshold) => {
            assert_eq!(*threshold, 5);
            assert_eq!(children.len(), 2);
            assert_eq!(children[0], Expression::Principal("A".to_string(), ROLE::MEMBER));
            assert_eq!(children[1], Expression::Principal("B".to_string(), ROLE::CLIENT));
        }
        other => panic!("expected OUTOF, got {:?}", other),
    }

    let mut negative = WireRule::new();
    negative.min_endorsements = -1;
    negative.principals.push(entry("A", WireRole::PEER));
    negative.principals.push(entry("B", WireRole::PEER));
    let back = read_policy(&negative);
    assert!(matches!(&back, Expression::OUTOF(_, threshold) if *threshold == usize::MAX));
}

#[test]
fn lone_principal_wins_over_the_minimum() {
    for min in [-3, 0, 1, 2, 9] {
        let mut node = WireRule::new();
        node.min_endorsements = min;
        node.principals.push(entry("ORG1", WireRole::ADMIN));
        assert_eq!(
            read_policy(&node),
            Expression::Principal("ORG1".to_string(), ROLE::ADMIN)
        );
    }
}

#[test]
fn resolving_puts_sub_rules_before_principals() {
    let subs = vec![Expression::OR(vec![peer("A"), peer("B")])];
    let leaves = vec![peer("C"), peer("D")];
    match resolve_combinator(subs, leaves, 3) {
        Expression::AND(children) => {
            assert_eq!(children.len(), 3);
            assert!(matches!(children[0], Expression::OR(_)));
            assert_eq!(children[1], peer("C"));
            assert_eq!(children[2], peer("D"));
        }
        other => panic!("expected AND, got {:?}", other),
    }
    let subs = vec![Expression::OR(vec![peer("A"), peer("B")])];
    let leaves = vec![peer("C"), peer("D")];
    assert!(matches!(
        resolve_combinator(subs, leaves, 2),
        Expression::OUTOF(_, 2)
    ));
    let subs = vec![Expression::OR(vec![peer("A"), peer("B")])];
    assert!(matches!(
        resolve_combinator(subs, vec![], 1),
        Expression::OR(children) if children.len() == 1
    ));
}

#[test]
fn counts_wrap_into_the_wire_field() {
    assert_eq!(count_to_wire(0), 0);
    assert_eq!(count_to_wire(5), 5);
    assert_eq!(count_to_wire(2147483647), i32::MAX);
    if usize::BITS >= 64 {
        assert_eq!(count_to_wire(2147483648), i32::MIN);
        assert_eq!(count_to_wire(4294967295), -1);
        assert_eq!(count_to_wire(4294967296), 0);
        assert_eq!(count_to_wire(4294967297), 1);
    }
    let node = policy_rule(&Expression::OUTOF(
        vec![peer("A"), peer("B"), peer("C")],
        2147483647,
    ));
    assert_eq!(node.rules[0].min_endorsements, i32::MAX);
}

#[test]
fn thresholds_read_from_the_wire() {
    assert_eq!(threshold_from_wire(0), 0);
    assert_eq!(threshold_from_wire(2), 2);
    assert_eq!(threshold_from_wire(i32::MAX), 2147483647);
    assert_eq!(threshold_from_wire(-1), usize::MAX);
    assert_eq!(threshold_from_wire(i32::MIN), usize::MAX - 2147483647);
}
