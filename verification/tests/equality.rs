use endorsement_policy::endorsement::StateBasedEndorsement;
use endorsement_policy::equivalence::{expression_eq, iters_equal_anyorder};
use endorsement_policy::expression::{Expression, ROLE};

fn principal(name: &str, role: ROLE) -> Expression {
    Expression::Principal(name.to_string(), role)
}

fn p(name: &str) -> Expression {
    principal(name, ROLE::PEER)
}

#[test]
fn principals_compare_by_identity_and_role() {
    assert_eq!(p("ORG1"), p("ORG1"));
    assert_ne!(p("ORG1"), p("ORG2"));
    assert_ne!(p("ORG1"), principal("ORG1", ROLE::ADMIN));
    assert_ne!(principal("ORG1", ROLE::MEMBER), principal("ORG1", ROLE::CLIENT));
}

#[test]
fn and_ignores_the_order_of_two_children() {
    assert_eq!(
        Expression::AND(vec![p("A"), p("B")]),
        Expression::AND(vec![p("B"), p("A")])
    );
}

#[test]
fn order_is_ignored_at_every_level() {
    let left = Expression::OUTOF(
        vec![
            Expression::AND(vec![p("A"), Expression::OR(vec![p("B"), p("C")])]),
            p("D"),
            Expression::OR(vec![p("E"), p("F")]),
        ],
        2,
    );
    let right = Expression::OUTOF(
        vec![
            Expression::OR(vec![p("F"), p("E")]),
            Expression::AND(vec![Expression::OR(vec![p("C"), p("B")]), p("A")]),
            p("D"),
        ],
        2,
    );
    assert_eq!(left, right);
    assert!(expression_eq(&left, &right));
    assert!(expression_eq(&right, &left));
}

#[test]
fn variants_are_told_apart() {
    let children = || vec![p("A"), p("B")];
    assert_ne!(Expression::AND(children()), Expression::OR(children()));
    assert_ne!(Expression::AND(children()), Expression::OUTOF(children(), 2));
    assert_ne!(Expression::OR(children()), Expression::OUTOF(children(), 1));
    assert_ne!(Expression::AND(vec![p("A")]), p("A"));
}

#[test]
fn thresholds_must_match() {
    let children = || vec![p("A"), p("B"), p("C")];
    assert_eq!(Expression::OUTOF(children(), 2), Expression::OUTOF(children(), 2));
    assert_ne!(Expression::OUTOF(children(), 2), Expression::OUTOF(children(), 1));
}

#[test]
fn multiplicity_counts() {
    assert!(!iters_equal_anyorder(
        &vec![p("A"), p("A"), p("B")],
        &vec![p("A"), p("B"), p("B")]
    ));
    assert!(!iters_equal_anyorder(
        &vec![p("A"), p("B"), p("B")],
        &vec![p("A"), p("A"), p("B")]
    ));
    assert!(iters_equal_anyorder(
        &vec![p("A"), p("B"), p("A")],
        &vec![p("B"), p("A"), p("A")]
    ));
    assert!(!iters_equal_anyorder(&vec![p("A")], &vec![p("A"), p("A")]));
    assert!(!iters_equal_anyorder(&vec![p("A"), p("B")], &vec![p("A"), p("C")]));
    assert!(iters_equal_anyorder(&vec![], &vec![]));
}

#[test]
fn equality_is_symmetric_and_transitive_on_reorderings() {
    let a = Expression::AND(vec![p("A"), Expression::OR(vec![p("B"), p("C")]), p("A")]);
    let b = Expression::AND(vec![Expression::OR(vec![p("C"), p("B")]), p("A"), p("A")]);
    let c = Expression::AND(vec![p("A"), p("A"), Expression::OR(vec![p("B"), p("C")])]);
    let d = Expression::AND(vec![p("A"), Expression::OR(vec![p("B"), p("C")])]);
    assert!(expression_eq(&a, &a));
    assert!(expression_eq(&a, &b) && expression_eq(&b, &a));
    assert!(expression_eq(&b, &c) && expression_eq(&a, &c));
    assert!(!expression_eq(&a, &d) && !expression_eq(&d, &a));
}

#[test]
fn any_order_of_three_children_is_the_same_policy() {
    let x = || p("X");
    let y = || Expression::OUTOF(vec![p("A"), p("B"), p("C")], 2);
    let z = || principal("Z", ROLE::CLIENT);
    let base = Expression::OR(vec![x(), y(), z()]);
    for other in [
        vec![x(), z(), y()],
        vec![y(), x(), z()],
        vec![y(), z(), x()],
        vec![z(), x(), y()],
        vec![z(), y(), x()],
    ] {
        assert_eq!(base, Expression::OR(other));
    }
}

#[test]
fn clone_gives_an_equal_expression() {
    let expr = Expression::AND(vec![
        p("A"),
        Expression::OUTOF(vec![p("B"), principal("C", ROLE::ADMIN), p("D")], 2),
    ]);
    let copy = expr.clone();
    assert_eq!(copy, expr);
    match copy {
        Expression::AND(children) => {
            assert_eq!(children.len(), 2);
            assert_eq!(children[0], p("A"));
            assert!(matches!(&children[1], Expression::OUTOF(inner, 2) if inner.len() == 3));
        }
        other => panic!("expected AND, got {:?}", other),
    }
}

#[test]
fn endorsements_compare_by_their_expressions() {
    let one = StateBasedEndorsement::build(Expression::OR(vec![p("A"), p("B")]));
    let two = StateBasedEndorsement::build(Expression::OR(vec![p("B"), p("A")]));
    let three = StateBasedEndorsement::build(Expression::AND(vec![p("B"), p("A")]));
    assert_eq!(one, two);
    assert_ne!(one, three);
    assert_eq!(*one.root(), Expression::OR(vec![p("A"), p("B")]));
}
