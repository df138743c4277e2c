use ctrl_flow_struct::ast::{Condition, SimpleCondition};
use ctrl_flow_struct::condition::{and_edge, duplicate_all, duplicate_reach, or_reach};

fn simple(label: &str) -> Condition {
    Condition::Simple(SimpleCondition(label.to_owned()))
}

#[test]
fn and_of_one_operand_is_the_operand() {
    let c = Condition::and(vec![simple("x > 0")]);
    assert_eq!(c, simple("x > 0"));
}

#[test]
fn or_of_one_operand_is_the_operand() {
    let c = Condition::or(vec![simple("x > 0")]);
    assert_eq!(c, simple("x > 0"));
}

#[test]
fn and_of_one_compound_operand_is_the_operand() {
    let inner = Condition::Or(vec![simple("a"), simple("b")]);
    let c = Condition::and(vec![Condition::Or(vec![simple("a"), simple("b")])]);
    assert_eq!(c, inner);
}

#[test]
fn and_of_two_operands_keeps_both_in_order() {
    let c = Condition::and(vec![simple("a"), simple("b")]);
    assert_eq!(c, Condition::And(vec![simple("a"), simple("b")]));
}

#[test]
fn or_of_three_operands_keeps_all_in_order() {
    let c = Condition::or(vec![simple("a"), simple("b"), simple("c")]);
    assert_eq!(c, Condition::Or(vec![simple("a"), simple("b"), simple("c")]));
}

#[test]
fn trivial_condition_has_the_empty_label() {
    let t = SimpleCondition::trivial();
    assert_eq!(t, SimpleCondition(String::new()));
    assert!(t.is_trivial());
    assert!(!SimpleCondition("c".to_owned()).is_trivial());
}

#[test]
fn duplicate_copies_a_nested_condition() {
    let c = Condition::And(vec![
        simple("a"),
        Condition::Or(vec![simple("b"), Condition::And(vec![simple("c"), simple("d")])]),
    ]);
    let d = c.duplicate();
    assert_eq!(c, d);
    let all = duplicate_all(&vec![simple("a"), simple("b")]);
    assert_eq!(all, vec![simple("a"), simple("b")]);
    assert_eq!(SimpleCondition("k".to_owned()).duplicate(), SimpleCondition("k".to_owned()));
    assert_eq!(duplicate_reach(&Some(simple("a"))), Some(simple("a")));
    assert_eq!(duplicate_reach(&None), None);
}

#[test]
fn edge_with_empty_label_leaves_the_reach_alone() {
    let label = SimpleCondition::trivial();
    assert_eq!(and_edge(&None, &label), None);
    assert_eq!(and_edge(&Some(simple("a")), &label), Some(simple("a")));
}

#[test]
fn edge_from_unconditional_source_gives_its_label() {
    let label = SimpleCondition("c".to_owned());
    assert_eq!(and_edge(&None, &label), Some(simple("c")));
}

#[test]
fn edge_from_conditional_source_gives_a_conjunction() {
    let label = SimpleCondition("c".to_owned());
    assert_eq!(
        and_edge(&Some(simple("a")), &label),
        Some(Condition::And(vec![simple("a"), simple("c")]))
    );
}

#[test]
fn single_way_of_reaching_stands_for_itself() {
    assert_eq!(or_reach(vec![Some(simple("a"))]), Some(simple("a")));
    assert_eq!(or_reach(vec![None]), None);
}

#[test]
fn several_ways_of_reaching_give_a_disjunction() {
    assert_eq!(
        or_reach(vec![Some(simple("a")), Some(simple("b"))]),
        Some(Condition::Or(vec![simple("a"), simple("b")]))
    );
}

#[test]
fn an_unconditional_way_makes_the_reach_unconditional() {
    assert_eq!(or_reach(vec![Some(simple("a")), None, Some(simple("b"))]), None);
}
