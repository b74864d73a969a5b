use std::cmp::Ordering;

use abstract_interpreter::abstractions::interval_abstraction::{IntervalAbstraction, POS_INF};
use abstract_interpreter::abstractions::sign_abstraction::SignAbstraction;
use abstract_interpreter::command_parser::parse;
use abstract_interpreter::interpreter::MemoryState;

fn itv(a: i64, b: i64) -> IntervalAbstraction {
    IntervalAbstraction::from_bounds(a, b)
}

#[test]
fn interval_interpretation_counts_to_ten() {
    let command = parse("x := 0; while (x < 10) {x := x + 1}; y := x * 3 - 1").unwrap();
    let mut m: MemoryState<IntervalAbstraction> = MemoryState::new();
    assert!(m.interprete_command(&command, 1000));
    assert_eq!(m.lookup_var("x"), Some(&itv(10, 10)));
    assert_eq!(m.lookup_var("y"), Some(&itv(29, 29)));
}

#[test]
fn interval_interpretation_takes_the_matching_branch() {
    let command = parse("x := 4; if (x == 4) {y := 1} else {y := 2}").unwrap();
    let mut m: MemoryState<IntervalAbstraction> = MemoryState::new();
    assert!(m.interprete_command(&command, 10));
    assert_eq!(m.lookup_var("y"), Some(&itv(1, 1)));
}

#[test]
fn interpretation_reports_a_loop_that_does_not_end() {
    let command = parse("x := 0; while (x >= 0) {x := x + 1}").unwrap();
    let mut m: MemoryState<IntervalAbstraction> = MemoryState::new();
    assert!(!m.interprete_command(&command, 100));
}

#[test]
fn sign_interpretation() {
    let command = parse("x := 5; y := 0 - x; input(z)").unwrap();
    let mut m: MemoryState<SignAbstraction> = MemoryState::new();
    assert!(m.interprete_command(&command, 10));
    assert_eq!(m.lookup_var("x"), Some(&SignAbstraction::Pos));
    assert_eq!(m.lookup_var("y"), Some(&SignAbstraction::Neg));
    assert_eq!(m.lookup_var("z"), Some(&SignAbstraction::Top));
}

#[test]
fn interval_order() {
    assert!(itv(1, 2) < itv(3, 4));
    assert!(itv(5, POS_INF) > itv(1, 4));
    assert_eq!(itv(1, 3).partial_cmp(&itv(2, 4)), None);
    assert_eq!(itv(1, 3).partial_cmp(&itv(1, 3)), Some(Ordering::Equal));
    assert!(IntervalAbstraction::Bottom < itv(1, 1));
    assert!(IntervalAbstraction::Top > itv(1, 1));
}

#[test]
fn sign_order() {
    assert!(SignAbstraction::Bottom < SignAbstraction::Neg);
    assert!(SignAbstraction::Neg < SignAbstraction::Zero);
    assert!(SignAbstraction::Zero < SignAbstraction::Pos);
    assert!(SignAbstraction::Pos < SignAbstraction::Top);
}
