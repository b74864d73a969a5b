use abstract_interpreter::abstractions::sign_abstraction::SignAbstraction;
use abstract_interpreter::command_parser::{parse, BExpr, Command, Const, SExpr, Var};
use abstract_interpreter::interpreter::{MemoryState, Params};

fn var(x: &str) -> Var {
    Var::Var(x.to_string())
}

fn num(n: i64) -> SExpr {
    SExpr::CExpr(Const::Const(n))
}

fn read(x: &str) -> SExpr {
    SExpr::VExpr(var(x))
}

fn assign(x: &str, e: SExpr) -> Command {
    Command::Assign(var(x), e)
}

fn analyzed(command: &Command, pre: Vec<(String, SignAbstraction)>) -> MemoryState<SignAbstraction> {
    let mut m = MemoryState::from_state(pre);
    m.analyze_command(command, &Params::no_widening());
    m
}

fn expect(post: &MemoryState<SignAbstraction>, bindings: Vec<(&str, SignAbstraction)>) {
    let truth = MemoryState::from_state(
        bindings.into_iter().map(|(x, a)| (x.to_string(), a)).collect(),
    );
    assert!(truth.same_bindings(post));
}

#[test]
fn sign_abstraction_skip() {
    let program = "skip";
    let post = analyzed(&parse(&program).unwrap(), vec![]);
    expect(&post, vec![]);
}

#[test]
fn sign_abstraction_assign() {
    let program = "x := 50";
    let post = analyzed(&parse(&program).unwrap(), vec![]);
    expect(&post, vec![("x", SignAbstraction::Pos)]);
}

#[test]
fn sign_abstraction_input() {
    let program = "input(x)";
    let post = analyzed(&parse(&program).unwrap(), vec![]);
    expect(&post, vec![("x", SignAbstraction::Top)]);
}

#[test]
fn sign_abstraction_cif() {
    let program = "if (x < 0) {y := x} else {skip}";
    let post = analyzed(&parse(&program).unwrap(), vec![]);
    expect(&post, vec![("x", SignAbstraction::Top), ("y", SignAbstraction::Top)]);
}

#[test]
fn sign_abstraction_cif_strictly_negative() {
    // if (x < -1) {y := x} else {skip}
    let command = Command::If(
        BExpr::LT(var("x"), Const::Const(-1)),
        Box::new(assign("y", read("x"))),
        Box::new(Command::Skip),
    );
    let post = analyzed(&command, vec![]);
    expect(&post, vec![("x", SignAbstraction::Top), ("y", SignAbstraction::Neg)]);
}

#[test]
fn figure_3_9_a_with_pre_condition() {
    let program = "x := 0; while (x >= 0) {x := x + 1}";
    let command = parse(&program).unwrap();
    let post = analyzed(&command, vec![("x".to_string(), SignAbstraction::Pos)]);
    expect(&post, vec![("x", SignAbstraction::Bottom)]);
}

#[test]
fn sign_abstraction_seq() {
    let program = "skip;skip";
    let post = analyzed(&parse(&program).unwrap(), vec![]);
    expect(&post, vec![]);
}

#[test]
fn example_presentation() {
    let program = "x := 0; y := 0; while (x < 10) {x := x + 1; y := x}";
    let post = analyzed(&parse(&program).unwrap(), vec![]);
    expect(&post, vec![("x", SignAbstraction::Pos), ("y", SignAbstraction::Pos)]);
}

#[test]
fn assignment_in_unreachable_state_is_suppressed() {
    // y := 5 where y is already Bottom
    let post = analyzed(&assign("y", num(5)), vec![("y".to_string(), SignAbstraction::Bottom)]);
    expect(&post, vec![("y", SignAbstraction::Bottom)]);
}

#[test]
fn reading_a_missing_variable_binds_top() {
    // y := x * 0
    let command = assign("y", SExpr::Mul(Box::new(read("x")), Box::new(num(0))));
    let post = analyzed(&command, vec![]);
    expect(&post, vec![("x", SignAbstraction::Top), ("y", SignAbstraction::Zero)]);
}

#[test]
fn lookup_of_unbound_variable_is_none() {
    let post = analyzed(&assign("x", num(-3)), vec![]);
    assert_eq!(post.lookup_var("x"), Some(&SignAbstraction::Neg));
    assert_eq!(post.lookup_var("z"), None);
}

#[test]
fn later_binding_replaces_earlier() {
    let m = MemoryState::from_state(vec![
        ("x".to_string(), SignAbstraction::Neg),
        ("x".to_string(), SignAbstraction::Pos),
    ]);
    assert_eq!(m.lookup_var("x"), Some(&SignAbstraction::Pos));
}
