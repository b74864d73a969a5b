use abstract_interpreter::abstractions::interval_abstraction::{
    Interval, IntervalAbstraction, NEG_INF, POS_INF,
};
use abstract_interpreter::command_parser::{parse, BExpr, Command, Const, SExpr, Var};
use abstract_interpreter::interpreter::{MemoryState, Params};

fn var(x: &str) -> Var {
    Var::Var(x.to_string())
}

fn num(n: i64) -> SExpr {
    SExpr::CExpr(Const::Const(n))
}

fn read(x: &str) -> SExpr {
    SExpr::VExpr(var(x))
}

fn plus(a: SExpr, b: SExpr) -> SExpr {
    SExpr::Add(Box::new(a), Box::new(b))
}

fn minus(a: SExpr, b: SExpr) -> SExpr {
    SExpr::Sub(Box::new(a), Box::new(b))
}

fn assign(x: &str, e: SExpr) -> Command {
    Command::Assign(var(x), e)
}

fn then(c1: Command, c2: Command) -> Command {
    Command::Sequence(Box::new(c1), Box::new(c2))
}

fn cif(b: BExpr, c1: Command, c2: Command) -> Command {
    Command::If(b, Box::new(c1), Box::new(c2))
}

fn cwhile(b: BExpr, c: Command) -> Command {
    Command::While(b, Box::new(c))
}

fn itv(a: i64, b: i64) -> IntervalAbstraction {
    IntervalAbstraction::from_bounds(a, b)
}

fn figure_5_4_program() -> Command {
    let program = "i := 1; while (i > 0) {if (x < 0) {x := 0} else {x := 1 + x}; if (x > 1000) {x := 0} else {x := x + 1}; input(i)}";
    parse(&program).unwrap()
}

fn figure_5_5_b_program(one_first: bool) -> Command {
    let program = if one_first {
        "x := 0; while (x <= 100) {if (x >= 50) {x := 10} else {x := 1 + x}}"
    } else {
        "x := 0; while (x <= 100) {if (x >= 50) {x := 10} else {x := x + 1}}"
    };
    parse(&program).unwrap()
}

#[test]
fn example_3_13() {
    let program = "if (x > 7) {y := x - 7} else {y := 7 - x}";
    let command = parse(&program).unwrap();
    let mut pre: MemoryState<IntervalAbstraction> = MemoryState::new();
    pre.analyze_command(&command, &Params::no_widening());

    let post_truth = MemoryState::from_state(vec![
        ("x".to_string(), IntervalAbstraction::Top),
        ("y".to_string(), itv(0, POS_INF)),
    ]);
    assert!(post_truth.same_bindings(&pre));
}

#[test]
fn figure_5_4_without_unrolling_with_x_initialized_before() {
    let command = figure_5_4_program();
    let mut pre: MemoryState<IntervalAbstraction> =
        MemoryState::from_state(vec![("x".to_string(), IntervalAbstraction::Top)]);
    pre.analyze_command(&command, &Params::no_widening());

    let x_analyzed = pre.lookup_var("x").unwrap();
    assert_eq!(IntervalAbstraction::Top, *x_analyzed);
}

#[test]
fn figure_5_4_with_unrolling_with_x_initialized_in_the_loop_body_default_behavior() {
    let command = figure_5_4_program();
    let mut pre: MemoryState<IntervalAbstraction> = MemoryState::new();
    pre.analyze_command(&command, &Params::no_widening());

    let x_analyzed = pre.lookup_var("x").unwrap();
    let x_truth = IntervalAbstraction::Interval(Interval { a: 0, b: 1001 });
    assert_eq!(x_truth, *x_analyzed);
}

#[test]
fn figure_5_4_with_unrolling() {
    let command = figure_5_4_program();
    let mut pre: MemoryState<IntervalAbstraction> = MemoryState::new();
    let params = Params {
        loop_unrollings: 1,
        use_widening: false,
        widening_delays: 0,
        widening_treshold: IntervalAbstraction::Top,
    };
    pre.analyze_command(&command, &params);

    let x_analyzed = pre.lookup_var("x").unwrap();
    let x_truth = IntervalAbstraction::Interval(Interval { a: 0, b: 1001 });
    assert_eq!(x_truth, *x_analyzed);
}

#[test]
fn figure_5_5_b_without_widening() {
    let command = figure_5_5_b_program(false);
    let mut pre: MemoryState<IntervalAbstraction> = MemoryState::new();
    pre.analyze_command(&command, &Params::no_widening());

    let x_analyzed = pre.lookup_var("x").unwrap();
    assert_eq!(IntervalAbstraction::Bottom, *x_analyzed);
}

#[test]
fn figure_5_5_b_with_widening() {
    let command = figure_5_5_b_program(false);
    let mut pre: MemoryState<IntervalAbstraction> = MemoryState::new();
    let params = Params {
        use_widening: true,
        loop_unrollings: 0,
        widening_delays: 0,
        widening_treshold: IntervalAbstraction::Top,
    };
    pre.analyze_command(&command, &params);

    let x_analyzed = pre.lookup_var("x").unwrap();
    assert_eq!(itv(101, POS_INF), *x_analyzed);
}

#[test]
fn figure_5_5_b_with_delayed_widening() {
    let command = figure_5_5_b_program(true);
    let mut pre: MemoryState<IntervalAbstraction> = MemoryState::new();
    let params = Params {
        use_widening: true,
        loop_unrollings: 0,
        widening_delays: 51,
        widening_treshold: IntervalAbstraction::Top,
    };
    pre.analyze_command(&command, &params);

    let x_analyzed = pre.lookup_var("x").unwrap();
    assert_eq!(IntervalAbstraction::Bottom, *x_analyzed);
}

#[test]
fn figure_5_5_b_with_widening_treshold() {
    let command = figure_5_5_b_program(false);
    let mut pre: MemoryState<IntervalAbstraction> = MemoryState::new();
    let params = Params {
        use_widening: true,
        loop_unrollings: 0,
        widening_delays: 0,
        widening_treshold: itv(-50, 50),
    };
    pre.analyze_command(&command, &params);

    let x_analyzed = pre.lookup_var("x").unwrap();
    assert_eq!(IntervalAbstraction::Bottom, *x_analyzed);
}

#[test]
fn figure_5_2_coalescent_product_domain() {
    let program = "x := 8; y := 1; if (x < 0) {y := 0} else {skip}";
    let command = parse(&program).unwrap();
    let mut pre: MemoryState<IntervalAbstraction> = MemoryState::new();
    pre.analyze_command(&command, &Params::no_widening());

    let post_truth = MemoryState::from_state(vec![
        ("x".to_string(), itv(8, 8)),
        ("y".to_string(), itv(1, 1)),
    ]);
    assert!(post_truth.same_bindings(&pre));
}

#[test]
fn parsed_and_built_programs_agree() {
    let built = cif(
        BExpr::GT(var("x"), Const::Const(7)),
        assign("y", minus(read("x"), num(7))),
        assign("y", minus(num(7), read("x"))),
    );
    assert_eq!(parse("if (x > 7) {y := x - 7} else {y := 7 - x}").unwrap(), built);
    let step = cwhile(BExpr::GE(var("x"), Const::Const(0)), assign("x", plus(read("x"), num(1))));
    assert_eq!(
        parse("x := 0; while (x >= 0) {x := x + 1}").unwrap(),
        then(assign("x", num(0)), step)
    );
}

#[test]
fn interval_unbounded_on_both_sides_is_top() {
    assert_eq!(itv(NEG_INF, POS_INF), IntervalAbstraction::Top);
    assert_eq!(itv(NEG_INF, 3), IntervalAbstraction::Interval(Interval::new(NEG_INF, 3)));
}

#[test]
fn analysis_without_guards_is_monotone() {
    let command = parse("y := x * x - 1; z := y / 2; input(w)").unwrap();
    let mut small: MemoryState<IntervalAbstraction> =
        MemoryState::from_state(vec![("x".to_string(), itv(1, 2))]);
    let mut large: MemoryState<IntervalAbstraction> =
        MemoryState::from_state(vec![("x".to_string(), itv(-1, 5))]);
    small.analyze_command(&command, &Params::no_widening());
    large.analyze_command(&command, &Params::no_widening());
    assert_eq!(small.lookup_var("y"), Some(&itv(0, 3)));
    assert_eq!(large.lookup_var("y"), Some(&itv(-6, 24)));
    assert_eq!(small.lookup_var("z"), Some(&itv(0, 1)));
    assert_eq!(large.lookup_var("z"), Some(&itv(-3, 12)));
}
