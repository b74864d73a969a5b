use abstract_interpreter::command_parser::{parse, BExpr, Command, Const, ParseError, SExpr, Var};

#[test]
fn command_parser_skip() {
    let program = "skip";
    let command = parse(&program).unwrap();
    assert_eq!(command, Command::Skip);
}

#[test]
fn command_parser_assign() {
    let program = "x := 50";
    let command = parse(&program).unwrap();
    assert_eq!(
        command,
        Command::Assign(Var::Var("x".to_string()), SExpr::CExpr(Const::Const(50)))
    );
}

#[test]
fn command_parser_input() {
    let program = "input(x)";
    let command = parse(&program).unwrap();
    assert_eq!(command, Command::Input(Var::Var("x".to_string())));
}

#[test]
fn command_parser_cif() {
    let program = "if (x == 50) {skip} else {skip}";
    let command = parse(&program).unwrap();
    assert_eq!(
        command,
        Command::If(
            BExpr::EQ(Var::Var("x".to_string()), Const::Const(50)),
            Box::new(Command::Skip),
            Box::new(Command::Skip)
        )
    );
}

#[test]
fn cwhile() {
    let program = "while (x < 10) {skip}";
    let command = parse(&program).unwrap();
    assert_eq!(
        command,
        Command::While(
            BExpr::LT(Var::Var("x".to_string()), Const::Const(10)),
            Box::new(Command::Skip)
        )
    );
}

#[test]
fn command_parser_seq() {
    let program = "skip;skip";
    let command = parse(&program).unwrap();
    assert_eq!(
        Command::Sequence(Box::new(Command::Skip), Box::new(Command::Skip)),
        command
    );
}

#[test]
fn nested_seq() {
    let program = "while (x < 10) {skip;skip}; skip";
    let command = parse(&program).unwrap();
    assert_eq!(
        Command::Sequence(
            Box::new(Command::While(
                BExpr::LT(Var::Var("x".to_string()), Const::Const(10)),
                Box::new(Command::Sequence(
                    Box::new(Command::Skip),
                    Box::new(Command::Skip)
                ))
            )),
            Box::new(Command::Skip)
        ),
        command
    );
}

#[test]
#[should_panic]
fn not_in_language() {
    let program = "while (x < 10) {}";
    parse(&program).unwrap();
}

#[test]
fn parse_error_reports_offset() {
    assert_eq!(parse("while (x < 10) {}"), Err(ParseError { pos: 16 }));
    assert_eq!(parse("skip skip"), Err(ParseError { pos: 5 }));
    assert_eq!(parse("x := 99999999999999999999"), Err(ParseError { pos: 23 }));
}

#[test]
fn parse_precedence_and_unary_minus() {
    let command = parse("y := -x + 2 * (3 - z) / 4").unwrap();
    let x = SExpr::VExpr(Var::Var("x".to_string()));
    let z = SExpr::VExpr(Var::Var("z".to_string()));
    let num = |n: i64| SExpr::CExpr(Const::Const(n));
    let product = SExpr::Div(
        Box::new(SExpr::Mul(
            Box::new(num(2)),
            Box::new(SExpr::Sub(Box::new(num(3)), Box::new(z))),
        )),
        Box::new(num(4)),
    );
    let expected = SExpr::Add(Box::new(SExpr::Neg(Box::new(x))), Box::new(product));
    assert_eq!(command, Command::Assign(Var::Var("y".to_string()), expected));
}

#[test]
fn parse_all_comparisons() {
    let c = parse("if (a >= 1) {skip} else {if (b <= 2) {skip} else {while (c != 3) {input(d)}}}").unwrap();
    let inner = Command::If(
        BExpr::LE(Var::Var("b".to_string()), Const::Const(2)),
        Box::new(Command::Skip),
        Box::new(Command::While(
            BExpr::NE(Var::Var("c".to_string()), Const::Const(3)),
            Box::new(Command::Input(Var::Var("d".to_string()))),
        )),
    );
    let expected = Command::If(
        BExpr::GE(Var::Var("a".to_string()), Const::Const(1)),
        Box::new(Command::Skip),
        Box::new(inner),
    );
    assert_eq!(c, expected);
    assert!(parse("iffy := 3").is_ok());
}

#[test]
fn parse_reads_back_printed_commands() {
    let command = parse("while(i>=0){if(x!=12){y:=-x}else{input(z)}}").unwrap();
    let expected = Command::While(
        BExpr::GE(Var::Var("i".to_string()), Const::Const(0)),
        Box::new(Command::If(
            BExpr::NE(Var::Var("x".to_string()), Const::Const(12)),
            Box::new(Command::Assign(
                Var::Var("y".to_string()),
                SExpr::Neg(Box::new(SExpr::VExpr(Var::Var("x".to_string())))),
            )),
            Box::new(Command::Input(Var::Var("z".to_string()))),
        )),
    );
    assert_eq!(command, expected);
}

#[test]
fn parse_reads_back_printed_sequences_and_operators() {
    let command = parse("x:=(2*(y-3));skip;if(x<=5){y:=(x/-1)}else{skip}").unwrap();
    let x = || SExpr::VExpr(Var::Var("x".to_string()));
    let y = || SExpr::VExpr(Var::Var("y".to_string()));
    let num = |n: i64| SExpr::CExpr(Const::Const(n));
    let first = Command::Assign(
        Var::Var("x".to_string()),
        SExpr::Mul(Box::new(num(2)), Box::new(SExpr::Sub(Box::new(y()), Box::new(num(3))))),
    );
    let third = Command::If(
        BExpr::LE(Var::Var("x".to_string()), Const::Const(5)),
        Box::new(Command::Assign(
            Var::Var("y".to_string()),
            SExpr::Div(Box::new(x()), Box::new(SExpr::Neg(Box::new(num(1))))),
        )),
        Box::new(Command::Skip),
    );
    let expected = Command::Sequence(
        Box::new(Command::Sequence(Box::new(first), Box::new(Command::Skip))),
        Box::new(third),
    );
    assert_eq!(command, expected);
}
