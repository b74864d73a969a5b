use vstd::prelude::*;
use vstd::string::StringSliceAdditionalSpecFns;

verus! {

/// A numeric literal of the language.
///
/// Program literals are integers; the analysis works over the mathematical
/// integers, with `i64` as the machine representation.
#[derive(Debug, Clone, PartialEq, Eq)]
pub enum Const {
    Const(i64),
}

/// A program variable, named by a non-empty identifier.
#[derive(Debug, Clone, PartialEq, Eq)]
pub enum Var {
    Var(String),
}

/// An arithmetic expression.
#[derive(Debug, PartialEq, Eq)]
pub enum SExpr {
    CExpr(Const),
    VExpr(Var),
    Neg(Box<SExpr>),
    Add(Box<SExpr>, Box<SExpr>),
    Sub(Box<SExpr>, Box<SExpr>),
    Mul(Box<SExpr>, Box<SExpr>),
    Div(Box<SExpr>, Box<SExpr>),
}

/// A guard: a comparison of a variable against a constant.
#[derive(Debug, Clone, PartialEq, Eq)]
pub enum BExpr {
    GE(Var, Const),
    GT(Var, Const),
    LE(Var, Const),
    LT(Var, Const),
    EQ(Var, Const),
    NE(Var, Const),
}

/// A command of the language.
#[derive(Debug, PartialEq, Eq)]
pub enum Command {
    Skip,
    Sequence(Box<Command>, Box<Command>),
    Assign(Var, SExpr),
    Input(Var),
    If(BExpr, Box<Command>, Box<Command>),
    While(BExpr, Box<Command>),
}

/// The comparison performed by a guard, without its operands.
#[derive(Debug, Clone, Copy, PartialEq, Eq)]
pub enum CmpOp {
    GE,
    GT,
    LE,
    LT,
    EQ,
    NE,
}

impl Var {
    pub open spec fn name(&self) -> Seq<char> {
        match self {
            Var::Var(s) => s@,
        }
    }
}

impl Const {
    pub open spec fn value(&self) -> i64 {
        match self {
            Const::Const(n) => *n,
        }
    }
}

/// The comparison obtained by negating `op`.
pub open spec fn negate_op(op: CmpOp) -> CmpOp {
    match op {
        CmpOp::GE => CmpOp::LT,
        CmpOp::GT => CmpOp::LE,
        CmpOp::LE => CmpOp::GT,
        CmpOp::LT => CmpOp::GE,
        CmpOp::EQ => CmpOp::NE,
        CmpOp::NE => CmpOp::EQ,
    }
}

/// Whether the integer `v` satisfies `v op n`.
pub open spec fn cmp_holds(op: CmpOp, v: int, n: int) -> bool {
    match op {
        CmpOp::GE => v >= n,
        CmpOp::GT => v > n,
        CmpOp::LE => v <= n,
        CmpOp::LT => v < n,
        CmpOp::EQ => v == n,
        CmpOp::NE => v != n,
    }
}

impl BExpr {
    /// The comparison of this guard.
    pub open spec fn op(&self) -> CmpOp {
        match self {
            BExpr::GE(_, _) => CmpOp::GE,
            BExpr::GT(_, _) => CmpOp::GT,
            BExpr::LE(_, _) => CmpOp::LE,
            BExpr::LT(_, _) => CmpOp::LT,
            BExpr::EQ(_, _) => CmpOp::EQ,
            BExpr::NE(_, _) => CmpOp::NE,
        }
    }

    /// The variable this guard tests.
    pub open spec fn ident(&self) -> Seq<char> {
        match self {
            BExpr::GE(v, _) => v.name(),
            BExpr::GT(v, _) => v.name(),
            BExpr::LE(v, _) => v.name(),
            BExpr::LT(v, _) => v.name(),
            BExpr::EQ(v, _) => v.name(),
            BExpr::NE(v, _) => v.name(),
        }
    }

    /// The constant this guard compares against.
    pub open spec fn number(&self) -> i64 {
        match self {
            BExpr::GE(_, c) => c.value(),
            BExpr::GT(_, c) => c.value(),
            BExpr::LE(_, c) => c.value(),
            BExpr::LT(_, c) => c.value(),
            BExpr::EQ(_, c) => c.value(),
            BExpr::NE(_, c) => c.value(),
        }
    }

    /// Whether the value `v` of the tested variable satisfies the guard.
    pub open spec fn holds_for(&self, v: int) -> bool {
        cmp_holds(self.op(), v, self.number() as int)
    }

    /// The comparison of this guard, as a value.
    pub fn cmp_op(&self) -> (r: CmpOp)
        ensures
            r == self.op(),
    {
        match self {
            BExpr::GE(_, _) => CmpOp::GE,
            BExpr::GT(_, _) => CmpOp::GT,
            BExpr::LE(_, _) => CmpOp::LE,
            BExpr::LT(_, _) => CmpOp::LT,
            BExpr::EQ(_, _) => CmpOp::EQ,
            BExpr::NE(_, _) => CmpOp::NE,
        }
    }

    /// The constant this guard compares against.
    pub fn get_number(&self) -> (r: i64)
        ensures
            r == self.number(),
    {
        match self {
            BExpr::GE(_, Const::Const(n)) => *n,
            BExpr::GT(_, Const::Const(n)) => *n,
            BExpr::LE(_, Const::Const(n)) => *n,
            BExpr::LT(_, Const::Const(n)) => *n,
            BExpr::EQ(_, Const::Const(n)) => *n,
            BExpr::NE(_, Const::Const(n)) => *n,
        }
    }

    /// The identifier of the variable this guard tests.
    pub fn get_ident(&self) -> (r: &String)
        ensures
            r@ == self.ident(),
    {
        match self {
            BExpr::GE(Var::Var(s), _) => s,
            BExpr::GT(Var::Var(s), _) => s,
            BExpr::LE(Var::Var(s), _) => s,
            BExpr::LT(Var::Var(s), _) => s,
            BExpr::EQ(Var::Var(s), _) => s,
            BExpr::NE(Var::Var(s), _) => s,
        }
    }

    /// The guard that holds exactly where this one does not: the comparison
    /// is swapped, the variable and the constant are kept.
    pub fn negate(&self) -> (r: BExpr)
        ensures
            r.op() == negate_op(self.op()),
            r.ident() == self.ident(),
            r.number() == self.number(),
    {
        let v = Var::Var(self.get_ident().clone());
        let c = Const::Const(self.get_number());
        match self {
            BExpr::GE(_, _) => BExpr::LT(v, c),
            BExpr::GT(_, _) => BExpr::LE(v, c),
            BExpr::LE(_, _) => BExpr::GT(v, c),
            BExpr::LT(_, _) => BExpr::GE(v, c),
            BExpr::EQ(_, _) => BExpr::NE(v, c),
            BExpr::NE(_, _) => BExpr::EQ(v, c),
        }
    }
}

/// Where the text stops being a program of the language.
#[derive(Debug, Clone, Copy, PartialEq, Eq, Structural)]
pub struct ParseError {
    /// The byte offset at which parsing failed.
    pub pos: usize,
}

/// The characters written by a run of ASCII bytes.
pub open spec fn ascii_chars(b: Seq<u8>) -> Seq<char> {
    Seq::new(b.len(), |i: int| b[i] as char)
}

pub open spec fn is_space(b: u8) -> bool {
    b == 32 || b == 9 || b == 10 || b == 13
}

pub open spec fn is_digit(b: u8) -> bool {
    48 <= b <= 57
}

pub open spec fn is_ident_start(b: u8) -> bool {
    (65 <= b <= 90) || (97 <= b <= 122) || b == 95
}

pub open spec fn is_ident_char(b: u8) -> bool {
    is_ident_start(b) || is_digit(b)
}

/// The value of a run of decimal digits.
pub open spec fn digits_value(d: Seq<u8>) -> int
    decreases d.len(),
{
    if d.len() == 0 {
        0
    } else {
        digits_value(d.drop_last()) * 10 + (d.last() - 48)
    }
}

/// A name the parser can produce: a letter or `_`, then letters, digits
/// and `_`.
pub open spec fn is_identifier(s: Seq<char>) -> bool {
    &&& s.len() > 0
    &&& forall|i: int|
        0 <= i < s.len() ==> (if i == 0 {
            is_ident_start(#[trigger] s[i] as u8)
        } else {
            is_ident_char(s[i] as u8)
        }) && (s[i] as u32) < 128
}

pub open spec fn var_ok(v: Var) -> bool {
    is_identifier(v.name())
}

/// Every variable of the expression is a well-formed identifier.
pub open spec fn sexpr_ok(e: SExpr) -> bool
    decreases e,
{
    match e {
        SExpr::CExpr(_) => true,
        SExpr::VExpr(v) => var_ok(v),
        SExpr::Neg(e1) => sexpr_ok(*e1),
        SExpr::Add(e1, e2) => sexpr_ok(*e1) && sexpr_ok(*e2),
        SExpr::Sub(e1, e2) => sexpr_ok(*e1) && sexpr_ok(*e2),
        SExpr::Mul(e1, e2) => sexpr_ok(*e1) && sexpr_ok(*e2),
        SExpr::Div(e1, e2) => sexpr_ok(*e1) && sexpr_ok(*e2),
    }
}

pub open spec fn bexpr_ok(b: BExpr) -> bool {
    is_identifier(b.ident())
}

/// Every variable of the command is a well-formed identifier.
pub open spec fn command_ok(c: Command) -> bool
    decreases c,
{
    match c {
        Command::Skip => true,
        Command::Sequence(c1, c2) => command_ok(*c1) && command_ok(*c2),
        Command::Assign(v, e) => var_ok(v) && sexpr_ok(e),
        Command::Input(v) => var_ok(v),
        Command::If(b, c1, c2) => bexpr_ok(b) && command_ok(*c1) && command_ok(*c2),
        Command::While(b, c1) => bexpr_ok(b) && command_ok(*c1),
    }
}

/// Whether the text `t` stands in `s` at position `p`.
pub open spec fn at(s: Seq<u8>, p: int, t: Seq<u8>) -> bool {
    0 <= p && p + t.len() <= s.len() && s.subrange(p, p + t.len()) == t
}

/// No identifier character stands at position `q`.
pub open spec fn ends_word(s: Seq<u8>, q: int) -> bool {
    q == s.len() || (0 <= q < s.len() && !is_ident_char(s[q]))
}

/// No digit stands at position `q`.
pub open spec fn ends_number(s: Seq<u8>, q: int) -> bool {
    q == s.len() || (0 <= q < s.len() && !is_digit(s[q]))
}

/// The bytes that write an ASCII name.
pub open spec fn name_bytes(x: Seq<char>) -> Seq<u8> {
    Seq::new(x.len(), |i: int| x[i] as u8)
}

/// The decimal digits of `n`, most significant first.
pub open spec fn digits(n: nat) -> Seq<u8>
    decreases n,
{
    if n < 10 {
        seq![(n + 48) as u8]
    } else {
        digits(n / 10).push((n % 10 + 48) as u8)
    }
}

/// A name the printer can write: an identifier whose characters are the
/// ASCII bytes of `name_bytes`.
pub open spec fn printable_name(x: Seq<char>) -> bool {
    is_identifier(x) && ascii_chars(name_bytes(x)) == x
}

proof fn lemma_digits(k: nat)
    ensures
        digits(k).len() >= 1,
        forall|i: int| 0 <= i < digits(k).len() ==> is_digit(#[trigger] digits(k)[i]),
        digits_value(digits(k)) == k,
        forall|j: int| 1 <= j <= digits(k).len() ==> digits_value(#[trigger] digits(k).take(j)) <= k,
    decreases k,
{
    if k >= 10 {
        lemma_digits(k / 10);
        let d = digits(k);
        let h = digits(k / 10);
        assert(d.drop_last() =~= h);
        assert(d.last() == (k % 10 + 48) as u8);
        vstd::arithmetic::div_mod::lemma_fundamental_div_mod(k as int, 10);
        assert(digits_value(d) == digits_value(h) * 10 + (k % 10));
        assert forall|j: int| 1 <= j <= d.len() implies digits_value(#[trigger] d.take(j)) <= k by {
            if j < d.len() {
                assert(d.take(j) =~= h.take(j));
                assert(digits_value(h.take(j)) <= k / 10);
            } else {
                assert(d.take(j) =~= d);
            }
        }
    } else {
        let d = digits(k);
        assert(d.drop_last() =~= Seq::<u8>::empty());
        assert(digits_value(Seq::<u8>::empty()) == 0);
        assert(digits_value(d) == digits_value(d.drop_last()) * 10 + (d.last() - 48));
        assert forall|j: int| 1 <= j <= d.len() implies digits_value(#[trigger] d.take(j)) <= k by {
            assert(d.take(j) =~= d);
        }
    }
}

/// An expression the printer can write: its literals are non-negative and
/// its names printable.
pub open spec fn operand(e: SExpr) -> bool
    decreases e,
{
    match e {
        SExpr::CExpr(c) => c.value() >= 0,
        SExpr::VExpr(v) => printable_name(v.name()),
        SExpr::Neg(e1) => operand(*e1),
        SExpr::Add(e1, e2) => operand(*e1) && operand(*e2),
        SExpr::Sub(e1, e2) => operand(*e1) && operand(*e2),
        SExpr::Mul(e1, e2) => operand(*e1) && operand(*e2),
        SExpr::Div(e1, e2) => operand(*e1) && operand(*e2),
    }
}

pub open spec fn is_binary(e: SExpr) -> bool {
    e is Add || e is Sub || e is Mul || e is Div
}

pub open spec fn is_product(e: SExpr) -> bool {
    e is Mul || e is Div
}

/// The operator byte of a binary expression.
pub open spec fn op_byte(e: SExpr) -> u8 {
    match e {
        SExpr::Add(_, _) => 43,
        SExpr::Sub(_, _) => 45,
        SExpr::Mul(_, _) => 42,
        SExpr::Div(_, _) => 47,
        _ => 0,
    }
}

/// The left operand of a binary expression.
pub open spec fn left(e: SExpr) -> SExpr {
    match e {
        SExpr::Add(e1, _) => *e1,
        SExpr::Sub(e1, _) => *e1,
        SExpr::Mul(e1, _) => *e1,
        SExpr::Div(e1, _) => *e1,
        _ => e,
    }
}

/// The right operand of a binary expression.
pub open spec fn right(e: SExpr) -> SExpr {
    match e {
        SExpr::Add(_, e2) => *e2,
        SExpr::Sub(_, e2) => *e2,
        SExpr::Mul(_, e2) => *e2,
        SExpr::Div(_, e2) => *e2,
        _ => e,
    }
}

/// The text of a binary expression between its parentheses.
pub open spec fn inner(e: SExpr) -> Seq<u8> {
    show_operand(left(e)) + seq![op_byte(e)] + show_operand(right(e))
}

/// What may follow a term of a sum: what may follow an expression, or `+`
/// or `-`.
pub open spec fn ends_term(s: Seq<u8>, q: int) -> bool {
    ends_expr(s, q) || (0 <= q < s.len() && (s[q] == 43 || s[q] == 45))
}

/// The text of an expression: each binary operation between parentheses.
pub open spec fn show_operand(e: SExpr) -> Seq<u8>
    decreases e,
{
    match e {
        SExpr::CExpr(c) => digits(c.value() as nat),
        SExpr::VExpr(v) => name_bytes(v.name()),
        SExpr::Neg(e1) => seq![45u8] + show_operand(*e1),
        SExpr::Add(e1, e2) => seq![40u8] + show_operand(*e1) + seq![43u8] + show_operand(*e2)
            + seq![41u8],
        SExpr::Sub(e1, e2) => seq![40u8] + show_operand(*e1) + seq![45u8] + show_operand(*e2)
            + seq![41u8],
        SExpr::Mul(e1, e2) => seq![40u8] + show_operand(*e1) + seq![42u8] + show_operand(*e2)
            + seq![41u8],
        SExpr::Div(e1, e2) => seq![40u8] + show_operand(*e1) + seq![47u8] + show_operand(*e2)
            + seq![41u8],
    }
}

/// Two expressions with the same shape, literals and variable names.
pub open spec fn same_sexpr(a: SExpr, b: SExpr) -> bool
    decreases a,
{
    match (a, b) {
        (SExpr::CExpr(x), SExpr::CExpr(y)) => x.value() == y.value(),
        (SExpr::VExpr(x), SExpr::VExpr(y)) => x.name() == y.name(),
        (SExpr::Neg(x), SExpr::Neg(y)) => same_sexpr(*x, *y),
        (SExpr::Add(x1, x2), SExpr::Add(y1, y2)) => same_sexpr(*x1, *y1) && same_sexpr(*x2, *y2),
        (SExpr::Sub(x1, x2), SExpr::Sub(y1, y2)) => same_sexpr(*x1, *y1) && same_sexpr(*x2, *y2),
        (SExpr::Mul(x1, x2), SExpr::Mul(y1, y2)) => same_sexpr(*x1, *y1) && same_sexpr(*x2, *y2),
        (SExpr::Div(x1, x2), SExpr::Div(y1, y2)) => same_sexpr(*x1, *y1) && same_sexpr(*x2, *y2),
        _ => false,
    }
}

/// What may follow an expression: a closing parenthesis or brace, `;`, or
/// the end of the text.
pub open spec fn ends_expr(s: Seq<u8>, q: int) -> bool {
    q == s.len() || (0 <= q < s.len() && (s[q] == 41 || s[q] == 59 || s[q] == 125))
}

proof fn lemma_at_split(s: Seq<u8>, p: int, t1: Seq<u8>, t2: Seq<u8>)
    requires
        at(s, p, t1 + t2),
    ensures
        at(s, p, t1),
        at(s, p + t1.len(), t2),
        forall|i: int| 0 <= i < t1.len() ==> s[p + i] == #[trigger] t1[i],
        forall|i: int| 0 <= i < t2.len() ==> s[p + t1.len() + i] == #[trigger] t2[i],
{
    assert(s.subrange(p, p + t1.len()) =~= t1) by {
        assert forall|i: int| 0 <= i < t1.len() implies s.subrange(p, p + t1.len())[i] == t1[i] by {
            assert(s.subrange(p, p + (t1 + t2).len())[i] == (t1 + t2)[i]);
        }
    }
    assert(s.subrange(p + t1.len(), p + t1.len() + t2.len()) =~= t2) by {
        assert forall|i: int| 0 <= i < t2.len() implies s.subrange(
            p + t1.len(),
            p + t1.len() + t2.len(),
        )[i] == t2[i] by {
            assert(s.subrange(p, p + (t1 + t2).len())[t1.len() + i] == (t1 + t2)[t1.len() + i]);
        }
    }
    assert forall|i: int| 0 <= i < t1.len() implies s[p + i] == #[trigger] t1[i] by {
        assert(s.subrange(p, p + t1.len())[i] == t1[i]);
    }
    assert forall|i: int| 0 <= i < t2.len() implies s[p + t1.len() + i] == #[trigger] t2[i] by {
        assert(s.subrange(p + t1.len(), p + t1.len() + t2.len())[i] == t2[i]);
    }
}

proof fn lemma_at_first(s: Seq<u8>, p: int, t: Seq<u8>)
    requires
        at(s, p, t),
        t.len() > 0,
    ensures
        s[p] == t[0],
        p < s.len(),
{
    assert(s.subrange(p, p + t.len())[0] == t[0]);
}

/// The first byte of an operand's text, and its length.
proof fn lemma_operand_text(e: SExpr)
    requires
        operand(e),
    ensures
        show_operand(e).len() > 0,
        e is Neg ==> show_operand(e)[0] == 45,
        e is CExpr ==> is_digit(show_operand(e)[0]),
        e is VExpr ==> is_ident_start(show_operand(e)[0]),
        is_binary(e) ==> show_operand(e)[0] == 40,
{
    match e {
        SExpr::CExpr(c) => {
            lemma_digits(c.value() as nat);
        },
        SExpr::VExpr(v) => {
            assert(is_ident_start(v.name()[0] as u8));
        },
        _ => {},
    }
}

/// The text of a comparison operator.
pub open spec fn op_text(op: CmpOp) -> Seq<u8> {
    match op {
        CmpOp::GE => seq![62u8, 61u8],
        CmpOp::GT => seq![62u8],
        CmpOp::LE => seq![60u8, 61u8],
        CmpOp::LT => seq![60u8],
        CmpOp::EQ => seq![61u8, 61u8],
        CmpOp::NE => seq![33u8, 61u8],
    }
}

/// A guard the printer can write: a printable name and a non-negative
/// constant.
pub open spec fn printable_bexpr(b: BExpr) -> bool {
    printable_name(b.ident()) && b.number() >= 0
}

/// The text of a guard.
pub open spec fn show_bexpr(b: BExpr) -> Seq<u8> {
    name_bytes(b.ident()) + op_text(b.op()) + digits(b.number() as nat)
}

/// Two guards with the same comparison, variable name and constant.
pub open spec fn same_bexpr(a: BExpr, b: BExpr) -> bool {
    a.op() == b.op() && a.ident() == b.ident() && a.number() == b.number()
}

/// Whether a name is spelled like a keyword that starts a command.
pub open spec fn keyword(x: Seq<char>) -> bool {
    name_bytes(x) == seq![115u8, 107u8, 105u8, 112u8] || name_bytes(x) == seq![
        105u8,
        110u8,
        112u8,
        117u8,
        116u8,
    ] || name_bytes(x) == seq![105u8, 102u8] || name_bytes(x) == seq![
        119u8,
        104u8,
        105u8,
        108u8,
        101u8,
    ]
}

/// A command the printer writes and the parser reads back: sequences nested
/// to the left (as the parser builds them), printable expressions, guards
/// and names, and no assignment to a keyword.
pub open spec fn simple_command(c: Command) -> bool
    decreases c,
{
    match c {
        Command::Skip => true,
        Command::Sequence(c1, c2) => simple_command(*c1) && simple_command(*c2) && !(*c2 is Sequence),
        Command::Assign(v, e) => printable_name(v.name()) && !keyword(v.name()) && operand(e),
        Command::Input(v) => printable_name(v.name()),
        Command::If(b, c1, c2) => printable_bexpr(b) && simple_command(*c1) && simple_command(*c2),
        Command::While(b, c1) => printable_bexpr(b) && simple_command(*c1),
    }
}

/// The text of a command, without white space.
pub open spec fn show_command(c: Command) -> Seq<u8>
    decreases c,
{
    match c {
        Command::Skip => seq![115u8, 107u8, 105u8, 112u8],
        Command::Sequence(c1, c2) => show_command(*c1) + seq![59u8] + show_command(*c2),
        Command::Assign(v, e) => name_bytes(v.name()) + seq![58u8, 61u8] + show_operand(e),
        Command::Input(v) => seq![105u8, 110u8, 112u8, 117u8, 116u8, 40u8] + name_bytes(v.name())
            + seq![41u8],
        Command::If(b, c1, c2) => seq![105u8, 102u8, 40u8] + show_bexpr(b) + seq![41u8, 123u8]
            + show_command(*c1) + seq![125u8, 101u8, 108u8, 115u8, 101u8, 123u8] + show_command(
            *c2,
        ) + seq![125u8],
        Command::While(b, c1) => seq![119u8, 104u8, 105u8, 108u8, 101u8, 40u8] + show_bexpr(b)
            + seq![41u8, 123u8] + show_command(*c1) + seq![125u8],
    }
}

/// Two commands with the same shape, guards, expressions and names.
pub open spec fn same_command(a: Command, b: Command) -> bool
    decreases a,
{
    match (a, b) {
        (Command::Skip, Command::Skip) => true,
        (Command::Sequence(x1, x2), Command::Sequence(y1, y2)) => same_command(*x1, *y1)
            && same_command(*x2, *y2),
        (Command::Assign(x, e), Command::Assign(y, f)) => x.name() == y.name() && same_sexpr(e, f),
        (Command::Input(x), Command::Input(y)) => x.name() == y.name(),
        (Command::If(b1, x1, x2), Command::If(b2, y1, y2)) => same_bexpr(b1, b2) && same_command(
            *x1,
            *y1,
        ) && same_command(*x2, *y2),
        (Command::While(b1, x1), Command::While(b2, y1)) => same_bexpr(b1, b2) && same_command(
            *x1,
            *y1,
        ),
        _ => false,
    }
}

/// What may follow a command inside a block: `}` or the end of the text.
pub open spec fn ends_block(s: Seq<u8>, q: int) -> bool {
    q == s.len() || (0 <= q < s.len() && s[q] == 125)
}

/// What may follow a single command: what may follow a block, or `;`.
pub open spec fn ends_stmt(s: Seq<u8>, q: int) -> bool {
    ends_block(s, q) || (0 <= q < s.len() && s[q] == 59)
}

/// A simple command that is no sequence.
pub open spec fn single_command(c: Command) -> bool {
    simple_command(c) && !(c is Sequence)
}

/// `t` is `c`, or a prefix of `c` along the left spine of its sequences.
pub open spec fn spine_prefix(t: Command, c: Command) -> bool
    decreases c,
{
    t == c || (c is Sequence && spine_prefix(t, *c->Sequence_0))
}

/// A prefix of a simple command is written at the start of its text; a
/// proper prefix is followed by `;` and extends by one more command.
proof fn lemma_prefix(c: Command, t: Command)
    requires
        simple_command(c),
        spine_prefix(t, c),
    ensures
        simple_command(t),
        show_command(t).len() <= show_command(c).len(),
        t != c ==> show_command(t).len() < show_command(c).len(),
        show_command(c).subrange(0, show_command(t).len() as int) == show_command(t),
        t != c ==> show_command(c)[show_command(t).len() as int] == 59 && exists|n: Command|
            single_command(n) && #[trigger] spine_prefix(
                Command::Sequence(Box::new(t), Box::new(n)),
                c,
            ),
    decreases c,
{
    if t == c {
        assert(show_command(c).subrange(0, show_command(t).len() as int) =~= show_command(t));
    } else {
        let c1 = *c->Sequence_0;
        let c2 = *c->Sequence_1;
        lemma_prefix(c1, t);
        let sc = show_command(c);
        assert(sc =~= show_command(c1) + seq![59u8] + show_command(c2));
        assert(sc.subrange(0, show_command(t).len() as int) =~= show_command(t)) by {
            assert forall|i: int| 0 <= i < show_command(t).len() implies sc[i] == show_command(t)[i] by {
                assert(show_command(c1).subrange(0, show_command(t).len() as int)[i] == show_command(
                    t,
                )[i]);
            }
        }
        if t == c1 {
            assert(spine_prefix(Command::Sequence(Box::new(t), Box::new(c2)), c));
        } else {
            let n = choose|n: Command|
                single_command(n) && #[trigger] spine_prefix(
                    Command::Sequence(Box::new(t), Box::new(n)),
                    c1,
                );
            assert(spine_prefix(Command::Sequence(Box::new(t), Box::new(n)), c));
            assert(sc[show_command(t).len() as int] == show_command(c1)[show_command(t).len() as int]);
        }
    }
}

/// The leftmost command of a simple command is a prefix of it.
proof fn lemma_first(c: Command)
    requires
        simple_command(c),
    ensures
        exists|f: Command| single_command(f) && #[trigger] spine_prefix(f, c),
    decreases c,
{
    if c is Sequence {
        lemma_first(*c->Sequence_0);
        let f = choose|f: Command| single_command(f) && #[trigger] spine_prefix(f, *c->Sequence_0);
        assert(spine_prefix(f, c));
    } else {
        assert(spine_prefix(c, c));
    }
}

/// The word a simple command starts with.
pub open spec fn lead(c: Command) -> Seq<u8> {
    match c {
        Command::Skip => seq![115u8, 107u8, 105u8, 112u8],
        Command::Assign(v, _) => name_bytes(v.name()),
        Command::Input(_) => seq![105u8, 110u8, 112u8, 117u8, 116u8],
        Command::If(_, _, _) => seq![105u8, 102u8],
        Command::While(_, _) => seq![119u8, 104u8, 105u8, 108u8, 101u8],
        Command::Sequence(_, _) => Seq::empty(),
    }
}

proof fn lemma_at_sub(s: Seq<u8>, p: int, t: Seq<u8>, i: int, u: Seq<u8>)
    requires
        at(s, p, t),
        0 <= i,
        i + u.len() <= t.len(),
        t.subrange(i, i + u.len()) == u,
    ensures
        at(s, p + i, u),
{
    assert(s.subrange(p + i, p + i + u.len()) =~= u) by {
        assert forall|j: int| 0 <= j < u.len() implies s.subrange(p + i, p + i + u.len())[j]
            == u[j] by {
            assert(s.subrange(p, p + t.len())[i + j] == t[i + j]);
            assert(t.subrange(i, i + u.len())[j] == t[i + j]);
        }
    }
}

proof fn lemma_at_byte(s: Seq<u8>, p: int, t: Seq<u8>, i: int)
    requires
        at(s, p, t),
        0 <= i < t.len(),
    ensures
        s[p + i] == t[i],
{
    assert(s.subrange(p, p + t.len())[i] == t[i]);
}

/// A simple command's text starts with its word, which is followed by no
/// identifier character.
proof fn lemma_lead(s: Seq<u8>, p: int, c: Command)
    requires
        single_command(c),
        at(s, p, show_command(c)),
        ends_stmt(s, p + show_command(c).len()),
    ensures
        at(s, p, lead(c)),
        lead(c).len() > 0,
        is_ident_start(s[p]),
        forall|i: int| p <= i < p + lead(c).len() ==> is_ident_char(#[trigger] s[i]),
        ends_word(s, p + lead(c).len()),
{
    let t = show_command(c);
    let l = lead(c);
    match c {
        Command::Assign(v, e) => {
            assert(is_ident_start(v.name()[0] as u8));
            assert forall|i: int| 0 <= i < l.len() implies is_ident_char(#[trigger] l[i]) by {
                assert(is_ident_start(v.name()[i] as u8) || is_ident_char(v.name()[i] as u8));
            }
        },
        _ => {},
    }
    assert(t.subrange(0, l.len() as int) =~= l);
    lemma_at_sub(s, p, t, 0, l);
    assert forall|i: int| p <= i < p + l.len() implies is_ident_char(#[trigger] s[i]) by {
        lemma_at_byte(s, p, t, i - p);
    }
    lemma_at_byte(s, p, t, 0);
    if l.len() < t.len() {
        lemma_at_byte(s, p, t, l.len() as int);
    }
}

/// A block: a command between braces.
pub open spec fn braced(c: Command) -> Seq<u8> {
    seq![123u8] + show_command(c) + seq![125u8]
}

proof fn lemma_input_parts(s: Seq<u8>, p: int, c: Command)
    requires
        c is Input,
        at(s, p, show_command(c)),
    ensures
        s[p + 5] == 40,
        at(s, p + 6, name_bytes(c->Input_0.name())),
        s[p + 6 + c->Input_0.name().len()] == 41,
        show_command(c).len() == 7 + c->Input_0.name().len(),
{
    let t = show_command(c);
    let x = name_bytes(c->Input_0.name());
    lemma_at_byte(s, p, t, 5);
    assert(t.subrange(6, 6 + (x.len() as int)) =~= x);
    lemma_at_sub(s, p, t, 6, x);
    lemma_at_byte(s, p, t, 6 + (x.len() as int));
}

proof fn lemma_assign_parts(s: Seq<u8>, p: int, c: Command)
    requires
        c is Assign,
        at(s, p, show_command(c)),
    ensures
        at(s, p, name_bytes(c->Assign_0.name())),
        s[p + c->Assign_0.name().len()] == 58,
        s[p + c->Assign_0.name().len() + 1] == 61,
        at(s, p + c->Assign_0.name().len() + 2, show_operand(c->Assign_1)),
        show_command(c).len() == c->Assign_0.name().len() + 2 + show_operand(c->Assign_1).len(),
{
    let t = show_command(c);
    let x = name_bytes(c->Assign_0.name());
    let e = show_operand(c->Assign_1);
    assert(t.subrange(0, (x.len() as int) as int) =~= x);
    lemma_at_sub(s, p, t, 0, x);
    lemma_at_byte(s, p, t, (x.len() as int) as int);
    lemma_at_byte(s, p, t, (x.len() as int) + 1);
    assert(t.subrange((x.len() as int) + 2, (x.len() as int) + 2 + (e.len() as int)) =~= e);
    lemma_at_sub(s, p, t, (x.len() as int) + 2, e);
}

proof fn lemma_while_parts(s: Seq<u8>, p: int, c: Command)
    requires
        c is While,
        at(s, p, show_command(c)),
    ensures
        ({
            let lb = show_bexpr(c->While_0).len();
            &&& s[p + 5] == 40
            &&& at(s, p + 6, show_bexpr(c->While_0))
            &&& s[p + 6 + lb] == 41
            &&& at(s, p + 7 + lb, braced(*c->While_1))
            &&& show_command(c).len() == 7 + lb + braced(*c->While_1).len()
        }),
{
    let t = show_command(c);
    let sb = show_bexpr(c->While_0);
    let bl = braced(*c->While_1);
    lemma_at_byte(s, p, t, 5);
    assert(t.subrange(6, 6 + (sb.len() as int)) =~= sb);
    lemma_at_sub(s, p, t, 6, sb);
    lemma_at_byte(s, p, t, 6 + (sb.len() as int));
    assert(t.subrange(7 + (sb.len() as int), 7 + (sb.len() as int) + (bl.len() as int)) =~= bl);
    lemma_at_sub(s, p, t, 7 + (sb.len() as int), bl);
}

proof fn lemma_if_parts(s: Seq<u8>, p: int, c: Command)
    requires
        c is If,
        at(s, p, show_command(c)),
    ensures
        ({
            let lb = show_bexpr(c->If_0).len();
            let f = p + 4 + lb + braced(*c->If_1).len();
            &&& s[p + 2] == 40
            &&& at(s, p + 3, show_bexpr(c->If_0))
            &&& s[p + 3 + lb] == 41
            &&& at(s, p + 4 + lb, braced(*c->If_1))
            &&& at(s, f, seq![101u8, 108u8, 115u8, 101u8])
            &&& s[f + 4] == 123
            &&& at(s, f + 4, braced(*c->If_2))
            &&& p + show_command(c).len() == f + 4 + braced(*c->If_2).len()
        }),
{
    let t = show_command(c);
    let sb = show_bexpr(c->If_0);
    let b1 = braced(*c->If_1);
    let b2 = braced(*c->If_2);
    let w = seq![101u8, 108u8, 115u8, 101u8];
    let i = 4 + (sb.len() as int) + (b1.len() as int);
    lemma_at_byte(s, p, t, 2);
    assert(t.subrange(3, 3 + (sb.len() as int)) =~= sb);
    lemma_at_sub(s, p, t, 3, sb);
    lemma_at_byte(s, p, t, 3 + (sb.len() as int));
    assert(t.subrange(4 + (sb.len() as int), 4 + (sb.len() as int) + (b1.len() as int)) =~= b1);
    lemma_at_sub(s, p, t, 4 + (sb.len() as int), b1);
    assert(t.subrange(i, i + 4) =~= w);
    lemma_at_sub(s, p, t, i, w);
    lemma_at_byte(s, p, t, i + 4);
    assert(t.subrange(i + 4, i + 4 + (b2.len() as int)) =~= b2);
    lemma_at_sub(s, p, t, i + 4, b2);
}

proof fn lemma_paren_parts(s: Seq<u8>, p: int, e: SExpr)
    requires
        is_binary(e),
        at(s, p, show_operand(e)),
    ensures
        s[p] == 40,
        at(s, p + 1, inner(e)),
        s[p + 1 + inner(e).len()] == 41,
        show_operand(e).len() == inner(e).len() + 2,
{
    let t = show_operand(e);
    let u = inner(e);
    assert(t =~= seq![40u8] + u + seq![41u8]);
    lemma_at_byte(s, p, t, 0);
    assert(t.subrange(1, 1 + (u.len() as int)) =~= u);
    lemma_at_sub(s, p, t, 1, u);
    lemma_at_byte(s, p, t, 1 + (u.len() as int));
}

proof fn lemma_inner_parts(s: Seq<u8>, p: int, e: SExpr)
    requires
        is_binary(e),
        at(s, p, inner(e)),
    ensures
        at(s, p, show_operand(left(e))),
        s[p + show_operand(left(e)).len()] == op_byte(e),
        at(s, p + show_operand(left(e)).len() + 1, show_operand(right(e))),
        inner(e).len() == show_operand(left(e)).len() + 1 + show_operand(right(e)).len(),
{
    let u = inner(e);
    let l = show_operand(left(e));
    let r = show_operand(right(e));
    assert(u.subrange(0, l.len() as int) =~= l);
    lemma_at_sub(s, p, u, 0, l);
    lemma_at_byte(s, p, u, l.len() as int);
    assert(u.subrange((l.len() as int) + 1, (l.len() as int) + 1 + (r.len() as int)) =~= r);
    lemma_at_sub(s, p, u, (l.len() as int) + 1, r);
}

/// Relies on std's `String::from_utf8`: bytes below 128 are valid UTF-8,
/// each byte standing for the character of the same code.
#[verifier::external_body]
fn ascii_string(s: &[u8], start: usize, end: usize) -> (r: String)
    requires
        start <= end <= s@.len(),
        forall|i: int| start <= i < end ==> s@[i] < 128,
    ensures
        r@ == ascii_chars(s@.subrange(start as int, end as int)),
{
    String::from_utf8(s[start..end].to_vec()).unwrap_or_default()
}

/// The first position at or after `p` that holds no white space.
fn skip_ws(s: &[u8], p: usize) -> (q: usize)
    requires
        p <= s@.len(),
    ensures
        p <= q <= s@.len(),
        q == s@.len() || !is_space(s@[q as int]),
        forall|i: int| p <= i < q ==> is_space(s@[i]),
{
    let mut q = p;
    while q < s.len() && (s[q] == 32 || s[q] == 9 || s[q] == 10 || s[q] == 13)
        invariant
            p <= q <= s@.len(),
            forall|i: int| p <= i < q ==> is_space(s@[i]),
        decreases s@.len() - q,
    {
        q += 1;
    }
    q
}

/// Whether the byte `c` stands at position `p`.
fn byte_at(s: &[u8], p: usize, c: u8) -> (r: bool)
    ensures
        r == (p < s@.len() && s@[p as int] == c),
        r ==> p < s.len(),
{
    p < s.len() && s[p] == c
}

/// The end of the run of identifier characters that starts at `p`.
fn ident_end(s: &[u8], p: usize) -> (q: usize)
    requires
        p <= s@.len(),
    ensures
        p <= q <= s@.len(),
        q == s@.len() || !is_ident_char(s@[q as int]),
        forall|i: int| p <= i < q ==> is_ident_char(s@[i]),
{
    let mut q = p;
    while q < s.len() && ((65 <= s[q] && s[q] <= 90) || (97 <= s[q] && s[q] <= 122) || s[q] == 95
        || (48 <= s[q] && s[q] <= 57))
        invariant
            p <= q <= s@.len(),
            forall|i: int| p <= i < q ==> is_ident_char(s@[i]),
        decreases s@.len() - q,
    {
        q += 1;
    }
    q
}

/// Whether the bytes from `p` to `q` spell `w`.
fn spells(s: &[u8], p: usize, q: usize, w: &[u8]) -> (r: bool)
    requires
        p <= q <= s@.len(),
    ensures
        r == (s@.subrange(p as int, q as int) == w@),
{
    if q - p != w.len() {
        assert(s@.subrange(p as int, q as int).len() != w@.len());
        return false;
    }
    let mut i: usize = 0;
    while i < w.len()
        invariant
            p <= q <= s@.len(),
            q - p == w@.len(),
            i <= w@.len(),
            forall|j: int| 0 <= j < i ==> s@[p + j] == w@[j],
        decreases w@.len() - i,
    {
        if s[p + i] != w[i] {
            assert(s@.subrange(p as int, q as int)[i as int] != w@[i as int]);
            return false;
        }
        i += 1;
    }
    assert(s@.subrange(p as int, q as int) =~= w@);
    true
}

/// An identifier starting at `p`, after white space.
fn parse_ident(s: &[u8], p: usize) -> (r: Result<(Var, usize), ParseError>)
    requires
        p <= s@.len(),
    ensures
        match r {
            Ok((v, q)) => p < q <= s@.len() && var_ok(v),
            Err(e) => e.pos <= s@.len(),
        },
        forall|x: Seq<char>|
            #[trigger] at(s@, p as int, name_bytes(x)) && printable_name(x) && ends_word(
                s@,
                p + x.len(),
            ) ==> (r matches Ok((v, q)) && v.name() == x && q == p + x.len()),
{
    let a = skip_ws(s, p);
    proof {
        assert forall|x: Seq<char>|
            #[trigger] at(s@, p as int, name_bytes(x)) && printable_name(x) && ends_word(
                s@,
                p + x.len(),
            ) implies a == p && is_ident_start(s@[p as int]) by {
            assert(is_ident_start(x[0] as u8));
            lemma_at_first(s@, p as int, name_bytes(x));
        }
    }
    if a >= s.len() || !((65 <= s[a] && s[a] <= 90) || (97 <= s[a] && s[a] <= 122) || s[a] == 95) {
        return Err(ParseError { pos: a });
    }
    let b = ident_end(s, a + 1);
    let name = ascii_string(s, a, b);
    assert forall|i: int| 0 <= i < name@.len() implies (if i == 0 {
        is_ident_start(#[trigger] name@[i] as u8)
    } else {
        is_ident_char(name@[i] as u8)
    }) && (name@[i] as u32) < 128 by {
        assert(name@[i] == s@[a + i] as char);
    }
    proof {
        assert forall|x: Seq<char>|
            #[trigger] at(s@, p as int, name_bytes(x)) && printable_name(x) && ends_word(
                s@,
                p + x.len(),
            ) implies b == p + x.len() && name@ == x by {
            let e = p + x.len();
            assert forall|i: int| p <= i < e implies is_ident_char(s@[i]) by {
                assert(s@[i] == s@.subrange(p as int, e)[i - p]);
                assert(is_ident_start(x[i - p] as u8) || is_ident_char(x[i - p] as u8));
            }
            if b < e {
                assert(is_ident_char(s@[b as int]));
            }
            assert(s@.subrange(a as int, b as int) =~= name_bytes(x));
        }
    }
    Ok((Var::Var(name), b))
}

/// A decimal literal starting at `p`, after white space.  The digits of a
/// number that fits in `i64`, standing at `p`, give that number.
fn parse_const(s: &[u8], p: usize) -> (r: Result<(Const, usize), ParseError>)
    requires
        p <= s@.len(),
    ensures
        match r {
            Ok((c, q)) => p < q <= s@.len() && c.value() >= 0,
            Err(e) => e.pos <= s@.len(),
        },
        forall|k: nat|
            #[trigger] at(s@, p as int, digits(k)) && k <= i64::MAX && ends_number(
                s@,
                p + digits(k).len(),
            ) ==> r == Ok::<(Const, usize), ParseError>(
                (Const::Const(k as i64), (p + digits(k).len()) as usize),
            ),
{
    let a = skip_ws(s, p);
    assert forall|k: nat|
        #[trigger] at(s@, p as int, digits(k)) && k <= i64::MAX && ends_number(
            s@,
            p + digits(k).len(),
        ) implies a == p && forall|i: int| p <= i < p + digits(k).len() ==> is_digit(s@[i]) by {
        lemma_digits(k);
        assert forall|i: int| p <= i < p + digits(k).len() implies is_digit(s@[i]) by {
            assert(s@[i] == s@.subrange(p as int, p + digits(k).len())[i - p]);
        }
        assert(is_digit(s@[p as int]));
    }
    if a >= s.len() || !(48 <= s[a] && s[a] <= 57) {
        return Err(ParseError { pos: a });
    }
    let mut q = a;
    let mut n: i64 = 0;
    while q < s.len() && 48 <= s[q] && s[q] <= 57
        invariant
            a <= q <= s@.len(),
            n == digits_value(s@.subrange(a as int, q as int)),
            0 <= n,
            forall|k: nat|
                #[trigger] at(s@, p as int, digits(k)) && k <= i64::MAX && ends_number(
                    s@,
                    p + digits(k).len(),
                ) ==> a == p && q <= p + digits(k).len() && (forall|i: int|
                    p <= i < p + digits(k).len() ==> is_digit(s@[i])),
        decreases s@.len() - q,
    {
        let d = (s[q] - 48) as i64;
        assert(s@.subrange(a as int, q + 1).drop_last() =~= s@.subrange(a as int, q as int));
        let m: i128 = n as i128 * 10 + d as i128;
        if m > i64::MAX as i128 {
            proof {
                assert forall|k: nat|
                    #[trigger] at(s@, p as int, digits(k)) && k <= i64::MAX && ends_number(
                        s@,
                        p + digits(k).len(),
                    ) implies false by {
                    lemma_digits(k);
                    let len = digits(k).len();
                    assert(q < p + len);
                    assert(s@.subrange(a as int, q + 1) =~= digits(k).take(q + 1 - p));
                }
            }
            return Err(ParseError { pos: q });
        }
        n = m as i64;
        q += 1;
    }
    proof {
        assert forall|k: nat|
            #[trigger] at(s@, p as int, digits(k)) && k <= i64::MAX && ends_number(
                s@,
                p + digits(k).len(),
            ) implies q == p + digits(k).len() && n == k by {
            lemma_digits(k);
            let len = digits(k).len();
            if q < p + len {
                assert(is_digit(s@[q as int]));
            }
            assert(s@.subrange(a as int, q as int) =~= digits(k));
        }
    }
    Ok((Const::Const(n), q))
}

/// `sum := product (('+' | '-') product)*`
fn parse_sexpr(s: &[u8], p: usize) -> (r: Result<(SExpr, usize), ParseError>)
    requires
        p <= s@.len(),
    ensures
        match r {
            Ok((e, q)) => p < q <= s@.len() && sexpr_ok(e),
            Err(e) => e.pos <= s@.len(),
        },
        forall|e: SExpr|
            #[trigger] at(s@, p as int, show_operand(e)) && operand(e) && ends_expr(
                s@,
                p + show_operand(e).len(),
            ) ==> (r matches Ok((e2, q)) && same_sexpr(e2, e) && q == p + show_operand(e).len()),
        forall|e: SExpr|
            #[trigger] at(s@, p as int, inner(e)) && is_binary(e) && operand(e) && ends_expr(
                s@,
                p + inner(e).len(),
            ) ==> (r matches Ok((e2, q)) && same_sexpr(e2, e) && q == p + inner(e).len()),
    decreases s@.len() - p, 3nat,
{
    let r0 = parse_product(s, p);
    proof {
        assert forall|e: SExpr|
            #[trigger] at(s@, p as int, show_operand(e)) && operand(e) && ends_expr(
                s@,
                p + show_operand(e).len(),
            ) implies (r0 matches Ok((e2, q)) && same_sexpr(e2, e) && q == p
            + show_operand(e).len()) by {
            assert(ends_term(s@, p + show_operand(e).len()));
        }
        assert forall|e: SExpr|
            #[trigger] at(s@, p as int, inner(e)) && is_binary(e) && operand(e) && ends_expr(
                s@,
                p + inner(e).len(),
            ) implies (r0 matches Ok((e2, q)) && ((e is Add || e is Sub) ==> (same_sexpr(e2, left(e))
            && q == p + show_operand(left(e)).len())) && (!(e is Add || e is Sub) ==> (same_sexpr(e2, e) && q == p
            + inner(e).len()))) by {
            lemma_inner_parts(s@, p as int, e);
            if e is Add || e is Sub {
                assert(at(s@, p as int, show_operand(left(e))));
                assert(ends_term(s@, p + show_operand(left(e)).len()));
            } else {
                assert(at(s@, p as int, inner(e)));
            }
        }
    }
    let (mut lhs, mut q) = match r0 {
        Ok(x) => x,
        Err(e) => return Err(e),
    };
    loop
        invariant
            p < q <= s@.len(),
            sexpr_ok(lhs),
            forall|e: SExpr|
                #[trigger] at(s@, p as int, show_operand(e)) && operand(e) && ends_expr(
                    s@,
                    p + show_operand(e).len(),
                ) ==> q == p + show_operand(e).len() && same_sexpr(lhs, e),
            forall|e: SExpr|
                #[trigger] at(s@, p as int, inner(e)) && is_binary(e) && operand(e) && ends_expr(
                    s@,
                    p + inner(e).len(),
                ) ==> (q == p + inner(e).len() && same_sexpr(lhs, e)) || ((e is Add || e is Sub) && q == p
                    + show_operand(left(e)).len() && same_sexpr(lhs, left(e))),
        decreases s@.len() - q,
    {
        let a = skip_ws(s, q);
        let plus = byte_at(s, a, 43);
        let minus = byte_at(s, a, 45);
        proof {
            assert forall|e: SExpr|
                #[trigger] at(s@, p as int, show_operand(e)) && operand(e) && ends_expr(
                    s@,
                    p + show_operand(e).len(),
                ) implies !plus && !minus by {
                if q < s@.len() {
                    assert(!is_space(s@[q as int]));
                }
            }
            assert forall|e: SExpr|
                #[trigger] at(s@, p as int, inner(e)) && is_binary(e) && operand(e) && ends_expr(
                    s@,
                    p + inner(e).len(),
                ) implies ((!plus && !minus) == (q == p + inner(e).len())) && (q
                == p + inner(e).len() || (plus == (op_byte(e) == 43) && a == q)) by {
                lemma_inner_parts(s@, p as int, e);
                if q < s@.len() {
                    assert(!is_space(s@[q as int]));
                }
            }
        }
        if !plus && !minus {
            return Ok((lhs, q));
        }
        let r1 = parse_product(s, a + 1);
        proof {
            assert forall|e: SExpr|
                #[trigger] at(s@, p as int, inner(e)) && is_binary(e) && operand(e) && ends_expr(
                    s@,
                    p + inner(e).len(),
                ) implies (r1 matches Ok((e2, b)) && same_sexpr(e2, right(e)) && b == p
                + inner(e).len()) by {
                lemma_inner_parts(s@, p as int, e);
                assert(at(s@, a + 1, show_operand(right(e))));
                assert(ends_term(s@, a + 1 + show_operand(right(e)).len()));
            }
        }
        let (rhs, b) = match r1 {
            Ok(x) => x,
            Err(e) => return Err(e),
        };
        lhs = if plus {
            SExpr::Add(Box::new(lhs), Box::new(rhs))
        } else {
            SExpr::Sub(Box::new(lhs), Box::new(rhs))
        };
        q = b;
    }
}

/// `product := unary (('*' | '/') unary)*`
fn parse_product(s: &[u8], p: usize) -> (r: Result<(SExpr, usize), ParseError>)
    requires
        p <= s@.len(),
    ensures
        match r {
            Ok((e, q)) => p < q <= s@.len() && sexpr_ok(e),
            Err(e) => e.pos <= s@.len(),
        },
        forall|e: SExpr|
            #[trigger] at(s@, p as int, show_operand(e)) && operand(e) && ends_term(
                s@,
                p + show_operand(e).len(),
            ) ==> (r matches Ok((e2, q)) && same_sexpr(e2, e) && q == p + show_operand(e).len()),
        forall|e: SExpr|
            #[trigger] at(s@, p as int, inner(e)) && is_product(e) && operand(e) && ends_term(
                s@,
                p + inner(e).len(),
            ) ==> (r matches Ok((e2, q)) && same_sexpr(e2, e) && q == p + inner(e).len()),
    decreases s@.len() - p, 2nat,
{
    let r0 = parse_unary(s, p);
    proof {
        assert forall|e: SExpr|
            #[trigger] at(s@, p as int, show_operand(e)) && operand(e) && ends_term(
                s@,
                p + show_operand(e).len(),
            ) implies (r0 matches Ok((e2, q)) && same_sexpr(e2, e) && q == p
            + show_operand(e).len()) by {
            assert(ends_word(s@, p + show_operand(e).len()));
        }
        assert forall|e: SExpr|
            #[trigger] at(s@, p as int, inner(e)) && is_product(e) && operand(e) && ends_term(
                s@,
                p + inner(e).len(),
            ) implies (r0 matches Ok((e2, q)) && (is_product(e) ==> (same_sexpr(e2, left(e))
            && q == p + show_operand(left(e)).len())) && (!is_product(e) ==> (same_sexpr(e2, e) && q == p
            + inner(e).len()))) by {
            lemma_inner_parts(s@, p as int, e);
            assert(at(s@, p as int, show_operand(left(e))));
        }
    }
    let (mut lhs, mut q) = match r0 {
        Ok(x) => x,
        Err(e) => return Err(e),
    };
    loop
        invariant
            p < q <= s@.len(),
            sexpr_ok(lhs),
            forall|e: SExpr|
                #[trigger] at(s@, p as int, show_operand(e)) && operand(e) && ends_term(
                    s@,
                    p + show_operand(e).len(),
                ) ==> q == p + show_operand(e).len() && same_sexpr(lhs, e),
            forall|e: SExpr|
                #[trigger] at(s@, p as int, inner(e)) && is_product(e) && operand(e) && ends_term(
                    s@,
                    p + inner(e).len(),
                ) ==> (q == p + inner(e).len() && same_sexpr(lhs, e)) || (is_product(e) && q == p
                    + show_operand(left(e)).len() && same_sexpr(lhs, left(e))),
        decreases s@.len() - q,
    {
        let a = skip_ws(s, q);
        let times = byte_at(s, a, 42);
        let over = byte_at(s, a, 47);
        proof {
            assert forall|e: SExpr|
                #[trigger] at(s@, p as int, show_operand(e)) && operand(e) && ends_term(
                    s@,
                    p + show_operand(e).len(),
                ) implies !times && !over by {
                if q < s@.len() {
                    assert(!is_space(s@[q as int]));
                }
            }
            assert forall|e: SExpr|
                #[trigger] at(s@, p as int, inner(e)) && is_product(e) && operand(e) && ends_term(
                    s@,
                    p + inner(e).len(),
                ) implies ((!times && !over) == (q == p + inner(e).len())) && (q
                == p + inner(e).len() || (times == (op_byte(e) == 42) && a == q)) by {
                lemma_inner_parts(s@, p as int, e);
                if q < s@.len() {
                    assert(!is_space(s@[q as int]));
                }
            }
        }
        if !times && !over {
            return Ok((lhs, q));
        }
        let r1 = parse_unary(s, a + 1);
        proof {
            assert forall|e: SExpr|
                #[trigger] at(s@, p as int, inner(e)) && is_product(e) && operand(e) && ends_term(
                    s@,
                    p + inner(e).len(),
                ) implies (r1 matches Ok((e2, b)) && same_sexpr(e2, right(e)) && b == p
                + inner(e).len()) by {
                lemma_inner_parts(s@, p as int, e);
                assert(at(s@, a + 1, show_operand(right(e))));
                assert(ends_word(s@, a + 1 + show_operand(right(e)).len()));
            }
        }
        let (rhs, b) = match r1 {
            Ok(x) => x,
            Err(e) => return Err(e),
        };
        lhs = if times {
            SExpr::Mul(Box::new(lhs), Box::new(rhs))
        } else {
            SExpr::Div(Box::new(lhs), Box::new(rhs))
        };
        q = b;
    }
}

/// `unary := '-' unary | atom`
fn parse_unary(s: &[u8], p: usize) -> (r: Result<(SExpr, usize), ParseError>)
    requires
        p <= s@.len(),
    ensures
        match r {
            Ok((e, q)) => p < q <= s@.len() && sexpr_ok(e),
            Err(e) => e.pos <= s@.len(),
        },
        forall|e: SExpr|
            #[trigger] at(s@, p as int, show_operand(e)) && operand(e) && ends_word(
                s@,
                p + show_operand(e).len(),
            ) ==> (r matches Ok((e2, q)) && same_sexpr(e2, e) && q == p + show_operand(e).len()),
    decreases s@.len() - p, 1nat,
{
    let a = skip_ws(s, p);
    proof {
        assert forall|e: SExpr|
            #[trigger] at(s@, p as int, show_operand(e)) && operand(e) && ends_word(
                s@,
                p + show_operand(e).len(),
            ) implies a == p && s@[p as int] == show_operand(e)[0] by {
            lemma_operand_text(e);
            lemma_at_first(s@, p as int, show_operand(e));
        }
    }
    if byte_at(s, a, 45) {
        let r1 = parse_unary(s, a + 1);
        proof {
            assert forall|e: SExpr|
                #[trigger] at(s@, p as int, show_operand(e)) && operand(e) && ends_word(
                    s@,
                    p + show_operand(e).len(),
                ) implies e is Neg && (r1 matches Ok((e2, q)) && same_sexpr(e2, *e->Neg_0)
                && q == p + show_operand(e).len()) by {
                lemma_operand_text(e);
                if let SExpr::Neg(e1) = e {
                    lemma_at_split(s@, p as int, seq![45u8], show_operand(*e1));
                    assert(at(s@, p + 1, show_operand(*e1)));
                }
            }
        }
        match r1 {
            Ok((e, q)) => Ok((SExpr::Neg(Box::new(e)), q)),
            Err(e) => Err(e),
        }
    } else {
        parse_atom(s, a)
    }
}

/// `atom := literal | identifier | '(' sum ')'`
fn parse_atom(s: &[u8], p: usize) -> (r: Result<(SExpr, usize), ParseError>)
    requires
        p <= s@.len(),
    ensures
        match r {
            Ok((e, q)) => p < q <= s@.len() && sexpr_ok(e),
            Err(e) => e.pos <= s@.len(),
        },
        forall|e: SExpr|
            #[trigger] at(s@, p as int, show_operand(e)) && operand(e) && !(e is Neg) && ends_word(
                s@,
                p + show_operand(e).len(),
            ) ==> (r matches Ok((e2, q)) && same_sexpr(e2, e) && q == p + show_operand(e).len()),
    decreases s@.len() - p, 0nat,
{
    let a = skip_ws(s, p);
    proof {
        assert forall|e: SExpr|
            #[trigger] at(s@, p as int, show_operand(e)) && operand(e) && !(e is Neg) && ends_word(
                s@,
                p + show_operand(e).len(),
            ) implies a == p && (e is CExpr <==> is_digit(s@[p as int])) && (is_binary(e) <==> s@[
            p as int] == 40) by {
            lemma_operand_text(e);
            lemma_at_first(s@, p as int, show_operand(e));
        }
    }
    if byte_at(s, a, 40) {
        let r1 = parse_sexpr(s, a + 1);
        proof {
            assert forall|e: SExpr|
                #[trigger] at(s@, p as int, show_operand(e)) && operand(e) && !(e is Neg)
                    && ends_word(s@, p + show_operand(e).len()) implies (r1 matches Ok((e2, q))
                && same_sexpr(e2, e) && q == p + 1 + inner(e).len() && q < s@.len() && s@[q as int]
                == 41) by {
                lemma_paren_parts(s@, p as int, e);
                assert(at(s@, p + 1, inner(e)));
            }
        }
        let (e, b) = match r1 {
            Ok(x) => x,
            Err(e) => return Err(e),
        };
        let c = skip_ws(s, b);
        if !byte_at(s, c, 41) {
            return Err(ParseError { pos: c });
        }
        proof {
            assert forall|e: SExpr|
                #[trigger] at(s@, p as int, show_operand(e)) && operand(e) && !(e is Neg)
                    && ends_word(s@, p + show_operand(e).len()) implies c + 1 == p
                + show_operand(e).len() by {
                lemma_paren_parts(s@, p as int, e);
            }
        }
        Ok((e, c + 1))
    } else if a < s.len() && 48 <= s[a] && s[a] <= 57 {
        let r1 = parse_const(s, a);
        proof {
            assert forall|e: SExpr|
                #[trigger] at(s@, p as int, show_operand(e)) && operand(e) && !(e is Neg)
                    && ends_word(s@, p + show_operand(e).len()) implies (r1 matches Ok((c, q))
                && c.value() == e->CExpr_0.value() && q == p + show_operand(e).len()) by {
                if let SExpr::CExpr(c) = e {
                    let k = c.value() as nat;
                    assert(at(s@, p as int, digits(k)));
                }
            }
        }
        match r1 {
            Ok((c, q)) => Ok((SExpr::CExpr(c), q)),
            Err(e) => Err(e),
        }
    } else {
        let r1 = parse_ident(s, a);
        proof {
            assert forall|e: SExpr|
                #[trigger] at(s@, p as int, show_operand(e)) && operand(e) && !(e is Neg)
                    && ends_word(s@, p + show_operand(e).len()) implies (r1 matches Ok((v, q))
                && v.name() == e->VExpr_0.name() && q == p + show_operand(e).len()) by {
                if let SExpr::VExpr(v) = e {
                    assert(at(s@, p as int, name_bytes(v.name())));
                }
            }
        }
        match r1 {
            Ok((v, q)) => Ok((SExpr::VExpr(v), q)),
            Err(e) => Err(e),
        }
    }
}

/// The byte `c` after white space; the position after it.
fn expect(s: &[u8], p: usize, c: u8) -> (r: Result<usize, ParseError>)
    requires
        p <= s@.len(),
    ensures
        match r {
            Ok(q) => p < q <= s@.len(),
            Err(e) => e.pos <= s@.len(),
        },
        p < s@.len() && s@[p as int] == c && !is_space(c) ==> r == Ok::<usize, ParseError>(
            (p + 1) as usize,
        ),
{
    let a = skip_ws(s, p);
    if byte_at(s, a, c) {
        Ok(a + 1)
    } else {
        Err(ParseError { pos: a })
    }
}

/// `guard := identifier op literal`, with `op` one of `>= > <= < == !=`.
fn parse_bexpr(s: &[u8], p: usize) -> (r: Result<(BExpr, usize), ParseError>)
    requires
        p <= s@.len(),
    ensures
        match r {
            Ok((b, q)) => p < q <= s@.len() && bexpr_ok(b),
            Err(e) => e.pos <= s@.len(),
        },
        forall|b: BExpr|
            #[trigger] at(s@, p as int, show_bexpr(b)) && printable_bexpr(b) && ends_number(
                s@,
                p + show_bexpr(b).len(),
            ) ==> (r matches Ok((b2, q)) && same_bexpr(b2, b) && q == p + show_bexpr(b).len()),
{
    proof {
        assert forall|b: BExpr|
            #[trigger] at(s@, p as int, show_bexpr(b)) && printable_bexpr(b) && ends_number(
                s@,
                p + show_bexpr(b).len(),
            ) implies ({
            let x = b.ident();
            let t = op_text(b.op());
            let k = b.number() as nat;
            &&& at(s@, p as int, name_bytes(x))
            &&& ends_word(s@, p + x.len())
            &&& at(s@, p + x.len() + t.len(), digits(k))
            &&& s@[p + x.len()] == t[0]
            &&& p + x.len() + 1 < s@.len()
            &&& (s@[p + x.len() + 1] == 61) == (t.len() == 2)
        }) by {
            let x = b.ident();
            let t = op_text(b.op());
            let k = b.number() as nat;
            lemma_digits(k);
            lemma_at_split(s@, p as int, name_bytes(x) + t, digits(k));
            lemma_at_split(s@, p as int, name_bytes(x), t);
            assert(s@[p + x.len() + 0] == t[0]);
            if t.len() == 2 {
                assert(s@[p + x.len() + 1] == t[1]);
            } else {
                assert(s@[p + x.len() + t.len() + 0] == digits(k)[0]);
            }
        }
    }
    let r0 = parse_ident(s, p);
    let (v, a) = match r0 {
        Ok(x) => x,
        Err(e) => return Err(e),
    };
    let o = skip_ws(s, a);
    if o >= s.len() {
        return Err(ParseError { pos: o });
    }
    let first = s[o];
    let eq_next = byte_at(s, o + 1, 61);
    let (kind, after): (CmpOp, usize) = if first == 62 && eq_next {
        (CmpOp::GE, o + 2)
    } else if first == 62 {
        (CmpOp::GT, o + 1)
    } else if first == 60 && eq_next {
        (CmpOp::LE, o + 2)
    } else if first == 60 {
        (CmpOp::LT, o + 1)
    } else if first == 61 && eq_next {
        (CmpOp::EQ, o + 2)
    } else if first == 33 && eq_next {
        (CmpOp::NE, o + 2)
    } else {
        return Err(ParseError { pos: o });
    };
    proof {
        assert forall|b: BExpr|
            #[trigger] at(s@, p as int, show_bexpr(b)) && printable_bexpr(b) && ends_number(
                s@,
                p + show_bexpr(b).len(),
            ) implies kind == b.op() && after == p + b.ident().len() + op_text(b.op()).len()
            && v.name() == b.ident() by {
            assert(at(s@, p as int, name_bytes(b.ident())));
        }
    }
    let r1 = parse_const(s, after);
    proof {
        assert forall|b: BExpr|
            #[trigger] at(s@, p as int, show_bexpr(b)) && printable_bexpr(b) && ends_number(
                s@,
                p + show_bexpr(b).len(),
            ) implies (r1 matches Ok((c, q)) && c.value() == b.number() && q == p + show_bexpr(
                b,
            ).len()) by {
            let k = b.number() as nat;
            assert(at(s@, p + b.ident().len() + op_text(b.op()).len(), digits(k)));
        }
    }
    let (c, q) = match r1 {
        Ok(x) => x,
        Err(e) => return Err(e),
    };
    let b = match kind {
        CmpOp::GE => BExpr::GE(v, c),
        CmpOp::GT => BExpr::GT(v, c),
        CmpOp::LE => BExpr::LE(v, c),
        CmpOp::LT => BExpr::LT(v, c),
        CmpOp::EQ => BExpr::EQ(v, c),
        CmpOp::NE => BExpr::NE(v, c),
    };
    Ok((b, q))
}

/// `'{' commands '}'`
fn parse_braced(s: &[u8], p: usize) -> (r: Result<(Command, usize), ParseError>)
    requires
        p <= s@.len(),
    ensures
        match r {
            Ok((c, q)) => p < q <= s@.len() && command_ok(c),
            Err(e) => e.pos <= s@.len(),
        },
        forall|c: Command|
            #[trigger] at(s@, p as int, braced(c)) && simple_command(c) ==> (r matches Ok((c2, q))
                && same_command(c2, c) && q == p + braced(c).len()),
    decreases s@.len() - p, 2nat,
{
    proof {
        assert forall|c: Command| #[trigger] at(s@, p as int, braced(c)) && simple_command(c) implies {
            let l = show_command(c).len();
            &&& s@[p as int] == 123
            &&& at(s@, p + 1, show_command(c))
            &&& ends_block(s@, p + 1 + l)
            &&& s@[p + 1 + l] == 125
        } by {
            let t = braced(c);
            let l = show_command(c).len() as int;
            lemma_at_byte(s@, p as int, t, 0);
            assert(t.subrange(1, 1 + l) =~= show_command(c));
            lemma_at_sub(s@, p as int, t, 1, show_command(c));
            lemma_at_byte(s@, p as int, t, 1 + l);
        }
    }
    let r0 = expect(s, p, 123);
    let a = match r0 {
        Ok(a) => a,
        Err(e) => return Err(e),
    };
    let r1 = parse_commands(s, a);
    proof {
        assert forall|c: Command| #[trigger] at(s@, p as int, braced(c)) && simple_command(c) implies (
        r1 matches Ok((c2, q)) && same_command(c2, c) && q == p + 1 + show_command(c).len()) by {
            assert(at(s@, p + 1, show_command(c)));
        }
    }
    let (c, b) = match r1 {
        Ok(x) => x,
        Err(e) => return Err(e),
    };
    match expect(s, b, 125) {
        Ok(q) => Ok((c, q)),
        Err(e) => Err(e),
    }
}

/// One command: `skip`, `input(x)`, `x := e`, an `if` or a `while`.
#[verifier::spinoff_prover]
#[verifier::rlimit(100)]
fn parse_single(s: &[u8], p: usize) -> (r: Result<(Command, usize), ParseError>)
    requires
        p <= s@.len(),
    ensures
        match r {
            Ok((c, q)) => p < q <= s@.len() && command_ok(c),
            Err(e) => e.pos <= s@.len(),
        },
        forall|c: Command|
            #[trigger] at(s@, p as int, show_command(c)) && single_command(c) && ends_stmt(
                s@,
                p + show_command(c).len(),
            ) ==> (r matches Ok((c2, q)) && same_command(c2, c) && q == p + show_command(
                c,
            ).len()),
    decreases s@.len() - p, 0nat,
{
    let a = skip_ws(s, p);
    let e = ident_end(s, a);
    proof {
        assert forall|c: Command|
            #[trigger] at(s@, p as int, show_command(c)) && single_command(c) && ends_stmt(
                s@,
                p + show_command(c).len(),
            ) implies a == p && e == p + lead(c).len() && s@.subrange(p as int, e as int) == lead(c) by {
            lemma_lead(s@, p as int, c);
            if e < p + lead(c).len() {
                assert(is_ident_char(s@[e as int]));
            }
            if e > p + lead(c).len() {
                assert(is_ident_char(s@[p + lead(c).len()]));
            }
        }
    }
    let is_skip = e > a && spells(s, a, e, &[115u8, 107, 105, 112]);
    let is_input = e > a && spells(s, a, e, &[105u8, 110, 112, 117, 116]);
    let is_if = spells(s, a, e, &[105u8, 102]);
    let is_while = spells(s, a, e, &[119u8, 104, 105, 108, 101]);
    proof {
        assert forall|c: Command|
            #[trigger] at(s@, p as int, show_command(c)) && single_command(c) && ends_stmt(
                s@,
                p + show_command(c).len(),
            ) implies (is_skip <==> c is Skip) && (is_input <==> c is Input) && (is_if <==> c is If) && (is_while <==> c is While) by {
            lemma_lead(s@, p as int, c);
        }
    }
    if is_skip {
        return Ok((Command::Skip, e));
    }
    if is_input {
        let r1 = expect(s, e, 40);
        proof {
            assert forall|c: Command|
                #[trigger] at(s@, p as int, show_command(c)) && single_command(c) && ends_stmt(
                    s@,
                    p + show_command(c).len(),
                ) implies r1 == Ok::<usize, ParseError>((p + 6) as usize) by {
                lemma_input_parts(s@, p as int, c);
            }
        }
        let b = match r1 {
            Ok(b) => b,
            Err(err) => return Err(err),
        };
        let r2 = parse_ident(s, b);
        proof {
            assert forall|c: Command|
                #[trigger] at(s@, p as int, show_command(c)) && single_command(c) && ends_stmt(
                    s@,
                    p + show_command(c).len(),
                ) implies (r2 matches Ok((v, q)) && v.name() == c->Input_0.name() && q == p + 6 + c->Input_0.name().len()) by {
                lemma_input_parts(s@, p as int, c);
                assert(at(s@, p + 6, name_bytes(c->Input_0.name())));
            }
        }
        let (v, k) = match r2 {
            Ok(x) => x,
            Err(err) => return Err(err),
        };
        proof {
            assert forall|c: Command|
                #[trigger] at(s@, p as int, show_command(c)) && single_command(c) && ends_stmt(
                    s@,
                    p + show_command(c).len(),
                ) implies k < s@.len() && s@[k as int] == 41 by {
                lemma_input_parts(s@, p as int, c);
            }
        }
        return match expect(s, k, 41) {
            Ok(q) => Ok((Command::Input(v), q)),
            Err(err) => Err(err),
        };
    }
    if is_if || is_while {
        let r1 = expect(s, e, 40);
        proof {
            assert forall|c: Command|
                #[trigger] at(s@, p as int, show_command(c)) && single_command(c) && ends_stmt(
                    s@,
                    p + show_command(c).len(),
                ) implies r1 == Ok::<usize, ParseError>((e + 1) as usize) by {
                if c is If {
                    lemma_if_parts(s@, p as int, c);
                } else {
                    lemma_while_parts(s@, p as int, c);
                }
            }
        }
        let b = match r1 {
            Ok(b) => b,
            Err(err) => return Err(err),
        };
        let r2 = parse_bexpr(s, b);
        proof {
            assert forall|c: Command|
                #[trigger] at(s@, p as int, show_command(c)) && single_command(c) && ends_stmt(
                    s@,
                    p + show_command(c).len(),
                ) implies (r2 matches Ok((g, q)) && (c is If ==> same_bexpr(g, c->If_0) && q == b + show_bexpr(
                c->If_0,
            ).len()) && (c is While ==> same_bexpr(g, c->While_0) && q == b + show_bexpr(
                c->While_0,
            ).len())) by {
                if c is If {
                    lemma_if_parts(s@, p as int, c);
                    assert(at(s@, b as int, show_bexpr(c->If_0)));
                } else {
                    lemma_while_parts(s@, p as int, c);
                    assert(at(s@, b as int, show_bexpr(c->While_0)));
                }
            }
        }
        let (guard, k) = match r2 {
            Ok(x) => x,
            Err(err) => return Err(err),
        };
        let r3 = expect(s, k, 41);
        proof {
            assert forall|c: Command|
                #[trigger] at(s@, p as int, show_command(c)) && single_command(c) && ends_stmt(
                    s@,
                    p + show_command(c).len(),
                ) implies r3 == Ok::<usize, ParseError>((k + 1) as usize) by {
                if c is If {
                    lemma_if_parts(s@, p as int, c);
                } else {
                    lemma_while_parts(s@, p as int, c);
                }
            }
        }
        let d = match r3 {
            Ok(d) => d,
            Err(err) => return Err(err),
        };
        let r4 = parse_braced(s, d);
        proof {
            assert forall|c: Command|
                #[trigger] at(s@, p as int, show_command(c)) && single_command(c) && ends_stmt(
                    s@,
                    p + show_command(c).len(),
                ) implies (r4 matches Ok((c1, f)) && (c is If ==> same_command(c1, *c->If_1) && f == d + braced(
                *c->If_1,
            ).len()) && (c is While ==> same_command(c1, *c->While_1) && f == d + braced(
                *c->While_1,
            ).len())) by {
                if c is If {
                    lemma_if_parts(s@, p as int, c);
                    assert(at(s@, d as int, braced(*c->If_1)));
                } else {
                    lemma_while_parts(s@, p as int, c);
                    assert(at(s@, d as int, braced(*c->While_1)));
                }
            }
        }
        let (c1, f) = match r4 {
            Ok(x) => x,
            Err(err) => return Err(err),
        };
        if is_while {
            proof {
                assert forall|c: Command|
                    #[trigger] at(s@, p as int, show_command(c)) && single_command(c) && ends_stmt(
                        s@,
                        p + show_command(c).len(),
                    ) implies p + show_command(c).len() == f by {
                    lemma_while_parts(s@, p as int, c);
                }
            }
            return Ok((Command::While(guard, Box::new(c1)), f));
        }
        let g = skip_ws(s, f);
        let h = ident_end(s, g);
        proof {
            assert forall|c: Command|
                #[trigger] at(s@, p as int, show_command(c)) && single_command(c) && ends_stmt(
                    s@,
                    p + show_command(c).len(),
                ) implies g == f && h == f + 4 && s@.subrange(f as int, h as int) == seq![101u8, 108u8, 115u8, 101u8] by {
                lemma_if_parts(s@, p as int, c);
                let w = seq![101u8, 108u8, 115u8, 101u8];
                lemma_at_byte(s@, f as int, w, 0);
                assert forall|i: int| f <= i < f + 4 implies is_ident_char(s@[i]) by {
                    lemma_at_byte(s@, f as int, w, i - f);
                }
                if h < f + 4 {
                    assert(is_ident_char(s@[h as int]));
                }
                if h > f + 4 {
                    assert(is_ident_char(s@[f + 4]));
                }
            }
        }
        if !spells(s, g, h, &[101u8, 108, 115, 101]) {
            return Err(ParseError { pos: g });
        }
        let r5 = parse_braced(s, h);
        proof {
            assert forall|c: Command|
                #[trigger] at(s@, p as int, show_command(c)) && single_command(c) && ends_stmt(
                    s@,
                    p + show_command(c).len(),
                ) implies (r5 matches Ok((c2, q)) && same_command(c2, *c->If_2) && q == p + show_command(c).len()) by {
                lemma_if_parts(s@, p as int, c);
                assert(at(s@, h as int, braced(*c->If_2)));
            }
        }
        let (c2, q) = match r5 {
            Ok(x) => x,
            Err(err) => return Err(err),
        };
        return Ok((Command::If(guard, Box::new(c1), Box::new(c2)), q));
    }
    let r1 = parse_ident(s, a);
    proof {
        assert forall|c: Command|
            #[trigger] at(s@, p as int, show_command(c)) && single_command(c) && ends_stmt(
                s@,
                p + show_command(c).len(),
            ) implies (r1 matches Ok((v, q)) && v.name() == c->Assign_0.name() && q == p + c->Assign_0.name().len()) by {
            lemma_assign_parts(s@, p as int, c);
            assert(at(s@, p as int, name_bytes(c->Assign_0.name())));
        }
    }
    let (v, b) = match r1 {
        Ok(x) => x,
        Err(err) => return Err(err),
    };
    let k = skip_ws(s, b);
    proof {
        assert forall|c: Command|
            #[trigger] at(s@, p as int, show_command(c)) && single_command(c) && ends_stmt(
                s@,
                p + show_command(c).len(),
            ) implies k == b && s@[b as int] == 58 && b + 1 < s@.len() && s@[b + 1] == 61 by {
            lemma_assign_parts(s@, p as int, c);
        }
    }
    if !(byte_at(s, k, 58) && byte_at(s, k + 1, 61)) {
        return Err(ParseError { pos: k });
    }
    let r2 = parse_sexpr(s, k + 2);
    proof {
        assert forall|c: Command|
            #[trigger] at(s@, p as int, show_command(c)) && single_command(c) && ends_stmt(
                s@,
                p + show_command(c).len(),
            ) implies (r2 matches Ok((rhs, q)) && same_sexpr(rhs, c->Assign_1) && q == p + show_command(c).len()) by {
            lemma_assign_parts(s@, p as int, c);
            assert(at(s@, k + 2, show_operand(c->Assign_1)));
        }
    }
    match r2 {
        Ok((rhs, q)) => Ok((Command::Assign(v, rhs), q)),
        Err(err) => Err(err),
    }
}

/// `commands := command (';' command)*`, grouped to the left.
fn parse_commands(s: &[u8], p: usize) -> (r: Result<(Command, usize), ParseError>)
    requires
        p <= s@.len(),
    ensures
        match r {
            Ok((c, q)) => p < q <= s@.len() && command_ok(c),
            Err(e) => e.pos <= s@.len(),
        },
        forall|c: Command|
            #[trigger] at(s@, p as int, show_command(c)) && simple_command(c) && ends_block(
                s@,
                p + show_command(c).len(),
            ) ==> (r matches Ok((c2, q)) && same_command(c2, c) && q == p + show_command(
                c,
            ).len()),
    decreases s@.len() - p, 1nat,
{
    let r0 = parse_single(s, p);
    proof {
        assert forall|c: Command|
            #[trigger] at(s@, p as int, show_command(c)) && simple_command(c) && ends_block(
                s@,
                p + show_command(c).len(),
            ) implies exists|t: Command|
            #[trigger] spine_prefix(t, c) && (r0 matches Ok((c2, q)) && same_command(c2, t) && q == p
                + show_command(t).len()) by {
            lemma_first(c);
            let f = choose|f: Command| single_command(f) && #[trigger] spine_prefix(f, c);
            lemma_prefix(c, f);
            lemma_at_sub(s@, p as int, show_command(c), 0, show_command(f));
            if f != c {
                lemma_at_byte(s@, p as int, show_command(c), show_command(f).len() as int);
            }
            assert(at(s@, p as int, show_command(f)));
        }
    }
    let (mut acc, mut q) = match r0 {
        Ok(x) => x,
        Err(e) => return Err(e),
    };
    loop
        invariant
            p < q <= s@.len(),
            command_ok(acc),
            forall|c: Command|
                #[trigger] at(s@, p as int, show_command(c)) && simple_command(c) && ends_block(
                    s@,
                    p + show_command(c).len(),
                ) ==> exists|t: Command|
                    #[trigger] spine_prefix(t, c) && q == p + show_command(t).len() && same_command(acc, t),
        decreases s@.len() - q,
    {
        let a = skip_ws(s, q);
        let semi = byte_at(s, a, 59);
        proof {
            assert forall|c: Command|
                #[trigger] at(s@, p as int, show_command(c)) && simple_command(c) && ends_block(
                    s@,
                    p + show_command(c).len(),
                ) implies (semi ==> a == q) && (!semi ==> q == p + show_command(c).len()
                && same_command(acc, c)) by {
                let t = choose|t: Command|
                    #[trigger] spine_prefix(t, c) && q == p + show_command(t).len() && same_command(acc, t);
                lemma_prefix(c, t);
                if t != c {
                    lemma_at_byte(s@, p as int, show_command(c), show_command(t).len() as int);
                }
                if q < s@.len() {
                    assert(!is_space(s@[q as int]));
                }
            }
        }
        if !semi {
            return Ok((acc, q));
        }
        let r1 = parse_single(s, a + 1);
        proof {
            assert forall|c: Command|
                #[trigger] at(s@, p as int, show_command(c)) && simple_command(c) && ends_block(
                    s@,
                    p + show_command(c).len(),
                ) implies exists|t: Command|
                #[trigger] spine_prefix(t, c) && (r1 matches Ok((n2, b)) && same_command(
                    Command::Sequence(Box::new(acc), Box::new(n2)),
                    t,
                ) && b == p + show_command(t).len()) by {
                let t = choose|t: Command|
                    #[trigger] spine_prefix(t, c) && q == p + show_command(t).len() && same_command(acc, t);
                lemma_prefix(c, t);
                if t == c {
                    lemma_at_byte(s@, p as int, show_command(c), 0);
                    assert(false);
                }
                let n = choose|n: Command|
                    single_command(n) && #[trigger] spine_prefix(
                        Command::Sequence(Box::new(t), Box::new(n)),
                        c,
                    );
                let t2 = Command::Sequence(Box::new(t), Box::new(n));
                lemma_prefix(c, t2);
                let lt = show_command(t).len() as int;
                let ln = show_command(n).len() as int;
                assert(show_command(t2) =~= show_command(t) + seq![59u8] + show_command(n));
                assert(show_command(c).subrange(lt + 1, lt + 1 + ln) =~= show_command(n)) by {
                    assert forall|i: int| 0 <= i < ln implies show_command(c).subrange(
                        lt + 1,
                        lt + 1 + ln,
                    )[i] == show_command(n)[i] by {
                        assert(show_command(c).subrange(0, show_command(t2).len() as int)[lt + 1 + i]
                            == show_command(t2)[lt + 1 + i]);
                    }
                }
                lemma_at_sub(s@, p as int, show_command(c), lt + 1, show_command(n));
                if t2 != c {
                    lemma_at_byte(s@, p as int, show_command(c), show_command(t2).len() as int);
                }
                assert(at(s@, a + 1, show_command(n)));
                assert(ends_stmt(s@, a + 1 + ln));
            }
        }
        let (next, b) = match r1 {
            Ok(x) => x,
            Err(e) => return Err(e),
        };
        acc = Command::Sequence(Box::new(acc), Box::new(next));
        q = b;
    }
}

/// Parses a program: commands separated by `;`, with white space anywhere
/// between tokens.  On success every variable of the result is a
/// well-formed identifier; on failure the error gives the offset at which
/// the text stops being a program.  The text that `show_command` writes for
/// a printable command (see `simple_command`) is parsed back into that
/// command: printing and parsing again gives the same tree.
pub fn parse(src: &str) -> (r: Result<Command, ParseError>)
    ensures
        match r {
            Ok(c) => command_ok(c),
            Err(e) => e.pos <= src.spec_bytes().len(),
        },
        forall|c: Command|
            simple_command(c) && #[trigger] show_command(c) == src.spec_bytes() ==> (r matches Ok(
                c2,
            ) && same_command(c2, c)),
{
    let s = src.as_bytes();
    let r0 = parse_commands(s, 0);
    proof {
        assert forall|c: Command|
            simple_command(c) && #[trigger] show_command(c) == src.spec_bytes() implies (r0 matches Ok(
                (c2, q),
            ) && same_command(c2, c) && q == s@.len()) by {
            assert(s@.subrange(0, show_command(c).len() as int) =~= show_command(c));
            assert(at(s@, 0, show_command(c)));
        }
    }
    let (c, q) = match r0 {
        Ok(x) => x,
        Err(e) => return Err(e),
    };
    let end = skip_ws(s, q);
    if end != s.len() {
        return Err(ParseError { pos: end });
    }
    Ok(c)
}

} // verus!
