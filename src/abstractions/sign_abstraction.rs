use vstd::prelude::*;

use core::cmp::Ordering;

use crate::command_parser::{BExpr, CmpOp};
use crate::interpreter::{AbstractProperties, Bottom, Top};

verus! {

/// The sign domain.
///
/// `Neg` stands for the values `<= 0`, `Pos` for the values `>= 0`, `Zero`
/// for `0` alone; `Zero` lies below both, so that `Neg` and `Pos` meet in it.
#[derive(PartialEq, Eq, Structural, Copy, Clone, Debug)]
pub enum SignAbstraction {
    Bottom,
    Neg,
    Zero,
    Pos,
    Top,
}

/// The concretisation: whether the integer `v` is described by `a`.
pub open spec fn gamma(a: SignAbstraction, v: int) -> bool {
    match a {
        SignAbstraction::Bottom => false,
        SignAbstraction::Neg => v <= 0,
        SignAbstraction::Zero => v == 0,
        SignAbstraction::Pos => v >= 0,
        SignAbstraction::Top => true,
    }
}

/// The most precise sign of an integer.
pub open spec fn sign_of(n: int) -> SignAbstraction {
    if n == 0 {
        SignAbstraction::Zero
    } else if n > 0 {
        SignAbstraction::Pos
    } else {
        SignAbstraction::Neg
    }
}

/// The partial order of the lattice: `a` lies below `b`.
pub open spec fn le(a: SignAbstraction, b: SignAbstraction) -> bool {
    a == b || a == SignAbstraction::Bottom || b == SignAbstraction::Top || (a
        == SignAbstraction::Zero && (b == SignAbstraction::Neg || b == SignAbstraction::Pos))
}

pub open spec fn spec_join(a: SignAbstraction, b: SignAbstraction) -> SignAbstraction {
    if le(a, b) {
        b
    } else if le(b, a) {
        a
    } else {
        SignAbstraction::Top
    }
}

pub open spec fn spec_neg(a: SignAbstraction) -> SignAbstraction {
    match a {
        SignAbstraction::Neg => SignAbstraction::Pos,
        SignAbstraction::Pos => SignAbstraction::Neg,
        _ => a,
    }
}

pub open spec fn spec_add(a: SignAbstraction, b: SignAbstraction) -> SignAbstraction {
    if a == SignAbstraction::Bottom || b == SignAbstraction::Bottom {
        SignAbstraction::Bottom
    } else if a == SignAbstraction::Zero {
        b
    } else if b == SignAbstraction::Zero {
        a
    } else if a == b {
        a
    } else {
        SignAbstraction::Top
    }
}

pub open spec fn spec_sub(a: SignAbstraction, b: SignAbstraction) -> SignAbstraction {
    spec_add(a, spec_neg(b))
}

pub open spec fn spec_mul(a: SignAbstraction, b: SignAbstraction) -> SignAbstraction {
    if a == SignAbstraction::Bottom || b == SignAbstraction::Bottom {
        SignAbstraction::Bottom
    } else if a == SignAbstraction::Zero || b == SignAbstraction::Zero {
        SignAbstraction::Zero
    } else if a == SignAbstraction::Top || b == SignAbstraction::Top {
        SignAbstraction::Top
    } else if a == b {
        SignAbstraction::Pos
    } else {
        SignAbstraction::Neg
    }
}

/// Whether some value described by `a` satisfies `v op n`.
pub open spec fn spec_sat(a: SignAbstraction, op: CmpOp, n: int) -> bool {
    match a {
        SignAbstraction::Bottom => false,
        SignAbstraction::Top => true,
        SignAbstraction::Zero => crate::command_parser::cmp_holds(op, 0, n),
        SignAbstraction::Neg => match op {
            CmpOp::EQ => n <= 0,
            CmpOp::GE => n <= 0,
            CmpOp::GT => n < 0,
            _ => true,
        },
        SignAbstraction::Pos => match op {
            CmpOp::EQ => n >= 0,
            CmpOp::LE => n >= 0,
            CmpOp::LT => n > 0,
            _ => true,
        },
    }
}

/// Refinement of `a` by the guard `v op n`.
///
/// An unsatisfiable guard gives `Bottom`.  From `Top`: `x <= n` gives `Neg`
/// when `n <= 0`, `x < n` when `n < 0`; `x >= n` gives `Pos` when `n >= 0`,
/// `x > n` when `n > 0`; other bounds keep `Top`.  An equality gives the
/// sign of its constant and a disequality `Bottom`.  Any other value is kept
/// as it is.
pub open spec fn spec_refine(a: SignAbstraction, op: CmpOp, n: int) -> SignAbstraction {
    if !spec_sat(a, op, n) {
        SignAbstraction::Bottom
    } else if a == SignAbstraction::Top {
        match op {
            CmpOp::EQ => sign_of(n),
            CmpOp::LE => if n <= 0 { SignAbstraction::Neg } else { SignAbstraction::Top },
            CmpOp::LT => if n < 0 { SignAbstraction::Neg } else { SignAbstraction::Top },
            CmpOp::GE => if n >= 0 { SignAbstraction::Pos } else { SignAbstraction::Top },
            CmpOp::GT => if n > 0 { SignAbstraction::Pos } else { SignAbstraction::Top },
            CmpOp::NE => SignAbstraction::Bottom,
        }
    } else {
        a
    }
}

/// The position of a value in the order `Bottom < Neg < Zero < Pos < Top`.
pub open spec fn position(a: SignAbstraction) -> int {
    match a {
        SignAbstraction::Bottom => 0,
        SignAbstraction::Neg => 1,
        SignAbstraction::Zero => 2,
        SignAbstraction::Pos => 3,
        SignAbstraction::Top => 4,
    }
}

/// The comparison used by the concrete interpretation: the total order
/// `Bottom < Neg < Zero < Pos < Top`.
pub open spec fn spec_compare(a: SignAbstraction, b: SignAbstraction) -> Option<Ordering> {
    if position(a) < position(b) {
        Some(Ordering::Less)
    } else if position(a) == position(b) {
        Some(Ordering::Equal)
    } else {
        Some(Ordering::Greater)
    }
}

impl SignAbstraction {
    fn position_of(&self) -> (r: u8)
        ensures
            r == position(*self),
    {
        match self {
            SignAbstraction::Bottom => 0,
            SignAbstraction::Neg => 1,
            SignAbstraction::Zero => 2,
            SignAbstraction::Pos => 3,
            SignAbstraction::Top => 4,
        }
    }

    /// Compares two signs in the order `Bottom < Neg < Zero < Pos < Top`.
    pub fn compare_signs(&self, other: &SignAbstraction) -> (r: Option<Ordering>)
        ensures
            r == spec_compare(*self, *other),
    {
        let (p, q) = (self.position_of(), other.position_of());
        if p < q {
            Some(Ordering::Less)
        } else if p == q {
            Some(Ordering::Equal)
        } else {
            Some(Ordering::Greater)
        }
    }

    /// The sign of a constant (the most precise value describing it).
    pub fn from_number(n: i64) -> (r: SignAbstraction)
        ensures
            r == sign_of(n as int),
            gamma(r, n as int),
    {
        if n == 0 {
            SignAbstraction::Zero
        } else if n > 0 {
            SignAbstraction::Pos
        } else {
            SignAbstraction::Neg
        }
    }

    /// Whether `a` lies below `b` in the lattice.
    pub fn less_or_equal(a: &SignAbstraction, b: &SignAbstraction) -> (r: bool)
        ensures
            r == le(*a, *b),
    {
        match (*a, *b) {
            (SignAbstraction::Bottom, _) => true,
            (_, SignAbstraction::Top) => true,
            (SignAbstraction::Zero, SignAbstraction::Neg) => true,
            (SignAbstraction::Zero, SignAbstraction::Pos) => true,
            _ => *a == *b,
        }
    }
}

impl AbstractProperties for SignAbstraction {
    open spec fn wf(a: Self) -> bool {
        true
    }

    open spec fn spec_top() -> Self {
        SignAbstraction::Top
    }

    open spec fn spec_bottom() -> Self {
        SignAbstraction::Bottom
    }

    open spec fn spec_from_const(n: i64) -> Self {
        sign_of(n as int)
    }

    open spec fn spec_add(a: Self, b: Self) -> Self {
        spec_add(a, b)
    }

    open spec fn spec_sub(a: Self, b: Self) -> Self {
        spec_sub(a, b)
    }

    open spec fn spec_mul(a: Self, b: Self) -> Self {
        spec_mul(a, b)
    }

    /// Division follows the sign rules of multiplication.
    open spec fn spec_div(a: Self, b: Self) -> Self {
        spec_mul(a, b)
    }

    open spec fn spec_neg(a: Self) -> Self {
        spec_neg(a)
    }

    open spec fn spec_sat(a: Self, op: CmpOp, n: i64) -> bool {
        spec_sat(a, op, n as int)
    }

    open spec fn spec_refine(a: Self, op: CmpOp, n: i64) -> Self {
        spec_refine(a, op, n as int)
    }

    open spec fn spec_includes(a: Self, b: Self) -> bool {
        le(b, a)
    }

    open spec fn spec_join(a: Self, b: Self) -> Self {
        spec_join(a, b)
    }

    /// The sign lattice has finite height: widening is the join.
    open spec fn spec_widen(a: Self, b: Self, threshold: Self) -> Self {
        spec_join(a, b)
    }

    open spec fn spec_compare(a: Self, b: Self) -> Option<Ordering> {
        spec_compare(a, b)
    }

    fn compare(a: &Self, b: &Self) -> (r: Option<Ordering>) {
        a.compare_signs(b)
    }

    proof fn lemma_guard_contract(a: Self, op: CmpOp, n: i64) {
    }

    proof fn lemma_bottom_absorbs(a: Self) {
    }

    proof fn lemma_constants_wf(n: i64) {
    }

    proof fn lemma_wf_closed(a: Self, b: Self) {
    }

    proof fn lemma_inclusion_bounds(a: Self) {
    }

    proof fn lemma_arithmetic_monotone(a: Self, a2: Self, b: Self, b2: Self) {
    }

    fn top() -> (r: Self) {
        SignAbstraction::Top
    }

    fn bottom() -> (r: Self) {
        SignAbstraction::Bottom
    }

    fn from_const(n: i64) -> (r: Self) {
        SignAbstraction::from_number(n)
    }

    fn is_bottom(a: &Self) -> (r: bool) {
        *a == SignAbstraction::Bottom
    }

    fn equals(a: &Self, b: &Self) -> (r: bool) {
        *a == *b
    }

    fn add(a: &Self, b: &Self) -> (r: Self) {
        match (*a, *b) {
            (SignAbstraction::Bottom, _) => SignAbstraction::Bottom,
            (_, SignAbstraction::Bottom) => SignAbstraction::Bottom,
            (SignAbstraction::Zero, _) => *b,
            (_, SignAbstraction::Zero) => *a,
            (SignAbstraction::Neg, SignAbstraction::Neg) => SignAbstraction::Neg,
            (SignAbstraction::Pos, SignAbstraction::Pos) => SignAbstraction::Pos,
            _ => SignAbstraction::Top,
        }
    }

    fn sub(a: &Self, b: &Self) -> (r: Self) {
        let nb = <SignAbstraction as AbstractProperties>::neg(b);
        <SignAbstraction as AbstractProperties>::add(a, &nb)
    }

    fn mul(a: &Self, b: &Self) -> (r: Self) {
        match (*a, *b) {
            (SignAbstraction::Bottom, _) => SignAbstraction::Bottom,
            (_, SignAbstraction::Bottom) => SignAbstraction::Bottom,
            (SignAbstraction::Zero, _) => SignAbstraction::Zero,
            (_, SignAbstraction::Zero) => SignAbstraction::Zero,
            (SignAbstraction::Top, _) => SignAbstraction::Top,
            (_, SignAbstraction::Top) => SignAbstraction::Top,
            (SignAbstraction::Neg, SignAbstraction::Neg) => SignAbstraction::Pos,
            (SignAbstraction::Pos, SignAbstraction::Pos) => SignAbstraction::Pos,
            _ => SignAbstraction::Neg,
        }
    }

    fn div(a: &Self, b: &Self) -> (r: Self) {
        <SignAbstraction as AbstractProperties>::mul(a, b)
    }

    fn neg(a: &Self) -> (r: Self) {
        match *a {
            SignAbstraction::Neg => SignAbstraction::Pos,
            SignAbstraction::Pos => SignAbstraction::Neg,
            _ => *a,
        }
    }

    fn sat(a: &Self, bexpr: &BExpr) -> (r: bool) {
        let n = bexpr.get_number();
        let op = bexpr.cmp_op();
        match *a {
            SignAbstraction::Bottom => false,
            SignAbstraction::Top => true,
            SignAbstraction::Zero => match op {
                CmpOp::GE => 0 >= n,
                CmpOp::GT => 0 > n,
                CmpOp::LE => 0 <= n,
                CmpOp::LT => 0 < n,
                CmpOp::EQ => 0 == n,
                CmpOp::NE => 0 != n,
            },
            SignAbstraction::Neg => match op {
                CmpOp::EQ => n <= 0,
                CmpOp::GE => n <= 0,
                CmpOp::GT => n < 0,
                _ => true,
            },
            SignAbstraction::Pos => match op {
                CmpOp::EQ => n >= 0,
                CmpOp::LE => n >= 0,
                CmpOp::LT => n > 0,
                _ => true,
            },
        }
    }

    fn refine(a: &Self, bexpr: &BExpr) -> (r: Self) {
        if !<SignAbstraction as AbstractProperties>::sat(a, bexpr) {
            return SignAbstraction::Bottom;
        }
        if *a != SignAbstraction::Top {
            return *a;
        }
        let n = bexpr.get_number();
        match bexpr.cmp_op() {
            CmpOp::EQ => SignAbstraction::from_number(n),
            CmpOp::LE => if n <= 0 {
                SignAbstraction::Neg
            } else {
                SignAbstraction::Top
            },
            CmpOp::LT => if n < 0 {
                SignAbstraction::Neg
            } else {
                SignAbstraction::Top
            },
            CmpOp::GE => if n >= 0 {
                SignAbstraction::Pos
            } else {
                SignAbstraction::Top
            },
            CmpOp::GT => if n > 0 {
                SignAbstraction::Pos
            } else {
                SignAbstraction::Top
            },
            CmpOp::NE => SignAbstraction::Bottom,
        }
    }

    fn first_includes_second(a0: &Self, a1: &Self) -> (r: bool) {
        SignAbstraction::less_or_equal(a1, a0)
    }

    fn join(a0: &Self, a1: &Self) -> (r: Self) {
        if SignAbstraction::less_or_equal(a0, a1) {
            *a1
        } else if SignAbstraction::less_or_equal(a1, a0) {
            *a0
        } else {
            SignAbstraction::Top
        }
    }

    fn widen(a0: &Self, a1: &Self, threshold: &Self) -> (r: Self) {
        <SignAbstraction as AbstractProperties>::join(a0, a1)
    }
}

impl From<Top> for SignAbstraction {
    fn from(t: Top) -> (r: SignAbstraction) {
        SignAbstraction::Top
    }
}

impl vstd::std_specs::convert::FromSpecImpl<Top> for SignAbstraction {
    open spec fn obeys_from_spec() -> bool {
        true
    }

    open spec fn from_spec(t: Top) -> SignAbstraction {
        SignAbstraction::Top
    }
}

impl From<Bottom> for SignAbstraction {
    fn from(b: Bottom) -> (r: SignAbstraction) {
        SignAbstraction::Bottom
    }
}

impl vstd::std_specs::convert::FromSpecImpl<Bottom> for SignAbstraction {
    open spec fn obeys_from_spec() -> bool {
        true
    }

    open spec fn from_spec(b: Bottom) -> SignAbstraction {
        SignAbstraction::Bottom
    }
}

impl PartialOrd for SignAbstraction {
    fn partial_cmp(&self, other: &SignAbstraction) -> (r: Option<Ordering>) {
        self.compare_signs(other)
    }
}

impl vstd::std_specs::cmp::PartialOrdSpecImpl for SignAbstraction {
    open spec fn obeys_partial_cmp_spec() -> bool {
        true
    }

    open spec fn partial_cmp_spec(&self, other: &SignAbstraction) -> Option<Ordering> {
        spec_compare(*self, *other)
    }
}

/// The height of a value in the lattice.
pub open spec fn rank(a: SignAbstraction) -> nat {
    match a {
        SignAbstraction::Bottom => 0,
        SignAbstraction::Zero => 1,
        SignAbstraction::Neg => 2,
        SignAbstraction::Pos => 2,
        SignAbstraction::Top => 3,
    }
}

/// The join is commutative, associative and idempotent, has `Bottom` as
/// unit and `Top` as absorbing element; `Top` includes every value and every
/// value includes `Bottom`.
pub proof fn lemma_lattice_laws(a: SignAbstraction, b: SignAbstraction, c: SignAbstraction)
    ensures
        spec_join(a, b) == spec_join(b, a),
        spec_join(spec_join(a, b), c) == spec_join(a, spec_join(b, c)),
        spec_join(a, a) == a,
        spec_join(a, SignAbstraction::Bottom) == a,
        spec_join(a, SignAbstraction::Top) == SignAbstraction::Top,
        le(a, SignAbstraction::Top),
        le(SignAbstraction::Bottom, a),
{
}

/// The arithmetic is sound: the result of an operation on values described
/// by `a` and `b` is described by the abstract result, division rounding
/// towards zero and by a non-zero divisor.
pub proof fn lemma_arithmetic_sound(a: SignAbstraction, b: SignAbstraction, v: int, w: int)
    requires
        gamma(a, v),
        gamma(b, w),
    ensures
        gamma(spec_add(a, b), v + w),
        gamma(spec_sub(a, b), v - w),
        gamma(spec_mul(a, b), v * w),
        gamma(spec_neg(a), -v),
        w != 0 ==> gamma(spec_mul(a, b), crate::abstractions::interval_abstraction::tdiv(v, w)),
        gamma(sign_of(v), v),
{
    if v <= 0 && w <= 0 {
        assert(v * w >= 0) by (nonlinear_arith)
            requires
                v <= 0 && w <= 0,
        ;
    }
    if v >= 0 && w >= 0 {
        assert(v * w >= 0) by (nonlinear_arith)
            requires
                v >= 0 && w >= 0,
        ;
    }
    if v <= 0 && w >= 0 {
        assert(v * w <= 0) by (nonlinear_arith)
            requires
                v <= 0 && w >= 0,
        ;
    }
    if v >= 0 && w <= 0 {
        assert(v * w <= 0) by (nonlinear_arith)
            requires
                v >= 0 && w <= 0,
        ;
    }
    if v == 0 || w == 0 {
        assert(v * w == 0) by (nonlinear_arith)
            requires
                v == 0 || w == 0,
        ;
    }
    if w != 0 {
        crate::abstractions::interval_abstraction::lemma_tdiv_sign(v, w);
    }
}

/// The satisfiability test is exact: it holds exactly when some value
/// described by `a` satisfies the guard.
pub proof fn lemma_sat_exact(a: SignAbstraction, op: CmpOp, n: int)
    ensures
        spec_sat(a, op, n) == exists|v: int|
            gamma(a, v) && #[trigger] crate::command_parser::cmp_holds(op, v, n),
{
    if spec_sat(a, op, n) {
        let v: int = match a {
            SignAbstraction::Zero => 0,
            SignAbstraction::Neg => match op {
                CmpOp::EQ => n,
                CmpOp::NE => if n == 0 { -1 } else { 0 },
                CmpOp::GE => n,
                CmpOp::GT => n + 1,
                _ => if n <= 0 { n - 1 } else { 0 },
            },
            SignAbstraction::Pos => match op {
                CmpOp::EQ => n,
                CmpOp::NE => if n == 0 { 1 } else { 0 },
                CmpOp::LE => n,
                CmpOp::LT => n - 1,
                _ => if n >= 0 { n + 1 } else { 0 },
            },
            _ => match op {
                CmpOp::EQ => n,
                CmpOp::NE => n + 1,
                CmpOp::GE => n,
                CmpOp::GT => n + 1,
                CmpOp::LE => n,
                CmpOp::LT => n - 1,
            },
        };
        assert(gamma(a, v) && crate::command_parser::cmp_holds(op, v, n));
    }
}

/// Refining twice by the same guard gives what refining once gives.
pub proof fn lemma_refine_idempotent(a: SignAbstraction, op: CmpOp, n: int)
    ensures
        spec_refine(spec_refine(a, op, n), op, n) == spec_refine(a, op, n),
{
}

/// A guard that no value of `a` can satisfy refines `a` to `Bottom`.
pub proof fn lemma_unsat_refines_to_bottom(a: SignAbstraction, op: CmpOp, n: int)
    ensures
        !spec_sat(a, op, n) ==> spec_refine(a, op, n) == SignAbstraction::Bottom,
{
}

/// Widening, the join, includes both the previous and the next value, and
/// is the least value that does.
pub proof fn lemma_widen_covers(a: SignAbstraction, b: SignAbstraction, c: SignAbstraction)
    ensures
        le(a, spec_join(a, b)),
        le(b, spec_join(a, b)),
        le(a, c) && le(b, c) ==> le(spec_join(a, b), c),
{
}

/// Each widening step that changes the value raises its height, which is
/// at most three.
pub proof fn lemma_widen_raises_rank(a: SignAbstraction, b: SignAbstraction, t: SignAbstraction)
    ensures
        rank(a) <= 3,
        <SignAbstraction as AbstractProperties>::spec_widen(a, b, t) == a || rank(a) < rank(
            <SignAbstraction as AbstractProperties>::spec_widen(a, b, t),
        ),
{
}

/// The sequence obtained by widening the values of `chain` in turn.
pub open spec fn widened(chain: spec_fn(nat) -> SignAbstraction, k: nat) -> SignAbstraction
    decreases k,
{
    if k == 0 {
        chain(0)
    } else {
        <SignAbstraction as AbstractProperties>::spec_widen(
            widened(chain, (k - 1) as nat),
            chain(k),
            SignAbstraction::Top,
        )
    }
}

/// How many of the first `k` widening steps changed the value.
pub open spec fn changes(chain: spec_fn(nat) -> SignAbstraction, k: nat) -> nat
    decreases k,
{
    if k == 0 {
        0
    } else {
        changes(chain, (k - 1) as nat) + if widened(chain, k) != widened(chain, (k - 1) as nat) {
            1nat
        } else {
            0nat
        }
    }
}

/// Widening any sequence of values changes the result at most three times:
/// after that it has reached its fixpoint.
pub proof fn lemma_widening_terminates(chain: spec_fn(nat) -> SignAbstraction, k: nat)
    ensures
        changes(chain, k) <= rank(widened(chain, k)),
        changes(chain, k) <= 3,
    decreases k,
{
    if k > 0 {
        lemma_widening_terminates(chain, (k - 1) as nat);
        lemma_widen_raises_rank(widened(chain, (k - 1) as nat), chain(k), SignAbstraction::Top);
    }
    lemma_widen_raises_rank(widened(chain, k), chain(k), SignAbstraction::Top);
}

} // verus!
