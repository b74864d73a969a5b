use vstd::prelude::*;

use core::cmp::Ordering;

use crate::command_parser::{BExpr, CmpOp};
use crate::interpreter::{AbstractProperties, Bottom, Top};

verus! {

/// The bound value that stands for minus infinity when used as a lower bound.
pub const NEG_INF: i64 = i64::MIN;

/// The bound value that stands for plus infinity when used as an upper bound.
pub const POS_INF: i64 = i64::MAX;

/// A closed interval `[a, b]` with `a <= b`.
///
/// A lower bound equal to `NEG_INF` means the interval is unbounded below,
/// an upper bound equal to `POS_INF` that it is unbounded above.
#[derive(PartialEq, Eq, Structural, Copy, Clone, Debug)]
pub struct Interval {
    pub a: i64,
    pub b: i64,
}

impl Interval {
    pub fn new(a: i64, b: i64) -> (r: Interval)
        requires
            a <= b,
        ensures
            r.a == a,
            r.b == b,
    {
        Interval { a, b }
    }
}

/// The interval domain: `Bottom`, a bounded or half-bounded interval, or `Top`.
#[derive(PartialEq, Eq, Structural, Copy, Clone, Debug)]
pub enum IntervalAbstraction {
    Bottom,
    Interval(Interval),
    Top,
}

/// Well-formedness: bounds in order, and the interval unbounded on both sides
/// is always written `Top`.
pub open spec fn wf(x: IntervalAbstraction) -> bool {
    match x {
        IntervalAbstraction::Interval(i) => i.a <= i.b && !(i.a == NEG_INF && i.b == POS_INF),
        _ => true,
    }
}

/// The concretisation: whether the integer `v` is described by `x`.
pub open spec fn gamma(x: IntervalAbstraction, v: int) -> bool {
    match x {
        IntervalAbstraction::Bottom => false,
        IntervalAbstraction::Top => true,
        IntervalAbstraction::Interval(i) => (i.a == NEG_INF || i.a <= v) && (i.b == POS_INF || v
            <= i.b),
    }
}

/// The interval `[a, b]`, written `Top` when it is unbounded on both sides.
pub open spec fn mk(a: i64, b: i64) -> IntervalAbstraction {
    if a == NEG_INF && b == POS_INF {
        IntervalAbstraction::Top
    } else {
        IntervalAbstraction::Interval(Interval { a, b })
    }
}

/// An integer brought into the range of bounds: what lies beyond is infinite.
pub open spec fn clamp(x: int) -> i64 {
    if x <= NEG_INF {
        NEG_INF
    } else if x >= POS_INF {
        POS_INF
    } else {
        x as i64
    }
}

pub open spec fn min(x: i64, y: i64) -> i64 {
    if x <= y {
        x
    } else {
        y
    }
}

pub open spec fn max(x: i64, y: i64) -> i64 {
    if x >= y {
        x
    } else {
        y
    }
}

/// Sum of two lower bounds.
pub open spec fn add_lo(x: i64, y: i64) -> i64 {
    if x == NEG_INF || y == NEG_INF {
        NEG_INF
    } else {
        clamp(x + y)
    }
}

/// Sum of two upper bounds.
pub open spec fn add_hi(x: i64, y: i64) -> i64 {
    if x == POS_INF || y == POS_INF {
        POS_INF
    } else {
        clamp(x + y)
    }
}

/// A lower bound minus an upper bound.
pub open spec fn sub_lo(x: i64, y: i64) -> i64 {
    if x == NEG_INF || y == POS_INF {
        NEG_INF
    } else {
        clamp(x - y)
    }
}

/// An upper bound minus a lower bound.
pub open spec fn sub_hi(x: i64, y: i64) -> i64 {
    if x == POS_INF || y == NEG_INF {
        POS_INF
    } else {
        clamp(x - y)
    }
}

/// A lower bound taken as an extended integer: `NEG_INF` is minus infinity,
/// written as `i128::MIN`.
pub open spec fn ext_lo(x: i64) -> int {
    if x == NEG_INF {
        i128::MIN as int
    } else {
        x as int
    }
}

/// An upper bound taken as an extended integer: `POS_INF` is plus infinity,
/// written as `i128::MAX`.
pub open spec fn ext_hi(x: i64) -> int {
    if x == POS_INF {
        i128::MAX as int
    } else {
        x as int
    }
}

pub open spec fn is_inf(x: int) -> bool {
    x == i128::MIN as int || x == i128::MAX as int
}

/// The infinity whose sign is the product of the signs of `x` and `y`.
pub open spec fn signed_inf(x: int, y: int) -> int {
    if (x > 0) == (y > 0) {
        i128::MAX as int
    } else {
        i128::MIN as int
    }
}

/// Product of two extended integers; zero times infinity is zero.
pub open spec fn ext_mul(x: int, y: int) -> int {
    if x == 0 || y == 0 {
        0
    } else if is_inf(x) || is_inf(y) {
        signed_inf(x, y)
    } else {
        x * y
    }
}

/// Integer division rounding towards zero.
pub open spec fn tdiv(x: int, y: int) -> int {
    let ax = if x < 0 { -x } else { x };
    let ay = if y < 0 { -y } else { y };
    if (x >= 0) == (y > 0) {
        ax / ay
    } else {
        -(ax / ay)
    }
}

/// Quotient of two extended integers, `y` non-zero; a finite value divided
/// by an infinite one is zero.
pub open spec fn ext_div(x: int, y: int) -> int {
    if is_inf(x) {
        signed_inf(x, y)
    } else if is_inf(y) {
        0
    } else {
        tdiv(x, y)
    }
}

pub open spec fn min4(p: int, q: int, r: int, s: int) -> int {
    vstd::math::min(vstd::math::min(p, q), vstd::math::min(r, s))
}

pub open spec fn max4(p: int, q: int, r: int, s: int) -> int {
    vstd::math::max(vstd::math::max(p, q), vstd::math::max(r, s))
}

/// An arithmetic operation lifted from intervals to the domain: `Bottom`
/// absorbs everything, `Top` absorbs every other value.
pub open spec fn lift2(
    x: IntervalAbstraction,
    y: IntervalAbstraction,
    f: spec_fn(Interval, Interval) -> IntervalAbstraction,
) -> IntervalAbstraction {
    match (x, y) {
        (IntervalAbstraction::Bottom, _) => IntervalAbstraction::Bottom,
        (_, IntervalAbstraction::Bottom) => IntervalAbstraction::Bottom,
        (IntervalAbstraction::Top, _) => IntervalAbstraction::Top,
        (_, IntervalAbstraction::Top) => IntervalAbstraction::Top,
        (IntervalAbstraction::Interval(i), IntervalAbstraction::Interval(j)) => f(i, j),
    }
}

pub open spec fn add_itv(i: Interval, j: Interval) -> IntervalAbstraction {
    mk(add_lo(i.a, j.a), add_hi(i.b, j.b))
}

pub open spec fn sub_itv(i: Interval, j: Interval) -> IntervalAbstraction {
    mk(sub_lo(i.a, j.b), sub_hi(i.b, j.a))
}

/// Product by the four corners.
pub open spec fn mul_itv(i: Interval, j: Interval) -> IntervalAbstraction {
    let (p, q, r, s) = (
        ext_mul(ext_lo(i.a), ext_lo(j.a)),
        ext_mul(ext_lo(i.a), ext_hi(j.b)),
        ext_mul(ext_hi(i.b), ext_lo(j.a)),
        ext_mul(ext_hi(i.b), ext_hi(j.b)),
    );
    mk(clamp(min4(p, q, r, s)), clamp(max4(p, q, r, s)))
}

/// Quotient by the four corners; a divisor that may be zero gives `Top`.
pub open spec fn div_itv(i: Interval, j: Interval) -> IntervalAbstraction {
    if ext_lo(j.a) <= 0 && 0 <= ext_hi(j.b) {
        IntervalAbstraction::Top
    } else {
        let (p, q, r, s) = (
            ext_div(ext_lo(i.a), ext_lo(j.a)),
            ext_div(ext_lo(i.a), ext_hi(j.b)),
            ext_div(ext_hi(i.b), ext_lo(j.a)),
            ext_div(ext_hi(i.b), ext_hi(j.b)),
        );
        mk(clamp(min4(p, q, r, s)), clamp(max4(p, q, r, s)))
    }
}

pub open spec fn spec_add(x: IntervalAbstraction, y: IntervalAbstraction) -> IntervalAbstraction {
    lift2(x, y, |i: Interval, j: Interval| add_itv(i, j))
}

pub open spec fn spec_sub(x: IntervalAbstraction, y: IntervalAbstraction) -> IntervalAbstraction {
    lift2(x, y, |i: Interval, j: Interval| sub_itv(i, j))
}

pub open spec fn spec_mul(x: IntervalAbstraction, y: IntervalAbstraction) -> IntervalAbstraction {
    lift2(x, y, |i: Interval, j: Interval| mul_itv(i, j))
}

pub open spec fn spec_div(x: IntervalAbstraction, y: IntervalAbstraction) -> IntervalAbstraction {
    lift2(x, y, |i: Interval, j: Interval| div_itv(i, j))
}

/// Negation `[-b, -a]`.
pub open spec fn spec_neg(x: IntervalAbstraction) -> IntervalAbstraction {
    match x {
        IntervalAbstraction::Interval(i) => mk(
            if i.b == POS_INF { NEG_INF } else { clamp(-(i.b as int)) },
            if i.a == NEG_INF { POS_INF } else { clamp(-(i.a as int)) },
        ),
        _ => x,
    }
}

/// The satisfiability test of a guard `v op n` on the bounds of `x`; an
/// infinite bound lies beyond every constant.
pub open spec fn spec_sat(x: IntervalAbstraction, op: CmpOp, n: i64) -> bool {
    match x {
        IntervalAbstraction::Bottom => false,
        IntervalAbstraction::Top => true,
        IntervalAbstraction::Interval(i) => match op {
            CmpOp::EQ => i.a <= n && n <= i.b,
            CmpOp::LE => i.a <= n,
            CmpOp::LT => i.a == NEG_INF || i.a < n,
            CmpOp::GE => n <= i.b,
            CmpOp::GT => i.b == POS_INF || n < i.b,
            CmpOp::NE => n < i.a || i.b < n,
        },
    }
}

/// `n + 1`, staying at `POS_INF`.
pub open spec fn succ(n: i64) -> i64 {
    if n == POS_INF {
        POS_INF
    } else {
        (n + 1) as i64
    }
}

/// `n - 1`, staying at `NEG_INF`.
pub open spec fn pred(n: i64) -> i64 {
    if n == NEG_INF {
        NEG_INF
    } else {
        (n - 1) as i64
    }
}

/// Refinement of `x` by the guard `v op n`.
///
/// An unsatisfiable guard gives `Bottom`.  The bound that the guard
/// constrains is clamped to the constant (`Top` counting as unbounded on
/// both sides); a strict comparison clamps it one step (the integer `ε`)
/// past the constant.  A disequality keeps the side of the constant on
/// which the interval lies.
pub open spec fn spec_refine(x: IntervalAbstraction, op: CmpOp, n: i64) -> IntervalAbstraction {
    if !spec_sat(x, op, n) {
        IntervalAbstraction::Bottom
    } else {
        match x {
            IntervalAbstraction::Interval(i) => match op {
                CmpOp::EQ => mk(n, n),
                CmpOp::LE => mk(i.a, min(i.b, n)),
                CmpOp::LT => mk(i.a, min(i.b, pred(n))),
                CmpOp::GE => mk(max(i.a, n), i.b),
                CmpOp::GT => mk(max(i.a, succ(n)), i.b),
                CmpOp::NE => if i.b < n {
                    mk(i.a, pred(n))
                } else {
                    mk(succ(n), i.b)
                },
            },
            _ => match op {
                CmpOp::EQ => mk(n, n),
                CmpOp::LE => mk(NEG_INF, n),
                CmpOp::LT => mk(NEG_INF, pred(n)),
                CmpOp::GE => mk(n, POS_INF),
                CmpOp::GT => mk(succ(n), POS_INF),
                CmpOp::NE => mk(succ(n), POS_INF),
            },
        }
    }
}

/// Inclusion: every value described by `y` is described by `x`.
pub open spec fn spec_includes(x: IntervalAbstraction, y: IntervalAbstraction) -> bool {
    match (x, y) {
        (IntervalAbstraction::Top, _) => true,
        (_, IntervalAbstraction::Bottom) => true,
        (IntervalAbstraction::Interval(i), IntervalAbstraction::Interval(j)) => i.a <= j.a && j.b
            <= i.b,
        _ => false,
    }
}

pub open spec fn spec_join(x: IntervalAbstraction, y: IntervalAbstraction) -> IntervalAbstraction {
    match (x, y) {
        (IntervalAbstraction::Bottom, _) => y,
        (_, IntervalAbstraction::Bottom) => x,
        (IntervalAbstraction::Top, _) => IntervalAbstraction::Top,
        (_, IntervalAbstraction::Top) => IntervalAbstraction::Top,
        (IntervalAbstraction::Interval(i), IntervalAbstraction::Interval(j)) => mk(
            min(i.a, j.a),
            max(i.b, j.b),
        ),
    }
}

/// The order of the domain: `Bottom` lies below and `Top` above every other
/// value; an interval lies below another when it ends before the other
/// starts, and two overlapping distinct intervals are incomparable.
pub open spec fn spec_compare(x: IntervalAbstraction, y: IntervalAbstraction) -> Option<Ordering> {
    if x == y {
        Some(Ordering::Equal)
    } else {
        match (x, y) {
            (IntervalAbstraction::Bottom, _) => Some(Ordering::Less),
            (_, IntervalAbstraction::Bottom) => Some(Ordering::Greater),
            (IntervalAbstraction::Top, _) => Some(Ordering::Greater),
            (_, IntervalAbstraction::Top) => Some(Ordering::Less),
            (IntervalAbstraction::Interval(i), IntervalAbstraction::Interval(j)) => if i.b < j.a {
                Some(Ordering::Less)
            } else if j.b < i.a {
                Some(Ordering::Greater)
            } else {
                None
            },
        }
    }
}

/// Widening of `x` (the previous value) by `y` (the next one).
///
/// A bound of `y` beyond the matching bound of `x` is moved to the
/// threshold's bound (when that still gives an interval), or to infinity
/// when the threshold is `Top` or does not fit; a `Bottom` threshold stops
/// the movement.  When both bounds move the result is `Top`.
pub open spec fn spec_widen(
    x: IntervalAbstraction,
    y: IntervalAbstraction,
    t: IntervalAbstraction,
) -> IntervalAbstraction {
    match x {
        IntervalAbstraction::Bottom => IntervalAbstraction::Top,
        IntervalAbstraction::Top => IntervalAbstraction::Top,
        IntervalAbstraction::Interval(i) => match y {
            IntervalAbstraction::Bottom => x,
            IntervalAbstraction::Top => IntervalAbstraction::Top,
            IntervalAbstraction::Interval(j) => if j.a < i.a {
                if i.b < j.b {
                    IntervalAbstraction::Top
                } else {
                    match t {
                        IntervalAbstraction::Bottom => x,
                        IntervalAbstraction::Interval(k) => if k.a <= i.b {
                            mk(k.a, i.b)
                        } else {
                            mk(NEG_INF, i.b)
                        },
                        IntervalAbstraction::Top => mk(NEG_INF, i.b),
                    }
                }
            } else if i.b < j.b {
                match t {
                    IntervalAbstraction::Bottom => x,
                    IntervalAbstraction::Interval(k) => if i.a <= k.b {
                        mk(i.a, k.b)
                    } else {
                        mk(i.a, POS_INF)
                    },
                    IntervalAbstraction::Top => mk(i.a, POS_INF),
                }
            } else {
                x
            },
        },
    }
}

/// Whether an extended integer is infinite or an `i64`.
pub open spec fn ext_ok(x: int) -> bool {
    is_inf(x) || (i64::MIN <= x <= i64::MAX)
}

fn clamp_exec(x: i128) -> (r: i64)
    ensures
        r == clamp(x as int),
{
    if x <= NEG_INF as i128 {
        NEG_INF
    } else if x >= POS_INF as i128 {
        POS_INF
    } else {
        x as i64
    }
}

fn min_exec(x: i64, y: i64) -> (r: i64)
    ensures
        r == min(x, y),
{
    if x <= y {
        x
    } else {
        y
    }
}

fn max_exec(x: i64, y: i64) -> (r: i64)
    ensures
        r == max(x, y),
{
    if x >= y {
        x
    } else {
        y
    }
}

fn ext_lo_exec(x: i64) -> (r: i128)
    ensures
        r == ext_lo(x),
        ext_ok(r as int),
{
    if x == NEG_INF {
        i128::MIN
    } else {
        x as i128
    }
}

fn ext_hi_exec(x: i64) -> (r: i128)
    ensures
        r == ext_hi(x),
        ext_ok(r as int),
{
    if x == POS_INF {
        i128::MAX
    } else {
        x as i128
    }
}

fn signed_inf_exec(x: i128, y: i128) -> (r: i128)
    ensures
        r == signed_inf(x as int, y as int),
{
    if (x > 0) == (y > 0) {
        i128::MAX
    } else {
        i128::MIN
    }
}

fn ext_mul_exec(x: i128, y: i128) -> (r: i128)
    requires
        ext_ok(x as int),
        ext_ok(y as int),
    ensures
        r == ext_mul(x as int, y as int),
{
    if x == 0 || y == 0 {
        0
    } else if x == i128::MIN || x == i128::MAX || y == i128::MIN || y == i128::MAX {
        signed_inf_exec(x, y)
    } else {
        assert(-0x4000_0000_0000_0000_0000_0000_0000_0000 <= x * y
            <= 0x4000_0000_0000_0000_0000_0000_0000_0000) by (nonlinear_arith)
            requires
                -0x8000_0000_0000_0000 <= x <= 0x7fff_ffff_ffff_ffff,
                -0x8000_0000_0000_0000 <= y <= 0x7fff_ffff_ffff_ffff,
        ;
        x * y
    }
}

fn ext_div_exec(x: i128, y: i128) -> (r: i128)
    requires
        ext_ok(x as int),
        ext_ok(y as int),
        y != 0,
    ensures
        r == ext_div(x as int, y as int),
        ext_ok(r as int) || (-0x8000_0000_0000_0000 <= r <= 0x8000_0000_0000_0000),
{
    if x == i128::MIN || x == i128::MAX {
        signed_inf_exec(x, y)
    } else if y == i128::MIN || y == i128::MAX {
        0
    } else {
        let ax: i128 = if x < 0 {
            -x
        } else {
            x
        };
        let ay: i128 = if y < 0 {
            -y
        } else {
            y
        };
        let q: i128 = ax / ay;
        assert(0 <= q <= ax) by (nonlinear_arith)
            requires
                q == ax / ay,
                ax >= 0,
                ay >= 1,
        ;
        if (x >= 0) == (y > 0) {
            q
        } else {
            -q
        }
    }
}

fn min4_exec(p: i128, q: i128, r: i128, s: i128) -> (m: i128)
    ensures
        m == min4(p as int, q as int, r as int, s as int),
{
    let m1 = if p <= q {
        p
    } else {
        q
    };
    let m2 = if r <= s {
        r
    } else {
        s
    };
    if m1 <= m2 {
        m1
    } else {
        m2
    }
}

fn max4_exec(p: i128, q: i128, r: i128, s: i128) -> (m: i128)
    ensures
        m == max4(p as int, q as int, r as int, s as int),
{
    let m1 = if p >= q {
        p
    } else {
        q
    };
    let m2 = if r >= s {
        r
    } else {
        s
    };
    if m1 >= m2 {
        m1
    } else {
        m2
    }
}

impl IntervalAbstraction {
    /// Compares two values in the order of the domain.
    pub fn compare_intervals(&self, other: &IntervalAbstraction) -> (r: Option<Ordering>)
        ensures
            r == spec_compare(*self, *other),
    {
        if *self == *other {
            return Some(Ordering::Equal);
        }
        match (self, other) {
            (IntervalAbstraction::Bottom, _) => Some(Ordering::Less),
            (_, IntervalAbstraction::Bottom) => Some(Ordering::Greater),
            (IntervalAbstraction::Top, _) => Some(Ordering::Greater),
            (_, IntervalAbstraction::Top) => Some(Ordering::Less),
            (IntervalAbstraction::Interval(i), IntervalAbstraction::Interval(j)) => if i.b < j.a {
                Some(Ordering::Less)
            } else if j.b < i.a {
                Some(Ordering::Greater)
            } else {
                None
            },
        }
    }

    /// The interval `[a, b]`, written `Top` when it is unbounded on both sides.
    pub fn from_bounds(a: i64, b: i64) -> (r: IntervalAbstraction)
        requires
            a <= b,
        ensures
            r == mk(a, b),
            wf(r),
    {
        if a == NEG_INF && b == POS_INF {
            IntervalAbstraction::Top
        } else {
            IntervalAbstraction::Interval(Interval::new(a, b))
        }
    }

    /// Sum of two intervals, bound by bound.
    pub fn add_intervals(i: &Interval, j: &Interval) -> (r: IntervalAbstraction)
        requires
            i.a <= i.b,
            j.a <= j.b,
        ensures
            r == add_itv(*i, *j),
            wf(r),
    {
        let lo = if i.a == NEG_INF || j.a == NEG_INF {
            NEG_INF
        } else {
            clamp_exec(i.a as i128 + j.a as i128)
        };
        let hi = if i.b == POS_INF || j.b == POS_INF {
            POS_INF
        } else {
            clamp_exec(i.b as i128 + j.b as i128)
        };
        IntervalAbstraction::from_bounds(lo, hi)
    }

    /// Difference of two intervals: lower minus upper, upper minus lower.
    pub fn sub_intervals(i: &Interval, j: &Interval) -> (r: IntervalAbstraction)
        requires
            i.a <= i.b,
            j.a <= j.b,
        ensures
            r == sub_itv(*i, *j),
            wf(r),
    {
        let lo = if i.a == NEG_INF || j.b == POS_INF {
            NEG_INF
        } else {
            clamp_exec(i.a as i128 - j.b as i128)
        };
        let hi = if i.b == POS_INF || j.a == NEG_INF {
            POS_INF
        } else {
            clamp_exec(i.b as i128 - j.a as i128)
        };
        IntervalAbstraction::from_bounds(lo, hi)
    }

    /// Product of two intervals, by the four corners.
    pub fn mul_intervals(i: &Interval, j: &Interval) -> (r: IntervalAbstraction)
        requires
            i.a <= i.b,
            j.a <= j.b,
        ensures
            r == mul_itv(*i, *j),
            wf(r),
    {
        let (ia, ib) = (ext_lo_exec(i.a), ext_hi_exec(i.b));
        let (ja, jb) = (ext_lo_exec(j.a), ext_hi_exec(j.b));
        let p = ext_mul_exec(ia, ja);
        let q = ext_mul_exec(ia, jb);
        let r = ext_mul_exec(ib, ja);
        let s = ext_mul_exec(ib, jb);
        let lo = clamp_exec(min4_exec(p, q, r, s));
        let hi = clamp_exec(max4_exec(p, q, r, s));
        IntervalAbstraction::from_bounds(lo, hi)
    }

    /// Quotient of two intervals, by the four corners; `Top` when the divisor
    /// may be zero.
    pub fn div_intervals(i: &Interval, j: &Interval) -> (r: IntervalAbstraction)
        requires
            i.a <= i.b,
            j.a <= j.b,
        ensures
            r == div_itv(*i, *j),
            wf(r),
    {
        let (ia, ib) = (ext_lo_exec(i.a), ext_hi_exec(i.b));
        let (ja, jb) = (ext_lo_exec(j.a), ext_hi_exec(j.b));
        if ja <= 0 && 0 <= jb {
            return IntervalAbstraction::Top;
        }
        let p = ext_div_exec(ia, ja);
        let q = ext_div_exec(ia, jb);
        let r = ext_div_exec(ib, ja);
        let s = ext_div_exec(ib, jb);
        let lo = clamp_exec(min4_exec(p, q, r, s));
        let hi = clamp_exec(max4_exec(p, q, r, s));
        IntervalAbstraction::from_bounds(lo, hi)
    }
}

fn succ_exec(n: i64) -> (r: i64)
    ensures
        r == succ(n),
{
    if n == POS_INF {
        POS_INF
    } else {
        n + 1
    }
}

fn pred_exec(n: i64) -> (r: i64)
    ensures
        r == pred(n),
{
    if n == NEG_INF {
        NEG_INF
    } else {
        n - 1
    }
}

impl AbstractProperties for IntervalAbstraction {
    open spec fn wf(a: Self) -> bool {
        wf(a)
    }

    open spec fn spec_top() -> Self {
        IntervalAbstraction::Top
    }

    open spec fn spec_bottom() -> Self {
        IntervalAbstraction::Bottom
    }

    open spec fn spec_from_const(n: i64) -> Self {
        mk(n, n)
    }

    open spec fn spec_add(a: Self, b: Self) -> Self {
        spec_add(a, b)
    }

    open spec fn spec_sub(a: Self, b: Self) -> Self {
        spec_sub(a, b)
    }

    open spec fn spec_mul(a: Self, b: Self) -> Self {
        spec_mul(a, b)
    }

    open spec fn spec_div(a: Self, b: Self) -> Self {
        spec_div(a, b)
    }

    open spec fn spec_neg(a: Self) -> Self {
        spec_neg(a)
    }

    open spec fn spec_sat(a: Self, op: CmpOp, n: i64) -> bool {
        spec_sat(a, op, n)
    }

    open spec fn spec_refine(a: Self, op: CmpOp, n: i64) -> Self {
        spec_refine(a, op, n)
    }

    open spec fn spec_includes(a: Self, b: Self) -> bool {
        spec_includes(a, b)
    }

    open spec fn spec_join(a: Self, b: Self) -> Self {
        spec_join(a, b)
    }

    open spec fn spec_widen(a: Self, b: Self, threshold: Self) -> Self {
        spec_widen(a, b, threshold)
    }

    open spec fn spec_compare(a: Self, b: Self) -> Option<Ordering> {
        spec_compare(a, b)
    }

    fn compare(a: &Self, b: &Self) -> (r: Option<Ordering>) {
        a.compare_intervals(b)
    }

    proof fn lemma_guard_contract(a: Self, op: CmpOp, n: i64) {
    }

    proof fn lemma_bottom_absorbs(a: Self) {
    }

    proof fn lemma_constants_wf(n: i64) {
    }

    proof fn lemma_wf_closed(a: Self, b: Self) {
    }

    proof fn lemma_inclusion_bounds(a: Self) {
    }

    proof fn lemma_arithmetic_monotone(a: Self, a2: Self, b: Self, b2: Self) {
        match (a, a2, b, b2) {
            (
                IntervalAbstraction::Interval(i),
                IntervalAbstraction::Interval(i2),
                IntervalAbstraction::Interval(j),
                IntervalAbstraction::Interval(j2),
            ) => {
                lemma_mul_itv_monotone(i, i2, j, j2);
                lemma_div_itv_monotone(i, i2, j, j2);
            },
            _ => {},
        }
    }

    fn top() -> (r: Self) {
        IntervalAbstraction::Top
    }

    fn bottom() -> (r: Self) {
        IntervalAbstraction::Bottom
    }

    fn from_const(n: i64) -> (r: Self) {
        IntervalAbstraction::from_bounds(n, n)
    }

    fn is_bottom(a: &Self) -> (r: bool) {
        *a == IntervalAbstraction::Bottom
    }

    fn equals(a: &Self, b: &Self) -> (r: bool) {
        *a == *b
    }

    fn add(a: &Self, b: &Self) -> (r: Self) {
        match (a, b) {
            (IntervalAbstraction::Bottom, _) => IntervalAbstraction::Bottom,
            (_, IntervalAbstraction::Bottom) => IntervalAbstraction::Bottom,
            (IntervalAbstraction::Top, _) => IntervalAbstraction::Top,
            (_, IntervalAbstraction::Top) => IntervalAbstraction::Top,
            (IntervalAbstraction::Interval(i), IntervalAbstraction::Interval(j)) => {
                IntervalAbstraction::add_intervals(i, j)
            },
        }
    }

    fn sub(a: &Self, b: &Self) -> (r: Self) {
        match (a, b) {
            (IntervalAbstraction::Bottom, _) => IntervalAbstraction::Bottom,
            (_, IntervalAbstraction::Bottom) => IntervalAbstraction::Bottom,
            (IntervalAbstraction::Top, _) => IntervalAbstraction::Top,
            (_, IntervalAbstraction::Top) => IntervalAbstraction::Top,
            (IntervalAbstraction::Interval(i), IntervalAbstraction::Interval(j)) => {
                IntervalAbstraction::sub_intervals(i, j)
            },
        }
    }

    fn mul(a: &Self, b: &Self) -> (r: Self) {
        match (a, b) {
            (IntervalAbstraction::Bottom, _) => IntervalAbstraction::Bottom,
            (_, IntervalAbstraction::Bottom) => IntervalAbstraction::Bottom,
            (IntervalAbstraction::Top, _) => IntervalAbstraction::Top,
            (_, IntervalAbstraction::Top) => IntervalAbstraction::Top,
            (IntervalAbstraction::Interval(i), IntervalAbstraction::Interval(j)) => {
                IntervalAbstraction::mul_intervals(i, j)
            },
        }
    }

    fn div(a: &Self, b: &Self) -> (r: Self) {
        match (a, b) {
            (IntervalAbstraction::Bottom, _) => IntervalAbstraction::Bottom,
            (_, IntervalAbstraction::Bottom) => IntervalAbstraction::Bottom,
            (IntervalAbstraction::Top, _) => IntervalAbstraction::Top,
            (_, IntervalAbstraction::Top) => IntervalAbstraction::Top,
            (IntervalAbstraction::Interval(i), IntervalAbstraction::Interval(j)) => {
                IntervalAbstraction::div_intervals(i, j)
            },
        }
    }

    fn neg(a: &Self) -> (r: Self) {
        match a {
            IntervalAbstraction::Interval(i) => {
                let lo = if i.b == POS_INF {
                    NEG_INF
                } else {
                    clamp_exec(-(i.b as i128))
                };
                let hi = if i.a == NEG_INF {
                    POS_INF
                } else {
                    clamp_exec(-(i.a as i128))
                };
                IntervalAbstraction::from_bounds(lo, hi)
            },
            _ => *a,
        }
    }

    fn sat(a: &Self, bexpr: &BExpr) -> (r: bool) {
        let n = bexpr.get_number();
        match a {
            IntervalAbstraction::Bottom => false,
            IntervalAbstraction::Top => true,
            IntervalAbstraction::Interval(i) => match bexpr.cmp_op() {
                CmpOp::EQ => i.a <= n && n <= i.b,
                CmpOp::LE => i.a <= n,
                CmpOp::LT => i.a == NEG_INF || i.a < n,
                CmpOp::GE => n <= i.b,
                CmpOp::GT => i.b == POS_INF || n < i.b,
                CmpOp::NE => n < i.a || i.b < n,
            },
        }
    }

    fn refine(a: &Self, bexpr: &BExpr) -> (r: Self) {
        if !<IntervalAbstraction as AbstractProperties>::sat(a, bexpr) {
            return IntervalAbstraction::Bottom;
        }
        let n = bexpr.get_number();
        match a {
            IntervalAbstraction::Interval(i) => match bexpr.cmp_op() {
                CmpOp::EQ => IntervalAbstraction::from_bounds(n, n),
                CmpOp::LE => IntervalAbstraction::from_bounds(i.a, min_exec(i.b, n)),
                CmpOp::LT => IntervalAbstraction::from_bounds(i.a, min_exec(i.b, pred_exec(n))),
                CmpOp::GE => IntervalAbstraction::from_bounds(max_exec(i.a, n), i.b),
                CmpOp::GT => IntervalAbstraction::from_bounds(max_exec(i.a, succ_exec(n)), i.b),
                CmpOp::NE => if i.b < n {
                    IntervalAbstraction::from_bounds(i.a, pred_exec(n))
                } else {
                    IntervalAbstraction::from_bounds(succ_exec(n), i.b)
                },
            },
            _ => match bexpr.cmp_op() {
                CmpOp::EQ => IntervalAbstraction::from_bounds(n, n),
                CmpOp::LE => IntervalAbstraction::from_bounds(NEG_INF, n),
                CmpOp::LT => IntervalAbstraction::from_bounds(NEG_INF, pred_exec(n)),
                CmpOp::GE => IntervalAbstraction::from_bounds(n, POS_INF),
                CmpOp::GT | CmpOp::NE => IntervalAbstraction::from_bounds(succ_exec(n), POS_INF),
            },
        }
    }

    fn first_includes_second(a0: &Self, a1: &Self) -> (r: bool) {
        match (a0, a1) {
            (IntervalAbstraction::Top, _) => true,
            (_, IntervalAbstraction::Bottom) => true,
            (IntervalAbstraction::Interval(i), IntervalAbstraction::Interval(j)) => i.a <= j.a
                && j.b <= i.b,
            _ => false,
        }
    }

    fn join(a0: &Self, a1: &Self) -> (r: Self) {
        match (a0, a1) {
            (IntervalAbstraction::Bottom, _) => *a1,
            (_, IntervalAbstraction::Bottom) => *a0,
            (IntervalAbstraction::Top, _) => IntervalAbstraction::Top,
            (_, IntervalAbstraction::Top) => IntervalAbstraction::Top,
            (IntervalAbstraction::Interval(i), IntervalAbstraction::Interval(j)) => {
                IntervalAbstraction::from_bounds(min_exec(i.a, j.a), max_exec(i.b, j.b))
            },
        }
    }

    fn widen(a0: &Self, a1: &Self, threshold: &Self) -> (r: Self) {
        match (a0, a1) {
            (IntervalAbstraction::Bottom, _) => IntervalAbstraction::Top,
            (IntervalAbstraction::Top, _) => IntervalAbstraction::Top,
            (_, IntervalAbstraction::Bottom) => *a0,
            (_, IntervalAbstraction::Top) => IntervalAbstraction::Top,
            (IntervalAbstraction::Interval(i), IntervalAbstraction::Interval(j)) => {
                if j.a < i.a {
                    if i.b < j.b {
                        IntervalAbstraction::Top
                    } else {
                        match threshold {
                            IntervalAbstraction::Bottom => *a0,
                            IntervalAbstraction::Interval(k) => if k.a <= i.b {
                                IntervalAbstraction::from_bounds(k.a, i.b)
                            } else {
                                IntervalAbstraction::from_bounds(NEG_INF, i.b)
                            },
                            IntervalAbstraction::Top => IntervalAbstraction::from_bounds(
                                NEG_INF,
                                i.b,
                            ),
                        }
                    }
                } else if i.b < j.b {
                    match threshold {
                        IntervalAbstraction::Bottom => *a0,
                        IntervalAbstraction::Interval(k) => if i.a <= k.b {
                            IntervalAbstraction::from_bounds(i.a, k.b)
                        } else {
                            IntervalAbstraction::from_bounds(i.a, POS_INF)
                        },
                        IntervalAbstraction::Top => IntervalAbstraction::from_bounds(
                            i.a,
                            POS_INF,
                        ),
                    }
                } else {
                    *a0
                }
            },
        }
    }
}

/// Integer division rounding towards zero keeps the sign of the product of
/// the signs, or gives zero.
pub proof fn lemma_tdiv_sign(x: int, y: int)
    requires
        y != 0,
    ensures
        (x >= 0) == (y > 0) ==> tdiv(x, y) >= 0,
        (x >= 0) != (y > 0) ==> tdiv(x, y) <= 0,
        x == 0 ==> tdiv(x, y) == 0,
{
    let ax = if x < 0 { -x } else { x };
    let ay = if y < 0 { -y } else { y };
    assert(ax / ay >= 0) by (nonlinear_arith)
        requires
            ax >= 0,
            ay > 0,
    ;
    if x == 0 {
        assert(ax / ay == 0) by (nonlinear_arith)
            requires
                ax == 0,
                ay > 0,
        ;
    }
}

impl From<Top> for IntervalAbstraction {
    fn from(t: Top) -> (r: IntervalAbstraction) {
        IntervalAbstraction::Top
    }
}

impl vstd::std_specs::convert::FromSpecImpl<Top> for IntervalAbstraction {
    open spec fn obeys_from_spec() -> bool {
        true
    }

    open spec fn from_spec(t: Top) -> IntervalAbstraction {
        IntervalAbstraction::Top
    }
}

impl From<Bottom> for IntervalAbstraction {
    fn from(b: Bottom) -> (r: IntervalAbstraction) {
        IntervalAbstraction::Bottom
    }
}

impl vstd::std_specs::convert::FromSpecImpl<Bottom> for IntervalAbstraction {
    open spec fn obeys_from_spec() -> bool {
        true
    }

    open spec fn from_spec(b: Bottom) -> IntervalAbstraction {
        IntervalAbstraction::Bottom
    }
}

impl PartialOrd for IntervalAbstraction {
    fn partial_cmp(&self, other: &IntervalAbstraction) -> (r: Option<Ordering>) {
        self.compare_intervals(other)
    }
}

impl vstd::std_specs::cmp::PartialOrdSpecImpl for IntervalAbstraction {
    open spec fn obeys_partial_cmp_spec() -> bool {
        true
    }

    open spec fn partial_cmp_spec(&self, other: &IntervalAbstraction) -> Option<Ordering> {
        spec_compare(*self, *other)
    }
}

/// The height of a value in the lattice, counted by widening: a bounded
/// interval, then one unbounded on one side, then `Top`.
pub open spec fn rank(x: IntervalAbstraction) -> nat {
    match x {
        IntervalAbstraction::Bottom => 0,
        IntervalAbstraction::Interval(i) => if i.a == NEG_INF || i.b == POS_INF {
            2
        } else {
            1
        },
        IntervalAbstraction::Top => 3,
    }
}

/// The join is commutative, associative and idempotent, has `Bottom` as
/// unit and `Top` as absorbing element; `Top` includes every value and every
/// value includes `Bottom`.
pub proof fn lemma_lattice_laws(x: IntervalAbstraction, y: IntervalAbstraction, z: IntervalAbstraction)
    requires
        wf(x),
        wf(y),
        wf(z),
    ensures
        spec_join(x, y) == spec_join(y, x),
        spec_join(spec_join(x, y), z) == spec_join(x, spec_join(y, z)),
        spec_join(x, x) == x,
        spec_join(x, IntervalAbstraction::Bottom) == x,
        spec_join(x, IntervalAbstraction::Top) == IntervalAbstraction::Top,
        spec_includes(IntervalAbstraction::Top, x),
        spec_includes(x, IntervalAbstraction::Bottom),
{
}

/// Inclusion agrees with the concretisation.
pub proof fn lemma_includes_sound(x: IntervalAbstraction, y: IntervalAbstraction, v: int)
    requires
        wf(x),
        wf(y),
        spec_includes(x, y),
        gamma(y, v),
    ensures
        gamma(x, v),
{
}

/// Addition, subtraction and negation are sound: the result of the
/// operation on values described by `x` and `y` is described by the
/// abstract result; a constant is described by its injection.
pub proof fn lemma_arithmetic_sound(x: IntervalAbstraction, y: IntervalAbstraction, v: int, w: int)
    requires
        wf(x),
        wf(y),
        gamma(x, v),
        gamma(y, w),
    ensures
        gamma(spec_add(x, y), v + w),
        gamma(spec_sub(x, y), v - w),
        gamma(spec_neg(x), -v),
{
}

/// A constant is described by its injection.
pub proof fn lemma_from_const_sound(n: i64)
    ensures
        gamma(mk(n, n), n as int),
{
}

/// Refining twice by the same guard gives what refining once gives (the
/// disequality with `POS_INF` aside).
pub proof fn lemma_refine_idempotent(x: IntervalAbstraction, op: CmpOp, n: i64)
    requires
        wf(x),
        !(op == CmpOp::NE && n == POS_INF),
    ensures
        spec_refine(spec_refine(x, op, n), op, n) == spec_refine(x, op, n),
{
}

/// A guard that no value of `x` can satisfy refines `x` to `Bottom`.
pub proof fn lemma_unsat_refines_to_bottom(x: IntervalAbstraction, op: CmpOp, n: i64)
    ensures
        !spec_sat(x, op, n) ==> spec_refine(x, op, n) == IntervalAbstraction::Bottom,
{
}

/// With threshold `Top`, widening includes both the previous and the next
/// value, and so does the join.
pub proof fn lemma_widen_covers(x: IntervalAbstraction, y: IntervalAbstraction)
    requires
        wf(x),
        wf(y),
    ensures
        spec_includes(spec_widen(x, y, IntervalAbstraction::Top), x),
        spec_includes(spec_widen(x, y, IntervalAbstraction::Top), y),
        spec_includes(spec_join(x, y), x),
        spec_includes(spec_join(x, y), y),
{
}

/// With threshold `Top`, each widening step that changes the value raises
/// its height, which is at most three.
pub proof fn lemma_widen_raises_rank(x: IntervalAbstraction, y: IntervalAbstraction)
    requires
        wf(x),
        wf(y),
    ensures
        rank(x) <= 3,
        spec_widen(x, y, IntervalAbstraction::Top) == x || rank(x) < rank(
            spec_widen(x, y, IntervalAbstraction::Top),
        ),
        wf(spec_widen(x, y, IntervalAbstraction::Top)),
{
}

/// The sequence obtained by widening the values of `chain` in turn, with
/// threshold `Top`.
pub open spec fn widened(chain: spec_fn(nat) -> IntervalAbstraction, k: nat) -> IntervalAbstraction
    decreases k,
{
    if k == 0 {
        chain(0)
    } else {
        spec_widen(widened(chain, (k - 1) as nat), chain(k), IntervalAbstraction::Top)
    }
}

/// How many of the first `k` widening steps changed the value.
pub open spec fn changes(chain: spec_fn(nat) -> IntervalAbstraction, k: nat) -> nat
    decreases k,
{
    if k == 0 {
        0
    } else {
        changes(chain, (k - 1) as nat) + if widened(chain, k) != widened(chain, (k - 1) as nat) {
            1nat
        } else {
            0nat
        }
    }
}

/// Widening any sequence of well-formed values with threshold `Top` changes
/// the result at most three times: after that it has reached its fixpoint.
pub proof fn lemma_widening_terminates(chain: spec_fn(nat) -> IntervalAbstraction, k: nat)
    requires
        forall|i: nat| wf(#[trigger] chain(i)),
    ensures
        wf(widened(chain, k)),
        changes(chain, k) <= rank(widened(chain, k)),
        changes(chain, k) <= 3,
    decreases k,
{
    if k > 0 {
        lemma_widening_terminates(chain, (k - 1) as nat);
        lemma_widen_raises_rank(widened(chain, (k - 1) as nat), chain(k));
    }
    lemma_widen_raises_rank(widened(chain, k), chain(k));
}

/// `x` is a lower bound of `v`: minus infinity or at most `v`.
pub open spec fn below(x: int, v: int) -> bool {
    x == i128::MIN as int || x <= v
}

/// `x` is an upper bound of `v`: plus infinity or at least `v`.
pub open spec fn above(x: int, v: int) -> bool {
    x == i128::MAX as int || v <= x
}

proof fn lemma_mul_mono(a: int, b: int, c: int)
    requires
        a <= b,
    ensures
        c >= 0 ==> a * c <= b * c,
        c <= 0 ==> a * c >= b * c,
{
    if c >= 0 {
        assert(a * c <= b * c) by (nonlinear_arith)
            requires
                a <= b,
                c >= 0,
        ;
    } else {
        assert(a * c >= b * c) by (nonlinear_arith)
            requires
                a <= b,
                c <= 0,
        ;
    }
}

proof fn lemma_mul_comm_bounds(a: int, b: int)
    ensures
        a * b == b * a,
        (a >= 0 && b >= 0) ==> a * b >= 0,
        (a <= 0 && b <= 0) ==> a * b >= 0,
        (a >= 0 && b <= 0) ==> a * b <= 0,
        (a <= 0 && b >= 0) ==> a * b <= 0,
        (a == 0 || b == 0) ==> a * b == 0,
{
    assert(a * b == b * a) by (nonlinear_arith);
    assert((a >= 0 && b >= 0) ==> a * b >= 0) by (nonlinear_arith);
    assert((a <= 0 && b <= 0) ==> a * b >= 0) by (nonlinear_arith);
    assert((a >= 0 && b <= 0) ==> a * b <= 0) by (nonlinear_arith);
    assert((a <= 0 && b >= 0) ==> a * b <= 0) by (nonlinear_arith);
    assert((a == 0 || b == 0) ==> a * b == 0) by (nonlinear_arith);
}

/// The least corner of the product lies below `v * w`, or is minus infinity.
proof fn lemma_corner_below(l1: int, u1: int, l2: int, u2: int, v: int, w: int)
    requires
        ext_ok(l1),
        ext_ok(u1),
        ext_ok(l2),
        ext_ok(u2),
        l1 != i128::MAX as int,
        l2 != i128::MAX as int,
        u1 != i128::MIN as int,
        u2 != i128::MIN as int,
        below(l1, v),
        above(u1, v),
        below(l2, w),
        above(u2, w),
    ensures
        min4(ext_mul(l1, l2), ext_mul(l1, u2), ext_mul(u1, l2), ext_mul(u1, u2)) <= v * w
            || min4(ext_mul(l1, l2), ext_mul(l1, u2), ext_mul(u1, l2), ext_mul(u1, u2))
            <= i128::MIN as int,
{
    lemma_mul_comm_bounds(v, w);
    if w >= 0 {
        if l1 == i128::MIN as int {
            if u2 > 0 {
                assert(ext_mul(l1, u2) == i128::MIN as int);
            } else {
                assert(w == 0 && u2 == 0);
                assert(ext_mul(l1, u2) == 0);
            }
        } else {
            lemma_mul_mono(l1, v, w);
            lemma_mul_comm_bounds(l1, w);
            if l1 < 0 {
                if u2 == i128::MAX as int {
                    assert(ext_mul(l1, u2) == i128::MIN as int);
                } else {
                    lemma_mul_mono(w, u2, l1);
                    lemma_mul_comm_bounds(l1, u2);
                    assert(ext_mul(l1, u2) <= l1 * w);
                }
            } else if l1 == 0 {
                assert(ext_mul(l1, l2) == 0);
            } else {
                if l2 == i128::MIN as int {
                    assert(ext_mul(l1, l2) == i128::MIN as int);
                } else {
                    lemma_mul_mono(l2, w, l1);
                    lemma_mul_comm_bounds(l1, l2);
                    assert(ext_mul(l1, l2) <= l1 * w);
                }
            }
        }
    } else {
        if u1 == i128::MAX as int {
            assert(l2 < 0);
            assert(ext_mul(u1, l2) == i128::MIN as int);
        } else {
            lemma_mul_mono(v, u1, w);
            lemma_mul_comm_bounds(u1, w);
            if u1 >= 0 {
                if l2 == i128::MIN as int {
                    if u1 > 0 {
                        assert(ext_mul(u1, l2) == i128::MIN as int);
                    } else {
                        assert(ext_mul(u1, l2) == 0);
                    }
                } else {
                    lemma_mul_mono(l2, w, u1);
                    lemma_mul_comm_bounds(u1, l2);
                    assert(ext_mul(u1, l2) <= u1 * w);
                }
            } else {
                if u2 == i128::MAX as int {
                    assert(ext_mul(u1, u2) == i128::MIN as int);
                } else {
                    lemma_mul_mono(w, u2, u1);
                    lemma_mul_comm_bounds(u1, u2);
                    assert(ext_mul(u1, u2) <= u1 * w);
                }
            }
        }
    }
}

/// The greatest corner of the product lies above `v * w`, or is plus infinity.
proof fn lemma_corner_above(l1: int, u1: int, l2: int, u2: int, v: int, w: int)
    requires
        ext_ok(l1),
        ext_ok(u1),
        ext_ok(l2),
        ext_ok(u2),
        l1 != i128::MAX as int,
        l2 != i128::MAX as int,
        u1 != i128::MIN as int,
        u2 != i128::MIN as int,
        below(l1, v),
        above(u1, v),
        below(l2, w),
        above(u2, w),
    ensures
        max4(ext_mul(l1, l2), ext_mul(l1, u2), ext_mul(u1, l2), ext_mul(u1, u2)) >= v * w
            || max4(ext_mul(l1, l2), ext_mul(l1, u2), ext_mul(u1, l2), ext_mul(u1, u2))
            >= i128::MAX as int,
{
    lemma_mul_comm_bounds(v, w);
    if w >= 0 {
        if u1 == i128::MAX as int {
            if u2 > 0 {
                assert(ext_mul(u1, u2) == i128::MAX as int);
            } else {
                assert(w == 0 && u2 == 0);
                assert(ext_mul(u1, u2) == 0);
            }
        } else {
            lemma_mul_mono(v, u1, w);
            lemma_mul_comm_bounds(u1, w);
            if u1 > 0 {
                if u2 == i128::MAX as int {
                    assert(ext_mul(u1, u2) == i128::MAX as int);
                } else {
                    lemma_mul_mono(w, u2, u1);
                    lemma_mul_comm_bounds(u1, u2);
                    assert(ext_mul(u1, u2) >= u1 * w);
                }
            } else if u1 == 0 {
                assert(ext_mul(u1, u2) == 0);
            } else {
                if l2 == i128::MIN as int {
                    assert(ext_mul(u1, l2) == i128::MAX as int);
                } else {
                    lemma_mul_mono(l2, w, u1);
                    lemma_mul_comm_bounds(u1, l2);
                    assert(ext_mul(u1, l2) >= u1 * w);
                }
            }
        }
    } else {
        if l1 == i128::MIN as int {
            assert(l2 < 0);
            assert(ext_mul(l1, l2) == i128::MAX as int);
        } else {
            lemma_mul_mono(l1, v, w);
            lemma_mul_comm_bounds(l1, w);
            if l1 <= 0 {
                if l2 == i128::MIN as int {
                    if l1 < 0 {
                        assert(ext_mul(l1, l2) == i128::MAX as int);
                    } else {
                        assert(ext_mul(l1, l2) == 0);
                    }
                } else {
                    lemma_mul_mono(l2, w, l1);
                    lemma_mul_comm_bounds(l1, l2);
                    assert(ext_mul(l1, l2) >= l1 * w);
                }
            } else {
                if u2 == i128::MAX as int {
                    assert(ext_mul(l1, u2) == i128::MAX as int);
                } else {
                    lemma_mul_mono(w, u2, l1);
                    lemma_mul_comm_bounds(l1, u2);
                    assert(ext_mul(l1, u2) >= l1 * w);
                }
            }
        }
    }
}

/// Multiplication is sound: the product of values described by `x` and `y`
/// is described by the abstract product.
pub proof fn lemma_mul_sound(x: IntervalAbstraction, y: IntervalAbstraction, v: int, w: int)
    requires
        wf(x),
        wf(y),
        gamma(x, v),
        gamma(y, w),
    ensures
        gamma(spec_mul(x, y), v * w),
{
    match (x, y) {
        (IntervalAbstraction::Interval(i), IntervalAbstraction::Interval(j)) => {
            let (l1, u1, l2, u2) = (ext_lo(i.a), ext_hi(i.b), ext_lo(j.a), ext_hi(j.b));
            lemma_corner_below(l1, u1, l2, u2, v, w);
            lemma_corner_above(l1, u1, l2, u2, v, w);
            let lo = min4(ext_mul(l1, l2), ext_mul(l1, u2), ext_mul(u1, l2), ext_mul(u1, u2));
            let hi = max4(ext_mul(l1, l2), ext_mul(l1, u2), ext_mul(u1, l2), ext_mul(u1, u2));
            assert(spec_mul(x, y) == mk(clamp(lo), clamp(hi)));
        },
        _ => {},
    }
}

proof fn lemma_abs_div_nonneg(a: int, b: int)
    requires
        a >= 0,
        b > 0,
    ensures
        a / b >= 0,
{
    assert(a / b >= 0) by (nonlinear_arith)
        requires
            a >= 0,
            b > 0,
    ;
}

/// Division rounding towards zero is monotone in the dividend: rising for a
/// positive divisor, falling for a negative one.
proof fn lemma_tdiv_mono_num(v1: int, v2: int, w: int)
    requires
        v1 <= v2,
        w != 0,
    ensures
        w > 0 ==> tdiv(v1, w) <= tdiv(v2, w),
        w < 0 ==> tdiv(v1, w) >= tdiv(v2, w),
{
    let b = if w < 0 { -w } else { w };
    let a1 = if v1 < 0 { -v1 } else { v1 };
    let a2 = if v2 < 0 { -v2 } else { v2 };
    lemma_abs_div_nonneg(a1, b);
    lemma_abs_div_nonneg(a2, b);
    if v1 >= 0 {
        vstd::arithmetic::div_mod::lemma_div_is_ordered(a1, a2, b);
    } else if v2 < 0 {
        vstd::arithmetic::div_mod::lemma_div_is_ordered(a2, a1, b);
    }
}

/// Division rounding towards zero is monotone in the divisor on either side
/// of zero: falling for a non-negative dividend, rising for a negative one.
proof fn lemma_tdiv_mono_den(v: int, w1: int, w2: int)
    requires
        w1 <= w2,
        0 < w1 || w2 < 0,
    ensures
        v >= 0 ==> tdiv(v, w1) >= tdiv(v, w2),
        v < 0 ==> tdiv(v, w1) <= tdiv(v, w2),
{
    let a = if v < 0 { -v } else { v };
    if 0 < w1 {
        vstd::arithmetic::div_mod::lemma_div_is_ordered_by_denominator(a, w1, w2);
    } else {
        vstd::arithmetic::div_mod::lemma_div_is_ordered_by_denominator(a, -w2, -w1);
    }
}

/// The least corner of the quotient lies below `tdiv(v, w)`, or is minus
/// infinity, when the divisor's bounds lie on one side of zero.
proof fn lemma_div_corner_below(l1: int, u1: int, l2: int, u2: int, v: int, w: int)
    requires
        ext_ok(l1),
        ext_ok(u1),
        ext_ok(l2),
        ext_ok(u2),
        l1 != i128::MAX as int,
        l2 != i128::MAX as int,
        u1 != i128::MIN as int,
        u2 != i128::MIN as int,
        below(l1, v),
        above(u1, v),
        below(l2, w),
        above(u2, w),
        !(l2 <= 0 && 0 <= u2),
    ensures
        min4(ext_div(l1, l2), ext_div(l1, u2), ext_div(u1, l2), ext_div(u1, u2)) <= tdiv(v, w)
            || min4(ext_div(l1, l2), ext_div(l1, u2), ext_div(u1, l2), ext_div(u1, u2))
            <= i128::MIN as int,
{
    lemma_tdiv_sign(v, w);
    if w > 0 {
        assert(0 < l2 && l2 <= w);
        if l1 == i128::MIN as int {
            assert(ext_div(l1, l2) == i128::MIN as int);
        } else {
            lemma_tdiv_mono_num(l1, v, w);
            lemma_tdiv_sign(l1, w);
            if l1 >= 0 {
                if u2 == i128::MAX as int {
                    assert(ext_div(l1, u2) == 0);
                } else {
                    lemma_tdiv_mono_den(l1, w, u2);
                    assert(ext_div(l1, u2) <= tdiv(l1, w));
                }
            } else {
                lemma_tdiv_mono_den(l1, l2, w);
                assert(ext_div(l1, l2) <= tdiv(l1, w));
            }
        }
    } else {
        assert(w < 0 && u2 < 0 && w <= u2);
        if u1 == i128::MAX as int {
            assert(ext_div(u1, u2) == i128::MIN as int);
        } else {
            lemma_tdiv_mono_num(v, u1, w);
            lemma_tdiv_sign(u1, w);
            if u1 >= 0 {
                lemma_tdiv_mono_den(u1, w, u2);
                assert(ext_div(u1, u2) <= tdiv(u1, w));
            } else {
                if l2 == i128::MIN as int {
                    assert(ext_div(u1, l2) == 0);
                } else {
                    lemma_tdiv_mono_den(u1, l2, w);
                    assert(ext_div(u1, l2) <= tdiv(u1, w));
                }
            }
        }
    }
}

/// The greatest corner of the quotient lies above `tdiv(v, w)`, or is plus
/// infinity, when the divisor's bounds lie on one side of zero.
proof fn lemma_div_corner_above(l1: int, u1: int, l2: int, u2: int, v: int, w: int)
    requires
        ext_ok(l1),
        ext_ok(u1),
        ext_ok(l2),
        ext_ok(u2),
        l1 != i128::MAX as int,
        l2 != i128::MAX as int,
        u1 != i128::MIN as int,
        u2 != i128::MIN as int,
        below(l1, v),
        above(u1, v),
        below(l2, w),
        above(u2, w),
        !(l2 <= 0 && 0 <= u2),
    ensures
        max4(ext_div(l1, l2), ext_div(l1, u2), ext_div(u1, l2), ext_div(u1, u2)) >= tdiv(v, w)
            || max4(ext_div(l1, l2), ext_div(l1, u2), ext_div(u1, l2), ext_div(u1, u2))
            >= i128::MAX as int,
{
    lemma_tdiv_sign(v, w);
    if w > 0 {
        assert(0 < l2 && l2 <= w);
        if u1 == i128::MAX as int {
            assert(ext_div(u1, l2) == i128::MAX as int);
        } else {
            lemma_tdiv_mono_num(v, u1, w);
            lemma_tdiv_sign(u1, w);
            if u1 >= 0 {
                lemma_tdiv_mono_den(u1, l2, w);
                assert(ext_div(u1, l2) >= tdiv(u1, w));
            } else {
                if u2 == i128::MAX as int {
                    assert(ext_div(u1, u2) == 0);
                } else {
                    lemma_tdiv_mono_den(u1, w, u2);
                    assert(ext_div(u1, u2) >= tdiv(u1, w));
                }
            }
        }
    } else {
        assert(w < 0 && u2 < 0 && w <= u2);
        if l1 == i128::MIN as int {
            assert(ext_div(l1, u2) == i128::MAX as int);
        } else {
            lemma_tdiv_mono_num(l1, v, w);
            lemma_tdiv_sign(l1, w);
            if l1 >= 0 {
                if l2 == i128::MIN as int {
                    assert(ext_div(l1, l2) == 0);
                } else {
                    lemma_tdiv_mono_den(l1, l2, w);
                    assert(ext_div(l1, l2) >= tdiv(l1, w));
                }
            } else {
                lemma_tdiv_mono_den(l1, w, u2);
                assert(ext_div(l1, u2) >= tdiv(l1, w));
            }
        }
    }
}

/// Division is sound: the quotient, rounded towards zero, of values
/// described by `x` and `y`, by a non-zero divisor, is described by the
/// abstract quotient.
pub proof fn lemma_div_sound(x: IntervalAbstraction, y: IntervalAbstraction, v: int, w: int)
    requires
        wf(x),
        wf(y),
        gamma(x, v),
        gamma(y, w),
        w != 0,
    ensures
        gamma(spec_div(x, y), tdiv(v, w)),
{
    match (x, y) {
        (IntervalAbstraction::Interval(i), IntervalAbstraction::Interval(j)) => {
            let (l1, u1, l2, u2) = (ext_lo(i.a), ext_hi(i.b), ext_lo(j.a), ext_hi(j.b));
            if !(l2 <= 0 && 0 <= u2) {
                lemma_div_corner_below(l1, u1, l2, u2, v, w);
                lemma_div_corner_above(l1, u1, l2, u2, v, w);
            }
        },
        _ => {},
    }
}

/// An extended integer lies within the extended bounds `[l, u]`.
pub open spec fn within(l: int, u: int, p: int) -> bool {
    &&& (l == i128::MIN as int || (p != i128::MIN as int && l <= p))
    &&& (u == i128::MAX as int || (p != i128::MAX as int && p <= u))
}

proof fn lemma_ext_mul_range(x: int, y: int)
    requires
        ext_ok(x),
        ext_ok(y),
    ensures
        i128::MIN as int <= ext_mul(x, y) <= i128::MAX as int,
{
    if !(x == 0 || y == 0) && !(is_inf(x) || is_inf(y)) {
        assert(-0x4000_0000_0000_0000_0000_0000_0000_0000 <= x * y
            <= 0x4000_0000_0000_0000_0000_0000_0000_0000) by (nonlinear_arith)
            requires
                -0x8000_0000_0000_0000 <= x <= 0x7fff_ffff_ffff_ffff,
                -0x8000_0000_0000_0000 <= y <= 0x7fff_ffff_ffff_ffff,
        ;
    }
}

proof fn lemma_ext_div_range(x: int, y: int)
    requires
        ext_ok(x),
        ext_ok(y),
        y != 0,
    ensures
        i128::MIN as int <= ext_div(x, y) <= i128::MAX as int,
{
    if !is_inf(x) && !is_inf(y) {
        let ax = if x < 0 { -x } else { x };
        let ay = if y < 0 { -y } else { y };
        assert(0 <= ax / ay <= ax) by (nonlinear_arith)
            requires
                ax >= 0,
                ay >= 1,
        ;
    }
}

/// The least corner of a box lies below the product at any extended point
/// of the box, or is minus infinity.
proof fn lemma_mul_point_below(l1: int, u1: int, l2: int, u2: int, p: int, q: int)
    requires
        ext_ok(l1),
        ext_ok(u1),
        ext_ok(l2),
        ext_ok(u2),
        ext_ok(p),
        ext_ok(q),
        l1 != i128::MAX as int,
        l2 != i128::MAX as int,
        u1 != i128::MIN as int,
        u2 != i128::MIN as int,
        within(l1, u1, p),
        within(l2, u2, q),
    ensures
        ({
            let m = min4(ext_mul(l1, l2), ext_mul(l1, u2), ext_mul(u1, l2), ext_mul(u1, u2));
            m <= ext_mul(p, q) || m <= i128::MIN as int
        }),
{
    lemma_ext_mul_range(l1, l2);
    lemma_ext_mul_range(l1, u2);
    lemma_ext_mul_range(u1, l2);
    lemma_ext_mul_range(u1, u2);
    if !is_inf(p) && !is_inf(q) {
        lemma_corner_below(l1, u1, l2, u2, p, q);
    } else if p == 0 || q == 0 {
        if p == 0 {
            if q == i128::MAX as int {
                assert(ext_mul(l1, u2) <= 0);
            } else {
                assert(ext_mul(u1, l2) <= 0);
            }
        } else {
            if p == i128::MAX as int {
                assert(ext_mul(u1, l2) <= 0);
            } else {
                assert(ext_mul(l1, u2) <= 0);
            }
        }
    } else if ext_mul(p, q) == i128::MIN as int {
        if p == i128::MIN as int {
            assert(ext_mul(l1, u2) == i128::MIN as int);
        } else if p == i128::MAX as int {
            assert(ext_mul(u1, l2) == i128::MIN as int);
        } else if q == i128::MIN as int {
            assert(ext_mul(u1, l2) == i128::MIN as int);
        } else {
            assert(ext_mul(l1, u2) == i128::MIN as int);
        }
    }
}

/// The greatest corner of a box lies above the product at any extended
/// point of the box, or is plus infinity.
proof fn lemma_mul_point_above(l1: int, u1: int, l2: int, u2: int, p: int, q: int)
    requires
        ext_ok(l1),
        ext_ok(u1),
        ext_ok(l2),
        ext_ok(u2),
        ext_ok(p),
        ext_ok(q),
        l1 != i128::MAX as int,
        l2 != i128::MAX as int,
        u1 != i128::MIN as int,
        u2 != i128::MIN as int,
        within(l1, u1, p),
        within(l2, u2, q),
    ensures
        ({
            let m = max4(ext_mul(l1, l2), ext_mul(l1, u2), ext_mul(u1, l2), ext_mul(u1, u2));
            m >= ext_mul(p, q) || m >= i128::MAX as int
        }),
{
    lemma_ext_mul_range(l1, l2);
    lemma_ext_mul_range(l1, u2);
    lemma_ext_mul_range(u1, l2);
    lemma_ext_mul_range(u1, u2);
    if !is_inf(p) && !is_inf(q) {
        lemma_corner_above(l1, u1, l2, u2, p, q);
    } else if p == 0 || q == 0 {
        if p == 0 {
            if q == i128::MAX as int {
                assert(ext_mul(u1, u2) >= 0);
            } else {
                assert(ext_mul(l1, l2) >= 0);
            }
        } else {
            if p == i128::MAX as int {
                assert(ext_mul(u1, u2) >= 0);
            } else {
                assert(ext_mul(l1, l2) >= 0);
            }
        }
    } else if ext_mul(p, q) == i128::MAX as int {
        if p == i128::MIN as int {
            assert(ext_mul(l1, l2) == i128::MAX as int);
        } else if p == i128::MAX as int {
            assert(ext_mul(u1, u2) == i128::MAX as int);
        } else if q == i128::MIN as int {
            assert(ext_mul(l1, l2) == i128::MAX as int);
        } else {
            assert(ext_mul(u1, u2) == i128::MAX as int);
        }
    }
}

/// The least corner of a quotient box lies below the quotient at any
/// extended point of the box, or is minus infinity.
proof fn lemma_div_point_below(l1: int, u1: int, l2: int, u2: int, p: int, q: int)
    requires
        ext_ok(l1),
        ext_ok(u1),
        ext_ok(l2),
        ext_ok(u2),
        ext_ok(p),
        ext_ok(q),
        l1 != i128::MAX as int,
        l2 != i128::MAX as int,
        u1 != i128::MIN as int,
        u2 != i128::MIN as int,
        l2 <= u2,
        within(l1, u1, p),
        within(l2, u2, q),
        !(l2 <= 0 && 0 <= u2),
    ensures
        ({
            let m = min4(ext_div(l1, l2), ext_div(l1, u2), ext_div(u1, l2), ext_div(u1, u2));
            m <= ext_div(p, q) || m <= i128::MIN as int
        }),
{
    lemma_ext_div_range(l1, l2);
    lemma_ext_div_range(l1, u2);
    lemma_ext_div_range(u1, l2);
    lemma_ext_div_range(u1, u2);
    if !is_inf(p) && !is_inf(q) {
        lemma_div_corner_below(l1, u1, l2, u2, p, q);
    } else if is_inf(p) {
        if ext_div(p, q) == i128::MIN as int {
            if p == i128::MIN as int {
                assert(ext_div(l1, l2) == i128::MIN as int);
            } else {
                assert(ext_div(u1, u2) == i128::MIN as int);
            }
        }
    } else {
        if q == i128::MAX as int {
            assert(ext_div(l1, u2) <= 0);
        } else {
            assert(ext_div(u1, l2) <= 0);
        }
    }
}

/// The greatest corner of a quotient box lies above the quotient at any
/// extended point of the box, or is plus infinity.
proof fn lemma_div_point_above(l1: int, u1: int, l2: int, u2: int, p: int, q: int)
    requires
        ext_ok(l1),
        ext_ok(u1),
        ext_ok(l2),
        ext_ok(u2),
        ext_ok(p),
        ext_ok(q),
        l1 != i128::MAX as int,
        l2 != i128::MAX as int,
        u1 != i128::MIN as int,
        u2 != i128::MIN as int,
        l2 <= u2,
        within(l1, u1, p),
        within(l2, u2, q),
        !(l2 <= 0 && 0 <= u2),
    ensures
        ({
            let m = max4(ext_div(l1, l2), ext_div(l1, u2), ext_div(u1, l2), ext_div(u1, u2));
            m >= ext_div(p, q) || m >= i128::MAX as int
        }),
{
    lemma_ext_div_range(l1, l2);
    lemma_ext_div_range(l1, u2);
    lemma_ext_div_range(u1, l2);
    lemma_ext_div_range(u1, u2);
    if !is_inf(p) && !is_inf(q) {
        lemma_div_corner_above(l1, u1, l2, u2, p, q);
    } else if is_inf(p) {
        if ext_div(p, q) == i128::MAX as int {
            if p == i128::MAX as int {
                assert(ext_div(u1, l2) == i128::MAX as int);
            } else {
                assert(ext_div(l1, u2) == i128::MAX as int);
            }
        }
    } else {
        if q == i128::MAX as int {
            assert(ext_div(u1, u2) >= 0);
        } else {
            assert(ext_div(l1, l2) >= 0);
        }
    }
}

/// The bounds of an interval inside another lie within the other's bounds.
proof fn lemma_bounds_within(i: Interval, i2: Interval)
    requires
        i.a <= i.b,
        i2.a <= i2.b,
        i2.a <= i.a,
        i.b <= i2.b,
    ensures
        within(ext_lo(i2.a), ext_hi(i2.b), ext_lo(i.a)),
        within(ext_lo(i2.a), ext_hi(i2.b), ext_hi(i.b)),
        ext_ok(ext_lo(i.a)),
        ext_ok(ext_hi(i.b)),
        ext_lo(i.a) <= ext_hi(i.b),
{
}

/// Interval multiplication is monotone for inclusion.
proof fn lemma_mul_itv_monotone(i: Interval, i2: Interval, j: Interval, j2: Interval)
    requires
        wf(IntervalAbstraction::Interval(i)),
        wf(IntervalAbstraction::Interval(i2)),
        wf(IntervalAbstraction::Interval(j)),
        wf(IntervalAbstraction::Interval(j2)),
        i2.a <= i.a && i.b <= i2.b,
        j2.a <= j.a && j.b <= j2.b,
    ensures
        spec_includes(mul_itv(i2, j2), mul_itv(i, j)),
{
    lemma_bounds_within(i, i2);
    lemma_bounds_within(j, j2);
    let (l1, u1, l2, u2) = (ext_lo(i2.a), ext_hi(i2.b), ext_lo(j2.a), ext_hi(j2.b));
    let (xa, xb, ya, yb) = (ext_lo(i.a), ext_hi(i.b), ext_lo(j.a), ext_hi(j.b));
    lemma_mul_point_below(l1, u1, l2, u2, xa, ya);
    lemma_mul_point_below(l1, u1, l2, u2, xa, yb);
    lemma_mul_point_below(l1, u1, l2, u2, xb, ya);
    lemma_mul_point_below(l1, u1, l2, u2, xb, yb);
    lemma_mul_point_above(l1, u1, l2, u2, xa, ya);
    lemma_mul_point_above(l1, u1, l2, u2, xa, yb);
    lemma_mul_point_above(l1, u1, l2, u2, xb, ya);
    lemma_mul_point_above(l1, u1, l2, u2, xb, yb);
}

/// Interval division is monotone for inclusion.
proof fn lemma_div_itv_monotone(i: Interval, i2: Interval, j: Interval, j2: Interval)
    requires
        wf(IntervalAbstraction::Interval(i)),
        wf(IntervalAbstraction::Interval(i2)),
        wf(IntervalAbstraction::Interval(j)),
        wf(IntervalAbstraction::Interval(j2)),
        i2.a <= i.a && i.b <= i2.b,
        j2.a <= j.a && j.b <= j2.b,
    ensures
        spec_includes(div_itv(i2, j2), div_itv(i, j)),
{
    lemma_bounds_within(i, i2);
    lemma_bounds_within(j, j2);
    let (l1, u1, l2, u2) = (ext_lo(i2.a), ext_hi(i2.b), ext_lo(j2.a), ext_hi(j2.b));
    let (xa, xb, ya, yb) = (ext_lo(i.a), ext_hi(i.b), ext_lo(j.a), ext_hi(j.b));
    if !(l2 <= 0 && 0 <= u2) {
        lemma_div_point_below(l1, u1, l2, u2, xa, ya);
        lemma_div_point_below(l1, u1, l2, u2, xa, yb);
        lemma_div_point_below(l1, u1, l2, u2, xb, ya);
        lemma_div_point_below(l1, u1, l2, u2, xb, yb);
        lemma_div_point_above(l1, u1, l2, u2, xa, ya);
        lemma_div_point_above(l1, u1, l2, u2, xa, yb);
        lemma_div_point_above(l1, u1, l2, u2, xb, ya);
        lemma_div_point_above(l1, u1, l2, u2, xb, yb);
    }
}

} // verus!
