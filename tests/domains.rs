use abstract_interpreter::abstractions::interval_abstraction::{
    IntervalAbstraction, NEG_INF, POS_INF,
};
use abstract_interpreter::abstractions::sign_abstraction::SignAbstraction;
use abstract_interpreter::command_parser::{BExpr, Const, Var};
use abstract_interpreter::interpreter::{AbstractProperties, Bottom, Top};

fn itv(a: i64, b: i64) -> IntervalAbstraction {
    IntervalAbstraction::from_bounds(a, b)
}

fn guard_lt(n: i64) -> BExpr {
    BExpr::LT(Var::Var("x".to_string()), Const::Const(n))
}

fn guard_ne(n: i64) -> BExpr {
    BExpr::NE(Var::Var("x".to_string()), Const::Const(n))
}

const SIGNS: [SignAbstraction; 5] = [
    SignAbstraction::Bottom,
    SignAbstraction::Neg,
    SignAbstraction::Zero,
    SignAbstraction::Pos,
    SignAbstraction::Top,
];

#[test]
fn sign_join_laws_on_all_values() {
    for a in SIGNS {
        for b in SIGNS {
            let ab = SignAbstraction::join(&a, &b);
            assert_eq!(ab, SignAbstraction::join(&b, &a));
            assert_eq!(SignAbstraction::join(&a, &a), a);
            assert_eq!(SignAbstraction::join(&a, &SignAbstraction::Bottom), a);
            assert_eq!(SignAbstraction::join(&a, &SignAbstraction::Top), SignAbstraction::Top);
            assert!(SignAbstraction::first_includes_second(&SignAbstraction::Top, &a));
            assert!(SignAbstraction::first_includes_second(&a, &SignAbstraction::Bottom));
            for c in SIGNS {
                assert_eq!(
                    SignAbstraction::join(&ab, &c),
                    SignAbstraction::join(&a, &SignAbstraction::join(&b, &c))
                );
            }
        }
    }
}

#[test]
fn sign_join_of_zero_and_pos_is_pos() {
    assert_eq!(
        SignAbstraction::join(&SignAbstraction::Zero, &SignAbstraction::Pos),
        SignAbstraction::Pos
    );
    assert_eq!(
        SignAbstraction::join(&SignAbstraction::Neg, &SignAbstraction::Pos),
        SignAbstraction::Top
    );
}

#[test]
fn sign_arithmetic_soundness_by_sampling() {
    let samples: [i64; 7] = [-9, -2, -1, 0, 1, 3, 8];
    for v in samples {
        for w in samples {
            let a = SignAbstraction::from_const(v);
            let b = SignAbstraction::from_const(w);
            assert_eq!(SignAbstraction::add(&a, &b), SignAbstraction::join(&SignAbstraction::add(&a, &b), &SignAbstraction::from_const(v + w)));
            assert!(SignAbstraction::first_includes_second(&SignAbstraction::add(&a, &b), &SignAbstraction::from_const(v + w)));
            assert!(SignAbstraction::first_includes_second(&SignAbstraction::sub(&a, &b), &SignAbstraction::from_const(v - w)));
            assert!(SignAbstraction::first_includes_second(&SignAbstraction::mul(&a, &b), &SignAbstraction::from_const(v * w)));
            assert!(SignAbstraction::first_includes_second(&SignAbstraction::neg(&a), &SignAbstraction::from_const(-v)));
            if w != 0 {
                assert!(SignAbstraction::first_includes_second(&SignAbstraction::div(&a, &b), &SignAbstraction::from_const(v / w)));
            }
        }
    }
}

#[test]
fn sign_subtraction_of_pos_from_zero_is_neg() {
    assert_eq!(
        SignAbstraction::sub(&SignAbstraction::Zero, &SignAbstraction::Pos),
        SignAbstraction::Neg
    );
}

#[test]
fn sign_refine_is_idempotent_and_coherent() {
    for a in SIGNS {
        for n in [-3i64, 0, 4] {
            for b in [guard_lt(n), guard_ne(n), BExpr::GE(Var::Var("x".to_string()), Const::Const(n))] {
                let r = SignAbstraction::refine(&a, &b);
                assert_eq!(SignAbstraction::refine(&r, &b), r);
                if !SignAbstraction::sat(&a, &b) {
                    assert_eq!(r, SignAbstraction::Bottom);
                }
            }
        }
    }
}

#[test]
fn sign_refine_from_top() {
    let top = SignAbstraction::Top;
    assert_eq!(SignAbstraction::refine(&top, &guard_lt(0)), SignAbstraction::Top);
    assert_eq!(SignAbstraction::refine(&top, &guard_lt(-1)), SignAbstraction::Neg);
    let gt = |n: i64| BExpr::GT(Var::Var("x".to_string()), Const::Const(n));
    let le = |n: i64| BExpr::LE(Var::Var("x".to_string()), Const::Const(n));
    let ge = |n: i64| BExpr::GE(Var::Var("x".to_string()), Const::Const(n));
    assert_eq!(SignAbstraction::refine(&top, &gt(0)), SignAbstraction::Top);
    assert_eq!(SignAbstraction::refine(&top, &gt(3)), SignAbstraction::Pos);
    assert_eq!(SignAbstraction::refine(&top, &le(0)), SignAbstraction::Neg);
    assert_eq!(SignAbstraction::refine(&top, &ge(0)), SignAbstraction::Pos);
    assert_eq!(SignAbstraction::refine(&top, &ge(-2)), SignAbstraction::Top);
    assert_eq!(SignAbstraction::refine(&top, &guard_lt(5)), SignAbstraction::Top);
    assert_eq!(SignAbstraction::refine(&top, &guard_ne(5)), SignAbstraction::Bottom);
    assert!(!SignAbstraction::sat(&SignAbstraction::Pos, &guard_lt(0)));
    assert!(!SignAbstraction::sat(&SignAbstraction::Bottom, &guard_lt(0)));
}

#[test]
fn sign_widening_reaches_fixpoint_within_three_steps() {
    let chain = [SignAbstraction::Bottom, SignAbstraction::Zero, SignAbstraction::Pos, SignAbstraction::Top, SignAbstraction::Top];
    let mut w = chain[0];
    let mut changes = 0;
    for a in chain.iter().skip(1) {
        let next = SignAbstraction::widen(&w, a, &SignAbstraction::Top);
        if next != w {
            changes += 1;
        }
        w = next;
    }
    assert_eq!(w, SignAbstraction::Top);
    assert!(changes <= 3);
}

#[test]
fn interval_arithmetic_exact_values() {
    assert_eq!(IntervalAbstraction::add(&itv(1, 2), &itv(10, 20)), itv(11, 22));
    assert_eq!(IntervalAbstraction::sub(&itv(1, 2), &itv(10, 20)), itv(-19, -8));
    assert_eq!(IntervalAbstraction::mul(&itv(-2, 1), &itv(-2, 1)), itv(-2, 4));
    assert_eq!(IntervalAbstraction::mul(&itv(0, POS_INF), &itv(-3, -1)), itv(NEG_INF, 0));
    assert_eq!(IntervalAbstraction::div(&itv(7, 9), &itv(2, 2)), itv(3, 4));
    assert_eq!(IntervalAbstraction::div(&itv(7, 9), &itv(-1, 2)), IntervalAbstraction::Top);
    assert_eq!(IntervalAbstraction::neg(&itv(2, POS_INF)), itv(NEG_INF, -2));
    assert_eq!(IntervalAbstraction::from_const(5), itv(5, 5));
    assert_eq!(IntervalAbstraction::add(&itv(1, POS_INF), &itv(NEG_INF, 0)), IntervalAbstraction::Top);
}

#[test]
fn interval_bottom_and_top_absorb() {
    let b = IntervalAbstraction::Bottom;
    let t = IntervalAbstraction::Top;
    assert_eq!(IntervalAbstraction::add(&b, &t), b);
    assert_eq!(IntervalAbstraction::mul(&t, &itv(0, 0)), t);
    assert_eq!(IntervalAbstraction::neg(&b), b);
    assert_eq!(IntervalAbstraction::neg(&t), t);
}

#[test]
fn interval_join_and_inclusion() {
    assert_eq!(IntervalAbstraction::join(&itv(0, 3), &itv(5, 9)), itv(0, 9));
    assert_eq!(IntervalAbstraction::join(&itv(NEG_INF, 3), &itv(5, POS_INF)), IntervalAbstraction::Top);
    assert!(IntervalAbstraction::first_includes_second(&itv(0, 9), &itv(2, 3)));
    assert!(!IntervalAbstraction::first_includes_second(&itv(0, 9), &IntervalAbstraction::Top));
    assert!(!IntervalAbstraction::first_includes_second(&IntervalAbstraction::Bottom, &itv(1, 1)));
}

#[test]
fn interval_sat_and_refine() {
    let x = itv(0, 10);
    assert!(IntervalAbstraction::sat(&x, &guard_lt(5)));
    assert!(!IntervalAbstraction::sat(&x, &guard_lt(0)));
    assert_eq!(IntervalAbstraction::refine(&x, &guard_lt(0)), IntervalAbstraction::Bottom);
    assert_eq!(IntervalAbstraction::refine(&x, &guard_lt(5)), itv(0, 4));
    assert_eq!(IntervalAbstraction::refine(&IntervalAbstraction::Top, &guard_lt(5)), itv(NEG_INF, 4));
    assert_eq!(IntervalAbstraction::refine(&itv(0, 3), &guard_ne(7)), itv(0, 6));
    assert_eq!(IntervalAbstraction::refine(&IntervalAbstraction::Top, &guard_ne(7)), itv(8, POS_INF));
    let r = IntervalAbstraction::refine(&x, &guard_lt(5));
    assert_eq!(IntervalAbstraction::refine(&r, &guard_lt(5)), r);
}

#[test]
fn interval_widening() {
    let t = IntervalAbstraction::Top;
    assert_eq!(IntervalAbstraction::widen(&itv(0, 0), &itv(0, 1), &t), itv(0, POS_INF));
    assert_eq!(IntervalAbstraction::widen(&itv(0, 0), &itv(-1, 0), &t), itv(NEG_INF, 0));
    assert_eq!(IntervalAbstraction::widen(&itv(0, 0), &itv(-1, 1), &t), t);
    assert_eq!(IntervalAbstraction::widen(&itv(0, 5), &itv(1, 4), &t), itv(0, 5));
    assert_eq!(IntervalAbstraction::widen(&IntervalAbstraction::Bottom, &itv(1, 4), &t), t);
    assert_eq!(IntervalAbstraction::widen(&itv(0, 0), &itv(0, 1), &itv(-50, 50)), itv(0, 50));
    assert_eq!(IntervalAbstraction::widen(&itv(0, 0), &itv(0, 1), &IntervalAbstraction::Bottom), itv(0, 0));
    assert_eq!(IntervalAbstraction::widen(&itv(60, 70), &itv(60, 71), &itv(-50, 50)), itv(60, POS_INF));
}

#[test]
fn interval_widening_chain_changes_at_most_three_times() {
    let chain = [itv(0, 0), itv(0, 1), itv(-1, 1), itv(-5, 9), itv(-5, 10)];
    let t = IntervalAbstraction::Top;
    let mut w = chain[0];
    let mut changes = 0;
    for a in chain.iter().skip(1) {
        let next = IntervalAbstraction::widen(&w, a, &t);
        if next != w {
            changes += 1;
        }
        w = next;
    }
    assert_eq!(w, t);
    assert!(changes <= 3);
}

fn contains(x: &IntervalAbstraction, v: i64) -> bool {
    match x {
        IntervalAbstraction::Bottom => false,
        IntervalAbstraction::Top => true,
        IntervalAbstraction::Interval(i) => {
            (i.a == NEG_INF || i.a <= v) && (i.b == POS_INF || v <= i.b)
        }
    }
}

#[test]
fn interval_arithmetic_soundness_by_sampling() {
    let bounds: [(i64, i64); 7] = [(-7, -2), (-3, 4), (0, 0), (1, 6), (NEG_INF, 2), (-1, POS_INF), (5, 5)];
    for (a1, b1) in bounds {
        for (a2, b2) in bounds {
            let x = itv(a1, b1);
            let y = itv(a2, b2);
            for v in -9i64..=9 {
                for w in -9i64..=9 {
                    if !contains(&x, v) || !contains(&y, w) {
                        continue;
                    }
                    assert!(contains(&IntervalAbstraction::add(&x, &y), v + w));
                    assert!(contains(&IntervalAbstraction::sub(&x, &y), v - w));
                    assert!(contains(&IntervalAbstraction::mul(&x, &y), v * w));
                    assert!(contains(&IntervalAbstraction::neg(&x), -v));
                    if w != 0 {
                        assert!(contains(&IntervalAbstraction::div(&x, &y), v / w));
                    }
                }
            }
        }
    }
}

#[test]
fn markers_convert_to_extreme_values() {
    assert_eq!(SignAbstraction::from(Top), SignAbstraction::Top);
    assert_eq!(SignAbstraction::from(Bottom), SignAbstraction::Bottom);
    assert_eq!(IntervalAbstraction::from(Top), IntervalAbstraction::Top);
    assert_eq!(IntervalAbstraction::from(Bottom), IntervalAbstraction::Bottom);
}
