use arith_circuit::{init, Expr};
use std::cell::Cell;

#[test]
fn test_simplify_and_eval() {
    init();

    // (x0 + 0) * (1 * x1)
    let expr = Expr::mul(
        &Expr::add(&Expr::var(0), &Expr::constant(0)),
        &Expr::mul(&Expr::constant(1), &Expr::var(1)),
    );
    assert_eq!(expr.display(), "((x0 + 0) * (1 * x1))");

    let simplified = expr.simplify();
    assert_eq!(simplified.display(), "(x0 * x1)");

    // eval with x0=3, x1=5
    assert_eq!(expr.eval(&[3, 5]), 15);
    assert_eq!(simplified.eval(&[3, 5]), 15);
}

#[test]
fn test_const_folding() {
    init();

    // (2 + 3) * x0
    let expr = Expr::mul(
        &Expr::add(&Expr::constant(2), &Expr::constant(3)),
        &Expr::var(0),
    );
    let simplified = expr.simplify();
    assert_eq!(simplified.display(), "(5 * x0)");
    assert_eq!(simplified.eval(&[7]), 35);
}

#[test]
fn test_eval_with_closure() {
    init();

    // x0 * x1 + x2
    let expr = Expr::add(&Expr::mul(&Expr::var(0), &Expr::var(1)), &Expr::var(2));

    let result = expr.eval_with(|i| match i {
        0 => 4,
        1 => 5,
        2 => 6,
        _ => 0,
    });
    assert_eq!(result, 26); // 4*5 + 6
}

#[test]
fn init_may_be_called_repeatedly() {
    init();
    init();
    assert_eq!(Expr::constant(4).eval(&[]), 4);
}

#[test]
fn display_of_leaves() {
    assert_eq!(Expr::constant(0).display(), "0");
    assert_eq!(Expr::constant(42).display(), "42");
    assert_eq!(Expr::constant(-5).display(), "-5");
    assert_eq!(Expr::constant(i64::MAX).display(), "9223372036854775807");
    assert_eq!(Expr::constant(i64::MIN).display(), "-9223372036854775808");
    assert_eq!(Expr::var(0).display(), "x0");
    assert_eq!(Expr::var(10).display(), "x10");
    assert_eq!(Expr::var(u32::MAX).display(), "x4294967295");
}

#[test]
fn display_nests_parentheses() {
    let e = Expr::add(
        &Expr::mul(&Expr::var(0), &Expr::constant(-3)),
        &Expr::add(&Expr::constant(7), &Expr::var(12)),
    );
    assert_eq!(e.display(), "((x0 * -3) + (7 + x12))");
}

#[test]
fn eval_missing_variable_is_zero() {
    let e = Expr::add(&Expr::var(0), &Expr::var(5));
    assert_eq!(e.eval(&[9]), 9);
    assert_eq!(e.eval(&[]), 0);
    let p = Expr::mul(&Expr::var(3), &Expr::constant(8));
    assert_eq!(p.eval(&[1, 2, 3]), 0);
    assert_eq!(p.eval(&[1, 2, 3, -4]), -32);
}

#[test]
fn eval_arithmetic() {
    // (x0 + -7) * (x1 * x1)
    let e = Expr::mul(
        &Expr::add(&Expr::var(0), &Expr::constant(-7)),
        &Expr::mul(&Expr::var(1), &Expr::var(1)),
    );
    assert_eq!(e.eval(&[10, -4]), 48);
    assert_eq!(e.eval(&[7, 1000]), 0);
    assert_eq!(e.eval(&[0, 3]), -63);
}

#[test]
fn eval_reaches_i64_bounds() {
    let e = Expr::add(&Expr::var(0), &Expr::constant(1));
    assert_eq!(e.eval(&[i64::MAX - 1]), i64::MAX);
    let m = Expr::mul(&Expr::var(0), &Expr::constant(-1));
    assert_eq!(m.eval(&[i64::MAX]), -i64::MAX);
}

#[test]
fn simplify_removes_zero_on_either_side() {
    let left = Expr::add(&Expr::constant(0), &Expr::var(2));
    assert_eq!(left.simplify().display(), "x2");
    let right = Expr::add(&Expr::var(2), &Expr::constant(0));
    assert_eq!(right.simplify().display(), "x2");
    let both = Expr::add(&Expr::constant(0), &Expr::constant(0));
    assert_eq!(both.simplify().display(), "0");
}

#[test]
fn simplify_removes_one_on_either_side() {
    let left = Expr::mul(&Expr::constant(1), &Expr::var(4));
    assert_eq!(left.simplify().display(), "x4");
    let right = Expr::mul(&Expr::var(4), &Expr::constant(1));
    assert_eq!(right.simplify().display(), "x4");
    let both = Expr::mul(&Expr::constant(1), &Expr::constant(1));
    assert_eq!(both.simplify().display(), "1");
}

#[test]
fn simplify_keeps_other_shapes() {
    // no rule for multiplication by zero or addition of one
    let z = Expr::mul(&Expr::constant(0), &Expr::var(0));
    assert_eq!(z.simplify().display(), "(0 * x0)");
    let o = Expr::add(&Expr::constant(1), &Expr::var(0));
    assert_eq!(o.simplify().display(), "(1 + x0)");
    let v = Expr::var(3);
    assert_eq!(v.simplify().display(), "x3");
    let c = Expr::constant(-8);
    assert_eq!(c.simplify().display(), "-8");
}

#[test]
fn simplify_works_bottom_up() {
    // (1 + 0) * x0: the sum becomes 1, then the product becomes x0
    let e = Expr::mul(&Expr::add(&Expr::constant(1), &Expr::constant(0)), &Expr::var(0));
    assert_eq!(e.simplify().display(), "x0");
    // ((2 * 3) + (4 * -1)) folds to 2
    let f = Expr::add(
        &Expr::mul(&Expr::constant(2), &Expr::constant(3)),
        &Expr::mul(&Expr::constant(4), &Expr::constant(-1)),
    );
    assert_eq!(f.simplify().display(), "2");
    // (x0 + (3 + -3)) : the inner sum folds to 0, then disappears
    let g = Expr::add(
        &Expr::var(0),
        &Expr::add(&Expr::constant(3), &Expr::constant(-3)),
    );
    assert_eq!(g.simplify().display(), "x0");
}

#[test]
fn simplify_preserves_value() {
    let e = Expr::add(
        &Expr::mul(&Expr::add(&Expr::var(0), &Expr::constant(0)), &Expr::constant(1)),
        &Expr::mul(&Expr::add(&Expr::constant(6), &Expr::constant(-2)), &Expr::var(1)),
    );
    let s = e.simplify();
    assert_eq!(s.display(), "(x0 + (4 * x1))");
    for env in [[0i64, 0], [1, 2], [-5, 9], [100, -100]] {
        assert_eq!(e.eval(&env), s.eval(&env));
    }
    assert_eq!(s.eval(&[1, 2]), 9);
}

#[test]
fn simplify_is_idempotent() {
    let e = Expr::mul(
        &Expr::add(&Expr::var(1), &Expr::constant(0)),
        &Expr::add(&Expr::mul(&Expr::constant(1), &Expr::constant(5)), &Expr::var(0)),
    );
    let once = e.simplify();
    let twice = once.simplify();
    assert_eq!(once.display(), "(x1 * (5 + x0))");
    assert_eq!(twice.display(), once.display());
}

#[test]
fn simplify_keeps_variables() {
    // x7 survives even when multiplied by zero-valued constants
    let e = Expr::mul(&Expr::add(&Expr::constant(2), &Expr::constant(-2)), &Expr::var(7));
    let s = e.simplify();
    assert_eq!(s.display(), "(0 * x7)");
    assert!(s.display().contains("x7"));
}

#[test]
fn simplify_does_not_grow() {
    let e = Expr::add(&Expr::mul(&Expr::var(0), &Expr::var(1)), &Expr::constant(0));
    let s = e.simplify();
    assert!(s.display().len() <= e.display().len());
    assert_eq!(s.display(), "(x0 * x1)");
}

#[test]
fn eval_with_agrees_with_eval() {
    let e = Expr::add(&Expr::mul(&Expr::var(0), &Expr::var(1)), &Expr::var(2));
    let env = [4i64, 5, 6];
    assert_eq!(e.eval_with(|i| env[i]), e.eval(&env));
    let s = e.simplify();
    assert_eq!(s.eval_with(|i| [3i64, 5, 1][i]), 16);
}

#[test]
fn eval_with_asks_once_per_variable() {
    // x0 * x0 + x0 * x1
    let e = Expr::add(
        &Expr::mul(&Expr::var(0), &Expr::var(0)),
        &Expr::mul(&Expr::var(0), &Expr::var(1)),
    );
    let calls = Cell::new(0u32);
    let r = e.eval_with(|i| {
        calls.set(calls.get() + 1);
        (i as i64) + 2
    });
    assert_eq!(r, 2 * 2 + 2 * 3);
    assert_eq!(calls.get(), 2);
}

#[test]
fn eval_with_asks_only_for_occurring_variables() {
    // only x5 occurs; asking for any other index would panic
    let e = Expr::mul(&Expr::var(5), &Expr::constant(3));
    let r = e.eval_with(|i| {
        assert_eq!(i, 5);
        11
    });
    assert_eq!(r, 33);
    let c = Expr::constant(9);
    assert_eq!(c.eval_with(|_| panic!("no variable to ask for")), 9);
}

#[test]
fn clone_is_equal() {
    let e = Expr::mul(&Expr::var(0), &Expr::constant(2));
    let c = e.clone();
    assert_eq!(c.display(), e.display());
    assert_eq!(c.eval(&[21]), 42);
}

#[test]
fn folding_goes_beyond_i64() {
    let e = Expr::add(&Expr::constant(i64::MAX), &Expr::constant(1));
    assert_eq!(e.simplify().display(), "9223372036854775808");
    let m = Expr::mul(&Expr::constant(i64::MAX), &Expr::constant(i64::MAX));
    assert_eq!(m.simplify().display(), "85070591730234615847396907784232501249");
    let n = Expr::mul(&Expr::constant(i64::MIN), &Expr::constant(3));
    assert_eq!(n.simplify().display(), "-27670116110564327424");
    let cube = Expr::mul(&m, &Expr::constant(i64::MAX));
    assert_eq!(
        cube.simplify().display(),
        "784637716923335095224261902710254454442933591094742482943"
    );
    let p = Expr::mul(&Expr::constant(1_000_000_000_000_000_000), &Expr::constant(1_000_000_000_000_000_000));
    assert_eq!(p.simplify().display(), "1000000000000000000000000000000000000");
    let q = Expr::add(
        &Expr::mul(&Expr::constant(i64::MIN), &Expr::constant(i64::MAX)),
        &Expr::constant(5),
    );
    assert_eq!(q.simplify().display(), "-85070591730234615856620279821087277051");
}

#[test]
fn folding_back_into_range() {
    // (i64::MAX + 1) + -i64::MAX folds to 1, passing through 2^63
    let e = Expr::add(
        &Expr::add(&Expr::constant(i64::MAX), &Expr::constant(1)),
        &Expr::constant(-i64::MAX),
    );
    assert_eq!(e.simplify().display(), "1");
    let z = Expr::add(&Expr::constant(i64::MIN), &Expr::mul(&Expr::constant(-1), &Expr::constant(i64::MIN)));
    assert_eq!(z.simplify().display(), "0");
}

#[test]
fn eval_with_large_intermediate_values() {
    let e = Expr::add(
        &Expr::add(&Expr::constant(i64::MAX), &Expr::constant(1)),
        &Expr::constant(-i64::MAX),
    );
    assert_eq!(e.eval(&[]), 1);
    assert_eq!(e.simplify().eval(&[]), 1);
    let v = Expr::add(&Expr::var(0), &Expr::var(1));
    assert_eq!(v.eval(&[i64::MAX, -i64::MAX]), 0);
    // x0 * x0 - x0 * x0 with x0 = 2^40: the products leave i64, the value is 0
    let sq = Expr::mul(&Expr::var(0), &Expr::var(0));
    let d = Expr::add(&sq, &Expr::mul(&Expr::constant(-1), &sq));
    assert_eq!(d.eval(&[1i64 << 40]), 0);
    assert_eq!(d.eval_with(|_| 1i64 << 40), 0);
    assert_eq!(Expr::constant(i64::MIN).eval(&[]), i64::MIN);
    let m = Expr::mul(&Expr::constant(i64::MIN), &Expr::constant(1));
    assert_eq!(m.eval(&[]), i64::MIN);
}

#[test]
fn simplify_ground_expression_is_constant() {
    let e = Expr::mul(
        &Expr::add(&Expr::constant(4), &Expr::mul(&Expr::constant(-2), &Expr::constant(5))),
        &Expr::add(&Expr::constant(0), &Expr::constant(7)),
    );
    assert_eq!(e.simplify().display(), "-42");
    assert_eq!(e.eval(&[]), -42);
}

#[test]
fn simplify_keeps_variable_order() {
    let e = Expr::add(
        &Expr::mul(&Expr::var(2), &Expr::constant(1)),
        &Expr::add(&Expr::constant(0), &Expr::mul(&Expr::var(0), &Expr::var(2))),
    );
    assert_eq!(e.simplify().display(), "(x2 + (x0 * x2))");
}
