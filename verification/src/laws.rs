//! What holds of the simplifier and the evaluator for every expression.
use vstd::prelude::*;
use crate::term::{
    Term, eval_term, vars, var_list, size, simplify_add, simplify_mul, simplify_term,
    is_simplified, env_fn, env_value, answers_of,
};

verus! {

proof fn lemma_simplify_add_eval(a: Term, b: Term, rho: spec_fn(nat) -> int)
    ensures
        eval_term(simplify_add(a, b), rho) == eval_term(a, rho) + eval_term(b, rho),
{
}

proof fn lemma_simplify_mul_eval(a: Term, b: Term, rho: spec_fn(nat) -> int)
    ensures
        eval_term(simplify_mul(a, b), rho) == eval_term(a, rho) * eval_term(b, rho),
{
}

/// How a variable, a constant, a sum and a product are valued: a variable
/// has the value assigned to it, a constant its own value, a sum the sum
/// and a product the product of the values of its sides.
pub proof fn lemma_eval_cases(a: Term, b: Term, c: int, i: nat, rho: spec_fn(nat) -> int)
    ensures
        eval_term(Term::Var(i), rho) == rho(i),
        eval_term(Term::Const(c), rho) == c,
        eval_term(Term::Add(Box::new(a), Box::new(b)), rho) == eval_term(a, rho) + eval_term(b, rho),
        eval_term(Term::Mul(Box::new(a), Box::new(b)), rho) == eval_term(a, rho) * eval_term(b, rho),
{
}

/// A slice gives variable `i` the value `env[i]` when `i` is one of its
/// indices, and `0` past its end.
pub proof fn lemma_env_value(env: Seq<i64>, i: nat)
    ensures
        i < env.len() ==> env_fn(env)(i) == env[i as int] as int,
        i >= env.len() ==> env_fn(env)(i) == 0,
{
}

/// The rules at a sum whose sides are simplified: a zero side leaves the
/// other side exactly as it is, two constants fold to their exact sum, and
/// any other pair of sides is kept, in order, as a sum.
pub proof fn lemma_simplify_add_rules(a: Term, b: Term, x: int, y: int)
    ensures
        simplify_add(Term::Const(0), b) == b,
        simplify_add(a, Term::Const(0)) == a,
        simplify_add(Term::Const(x), Term::Const(y)) == Term::Const(x + y),
        a != Term::Const(0) && b != Term::Const(0) && !(a is Const && b is Const) ==> simplify_add(a, b)
            == Term::Add(Box::new(a), Box::new(b)),
{
}

/// The rules at a product whose sides are simplified: a side `1` leaves the
/// other side exactly as it is, two constants fold to their exact product,
/// and any other pair of sides is kept, in order, as a product.
pub proof fn lemma_simplify_mul_rules(a: Term, b: Term, x: int, y: int)
    ensures
        simplify_mul(Term::Const(1), b) == b,
        simplify_mul(a, Term::Const(1)) == a,
        simplify_mul(Term::Const(x), Term::Const(y)) == Term::Const(x * y),
        a != Term::Const(1) && b != Term::Const(1) && !(a is Const && b is Const) ==> simplify_mul(a, b)
            == Term::Mul(Box::new(a), Box::new(b)),
{
}

/// The simplifier works bottom-up: the sides of a sum or product are
/// simplified first, then the rules are applied at the node.
pub proof fn lemma_simplify_bottom_up(a: Term, b: Term)
    ensures
        simplify_term(Term::Add(Box::new(a), Box::new(b))) == simplify_add(simplify_term(a), simplify_term(b)),
        simplify_term(Term::Mul(Box::new(a), Box::new(b))) == simplify_mul(simplify_term(a), simplify_term(b)),
{
}

/// Adding zero on either side, or multiplying by one on either side, makes
/// no difference to the simplified expression; constants and variables
/// are left as they are.
pub proof fn lemma_simplify_identities(e: Term, c: int, i: nat)
    ensures
        simplify_term(Term::Add(Box::new(Term::Const(0)), Box::new(e))) == simplify_term(e),
        simplify_term(Term::Add(Box::new(e), Box::new(Term::Const(0)))) == simplify_term(e),
        simplify_term(Term::Mul(Box::new(Term::Const(1)), Box::new(e))) == simplify_term(e),
        simplify_term(Term::Mul(Box::new(e), Box::new(Term::Const(1)))) == simplify_term(e),
        simplify_term(Term::Const(c)) == Term::Const(c),
        simplify_term(Term::Var(i)) == Term::Var(i),
{
    assert(simplify_term(Term::Const(0)) == Term::Const(0));
    assert(simplify_term(Term::Const(1)) == Term::Const(1));
    lemma_simplify_add_rules(simplify_term(e), simplify_term(e), 0, 0);
    lemma_simplify_mul_rules(simplify_term(e), simplify_term(e), 0, 0);
}

/// Simplification preserves meaning: for every expression and every
/// assignment of values to its variables, the simplified expression has
/// the same value as the expression it came from.
pub proof fn lemma_simplify_correct(t: Term, rho: spec_fn(nat) -> int)
    ensures
        eval_term(simplify_term(t), rho) == eval_term(t, rho),
    decreases t,
{
    match t {
        Term::Add(a, b) => {
            lemma_simplify_correct(*a, rho);
            lemma_simplify_correct(*b, rho);
            lemma_simplify_add_eval(simplify_term(*a), simplify_term(*b), rho);
        },
        Term::Mul(a, b) => {
            lemma_simplify_correct(*a, rho);
            lemma_simplify_correct(*b, rho);
            lemma_simplify_mul_eval(simplify_term(*a), simplify_term(*b), rho);
        },
        _ => {},
    }
}

/// The simplifier's output is in normal form: it holds no `e + 0`,
/// `0 + e`, `e * 1`, `1 * e`, and no sum or product of two constants.
pub proof fn lemma_simplify_normal_form(t: Term)
    ensures
        is_simplified(simplify_term(t)),
    decreases t,
{
    match t {
        Term::Add(a, b) => {
            lemma_simplify_normal_form(*a);
            lemma_simplify_normal_form(*b);
        },
        Term::Mul(a, b) => {
            lemma_simplify_normal_form(*a);
            lemma_simplify_normal_form(*b);
        },
        _ => {},
    }
}

/// An expression in normal form is left as it is by the simplifier.
pub proof fn lemma_simplified_is_fixed_point(t: Term)
    requires
        is_simplified(t),
    ensures
        simplify_term(t) == t,
    decreases t,
{
    match t {
        Term::Add(a, b) => {
            lemma_simplified_is_fixed_point(*a);
            lemma_simplified_is_fixed_point(*b);
        },
        Term::Mul(a, b) => {
            lemma_simplified_is_fixed_point(*a);
            lemma_simplified_is_fixed_point(*b);
        },
        _ => {},
    }
}

/// Simplifying twice gives the same as simplifying once.
pub proof fn lemma_simplify_idempotent(t: Term)
    ensures
        simplify_term(simplify_term(t)) == simplify_term(t),
{
    lemma_simplify_normal_form(t);
    lemma_simplified_is_fixed_point(simplify_term(t));
}

/// The simplifier neither drops nor introduces variables: the simplified
/// expression mentions exactly the variables of the expression it came from.
pub proof fn lemma_simplify_keeps_vars(t: Term)
    ensures
        vars(simplify_term(t)) == vars(t),
    decreases t,
{
    match t {
        Term::Add(a, b) => {
            lemma_simplify_keeps_vars(*a);
            lemma_simplify_keeps_vars(*b);
            let sa = simplify_term(*a);
            let sb = simplify_term(*b);
            assert(vars(simplify_add(sa, sb)) =~= vars(sa).union(vars(sb)));
        },
        Term::Mul(a, b) => {
            lemma_simplify_keeps_vars(*a);
            lemma_simplify_keeps_vars(*b);
            let sa = simplify_term(*a);
            let sb = simplify_term(*b);
            assert(vars(simplify_mul(sa, sb)) =~= vars(sa).union(vars(sb)));
        },
        _ => {},
    }
}

/// The simplified expression is never larger than the expression it came from.
pub proof fn lemma_simplify_not_larger(t: Term)
    ensures
        size(simplify_term(t)) <= size(t),
    decreases t,
{
    match t {
        Term::Add(a, b) => {
            lemma_simplify_not_larger(*a);
            lemma_simplify_not_larger(*b);
        },
        Term::Mul(a, b) => {
            lemma_simplify_not_larger(*a);
            lemma_simplify_not_larger(*b);
        },
        _ => {},
    }
}

/// The simplifier keeps the variables in the order they occur: no rule
/// drops, duplicates or reorders an occurrence of a variable.
pub proof fn lemma_simplify_keeps_var_order(t: Term)
    ensures
        var_list(simplify_term(t)) == var_list(t),
    decreases t,
{
    match t {
        Term::Add(a, b) => {
            lemma_simplify_keeps_var_order(*a);
            lemma_simplify_keeps_var_order(*b);
            let sa = simplify_term(*a);
            let sb = simplify_term(*b);
            assert(var_list(simplify_add(sa, sb)) =~= var_list(sa) + var_list(sb));
        },
        Term::Mul(a, b) => {
            lemma_simplify_keeps_var_order(*a);
            lemma_simplify_keeps_var_order(*b);
            let sa = simplify_term(*a);
            let sb = simplify_term(*b);
            assert(var_list(simplify_mul(sa, sb)) =~= var_list(sa) + var_list(sb));
        },
        _ => {},
    }
}

proof fn lemma_size_pos(t: Term)
    ensures
        size(t) >= 1,
{
}

/// The simplified expression has as many nodes as the expression it came
/// from exactly when the simplifier changed nothing.
pub proof fn lemma_simplify_same_size_iff_unchanged(t: Term)
    ensures
        size(simplify_term(t)) == size(t) <==> simplify_term(t) == t,
    decreases t,
{
    lemma_simplify_not_larger(t);
    match t {
        Term::Add(a, b) => {
            lemma_simplify_same_size_iff_unchanged(*a);
            lemma_simplify_same_size_iff_unchanged(*b);
            lemma_simplify_not_larger(*a);
            lemma_simplify_not_larger(*b);
            lemma_size_pos(*a);
            lemma_size_pos(*b);
        },
        Term::Mul(a, b) => {
            lemma_simplify_same_size_iff_unchanged(*a);
            lemma_simplify_same_size_iff_unchanged(*b);
            lemma_simplify_not_larger(*a);
            lemma_simplify_not_larger(*b);
            lemma_size_pos(*a);
            lemma_size_pos(*b);
        },
        _ => {},
    }
}

/// An expression without variables simplifies to a single constant.
pub proof fn lemma_simplify_ground_is_const(t: Term)
    requires
        vars(t) == Set::<nat>::empty(),
    ensures
        simplify_term(t) is Const,
    decreases t,
{
    match t {
        Term::Var(i) => {
            assert(vars(t).contains(i));
        },
        Term::Add(a, b) => {
            assert(vars(*a) =~= Set::<nat>::empty()) by {
                assert forall|i: nat| vars(*a).contains(i) implies false by {
                    assert(vars(t).contains(i));
                }
            }
            assert(vars(*b) =~= Set::<nat>::empty()) by {
                assert forall|i: nat| vars(*b).contains(i) implies false by {
                    assert(vars(t).contains(i));
                }
            }
            lemma_simplify_ground_is_const(*a);
            lemma_simplify_ground_is_const(*b);
        },
        Term::Mul(a, b) => {
            assert(vars(*a) =~= Set::<nat>::empty()) by {
                assert forall|i: nat| vars(*a).contains(i) implies false by {
                    assert(vars(t).contains(i));
                }
            }
            assert(vars(*b) =~= Set::<nat>::empty()) by {
                assert forall|i: nat| vars(*b).contains(i) implies false by {
                    assert(vars(t).contains(i));
                }
            }
            lemma_simplify_ground_is_const(*a);
            lemma_simplify_ground_is_const(*b);
        },
        _ => {},
    }
}

/// The value of an expression depends only on the values of the variables
/// that occur in it.
pub proof fn lemma_eval_depends_on_vars(
    t: Term,
    rho1: spec_fn(nat) -> int,
    rho2: spec_fn(nat) -> int,
)
    requires
        forall|i: nat| vars(t).contains(i) ==> rho1(i) == rho2(i),
    ensures
        eval_term(t, rho1) == eval_term(t, rho2),
    decreases t,
{
    match t {
        Term::Add(a, b) => {
            assert(forall|i: nat| vars(*a).contains(i) ==> vars(t).contains(i));
            assert(forall|i: nat| vars(*b).contains(i) ==> vars(t).contains(i));
            lemma_eval_depends_on_vars(*a, rho1, rho2);
            lemma_eval_depends_on_vars(*b, rho1, rho2);
        },
        Term::Mul(a, b) => {
            assert(forall|i: nat| vars(*a).contains(i) ==> vars(t).contains(i));
            assert(forall|i: nat| vars(*b).contains(i) ==> vars(t).contains(i));
            lemma_eval_depends_on_vars(*a, rho1, rho2);
            lemma_eval_depends_on_vars(*b, rho1, rho2);
        },
        Term::Var(i) => {
            assert(vars(t).contains(i));
        },
        _ => {},
    }
}

/// Evaluating with a function agrees with evaluating with bindings when
/// the function answers every variable of `t` with the value the bindings
/// give it: any answers `rho` that the function may give lead to the same
/// value as `env`.
pub proof fn lemma_answers_agree_with_env<F: Fn(usize) -> i64>(
    t: Term,
    f: F,
    rho: spec_fn(nat) -> int,
    env: Seq<i64>,
)
    requires
        answers_of(t, f, rho),
        forall|i: nat, v: i64|
            #![trigger call_ensures(f, (i as usize,), v), vars(t).contains(i)]
            vars(t).contains(i) && call_ensures(f, (i as usize,), v) ==> v == env_value(env, i),
    ensures
        eval_term(t, rho) == eval_term(t, env_fn(env)),
{
    assert forall|i: nat| vars(t).contains(i) implies rho(i) == env_fn(env)(i) by {
        assert(call_ensures(f, (i as usize,), rho(i) as i64));
    }
    lemma_eval_depends_on_vars(t, rho, env_fn(env));
}

} // verus!
