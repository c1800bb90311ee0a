//! The mathematical model of arithmetic circuits: terms over unbounded
//! integers, their value under a variable assignment, the simplifier and
//! the printed form.
use vstd::prelude::*;

verus! {

/// An arithmetic expression over the integers: a constant, a variable
/// `x{i}`, a sum or a product.
pub enum Term {
    Const(int),
    Var(nat),
    Add(Box<Term>, Box<Term>),
    Mul(Box<Term>, Box<Term>),
}

/// The value of `t` when variable `i` has value `rho(i)`.
pub open spec fn eval_term(t: Term, rho: spec_fn(nat) -> int) -> int
    decreases t,
{
    match t {
        Term::Const(c) => c,
        Term::Var(i) => rho(i),
        Term::Add(a, b) => eval_term(*a, rho) + eval_term(*b, rho),
        Term::Mul(a, b) => eval_term(*a, rho) * eval_term(*b, rho),
    }
}

/// The variables that occur in `t`.
pub open spec fn vars(t: Term) -> Set<nat>
    decreases t,
{
    match t {
        Term::Const(_) => Set::empty(),
        Term::Var(i) => set![i],
        Term::Add(a, b) => vars(*a).union(vars(*b)),
        Term::Mul(a, b) => vars(*a).union(vars(*b)),
    }
}

/// The variables of `t` in the order they occur, left to right.
pub open spec fn var_list(t: Term) -> Seq<nat>
    decreases t,
{
    match t {
        Term::Const(_) => Seq::empty(),
        Term::Var(i) => seq![i],
        Term::Add(a, b) => var_list(*a) + var_list(*b),
        Term::Mul(a, b) => var_list(*a) + var_list(*b),
    }
}

/// The number of nodes of `t`.
pub open spec fn size(t: Term) -> nat
    decreases t,
{
    match t {
        Term::Const(_) => 1,
        Term::Var(_) => 1,
        Term::Add(a, b) => size(*a) + size(*b) + 1,
        Term::Mul(a, b) => size(*a) + size(*b) + 1,
    }
}

/// One step of simplification at a sum whose two sides are already
/// simplified: `0 + e` and `e + 0` become `e`, two constants are folded.
pub open spec fn simplify_add(a: Term, b: Term) -> Term {
    if a == Term::Const(0) {
        b
    } else if b == Term::Const(0) {
        a
    } else {
        match (a, b) {
            (Term::Const(x), Term::Const(y)) => Term::Const(x + y),
            _ => Term::Add(Box::new(a), Box::new(b)),
        }
    }
}

/// One step of simplification at a product whose two sides are already
/// simplified: `1 * e` and `e * 1` become `e`, two constants are folded.
pub open spec fn simplify_mul(a: Term, b: Term) -> Term {
    if a == Term::Const(1) {
        b
    } else if b == Term::Const(1) {
        a
    } else {
        match (a, b) {
            (Term::Const(x), Term::Const(y)) => Term::Const(x * y),
            _ => Term::Mul(Box::new(a), Box::new(b)),
        }
    }
}

/// The simplifier: both sides of a sum or product are simplified first,
/// then the identities `e + 0 = 0 + e = e`, `e * 1 = 1 * e = e` and
/// constant folding are applied at the node.
pub open spec fn simplify_term(t: Term) -> Term
    decreases t,
{
    match t {
        Term::Add(a, b) => simplify_add(simplify_term(*a), simplify_term(*b)),
        Term::Mul(a, b) => simplify_mul(simplify_term(*a), simplify_term(*b)),
        _ => t,
    }
}

/// `t` is in normal form: no sum has a side `0`, no product has a side `1`,
/// and no sum or product has two constant sides.
pub open spec fn is_simplified(t: Term) -> bool
    decreases t,
{
    match t {
        Term::Add(a, b) => {
            &&& is_simplified(*a)
            &&& is_simplified(*b)
            &&& *a != Term::Const(0)
            &&& *b != Term::Const(0)
            &&& !(*a is Const && *b is Const)
        },
        Term::Mul(a, b) => {
            &&& is_simplified(*a)
            &&& is_simplified(*b)
            &&& *a != Term::Const(1)
            &&& *b != Term::Const(1)
            &&& !(*a is Const && *b is Const)
        },
        _ => true,
    }
}

pub open spec fn in_i64(v: int) -> bool {
    i64::MIN <= v <= i64::MAX
}

/// The decimal digit for `d < 10`.
pub open spec fn digit_char(d: nat) -> char {
    if d == 0 { '0' }
    else if d == 1 { '1' }
    else if d == 2 { '2' }
    else if d == 3 { '3' }
    else if d == 4 { '4' }
    else if d == 5 { '5' }
    else if d == 6 { '6' }
    else if d == 7 { '7' }
    else if d == 8 { '8' }
    else { '9' }
}

/// The decimal representation of `n`, without leading zeros.
pub open spec fn nat_text(n: nat) -> Seq<char>
    decreases n,
{
    if n < 10 {
        seq![digit_char(n)]
    } else {
        nat_text(n / 10).push(digit_char(n % 10))
    }
}

/// The decimal representation of `c`, with a leading `-` when negative.
pub open spec fn int_text(c: int) -> Seq<char> {
    if c < 0 {
        seq!['-'] + nat_text((-c) as nat)
    } else {
        nat_text(c as nat)
    }
}

/// The printed form of `t`: constants in decimal, variable `i` as `x{i}`,
/// sums and products fully parenthesized as `(a + b)` and `(a * b)`.
pub open spec fn show(t: Term) -> Seq<char>
    decreases t,
{
    match t {
        Term::Const(c) => int_text(c),
        Term::Var(i) => seq!['x'] + nat_text(i),
        Term::Add(a, b) => seq!['('] + show(*a) + seq![' ', '+', ' '] + show(*b) + seq![')'],
        Term::Mul(a, b) => seq!['('] + show(*a) + seq![' ', '*', ' '] + show(*b) + seq![')'],
    }
}

/// The value of variable `i` under the bindings `env`: `env[i]` where `i`
/// is an index of `env`, and `0` beyond its end.
pub open spec fn env_value(env: Seq<i64>, i: nat) -> int {
    if i < env.len() {
        env[i as int] as int
    } else {
        0
    }
}

/// The assignment of values to variables that `env` gives.
pub open spec fn env_fn(env: Seq<i64>) -> spec_fn(nat) -> int {
    |i: nat| env_value(env, i)
}

/// `rho` gives every variable of `t` a value that `f` may return for it.
pub open spec fn answers_of<F: Fn(usize) -> i64>(t: Term, f: F, rho: spec_fn(nat) -> int) -> bool {
    forall|i: nat|
        #![trigger vars(t).contains(i)]
        vars(t).contains(i) ==> in_i64(rho(i)) && call_ensures(f, (i as usize,), rho(i) as i64)
}

} // verus!
