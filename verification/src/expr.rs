//! Expressions held in memory, and the operations on them: building,
//! simplifying, evaluating and printing.
use vstd::prelude::*;
use vstd::string::StringExecFns;
use crate::term::{
    Term, eval_term, vars, simplify_add, simplify_mul, simplify_term, is_simplified, in_i64,
    env_fn, env_value, answers_of, show, nat_text,
};
use crate::bigint::{BigInt, push_bigint};
use crate::laws::{lemma_simplify_normal_form, lemma_eval_depends_on_vars, lemma_answers_agree_with_env};
use crate::text::push_nat;
use crate::bindings::{
    bound, binding_value, binding_fn, answered_by, lemma_binding_value_is_a_binding, find_binding,
};

verus! {

/// A node of an expression tree.
enum Node {
    Const(BigInt),
    Var(u32),
    Add(Box<Node>, Box<Node>),
    Mul(Box<Node>, Box<Node>),
}

impl Node {
    spec fn model(self) -> Term
        decreases self,
    {
        match self {
            Node::Const(c) => Term::Const(c@),
            Node::Var(i) => Term::Var(i as nat),
            Node::Add(a, b) => Term::Add(Box::new(a.model()), Box::new(b.model())),
            Node::Mul(a, b) => Term::Mul(Box::new(a.model()), Box::new(b.model())),
        }
    }

    fn duplicate(&self) -> (r: Node)
        ensures
            r.model() == self.model(),
        decreases self,
    {
        match self {
            Node::Const(c) => Node::Const(c.duplicate()),
            Node::Var(i) => Node::Var(*i),
            Node::Add(a, b) => Node::Add(Box::new(a.duplicate()), Box::new(b.duplicate())),
            Node::Mul(a, b) => Node::Mul(Box::new(a.duplicate()), Box::new(b.duplicate())),
        }
    }
}

proof fn lemma_vars_are_u32(n: Node)
    ensures
        forall|i: nat| vars(n.model()).contains(i) ==> i <= u32::MAX,
    decreases n,
{
    match n {
        Node::Add(a, b) => {
            lemma_vars_are_u32(*a);
            lemma_vars_are_u32(*b);
            assert(vars(n.model()) == vars(a.model()).union(vars(b.model())));
        },
        Node::Mul(a, b) => {
            lemma_vars_are_u32(*a);
            lemma_vars_are_u32(*b);
            assert(vars(n.model()) == vars(a.model()).union(vars(b.model())));
        },
        _ => {},
    }
}

/// Applies the rules at a sum whose sides are simplified.
fn combine_add(a: Node, b: Node) -> (r: Node)
    ensures
        r.model() == simplify_add(a.model(), b.model()),
{
    if let Node::Const(x) = &a {
        if x.is_zero() {
            return b;
        }
    }
    if let Node::Const(y) = &b {
        if y.is_zero() {
            return a;
        }
    }
    let folded: Option<BigInt> = match (&a, &b) {
        (Node::Const(x), Node::Const(y)) => Some(x.add(y)),
        _ => None,
    };
    match folded {
        Some(v) => Node::Const(v),
        None => Node::Add(Box::new(a), Box::new(b)),
    }
}

/// Applies the rules at a product whose sides are simplified.
fn combine_mul(a: Node, b: Node) -> (r: Node)
    ensures
        r.model() == simplify_mul(a.model(), b.model()),
{
    if let Node::Const(x) = &a {
        if x.is_one() {
            return b;
        }
    }
    if let Node::Const(y) = &b {
        if y.is_one() {
            return a;
        }
    }
    let folded: Option<BigInt> = match (&a, &b) {
        (Node::Const(x), Node::Const(y)) => Some(x.mul(y)),
        _ => None,
    };
    match folded {
        Some(v) => Node::Const(v),
        None => Node::Mul(Box::new(a), Box::new(b)),
    }
}

fn simplify_node(n: &Node) -> (r: Node)
    ensures
        r.model() == simplify_term(n.model()),
    decreases n,
{
    match n {
        Node::Const(c) => Node::Const(c.duplicate()),
        Node::Var(i) => Node::Var(*i),
        Node::Add(a, b) => {
            let sa = simplify_node(a);
            let sb = simplify_node(b);
            combine_add(sa, sb)
        },
        Node::Mul(a, b) => {
            let sa = simplify_node(a);
            let sb = simplify_node(b);
            combine_mul(sa, sb)
        },
    }
}

fn eval_node(n: &Node, env: &[i64]) -> (r: BigInt)
    ensures
        r@ == eval_term(n.model(), env_fn(env@)),
    decreases n,
{
    match n {
        Node::Const(c) => c.duplicate(),
        Node::Var(i) => {
            let k = *i as usize;
            if k < env.len() {
                BigInt::from_i64(env[k])
            } else {
                BigInt::from_i64(0)
            }
        },
        Node::Add(a, b) => {
            let x = eval_node(a, env);
            let y = eval_node(b, env);
            x.add(&y)
        },
        Node::Mul(a, b) => {
            let x = eval_node(a, env);
            let y = eval_node(b, env);
            x.mul(&y)
        },
    }
}

fn show_node(n: &Node, s: &mut String)
    ensures
        final(s)@ == old(s)@ + show(n.model()),
    decreases n,
{
    proof {
        reveal_strlit("x");
        reveal_strlit("(");
        reveal_strlit(")");
        reveal_strlit(" + ");
        reveal_strlit(" * ");
    }
    match n {
        Node::Const(c) => push_bigint(s, c),
        Node::Var(i) => {
            s.append("x");
            push_nat(s, *i as u64);
            assert(old(s)@ + show(n.model()) =~= old(s)@ + seq!['x'] + nat_text(*i as nat));
        },
        Node::Add(a, b) => {
            s.append("(");
            show_node(a, s);
            s.append(" + ");
            show_node(b, s);
            s.append(")");
            assert(old(s)@ + show(n.model()) =~= old(s)@ + seq!['('] + show(a.model()) + seq![' ', '+', ' ']
                + show(b.model()) + seq![')']);
        },
        Node::Mul(a, b) => {
            s.append("(");
            show_node(a, s);
            s.append(" * ");
            show_node(b, s);
            s.append(")");
            assert(old(s)@ + show(n.model()) =~= old(s)@ + seq!['('] + show(a.model()) + seq![' ', '*', ' ']
                + show(b.model()) + seq![')']);
        },
    }
}

/// Binds every variable of `n` that `binds` does not bind yet to the
/// answer of `f`, calling `f` once for each.
fn collect<F: Fn(usize) -> i64>(n: &Node, f: &F, binds: &mut Vec<(u32, i64)>)
    requires
        forall|i: nat|
            #![trigger vars(n.model()).contains(i)]
            vars(n.model()).contains(i) ==> call_requires(*f, (i as usize,)),
        answered_by(old(binds)@, *f),
    ensures
        answered_by(final(binds)@, *f),
        forall|i: nat| bound(old(binds)@, i) ==> bound(final(binds)@, i),
        forall|i: nat| vars(n.model()).contains(i) ==> bound(final(binds)@, i),
    decreases n,
{
    match n {
        Node::Const(_) => {},
        Node::Var(i) => {
            assert(vars(n.model()).contains(*i as nat));
            if find_binding(binds, *i).is_none() {
                let v = f(*i as usize);
                let ghost before = binds@;
                binds.push((*i, v));
                assert forall|k: nat| bound(before, k) implies bound(binds@, k) by {
                    let j = choose|j: int| 0 <= j < before.len() && before[j].0 as nat == k;
                    assert(binds@[j] == before[j]);
                }
                assert(binds@[binds@.len() - 1].0 as nat == *i as nat);
                assert forall|j: int| 0 <= j < binds@.len() implies call_ensures(
                    *f,
                    (binds@[j].0 as usize,),
                    #[trigger] binds@[j].1,
                ) by {
                    if j < before.len() {
                        assert(binds@[j] == before[j]);
                    }
                }
            }
        },
        Node::Add(a, b) => {
            assert(vars(n.model()) == vars(a.model()).union(vars(b.model())));
            assert forall|i: nat| vars(a.model()).contains(i) implies call_requires(*f, (i as usize,)) by {
                assert(vars(n.model()).contains(i));
            }
            assert forall|i: nat| vars(b.model()).contains(i) implies call_requires(*f, (i as usize,)) by {
                assert(vars(n.model()).contains(i));
            }
            collect(a, f, binds);
            collect(b, f, binds);
        },
        Node::Mul(a, b) => {
            assert(vars(n.model()) == vars(a.model()).union(vars(b.model())));
            assert forall|i: nat| vars(a.model()).contains(i) implies call_requires(*f, (i as usize,)) by {
                assert(vars(n.model()).contains(i));
            }
            assert forall|i: nat| vars(b.model()).contains(i) implies call_requires(*f, (i as usize,)) by {
                assert(vars(n.model()).contains(i));
            }
            collect(a, f, binds);
            collect(b, f, binds);
        },
    }
}

fn eval_bound(n: &Node, binds: &Vec<(u32, i64)>) -> (r: BigInt)
    ensures
        r@ == eval_term(n.model(), binding_fn(binds@)),
    decreases n,
{
    match n {
        Node::Const(c) => c.duplicate(),
        Node::Var(i) => {
            match find_binding(binds, *i) {
                Some(v) => BigInt::from_i64(v),
                None => BigInt::from_i64(0),
            }
        },
        Node::Add(a, b) => {
            let x = eval_bound(a, binds);
            let y = eval_bound(b, binds);
            x.add(&y)
        },
        Node::Mul(a, b) => {
            let x = eval_bound(a, binds);
            let y = eval_bound(b, binds);
            x.mul(&y)
        },
    }
}

/// An arithmetic expression: integer constants, variables `x0`, `x1`, ...,
/// sums and products.
pub struct Expr {
    node: Node,
}

impl View for Expr {
    type V = Term;

    closed spec fn view(&self) -> Term {
        self.node.model()
    }
}

impl Clone for Expr {
    /// A copy of the expression.
    fn clone(&self) -> (r: Self)
        ensures
            r@ == self@,
    {
        Expr { node: self.node.duplicate() }
    }
}

impl Expr {
    /// The constant expression `n`.
    pub fn constant(n: i64) -> (r: Self)
        ensures
            r@ == Term::Const(n as int),
    {
        Expr { node: Node::Const(BigInt::from_i64(n)) }
    }

    /// The variable `x{i}`.
    pub fn var(i: u32) -> (r: Self)
        ensures
            r@ == Term::Var(i as nat),
    {
        Expr { node: Node::Var(i) }
    }

    /// The sum `a + b`.
    pub fn add(a: &Expr, b: &Expr) -> (r: Self)
        ensures
            r@ == Term::Add(Box::new(a@), Box::new(b@)),
    {
        Expr { node: Node::Add(Box::new(a.node.duplicate()), Box::new(b.node.duplicate())) }
    }

    /// The product `a * b`.
    pub fn mul(a: &Expr, b: &Expr) -> (r: Self)
        ensures
            r@ == Term::Mul(Box::new(a@), Box::new(b@)),
    {
        Expr { node: Node::Mul(Box::new(a.node.duplicate()), Box::new(b.node.duplicate())) }
    }

    /// Simplifies the expression bottom-up: `e + 0`, `0 + e`, `e * 1` and
    /// `1 * e` become `e`, and sums and products of two constants are
    /// folded exactly, however large the result.
    pub fn simplify(&self) -> (r: Self)
        ensures
            r@ == simplify_term(self@),
            is_simplified(r@),
    {
        proof {
            lemma_simplify_normal_form(self@);
        }
        Expr { node: simplify_node(&self.node) }
    }

    /// Evaluates the expression where `env[i]` is the value of `x{i}`; a
    /// variable beyond the end of `env` has the value `0`. Intermediate
    /// values are exact integers of any size; the value itself must fit in
    /// an `i64`.
    pub fn eval(&self, env: &[i64]) -> (r: i64)
        requires
            in_i64(eval_term(self@, env_fn(env@))),
        ensures
            r == eval_term(self@, env_fn(env@)),
    {
        eval_node(&self.node, env).to_i64()
    }

    /// Evaluates the expression where `f(i)` is the value of `x{i}`. `f` is
    /// called once for each variable that occurs, and the result is the
    /// value of the expression under those answers. Intermediate values are
    /// exact integers of any size; the value itself must fit in an `i64`,
    /// whatever `f` may answer.
    pub fn eval_with(&self, f: impl Fn(usize) -> i64) -> (r: i64)
        requires
            forall|i: nat|
                #![trigger vars(self@).contains(i)]
                vars(self@).contains(i) ==> call_requires(f, (i as usize,)),
            forall|rho: spec_fn(nat) -> int|
                #![trigger answers_of(self@, f, rho)]
                answers_of(self@, f, rho) ==> in_i64(eval_term(self@, rho)),
        ensures
            exists|rho: spec_fn(nat) -> int|
                #![trigger answers_of(self@, f, rho)]
                answers_of(self@, f, rho) && r == eval_term(self@, rho),
    {
        let mut binds: Vec<(u32, i64)> = Vec::new();
        assert forall|i: nat| vars(self.node.model()).contains(i) implies call_requires(
            f,
            (i as usize,),
        ) by {
            assert(vars(self@).contains(i));
        }
        collect(&self.node, &f, &mut binds);
        let ghost rho = binding_fn(binds@);
        proof {
            lemma_vars_are_u32(self.node);
            assert forall|i: nat| vars(self@).contains(i) implies in_i64(rho(i)) && call_ensures(
                f,
                (i as usize,),
                rho(i) as i64,
            ) by {
                lemma_binding_value_is_a_binding(binds@, i);
                let j = choose|j: int|
                    0 <= j < binds@.len() && binds@[j].0 as nat == i && binds@[j].1 as int
                        == binding_value(binds@, i);
                assert(call_ensures(f, (binds@[j].0 as usize,), binds@[j].1));
            }
            assert(answers_of(self@, f, rho));
        }
        eval_bound(&self.node, &binds).to_i64()
    }

    /// The printed form: constants in decimal, variables as `x{i}`, sums
    /// and products fully parenthesized, as in `((x0 + 0) * (1 * x1))`.
    pub fn display(&self) -> (r: String)
        ensures
            r@ == show(self@),
    {
        let mut s = String::new();
        show_node(&self.node, &mut s);
        assert(s@ =~= show(self@));
        s
    }
}

/// Every variable index of an expression fits in a `u32`, and so in a
/// `usize`.
pub proof fn lemma_var_indices_fit(e: &Expr)
    ensures
        forall|i: nat| vars(e@).contains(i) ==> i <= u32::MAX,
{
    lemma_vars_are_u32(e.node);
}

/// Two slices that give every variable of `e` the same value give `e` the
/// same value; so `e.eval(env1)` and `e.eval(env2)` are both admitted or
/// both refused, and equal when admitted.
pub proof fn lemma_eval_slices_agree(e: &Expr, env1: Seq<i64>, env2: Seq<i64>)
    requires
        forall|i: nat| vars(e@).contains(i) ==> env_value(env1, i) == env_value(env2, i),
    ensures
        eval_term(e@, env_fn(env1)) == eval_term(e@, env_fn(env2)),
{
    lemma_eval_depends_on_vars(e@, env_fn(env1), env_fn(env2));
}

/// Evaluating with a function that answers each index with the value the
/// slice `env` gives it (`0` past its end) agrees with evaluating with
/// `env`: every set of answers it may give leads to the value of
/// `e.eval(env)`. So `e.eval_with(f)` is admitted exactly when `e.eval(env)`
/// is, and both return the same.
pub proof fn lemma_eval_with_lookup_agrees<F: Fn(usize) -> i64>(e: &Expr, f: F, env: Seq<i64>)
    requires
        forall|k: usize, v: i64|
            #![trigger call_ensures(f, (k,), v)]
            vars(e@).contains(k as nat) && call_ensures(f, (k,), v) ==> v == env_value(env, k as nat),
    ensures
        forall|rho: spec_fn(nat) -> int|
            #![trigger answers_of(e@, f, rho)]
            answers_of(e@, f, rho) ==> eval_term(e@, rho) == eval_term(e@, env_fn(env)),
{
    lemma_var_indices_fit(e);
    assert forall|rho: spec_fn(nat) -> int|
        #![trigger answers_of(e@, f, rho)]
        answers_of(e@, f, rho) implies eval_term(e@, rho) == eval_term(e@, env_fn(env)) by {
        assert forall|i: nat, v: i64|
            #![trigger call_ensures(f, (i as usize,), v), vars(e@).contains(i)]
            vars(e@).contains(i) && call_ensures(f, (i as usize,), v) implies v == env_value(
            env,
            i,
        ) by {
            assert((i as usize) as nat == i);
        }
        lemma_answers_agree_with_env(e@, f, rho, env);
    }
}

/// Two functions that answer every variable of `e` alike, each with a
/// single answer per index, give `e` the same value: whatever answers
/// `rho_f` of `f` and `rho_g` of `g` are taken, the values agree. So
/// `e.eval_with(f)` and `e.eval_with(g)` are both admitted or both refused,
/// and equal when admitted.
pub proof fn lemma_eval_with_functions_agree<F: Fn(usize) -> i64, G: Fn(usize) -> i64>(
    e: &Expr,
    f: F,
    g: G,
    rho_f: spec_fn(nat) -> int,
    rho_g: spec_fn(nat) -> int,
)
    requires
        forall|k: usize, v: i64, w: i64|
            #![trigger call_ensures(f, (k,), v), call_ensures(g, (k,), w)]
            vars(e@).contains(k as nat) && call_ensures(f, (k,), v) && call_ensures(g, (k,), w)
                ==> v == w,
        answers_of(e@, f, rho_f),
        answers_of(e@, g, rho_g),
    ensures
        eval_term(e@, rho_f) == eval_term(e@, rho_g),
{
    lemma_var_indices_fit(e);
    assert forall|i: nat| vars(e@).contains(i) implies rho_f(i) == rho_g(i) by {
        assert((i as usize) as nat == i);
        assert(call_ensures(f, (i as usize,), rho_f(i) as i64));
        assert(call_ensures(g, (i as usize,), rho_g(i) as i64));
    }
    lemma_eval_depends_on_vars(e@, rho_f, rho_g);
}

/// Evaluating a variable with a function gives an answer of that function
/// for the variable's index: whatever answers `rho` `f` gives, the value of
/// `x{i}` is an answer of `f` at `i`.
pub proof fn lemma_eval_with_var(e: &Expr, i: u32, f: impl Fn(usize) -> i64, rho: spec_fn(nat) -> int)
    requires
        e@ == Term::Var(i as nat),
        answers_of(e@, f, rho),
    ensures
        eval_term(e@, rho) == rho(i as nat),
        call_ensures(f, (i as usize,), eval_term(e@, rho) as i64),
{
    assert(vars(e@).contains(i as nat));
}

/// Evaluating a variable with a slice gives the slice's entry at the
/// variable's index, or `0` past its end.
pub proof fn lemma_eval_var_slice(e: &Expr, i: u32, env: Seq<i64>)
    requires
        e@ == Term::Var(i as nat),
    ensures
        (i as nat) < env.len() ==> eval_term(e@, env_fn(env)) == env[i as int] as int,
        (i as nat) >= env.len() ==> eval_term(e@, env_fn(env)) == 0,
{
}

} // verus!
