//! Reading an expression back from its printed form, which shows that the
//! printed form determines the expression.
use vstd::prelude::*;
use crate::term::{Term, show, nat_text, int_text, digit_char};

verus! {

pub open spec fn is_digit(c: char) -> bool {
    '0' <= c <= '9'
}

pub open spec fn digit_value(c: char) -> nat {
    (c as int - '0' as int) as nat
}

/// The length of the run of digits that `s` starts with.
pub open spec fn digit_run(s: Seq<char>) -> nat
    decreases s.len(),
{
    if s.len() > 0 && is_digit(s[0]) {
        1 + digit_run(s.drop_first())
    } else {
        0
    }
}

/// The number that the decimal digits `d` stand for.
pub open spec fn digits_value(d: Seq<char>) -> nat
    decreases d.len(),
{
    if d.len() == 0 {
        0
    } else {
        digits_value(d.drop_last()) * 10 + digit_value(d.last())
    }
}

/// Reads the number at the start of `s`, and gives what follows it.
pub open spec fn parse_nat(s: Seq<char>) -> Option<(nat, Seq<char>)> {
    let k = digit_run(s);
    if k == 0 {
        None
    } else {
        Some((digits_value(s.take(k as int)), s.skip(k as int)))
    }
}

/// `s` is empty or does not start with a digit.
pub open spec fn no_digit_first(s: Seq<char>) -> bool {
    s.len() == 0 || !is_digit(s[0])
}

/// The nesting depth of `t`.
pub open spec fn depth(t: Term) -> nat
    decreases t,
{
    match t {
        Term::Add(a, b) => 1 + if depth(*a) >= depth(*b) {
            depth(*a)
        } else {
            depth(*b)
        },
        Term::Mul(a, b) => 1 + if depth(*a) >= depth(*b) {
            depth(*a)
        } else {
            depth(*b)
        },
        _ => 0,
    }
}

/// Reads the expression printed at the start of `s`, nested at most
/// `limit` deep, and gives what follows it.
pub open spec fn parse_term(s: Seq<char>, limit: nat) -> Option<(Term, Seq<char>)>
    decreases limit,
{
    if s.len() == 0 {
        None
    } else if s[0] == 'x' {
        match parse_nat(s.drop_first()) {
            Some((i, r)) => Some((Term::Var(i), r)),
            None => None,
        }
    } else if s[0] == '-' {
        match parse_nat(s.drop_first()) {
            Some((n, r)) => Some((Term::Const(-(n as int)), r)),
            None => None,
        }
    } else if is_digit(s[0]) {
        match parse_nat(s) {
            Some((n, r)) => Some((Term::Const(n as int), r)),
            None => None,
        }
    } else if s[0] == '(' && limit > 0 {
        match parse_term(s.drop_first(), (limit - 1) as nat) {
            Some((a, r1)) => {
                if r1.len() >= 3 && r1[0] == ' ' && r1[2] == ' ' && (r1[1] == '+' || r1[1] == '*') {
                    match parse_term(r1.skip(3), (limit - 1) as nat) {
                        Some((b, r2)) => {
                            if r2.len() >= 1 && r2[0] == ')' {
                                if r1[1] == '+' {
                                    Some((Term::Add(Box::new(a), Box::new(b)), r2.drop_first()))
                                } else {
                                    Some((Term::Mul(Box::new(a), Box::new(b)), r2.drop_first()))
                                }
                            } else {
                                None
                            }
                        },
                        None => None,
                    }
                } else {
                    None
                }
            },
            None => None,
        }
    } else {
        None
    }
}

proof fn lemma_digit_char(n: nat)
    requires
        n < 10,
    ensures
        is_digit(digit_char(n)),
        digit_value(digit_char(n)) == n,
{
}

proof fn lemma_nat_text_digits(n: nat)
    ensures
        nat_text(n).len() >= 1,
        forall|j: int| 0 <= j < nat_text(n).len() ==> is_digit(#[trigger] nat_text(n)[j]),
        digits_value(nat_text(n)) == n,
    decreases n,
{
    if n < 10 {
        lemma_digit_char(n);
        assert(nat_text(n).drop_last() =~= Seq::<char>::empty());
        assert(digits_value(nat_text(n)) == digits_value(Seq::<char>::empty()) * 10 + digit_value(
            digit_char(n),
        ));
    } else {
        lemma_nat_text_digits(n / 10);
        lemma_digit_char(n % 10);
        let t = nat_text(n);
        assert(t == nat_text(n / 10).push(digit_char(n % 10)));
        assert(t.drop_last() =~= nat_text(n / 10));
        assert(t.last() == digit_char(n % 10));
        assert(digits_value(t) == (n / 10) * 10 + n % 10);
        assert forall|j: int| 0 <= j < t.len() implies is_digit(#[trigger] t[j]) by {
            if j < t.len() - 1 {
                assert(t[j] == nat_text(n / 10)[j]);
            }
        }
    }
}

proof fn lemma_digit_run(d: Seq<char>, rest: Seq<char>)
    requires
        forall|j: int| 0 <= j < d.len() ==> is_digit(#[trigger] d[j]),
        no_digit_first(rest),
    ensures
        digit_run(d + rest) == d.len(),
    decreases d.len(),
{
    if d.len() == 0 {
        assert(d + rest =~= rest);
    } else {
        assert((d + rest).drop_first() =~= d.drop_first() + rest);
        assert(is_digit(d[0]));
        assert forall|j: int| 0 <= j < d.drop_first().len() implies is_digit(
            #[trigger] d.drop_first()[j],
        ) by {
            assert(d.drop_first()[j] == d[j + 1]);
        }
        lemma_digit_run(d.drop_first(), rest);
    }
}

proof fn lemma_parse_nat(n: nat, rest: Seq<char>)
    requires
        no_digit_first(rest),
    ensures
        parse_nat(nat_text(n) + rest) == Some((n, rest)),
{
    lemma_nat_text_digits(n);
    lemma_digit_run(nat_text(n), rest);
    let s = nat_text(n) + rest;
    let k = nat_text(n).len();
    assert(s.take(k as int) =~= nat_text(n));
    assert(s.skip(k as int) =~= rest);
}

/// The decimal text of `n` is its shortest decimal form: a non-empty run
/// of digits that stands for `n`, with no leading zero unless `n` is `0`,
/// which is written `0`.
pub proof fn lemma_nat_text_is_decimal(n: nat)
    ensures
        nat_text(n).len() >= 1,
        forall|j: int| 0 <= j < nat_text(n).len() ==> is_digit(#[trigger] nat_text(n)[j]),
        digits_value(nat_text(n)) == n,
        n > 0 ==> nat_text(n)[0] != '0',
        n == 0 ==> nat_text(n) == seq!['0'],
    decreases n,
{
    lemma_nat_text_digits(n);
    if n >= 10 {
        lemma_nat_text_is_decimal(n / 10);
        assert(nat_text(n) == nat_text(n / 10).push(digit_char(n % 10)));
        assert(nat_text(n)[0] == nat_text(n / 10)[0]);
    }
}

/// The text of an integer is the decimal text of its magnitude, preceded
/// by `-` exactly when it is negative.
pub proof fn lemma_int_text_sign(c: int)
    ensures
        c < 0 ==> int_text(c) == seq!['-'] + nat_text((-c) as nat),
        c >= 0 ==> int_text(c) == nat_text(c as nat),
        (int_text(c)[0] == '-') <==> c < 0,
{
    lemma_nat_text_digits(if c < 0 { (-c) as nat } else { c as nat });
    if c >= 0 {
        assert(is_digit(nat_text(c as nat)[0]));
    }
}

/// Parsing the printed form of `t`, followed by anything that does not
/// start with a digit, gives back `t` and what followed.
pub proof fn lemma_parse_show(t: Term, rest: Seq<char>, limit: nat)
    requires
        no_digit_first(rest),
        limit >= depth(t),
    ensures
        parse_term(show(t) + rest, limit) == Some((t, rest)),
    decreases t,
{
    let s = show(t) + rest;
    match t {
        Term::Const(c) => {
            if c < 0 {
                assert(s.drop_first() =~= nat_text((-c) as nat) + rest);
                lemma_parse_nat((-c) as nat, rest);
            } else {
                lemma_parse_nat(c as nat, rest);
                lemma_nat_text_digits(c as nat);
                assert(s[0] == nat_text(c as nat)[0]);
                assert(is_digit(s[0]));
            }
        },
        Term::Var(i) => {
            assert(s.drop_first() =~= nat_text(i) + rest);
            lemma_parse_nat(i, rest);
        },
        Term::Add(a, b) => {
            let r1 = seq![' ', '+', ' '] + show(*b) + seq![')'] + rest;
            assert(s.drop_first() =~= show(*a) + r1);
            lemma_parse_show(*a, r1, (limit - 1) as nat);
            let r2 = seq![')'] + rest;
            assert(r1.skip(3) =~= show(*b) + r2);
            lemma_parse_show(*b, r2, (limit - 1) as nat);
            assert(r2.drop_first() =~= rest);
        },
        Term::Mul(a, b) => {
            let r1 = seq![' ', '*', ' '] + show(*b) + seq![')'] + rest;
            assert(s.drop_first() =~= show(*a) + r1);
            lemma_parse_show(*a, r1, (limit - 1) as nat);
            let r2 = seq![')'] + rest;
            assert(r1.skip(3) =~= show(*b) + r2);
            lemma_parse_show(*b, r2, (limit - 1) as nat);
            assert(r2.drop_first() =~= rest);
        },
    }
}

/// The printed form determines the expression: two expressions that print
/// the same are the same.
pub proof fn lemma_show_injective(t1: Term, t2: Term)
    requires
        show(t1) == show(t2),
    ensures
        t1 == t2,
{
    let limit = depth(t1) + depth(t2);
    let e = Seq::<char>::empty();
    lemma_parse_show(t1, e, limit);
    lemma_parse_show(t2, e, limit);
    assert(show(t1) + e =~= show(t1));
    assert(show(t2) + e =~= show(t2));
}

} // verus!
