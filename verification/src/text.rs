//! Writing integers in decimal.
use vstd::prelude::*;
use vstd::string::StringExecFns;
use crate::term::{digit_char, nat_text};

verus! {

/// Appends the decimal digit `d`.
pub fn push_digit(s: &mut String, d: u64)
    requires
        d < 10,
    ensures
        final(s)@ == old(s)@.push(digit_char(d as nat)),
{
    proof {
        reveal_strlit("0");
        reveal_strlit("1");
        reveal_strlit("2");
        reveal_strlit("3");
        reveal_strlit("4");
        reveal_strlit("5");
        reveal_strlit("6");
        reveal_strlit("7");
        reveal_strlit("8");
        reveal_strlit("9");
    }
    if d == 0 {
        s.append("0");
    } else if d == 1 {
        s.append("1");
    } else if d == 2 {
        s.append("2");
    } else if d == 3 {
        s.append("3");
    } else if d == 4 {
        s.append("4");
    } else if d == 5 {
        s.append("5");
    } else if d == 6 {
        s.append("6");
    } else if d == 7 {
        s.append("7");
    } else if d == 8 {
        s.append("8");
    } else {
        s.append("9");
    }
}

/// Appends `n` in decimal.
pub fn push_nat(s: &mut String, n: u64)
    ensures
        final(s)@ == old(s)@ + nat_text(n as nat),
    decreases n,
{
    if n >= 10 {
        push_nat(s, n / 10);
    }
    push_digit(s, n % 10);
    proof {
        if n >= 10 {
            assert(old(s)@ + nat_text(n as nat) =~= old(s)@ + nat_text((n / 10) as nat) + seq![
                digit_char((n % 10) as nat),
            ]);
        } else {
            assert(nat_text(n as nat) =~= seq![digit_char((n % 10) as nat)]);
        }
    }
}

/// Ten to the power `k`.
pub open spec fn pow10(k: nat) -> nat
    decreases k,
{
    if k == 0 {
        1
    } else {
        10 * pow10((k - 1) as nat)
    }
}

/// The last `k` decimal digits of `b`, with leading zeros.
pub open spec fn padded_text(b: nat, k: nat) -> Seq<char>
    decreases k,
{
    if k == 0 {
        Seq::empty()
    } else {
        padded_text(b / 10, (k - 1) as nat).push(digit_char(b % 10))
    }
}

proof fn lemma_pow10_pos(k: nat)
    ensures
        pow10(k) >= 1,
    decreases k,
{
    if k > 0 {
        lemma_pow10_pos((k - 1) as nat);
    }
}

proof fn lemma_div10(x: int, b: int)
    requires
        x >= 0,
        b >= 0,
    ensures
        (x * 10 + b) / 10 == x + b / 10,
        (x * 10 + b) % 10 == b % 10,
{
    vstd::arithmetic::div_mod::lemma_fundamental_div_mod(b, 10);
    vstd::arithmetic::div_mod::lemma_mod_pos_bound(b, 10);
    let n = x * 10 + b;
    let q = x + b / 10;
    let r = b % 10;
    assert(n == q * 10 + r);
    vstd::arithmetic::div_mod::lemma_fundamental_div_mod_converse(n, 10, q, r);
}

/// Writing `a` and then the last `k` digits of `b` with leading zeros
/// writes `a * 10^k + b`, where `a` is positive and `b < 10^k`.
pub proof fn lemma_text_split(a: nat, b: nat, k: nat)
    requires
        a > 0,
        b < pow10(k),
    ensures
        nat_text(a * pow10(k) + b) == nat_text(a) + padded_text(b, k),
    decreases k,
{
    if k == 0 {
        assert(a * 1 + b == a);
        assert(nat_text(a) + Seq::<char>::empty() =~= nat_text(a));
    } else {
        let k1 = (k - 1) as nat;
        let p = pow10(k1);
        lemma_pow10_pos(k1);
        let n = a * pow10(k) + b;
        assert(a * pow10(k) == (a * p) * 10) by (nonlinear_arith)
            requires
                pow10(k) == 10 * p,
        ;
        assert(a * p >= 1) by (nonlinear_arith)
            requires
                a >= 1,
                p >= 1,
        ;
        lemma_div10((a * p) as int, b as int);
        assert(b / 10 < p) by (nonlinear_arith)
            requires
                b < 10 * p,
        ;
        lemma_text_split(a, b / 10, k1);
        assert(n >= 10);
        assert(nat_text(n) == nat_text(n / 10).push(digit_char(n % 10)));
        assert(n / 10 == a * p + b / 10);
        assert(nat_text(a) + padded_text(b, k) =~= (nat_text(a) + padded_text(b / 10, k1)).push(
            digit_char(b % 10),
        ));
    }
}

/// Appends the last `k` decimal digits of `b`, with leading zeros.
pub fn push_padded(s: &mut String, b: u64, k: u64)
    ensures
        final(s)@ == old(s)@ + padded_text(b as nat, k as nat),
    decreases k,
{
    if k > 0 {
        push_padded(s, b / 10, k - 1);
        push_digit(s, b % 10);
        assert(old(s)@ + padded_text(b as nat, k as nat) =~= (old(s)@ + padded_text(
            (b / 10) as nat,
            (k - 1) as nat,
        )).push(digit_char((b % 10) as nat)));
    } else {
        assert(old(s)@ + padded_text(b as nat, 0) =~= old(s)@);
    }
}

} // verus!
