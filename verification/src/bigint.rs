//! Integers of any size, with exact addition and multiplication.
use vstd::prelude::*;
use vstd::string::StringExecFns;
use crate::limbs::{
    BASE, pw, val, canonical, lemma_pw_pos, lemma_val_pos, lemma_val_skip, from_u64,
    to_u64, mag_add, mag_sub, mag_mul, copy_limbs,
};
use crate::term::{nat_text, int_text, in_i64, digit_char};
use crate::text::{push_nat, push_digit, push_padded, pow10, lemma_text_split};

verus! {

/// An integer of any size: a sign and a magnitude in base 10^9 limbs.
pub struct BigInt {
    negative: bool,
    limbs: Vec<u32>,
}

impl BigInt {
    #[verifier::type_invariant]
    spec fn well_formed(self) -> bool {
        &&& canonical(self.limbs@)
        &&& (self.negative ==> self.limbs.len() > 0)
    }
}

impl View for BigInt {
    type V = int;

    closed spec fn view(&self) -> int {
        if self.negative {
            -(val(self.limbs@) as int)
        } else {
            val(self.limbs@) as int
        }
    }
}

/// The integer with sign `negative` and magnitude `m`.
pub open spec fn signed(negative: bool, m: nat) -> int {
    if negative {
        -(m as int)
    } else {
        m as int
    }
}

fn make(negative: bool, limbs: Vec<u32>) -> (r: BigInt)
    requires
        canonical(limbs@),
    ensures
        r@ == signed(negative, val(limbs@)),
{
    let neg = negative && limbs.len() > 0;
    BigInt { negative: neg, limbs }
}

impl BigInt {
    /// The integer `n`.
    pub fn from_i64(n: i64) -> (r: BigInt)
        ensures
            r@ == n as int,
    {
        if n < 0 {
            let m: u64 = if n == i64::MIN {
                9223372036854775808u64
            } else {
                (-n) as u64
            };
            make(true, from_u64(m))
        } else {
            make(false, from_u64(n as u64))
        }
    }

    /// `self + other`, exactly.
    pub fn add(&self, other: &BigInt) -> (r: BigInt)
        ensures
            r@ == self@ + other@,
    {
        proof {
            use_type_invariant(self);
            use_type_invariant(other);
        }
        if self.negative == other.negative {
            make(self.negative, mag_add(&self.limbs, &other.limbs))
        } else {
            let (m, flipped) = mag_sub(&self.limbs, &other.limbs);
            make(self.negative != flipped, m)
        }
    }

    /// `self * other`, exactly.
    pub fn mul(&self, other: &BigInt) -> (r: BigInt)
        ensures
            r@ == self@ * other@,
    {
        proof {
            use_type_invariant(self);
            use_type_invariant(other);
        }
        let m = mag_mul(&self.limbs, &other.limbs);
        proof {
            let a = val(self.limbs@) as int;
            let b = val(other.limbs@) as int;
            assert((-a) * (-b) == a * b) by (nonlinear_arith);
            assert((-a) * b == -(a * b)) by (nonlinear_arith);
            assert(a * (-b) == -(a * b)) by (nonlinear_arith);
        }
        make(self.negative != other.negative, m)
    }

    /// Whether the integer is `0`.
    pub fn is_zero(&self) -> (r: bool)
        ensures
            r == (self@ == 0),
    {
        proof {
            use_type_invariant(self);
            if self.limbs.len() > 0 {
                lemma_val_pos(self.limbs@);
            }
        }
        self.limbs.len() == 0
    }

    /// Whether the integer is `1`.
    pub fn is_one(&self) -> (r: bool)
        ensures
            r == (self@ == 1),
    {
        proof {
            use_type_invariant(self);
            let s = self.limbs@;
            if s.len() > 0 {
                lemma_val_pos(s);
            }
            if s.len() >= 2 {
                lemma_pw_pos((s.len() - 2) as nat);
                let p = pw((s.len() - 2) as nat);
                assert(pw((s.len() - 1) as nat) == BASE as nat * p);
                assert(BASE as nat * p >= BASE) by (nonlinear_arith)
                    requires
                        p >= 1,
                ;
            }
            if s.len() == 1 {
                assert(s.drop_first() =~= Seq::<u32>::empty());
                assert(val(s) == s[0] as nat + BASE as nat * val(s.drop_first()));
            }
        }
        !self.negative && self.limbs.len() == 1 && self.limbs[0] == 1
    }

    /// The integer as an `i64`, where it fits.
    pub fn to_i64(&self) -> (r: i64)
        requires
            in_i64(self@),
        ensures
            r == self@,
    {
        proof {
            use_type_invariant(self);
        }
        let m = to_u64(&self.limbs);
        if self.negative {
            if m == 9223372036854775808u64 {
                i64::MIN
            } else {
                -(m as i64)
            }
        } else {
            m as i64
        }
    }

    /// A copy of the integer.
    pub fn duplicate(&self) -> (r: BigInt)
        ensures
            r@ == self@,
    {
        proof {
            use_type_invariant(self);
        }
        BigInt { negative: self.negative, limbs: copy_limbs(&self.limbs) }
    }
}

/// Appends the magnitude `limbs` in decimal.
fn push_magnitude(s: &mut String, limbs: &Vec<u32>)
    requires
        canonical(limbs@),
    ensures
        final(s)@ == old(s)@ + nat_text(val(limbs@)),
{
    if limbs.len() == 0 {
        push_digit(s, 0);
        assert(nat_text(0) == seq![digit_char(0)]);
    } else {
        let top = limbs.len() - 1;
        proof {
            lemma_val_skip(limbs@, top as int);
            assert(limbs@.skip(top + 1) =~= Seq::<u32>::empty());
        }
        push_nat(s, limbs[top] as u64);
        let mut k: usize = top;
        proof {
            reveal_with_fuel(pow10, 10);
        }
        while k > 0
            invariant
                k <= top,
                top == limbs.len() - 1,
                canonical(limbs@),
                pow10(9) == BASE,
                s@ == old(s)@ + nat_text(val(limbs@.skip(k as int))),
            decreases k,
        {
            let b = limbs[k - 1];
            push_padded(s, b as u64, 9);
            proof {
                let rest = limbs@.skip(k as int);
                assert(canonical(rest)) by {
                    assert(rest.last() == limbs@.last());
                }
                lemma_val_pos(rest);
                lemma_val_skip(limbs@, k - 1);
                let a = val(rest);
                assert(BASE as nat * a == a * pow10(9)) by (nonlinear_arith)
                    requires
                        pow10(9) == BASE,
                ;
                lemma_text_split(a, b as nat, 9);
            }
            k = k - 1;
        }
        assert(limbs@.skip(0) =~= limbs@);
    }
}

/// Appends `b` in decimal, with a leading `-` when it is negative.
pub fn push_bigint(s: &mut String, b: &BigInt)
    ensures
        final(s)@ == old(s)@ + int_text(b@),
{
    proof {
        use_type_invariant(b);
    }
    if b.negative {
        proof {
            reveal_strlit("-");
            lemma_val_pos(b.limbs@);
        }
        s.append("-");
        push_magnitude(s, &b.limbs);
        assert(old(s)@ + int_text(b@) =~= old(s)@ + seq!['-'] + nat_text(val(b.limbs@)));
    } else {
        push_magnitude(s, &b.limbs);
    }
}

} // verus!
