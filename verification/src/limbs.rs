//! Natural numbers of any size as little-endian sequences of base 10^9
//! limbs, and the arithmetic on them.
use vstd::prelude::*;

verus! {

/// The base of a limb.
pub const BASE: u32 = 1_000_000_000;

/// `BASE` to the power `k`.
pub open spec fn pw(k: nat) -> nat
    decreases k,
{
    if k == 0 {
        1
    } else {
        BASE as nat * pw((k - 1) as nat)
    }
}

/// The number that the limbs `s` stand for, least significant limb first.
pub open spec fn val(s: Seq<u32>) -> nat
    decreases s.len(),
{
    if s.len() == 0 {
        0
    } else {
        s[0] as nat + BASE as nat * val(s.drop_first())
    }
}

/// Every limb is below the base.
pub open spec fn limbs_ok(s: Seq<u32>) -> bool {
    forall|i: int| 0 <= i < s.len() ==> s[i] < BASE
}

/// The limbs are valid and have no most significant zero limb, so that
/// each number has exactly one form; zero is the empty sequence.
pub open spec fn canonical(s: Seq<u32>) -> bool {
    &&& limbs_ok(s)
    &&& (s.len() == 0 || s.last() != 0)
}

pub proof fn lemma_pw_pos(k: nat)
    ensures
        pw(k) >= 1,
    decreases k,
{
    if k > 0 {
        lemma_pw_pos((k - 1) as nat);
        let p = pw((k - 1) as nat);
        assert(BASE as nat * p >= p) by (nonlinear_arith)
            requires
                p >= 1,
        ;
    }
}

pub proof fn lemma_pw_add(a: nat, b: nat)
    ensures
        pw(a + b) == pw(a) * pw(b),
    decreases a,
{
    if a > 0 {
        let a1 = (a - 1) as nat;
        lemma_pw_add(a1, b);
        let x = pw(a1);
        let y = pw(b);
        assert(pw(a) == BASE as nat * x);
        assert(pw(a1 + b + 1) == BASE as nat * pw(a1 + b));
        assert(a + b == a1 + b + 1);
        assert(BASE as nat * (x * y) == (BASE as nat * x) * y) by (nonlinear_arith);
    } else {
        assert(pw(0) == 1);
        assert(a + b == b);
    }
}

/// Division of a number by the base.
pub proof fn lemma_div_mod_base(t: int)
    requires
        t >= 0,
    ensures
        t == (t / (BASE as int)) * (BASE as int) + t % (BASE as int),
        0 <= t % (BASE as int) < BASE,
        t / (BASE as int) >= 0,
{
    vstd::arithmetic::div_mod::lemma_fundamental_div_mod(t, BASE as int);
    vstd::arithmetic::div_mod::lemma_mod_pos_bound(t, BASE as int);
    vstd::arithmetic::div_mod::lemma_div_pos_is_pos(t, BASE as int);
}

/// Appending a limb adds it at the weight of its position.
pub proof fn lemma_val_push(s: Seq<u32>, x: u32)
    ensures
        val(s.push(x)) == val(s) + x * pw(s.len()),
    decreases s.len(),
{
    let t = s.push(x);
    if s.len() == 0 {
        assert(t.drop_first() =~= Seq::<u32>::empty());
        assert(val(t.drop_first()) == 0);
        assert(val(t) == x as nat + BASE as nat * val(t.drop_first()));
        assert(pw(0) == 1);
    } else {
        assert(t.drop_first() =~= s.drop_first().push(x));
        lemma_val_push(s.drop_first(), x);
        let v = val(s.drop_first());
        let p = pw((s.len() - 1) as nat);
        assert(val(t) == t[0] as nat + BASE as nat * val(t.drop_first()));
        assert(val(s) == s[0] as nat + BASE as nat * v);
        assert(pw(s.len()) == BASE as nat * p);
        assert(BASE as nat * (v + x * p) == BASE as nat * v + x * (BASE as nat * p))
            by (nonlinear_arith);
    }
}

/// The first `i + 1` limbs are worth the first `i` plus limb `i` at its weight.
pub proof fn lemma_val_prefix(s: Seq<u32>, i: int)
    requires
        0 <= i < s.len(),
    ensures
        val(s.take(i + 1)) == val(s.take(i)) + s[i] * pw(i as nat),
{
    assert(s.take(i + 1) =~= s.take(i).push(s[i]));
    lemma_val_push(s.take(i), s[i]);
}

/// Valid limbs stand for less than the next power of the base.
pub proof fn lemma_val_bound(s: Seq<u32>)
    requires
        limbs_ok(s),
    ensures
        val(s) < pw(s.len()),
    decreases s.len(),
{
    if s.len() > 0 {
        let r = s.drop_first();
        assert(limbs_ok(r));
        lemma_val_bound(r);
        let v = val(r);
        let p = pw(r.len());
        let d = s[0] as nat;
        assert(d + BASE as nat * v < BASE as nat * p) by (nonlinear_arith)
            requires
                v < p,
                d < BASE,
        ;
    }
}

/// A canonical non-empty sequence stands for at least the weight of its
/// last limb, and so for a positive number.
pub proof fn lemma_val_pos(s: Seq<u32>)
    requires
        canonical(s),
        s.len() > 0,
    ensures
        val(s) >= pw((s.len() - 1) as nat),
        val(s) > 0,
{
    assert(s =~= s.drop_last().push(s.last()));
    lemma_val_push(s.drop_last(), s.last());
    lemma_pw_pos((s.len() - 1) as nat);
    let p = pw((s.len() - 1) as nat);
    let l = s.last() as nat;
    assert(l * p >= p) by (nonlinear_arith)
        requires
            l >= 1,
    ;
}

/// The limbs from position `k` on: limb `k` plus the base times the rest.
pub proof fn lemma_val_skip(s: Seq<u32>, k: int)
    requires
        0 <= k < s.len(),
    ensures
        val(s.skip(k)) == s[k] + BASE as nat * val(s.skip(k + 1)),
{
    assert(s.skip(k).drop_first() =~= s.skip(k + 1));
}

/// The limbs from position `k` on are worth no more than all of them.
pub proof fn lemma_val_skip_le(s: Seq<u32>, k: int)
    requires
        0 <= k <= s.len(),
    ensures
        val(s.skip(k)) <= val(s),
    decreases k,
{
    if k == 0 {
        assert(s.skip(0) =~= s);
    } else {
        lemma_val_skip_le(s, k - 1);
        lemma_val_skip(s, k - 1);
        let v = val(s.skip(k));
        assert(BASE as nat * v >= v) by (nonlinear_arith);
    }
}

/// Copies `s` and appends zero limbs up to length `n`.
fn padded(s: &Vec<u32>, n: usize) -> (r: Vec<u32>)
    requires
        s.len() <= n,
        limbs_ok(s@),
    ensures
        r.len() == n,
        limbs_ok(r@),
        val(r@) == val(s@),
{
    let mut r: Vec<u32> = Vec::new();
    let mut i: usize = 0;
    while i < s.len()
        invariant
            i <= s.len(),
            r@ == s@.take(i as int),
            limbs_ok(s@),
        decreases s.len() - i,
    {
        r.push(s[i]);
        i = i + 1;
        assert(r@ =~= s@.take(i as int));
    }
    assert(r@ =~= s@);
    while r.len() < n
        invariant
            r.len() <= n,
            limbs_ok(r@),
            val(r@) == val(s@),
        decreases n - r.len(),
    {
        proof {
            lemma_val_push(r@, 0);
        }
        r.push(0);
    }
    r
}

/// A copy of the limbs.
pub fn copy_limbs(s: &Vec<u32>) -> (r: Vec<u32>)
    ensures
        r@ == s@,
{
    let mut r: Vec<u32> = Vec::new();
    let mut i: usize = 0;
    while i < s.len()
        invariant
            i <= s.len(),
            r@ == s@.take(i as int),
        decreases s.len() - i,
    {
        r.push(s[i]);
        i = i + 1;
        assert(r@ =~= s@.take(i as int));
    }
    assert(r@ =~= s@);
    r
}

/// Drops most significant zero limbs.
fn trim(v: &mut Vec<u32>)
    requires
        limbs_ok(old(v)@),
    ensures
        canonical(final(v)@),
        val(final(v)@) == val(old(v)@),
{
    while v.len() > 0 && v[v.len() - 1] == 0
        invariant
            limbs_ok(v@),
            val(v@) == val(old(v)@),
        decreases v.len(),
    {
        let ghost before = v@;
        v.pop();
        proof {
            assert(before =~= v@.push(0));
            lemma_val_push(v@, 0);
        }
    }
}

/// The limbs of `m`.
pub fn from_u64(m: u64) -> (r: Vec<u32>)
    ensures
        canonical(r@),
        val(r@) == m,
{
    let mut r: Vec<u32> = Vec::new();
    let mut rest: u64 = m;
    assert(val(r@) == 0 && pw(0) == 1);
    assert(pw(0) * m == m) by (nonlinear_arith)
        requires
            pw(0) == 1,
    ;
    while rest > 0
        invariant
            limbs_ok(r@),
            val(r@) + pw(r.len() as nat) * rest == m,
            rest == 0 ==> canonical(r@),
        decreases rest,
    {
        let d = (rest % (BASE as u64)) as u32;
        let q = rest / (BASE as u64);
        proof {
            lemma_div_mod_base(rest as int);
            lemma_val_push(r@, d);
            assert(pw((r.len() + 1) as nat) == BASE as nat * pw(r.len() as nat));
            if q == 0 {
                assert(d == rest);
                assert(r@.push(d).last() == d);
            }
            let p = pw(r.len() as nat);
            assert(p * rest == d * p + p * BASE as nat * q) by (nonlinear_arith)
                requires
                    rest == d + BASE as nat * q,
            ;
        }
        r.push(d);
        rest = q;
    }
    r
}

/// The number that `s` stands for, where it fits in a `u64`.
pub fn to_u64(s: &Vec<u32>) -> (r: u64)
    requires
        limbs_ok(s@),
        val(s@) <= u64::MAX,
    ensures
        r == val(s@),
{
    let mut acc: u64 = 0;
    let mut k: usize = s.len();
    assert(s@.skip(k as int) =~= Seq::<u32>::empty());
    while k > 0
        invariant
            k <= s.len(),
            acc == val(s@.skip(k as int)),
            limbs_ok(s@),
            val(s@) <= u64::MAX,
        decreases k,
    {
        proof {
            lemma_val_skip(s@, k - 1);
            lemma_val_skip_le(s@, k - 1);
        }
        acc = (BASE as u64) * acc + s[k - 1] as u64;
        k = k - 1;
    }
    assert(s@.skip(0) =~= s@);
    acc
}

/// The sum of two numbers.
pub fn mag_add(a: &Vec<u32>, b: &Vec<u32>) -> (r: Vec<u32>)
    requires
        limbs_ok(a@),
        limbs_ok(b@),
    ensures
        canonical(r@),
        val(r@) == val(a@) + val(b@),
{
    let n: usize = if a.len() >= b.len() {
        a.len()
    } else {
        b.len()
    };
    let pa = padded(a, n);
    let pb = padded(b, n);
    let mut r: Vec<u32> = Vec::new();
    let mut carry: u32 = 0;
    let mut i: usize = 0;
    assert(pa@.take(0) =~= Seq::<u32>::empty());
    assert(pb@.take(0) =~= Seq::<u32>::empty());
    while i < n
        invariant
            pa.len() == n,
            pb.len() == n,
            limbs_ok(pa@),
            limbs_ok(pb@),
            i <= n,
            r.len() == i,
            limbs_ok(r@),
            carry <= 1,
            val(r@) + carry * pw(i as nat) == val(pa@.take(i as int)) + val(pb@.take(i as int)),
        decreases n - i,
    {
        let x = pa[i];
        let y = pb[i];
        let t: u32 = x + y + carry;
        let d: u32 = t % BASE;
        let c: u32 = t / BASE;
        proof {
            lemma_div_mod_base(t as int);
            assert(pw((i + 1) as nat) == BASE as nat * pw(i as nat));
            lemma_val_push(r@, d);
            lemma_val_prefix(pa@, i as int);
            lemma_val_prefix(pb@, i as int);
            let p = pw(i as nat);
            assert(d * p + c * (BASE as nat * p) == x * p + y * p + carry * p) by (nonlinear_arith)
                requires
                    d + c * BASE as nat == x + y + carry,
            ;
        }
        r.push(d);
        carry = c;
        i = i + 1;
    }
    assert(pa@.take(n as int) =~= pa@);
    assert(pb@.take(n as int) =~= pb@);
    if carry > 0 {
        proof {
            lemma_val_push(r@, carry);
        }
        r.push(carry);
    } else {
        assert(carry * pw(n as nat) == 0) by (nonlinear_arith)
            requires
                carry == 0,
        ;
    }
    trim(&mut r);
    r
}

/// `a - b` of two numbers of equal length, with the borrow out of the top.
fn sub_borrow(a: &Vec<u32>, b: &Vec<u32>) -> (res: (Vec<u32>, bool))
    requires
        a.len() == b.len(),
        limbs_ok(a@),
        limbs_ok(b@),
    ensures
        res.0.len() == a.len(),
        limbs_ok(res.0@),
        val(res.0@) - (if res.1 {
            pw(a.len() as nat)
        } else {
            0
        }) == val(a@) - val(b@),
{
    let n = a.len();
    let mut r: Vec<u32> = Vec::new();
    let mut borrow: u32 = 0;
    let mut i: usize = 0;
    assert(a@.take(0) =~= Seq::<u32>::empty());
    assert(b@.take(0) =~= Seq::<u32>::empty());
    while i < n
        invariant
            a.len() == n,
            b.len() == n,
            limbs_ok(a@),
            limbs_ok(b@),
            i <= n,
            r.len() == i,
            limbs_ok(r@),
            borrow <= 1,
            val(r@) - borrow * pw(i as nat) == val(a@.take(i as int)) - val(b@.take(i as int)),
        decreases n - i,
    {
        let x = a[i];
        let y = b[i];
        let t: i64 = x as i64 - y as i64 - borrow as i64;
        let d: u32;
        let nb: u32;
        if t < 0 {
            d = (t + BASE as i64) as u32;
            nb = 1;
        } else {
            d = t as u32;
            nb = 0;
        }
        proof {
            assert(pw((i + 1) as nat) == BASE as nat * pw(i as nat));
            lemma_val_push(r@, d);
            lemma_val_prefix(a@, i as int);
            lemma_val_prefix(b@, i as int);
            let p = pw(i as nat);
            assert(d * p - nb * (BASE as nat * p) == x * p - y * p - borrow * p) by (nonlinear_arith)
                requires
                    d - nb * BASE as nat == x - y - borrow,
            ;
        }
        r.push(d);
        borrow = nb;
        i = i + 1;
    }
    assert(a@.take(n as int) =~= a@);
    assert(b@.take(n as int) =~= b@);
    (r, borrow == 1)
}

/// The distance between two numbers, and whether `b` is the larger.
pub fn mag_sub(a: &Vec<u32>, b: &Vec<u32>) -> (res: (Vec<u32>, bool))
    requires
        limbs_ok(a@),
        limbs_ok(b@),
    ensures
        canonical(res.0@),
        res.1 ==> val(b@) > val(a@) && val(res.0@) == val(b@) - val(a@),
        !res.1 ==> val(a@) >= val(b@) && val(res.0@) == val(a@) - val(b@),
{
    let n: usize = if a.len() >= b.len() {
        a.len()
    } else {
        b.len()
    };
    let pa = padded(a, n);
    let pb = padded(b, n);
    let (mut r, borrowed) = sub_borrow(&pa, &pb);
    proof {
        lemma_val_bound(r@);
    }
    if borrowed {
        let (r2, borrowed2) = sub_borrow(&pb, &pa);
        proof {
            lemma_val_bound(r2@);
        }
        r = r2;
        trim(&mut r);
        (r, true)
    } else {
        trim(&mut r);
        (r, false)
    }
}

/// `b * d * BASE^k` for a single limb `d`.
fn mul_limb(b: &Vec<u32>, d: u32, k: usize) -> (r: Vec<u32>)
    requires
        d < BASE,
        limbs_ok(b@),
    ensures
        limbs_ok(r@),
        val(r@) == val(b@) * d * pw(k as nat),
{
    let mut r: Vec<u32> = Vec::new();
    let mut j: usize = 0;
    while j < k
        invariant
            j <= k,
            r.len() == j,
            limbs_ok(r@),
            val(r@) == 0,
        decreases k - j,
    {
        proof {
            lemma_val_push(r@, 0);
        }
        r.push(0);
        j = j + 1;
    }
    let mut carry: u64 = 0;
    let mut i: usize = 0;
    assert(b@.take(0) =~= Seq::<u32>::empty());
    while i < b.len()
        invariant
            d < BASE,
            limbs_ok(b@),
            i <= b.len(),
            r.len() == k + i,
            limbs_ok(r@),
            carry < BASE,
            val(r@) + carry * pw((k + i) as nat) == d * val(b@.take(i as int)) * pw(k as nat),
        decreases b.len() - i,
    {
        let x = b[i];
        assert(x as u64 * d as u64 <= (BASE as u64 - 1) * (BASE as u64 - 1)) by (nonlinear_arith)
            requires
                x < BASE,
                d < BASE,
        ;
        let t: u64 = x as u64 * d as u64 + carry;
        let dd: u32 = (t % (BASE as u64)) as u32;
        let c: u64 = t / (BASE as u64);
        proof {
            lemma_val_push(r@, dd);
            lemma_val_prefix(b@, i as int);
            lemma_pw_add(k as nat, i as nat);
            let v = val(b@.take(i as int));
            let q = pw(i as nat);
            let rk = pw(k as nat);
            let p = pw((k + i) as nat);
            assert(pw((k + i + 1) as nat) == BASE as nat * p);
            lemma_div_mod_base(t as int);
            assert((dd + c * BASE as nat) * p == dd * p + c * (BASE as nat * p)) by (nonlinear_arith);
            assert((x * d) * p == d * (x * q) * rk) by (nonlinear_arith)
                requires
                    p == rk * q,
            ;
            assert(d * (v + x * q) * rk == d * v * rk + d * (x * q) * rk) by (nonlinear_arith);
            assert((x * d + carry) * p == (x * d) * p + carry * p) by (nonlinear_arith);
        }
        r.push(dd);
        carry = c;
        i = i + 1;
    }
    assert(b@.take(b.len() as int) =~= b@);
    if carry > 0 {
        proof {
            lemma_val_push(r@, carry as u32);
        }
        r.push(carry as u32);
    }
    proof {
        let v = val(b@);
        let rk = pw(k as nat);
        assert(d * v * rk == v * d * rk) by (nonlinear_arith);
    }
    r
}

/// The product of two numbers.
pub fn mag_mul(a: &Vec<u32>, b: &Vec<u32>) -> (r: Vec<u32>)
    requires
        limbs_ok(a@),
        limbs_ok(b@),
    ensures
        canonical(r@),
        val(r@) == val(a@) * val(b@),
{
    let mut acc: Vec<u32> = Vec::new();
    let mut i: usize = 0;
    assert(a@.take(0) =~= Seq::<u32>::empty());
    assert(val(acc@) == 0 && val(a@.take(0)) == 0);
    assert(val(b@) * 0 == 0);
    while i < a.len()
        invariant
            limbs_ok(a@),
            limbs_ok(b@),
            i <= a.len(),
            canonical(acc@),
            val(acc@) == val(b@) * val(a@.take(i as int)),
        decreases a.len() - i,
    {
        let part = mul_limb(b, a[i], i);
        proof {
            lemma_val_prefix(a@, i as int);
            let vb = val(b@);
            let x = val(a@.take(i as int));
            let ai = a@[i as int] as nat;
            let p = pw(i as nat);
            assert(vb * x + vb * ai * p == vb * (x + ai * p)) by (nonlinear_arith);
        }
        acc = mag_add(&acc, &part);
        i = i + 1;
    }
    assert(a@.take(a.len() as int) =~= a@);
    proof {
        let vb = val(b@);
        let va = val(a@);
        assert(vb * va == va * vb) by (nonlinear_arith);
    }
    acc
}

} // verus!
