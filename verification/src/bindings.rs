//! Lists of variable bindings `(index, value)`, as gathered from a
//! caller's function of the variable index.
use vstd::prelude::*;

verus! {

/// `i` is bound in `b`.
pub open spec fn bound(b: Seq<(u32, i64)>, i: nat) -> bool {
    exists|j: int| 0 <= j < b.len() && b[j].0 as nat == i
}

/// The value that `b` gives to `i`: its last binding, `0` if it has none.
pub open spec fn binding_value(b: Seq<(u32, i64)>, i: nat) -> int
    decreases b.len(),
{
    if b.len() == 0 {
        0
    } else if b.last().0 as nat == i {
        b.last().1 as int
    } else {
        binding_value(b.drop_last(), i)
    }
}

/// The assignment of values to variables that `b` gives.
pub open spec fn binding_fn(b: Seq<(u32, i64)>) -> spec_fn(nat) -> int {
    |i: nat| binding_value(b, i)
}

/// Every binding in `b` is an answer that `f` may give for its index.
pub open spec fn answered_by<F: Fn(usize) -> i64>(b: Seq<(u32, i64)>, f: F) -> bool {
    forall|j: int| 0 <= j < b.len() ==> call_ensures(f, (b[j].0 as usize,), #[trigger] b[j].1)
}

/// The value of a bound index is the value of one of its bindings.
pub proof fn lemma_binding_value_is_a_binding(b: Seq<(u32, i64)>, i: nat)
    requires
        bound(b, i),
    ensures
        exists|j: int| 0 <= j < b.len() && b[j].0 as nat == i && b[j].1 as int == binding_value(b, i),
    decreases b.len(),
{
    if b.last().0 as nat == i {
        assert(b[b.len() - 1].0 as nat == i);
    } else {
        let j0 = choose|j: int| 0 <= j < b.len() && b[j].0 as nat == i;
        assert(j0 != b.len() - 1);
        let c = b.drop_last();
        assert(c[j0].0 as nat == i);
        lemma_binding_value_is_a_binding(c, i);
        let j = choose|j: int| 0 <= j < c.len() && c[j].0 as nat == i && c[j].1 as int == binding_value(c, i);
        assert(b[j] == c[j]);
    }
}

/// Looks up the value bound to `i`, if any.
pub fn find_binding(b: &Vec<(u32, i64)>, i: u32) -> (r: Option<i64>)
    ensures
        r is Some <==> bound(b@, i as nat),
        r matches Some(v) ==> v as int == binding_value(b@, i as nat),
        r is None ==> binding_value(b@, i as nat) == 0,
{
    let mut k: usize = b.len();
    assert(b@.take(k as int) =~= b@);
    while k > 0
        invariant
            k <= b.len(),
            forall|j: int| k <= j < b.len() ==> b@[j].0 != i,
            binding_value(b@, i as nat) == binding_value(b@.take(k as int), i as nat),
        decreases k,
    {
        let entry = b[k - 1];
        if entry.0 == i {
            proof {
                let t = b@.take(k as int);
                assert(t.last() == entry);
                assert(bound(b@, i as nat)) by {
                    assert(b@[k - 1].0 as nat == i as nat);
                }
            }
            return Some(entry.1);
        }
        proof {
            let t = b@.take(k as int);
            assert(t.drop_last() =~= b@.take(k - 1));
        }
        k = k - 1;
    }
    proof {
        assert(b@.take(0) =~= Seq::<(u32, i64)>::empty());
        assert(!bound(b@, i as nat));
    }
    None
}

} // verus!
