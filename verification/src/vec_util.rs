//! Small helpers on vectors.

use vstd::prelude::*;

verus! {

/// The elements of `v`, in reverse order.
pub fn reversed<T>(v: Vec<T>) -> (r: Vec<T>)
    ensures
        r@ == v@.reverse(),
{
    let ghost v0 = v@;
    let mut v = v;
    let mut r: Vec<T> = Vec::new();
    while v.len() > 0
        invariant
            v@ == v0.take(v@.len() as int),
            v@.len() <= v0.len(),
            r@ == v0.skip(v@.len() as int).reverse(),
        decreases v.len(),
    {
        let ghost n = v@.len();
        let c = v.pop().unwrap();
        r.push(c);
        assert(r@ =~= v0.skip(n - 1).reverse());
    }
    assert(v0.skip(0) == v0);
    r
}

/// A copy of each string, in order.
pub fn clone_strings(v: &Vec<String>) -> (r: Vec<String>)
    ensures
        r@ == v@,
{
    let mut r: Vec<String> = Vec::new();
    let mut i: usize = 0;
    while i < v.len()
        invariant
            0 <= i <= v.len(),
            r@ == v@.take(i as int),
        decreases v.len() - i,
    {
        r.push(v[i].clone());
        assert(r@ =~= v@.take(i + 1));
        i = i + 1;
    }
    assert(v@.take(v.len() as int) == v@);
    r
}

} // verus!
