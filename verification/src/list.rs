//! Vectors.

use vstd::prelude::*;

verus! {

/// The same items, the last one first.
pub fn reversed<T>(v: Vec<T>) -> (r: Vec<T>)
    ensures
        r@ == v@.reverse(),
{
    let mut rest = v;
    let mut r: Vec<T> = Vec::new();
    while rest.len() > 0
        invariant
            rest@.len() + r@.len() == v@.len(),
            rest@ =~= v@.take(rest@.len() as int),
            r@ =~= v@.skip(rest@.len() as int).reverse(),
        decreases rest@.len(),
    {
        let ghost n = rest@.len();
        let x = rest.pop().unwrap();
        r.push(x);
        assert(x == v@[n - 1]);
        assert(v@.skip(n - 1) =~= seq![x] + v@.skip(n as int));
    }
    assert(v@.skip(0) =~= v@);
    r
}

} // verus!
