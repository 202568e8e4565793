//! Change listing and text/JSON/image diff preparation for a local Git
//! working tree, with the decisions of the viewer that shows them.
use vstd::prelude::*;

pub mod bytes;
pub mod git;
pub mod paths;
pub mod text;
pub mod json_syntax;
pub mod diff;
pub mod json_doc;
pub mod images;
pub mod session;
pub mod recent;

verus! {

/// Moves the items of `v` into a new vector in reverse order.
pub fn reversed<T>(v: Vec<T>) -> (r: Vec<T>)
    ensures
        r@ == v@.reverse(),
{
    let ghost v0 = v@;
    let mut v = v;
    let mut r: Vec<T> = Vec::new();
    while v.len() > 0
        invariant
            v@ == v0.take(v.len() as int),
            r.len() + v.len() == v0.len(),
            forall|i: int| 0 <= i < r.len() ==> #[trigger] r@[i] == v0[v0.len() - 1 - i],
        decreases v.len(),
    {
        match v.pop() {
            Some(x) => {
                r.push(x);
                assert(v@ =~= v0.take(v.len() as int));
            },
            None => {},
        }
    }
    assert(r@ =~= v0.reverse());
    r
}

} // verus!
