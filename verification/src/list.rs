//! Vectors turned round.
use vstd::prelude::*;

verus! {

/// The items in the opposite order, to take them off the end one by one.
pub fn reversed<T>(items: Vec<T>) -> (turned: Vec<T>)
    ensures
        turned@ == items@.reverse(),
{
    let mut rest = items;
    let mut turned: Vec<T> = Vec::new();
    while rest.len() > 0
        invariant
            rest@ == items@.take(rest@.len() as int),
            rest@.len() <= items@.len(),
            turned@.len() + rest@.len() == items@.len(),
            forall|i: int|
                0 <= i < turned@.len() ==> #[trigger] turned@[i] == items@[items@.len() - 1 - i],
        decreases rest@.len(),
    {
        match rest.pop() {
            Some(item) => {
                turned.push(item);
            },
            None => {},
        }
    }
    assert(turned@ =~= items@.reverse());
    turned
}

} // verus!
