use vstd::prelude::*;

verus! {

/// The items of `s` in the opposite order.
pub open spec fn flip<T>(s: Seq<T>) -> Seq<T> {
    Seq::new(s.len(), |i: int| s[s.len() - 1 - i])
}

/// The same items in the opposite order.
pub fn reversed<T>(items: Vec<T>) -> (r: Vec<T>)
    ensures
        r@ == flip(items@),
{
    let mut rest = items;
    let mut out: Vec<T> = Vec::new();
    while rest.len() > 0
        invariant
            rest@.len() + out@.len() == items@.len(),
            forall|j: int| 0 <= j < rest@.len() ==> rest@[j] == items@[j],
            forall|j: int| 0 <= j < out@.len() ==> out@[j] == items@[items@.len() - 1 - j],
        decreases rest@.len(),
    {
        match rest.pop() {
            Some(item) => out.push(item),
            None => {},
        }
    }
    assert(out@ =~= flip(items@));
    out
}

} // verus!
