//! Mathematical models of collections of values that have models themselves.

use vstd::prelude::*;

verus! {

/// The models of the items of `s`, in order.
pub open spec fn models<T: View>(s: Seq<T>) -> Seq<T::V> {
    Seq::new(s.len(), |i: int| s[i]@)
}

/// The models of `s` followed by the model of `x` are the models of `s.push(x)`.
pub proof fn lemma_models_push<T: View>(s: Seq<T>, x: T)
    ensures
        models(s.push(x)) == models(s).push(x@),
{
    assert(models(s.push(x)) =~= models(s).push(x@));
}

} // verus!
