//! Helpers for cloning reference-counted handles in bunches.

use std::sync::Arc;
use vstd::prelude::*;

verus! {

/// Relies on std's Arc::clone: the clone is a handle to the same value.
#[verifier::external_body]
fn arc_duplicate<T>(a: &Arc<T>) -> (r: Arc<T>)
    ensures
        r == *a,
{
    Arc::clone(a)
}

/// Clone three reference-counted handles at once.
pub fn arc_clone_many<T1, T2, T3>(arcs: (&Arc<T1>, &Arc<T2>, &Arc<T3>)) -> (r: (
    Arc<T1>,
    Arc<T2>,
    Arc<T3>,
))
    ensures
        r.0 == *arcs.0,
        r.1 == *arcs.1,
        r.2 == *arcs.2,
{
    (arc_duplicate(arcs.0), arc_duplicate(arcs.1), arc_duplicate(arcs.2))
}

/// Clone two reference-counted handles at once.
pub fn arc_clone_pair<T1, T2>(arcs: (&Arc<T1>, &Arc<T2>)) -> (r: (Arc<T1>, Arc<T2>))
    ensures
        r.0 == *arcs.0,
        r.1 == *arcs.1,
{
    (arc_duplicate(arcs.0), arc_duplicate(arcs.1))
}

} // verus!
