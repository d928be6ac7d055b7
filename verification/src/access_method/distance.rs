//! What is asked of a distance function, and what its answer is.
//!
//! Distances are floating point numbers. A distance function is handed in by the caller and
//! answers with the bits of the number; nothing is said here of the number itself.

use vstd::prelude::*;

use crate::access_method::graph::neighbor_with_distance::Distance;

verus! {

/// Whether `f` can be asked how far `a` and `b` are apart.
pub open spec fn accepts<E, F: Fn(&[E], &[E]) -> Distance>(f: F, a: Seq<E>, b: Seq<E>) -> bool {
    forall|s: &[E], t: &[E]| s@ == a && t@ == b ==> #[trigger] call_requires(f, (s, t))
}

/// Whether `d` is what `f` says of how far `a` and `b` are apart.
pub open spec fn measured<E, F: Fn(&[E], &[E]) -> Distance>(
    f: F,
    a: Seq<E>,
    b: Seq<E>,
    d: Distance,
) -> bool {
    exists|s: &[E], t: &[E]| s@ == a && t@ == b && #[trigger] call_ensures(f, (s, t), d)
}

/// Whether two vectors can be compared: they are as long as each other, and not empty.
pub open spec fn comparable<E>(a: Seq<E>, b: Seq<E>) -> bool {
    a.len() > 0 && a.len() == b.len()
}

} // verus!
