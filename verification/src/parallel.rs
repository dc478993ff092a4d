//! Running two independent computations side by side.

use vstd::prelude::*;

verus! {

/// `rayon::join` runs both closures, possibly on different threads, and
/// returns the pair of their results: each component is a value that the
/// corresponding closure may return when called once.
pub assume_specification<A, B, RA, RB>[ rayon::join::<A, B, RA, RB> ](oper_a: A, oper_b: B) -> (r: (
    RA,
    RB,
))
    where A: FnOnce() -> RA + Send, B: FnOnce() -> RB + Send, RA: Send, RB: Send
    requires
        oper_a.requires(()),
        oper_b.requires(()),
    ensures
        oper_a.ensures((), r.0),
        oper_b.ensures((), r.1),
;

} // verus!
