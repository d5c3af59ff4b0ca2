use vstd::prelude::*;

verus! {

/// Relies on `rayon::join` (rayon-core's `join`): it runs both closures,
/// possibly on two workers, and returns their results as a pair, the first
/// closure's result first. Its documentation says both closures always run,
/// and a panic of either is re-raised; the closures handed to it here do not
/// panic, as their own contracts are proved.
pub assume_specification<A, B, RA, RB>[ rayon::join::<A, B, RA, RB> ](oper_a: A, oper_b: B) -> (r: (
    RA,
    RB,
))
    where
        A: FnOnce() -> RA + Send,
        B: FnOnce() -> RB + Send,
        RA: Send,
        RB: Send,
    requires
        oper_a.requires(()),
        oper_b.requires(()),
    ensures
        oper_a.ensures((), r.0),
        oper_b.ensures((), r.1),
;

} // verus!
