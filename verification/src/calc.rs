//! Calculations that the caller hands in.
//!
//! Arithmetic on measurements is done by the caller. A function that needs some of
//! it in the middle of its work takes it as a closure, and its contract speaks of
//! what that closure gives.
use vstd::prelude::*;

verus! {

/// `f` may be asked about any argument, and gives one result for each.
pub open spec fn computes<A, B, F: Fn(A) -> B>(f: F) -> bool {
    &&& forall|x: A| #[trigger] call_requires(f, (x,))
    &&& forall|x: A, r: B, s: B|
        #![trigger call_ensures(f, (x,), r), call_ensures(f, (x,), s)]
        call_ensures(f, (x,), r) && call_ensures(f, (x,), s) ==> r == s
}

/// What `f` gives for `x`.
pub open spec fn result_of<A, B, F: Fn(A) -> B>(f: F, x: A) -> B {
    choose|r: B| call_ensures(f, (x,), r)
}

/// `f` was asked about `x`, so that its own contract holds of `result_of(f, x)`.
pub open spec fn answered<A, B, F: Fn(A) -> B>(f: F, x: A) -> bool {
    call_ensures(f, (x,), result_of(f, x))
}

/// Asks `f` about `x`.
pub fn ask<A, B, F: Fn(A) -> B>(f: &F, x: A) -> (r: B)
    requires
        computes(*f),
    ensures
        r == result_of(*f, x),
        answered(*f, x),
{
    f(x)
}

} // verus!
