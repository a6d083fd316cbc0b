//! A pair of handlers where the second one takes over when the first one
//! fails.

use vstd::prelude::*;

verus! {

/// A router that selects a secondary handler on error.
pub struct OrElse<A, B> {
    /// The primary handler that will have the first chance to process the
    /// request.
    pub primary: A,
    /// The secondary handler that will take over if the first handler returns
    /// an error.
    pub secondary: B,
}

impl<A, B> OrElse<A, B> {
    /// Create a new `OrElse` with a primary and secondary handler.
    pub fn new(primary: A, secondary: B) -> (r: OrElse<A, B>)
        ensures
            r.primary == primary,
            r.secondary == secondary,
    {
        OrElse { primary, secondary }
    }
}

impl<A, B: Default> OrElse<A, B> {
    /// Create a new `OrElse` with a given primary and a default secondary
    /// handler.
    pub fn with_primary(primary: A) -> (r: OrElse<A, B>)
        ensures
            r.primary == primary,
            call_ensures(B::default, (), r.secondary),
    {
        OrElse { primary, secondary: B::default() }
    }
}

impl<A: Default, B> OrElse<A, B> {
    /// Create a new `OrElse` with a given secondary and a default primary
    /// handler.
    pub fn with_secondary(secondary: B) -> (r: OrElse<A, B>)
        ensures
            call_ensures(A::default, (), r.primary),
            r.secondary == secondary,
    {
        OrElse { primary: A::default(), secondary }
    }
}

impl<A, B> OrElse<A, B> {
    /// Hand a request to the primary handler, and to the secondary one if
    /// the primary one gives it back: the result is the primary handler's
    /// when it took the request, and else the secondary handler's for what
    /// the primary one gave back.
    pub fn handle<E, R, P, S>(&self, request: E, primary: P, secondary: S) -> (r: Result<R, E>)
        where
            P: Fn(&A, E) -> Result<R, E>,
            S: Fn(&B, E) -> Result<R, E>,
        requires
            call_requires(primary, (&self.primary, request)),
            forall|e: E| call_requires(secondary, (&self.secondary, e)),
        ensures
            exists|first: Result<R, E>|
                {
                    &&& call_ensures(primary, (&self.primary, request), first)
                    &&& match first {
                        Ok(_) => r == first,
                        Err(e) => call_ensures(secondary, (&self.secondary, e), r),
                    }
                },
    {
        let first = primary(&self.primary, request);
        match first {
            Ok(v) => Ok(v),
            Err(e) => secondary(&self.secondary, e),
        }
    }

    /// The hyperlinks of both handlers: the primary handler's first, then
    /// the secondary handler's.
    pub fn hyperlinks<T>(primary: Vec<T>, secondary: Vec<T>) -> (r: Vec<T>)
        ensures
            r@ == primary@ + secondary@,
    {
        let mut links = primary;
        let mut rest = secondary;
        links.append(&mut rest);
        links
    }
}

} // verus!
