//! A router endpoint that assigns names to route variables.

use vstd::prelude::*;

use crate::context::MaybeUtf8;
use crate::context::hypermedia::{Link, LinkView, handler_view};
use super::{InsertState, RouteState, Endpoint, names_view, route_variables};

verus! {

/// A router endpoint that assigns names to route variables.
///
/// It's technically a single-item router, with the purpose of pairing route
/// variable names with input values. It has to be at the end of a router
/// chain to know what variables to use.
#[derive(Debug)]
pub struct Variables<H> {
    handler: H,
    variables: Vec<MaybeUtf8>,
}

impl<H> View for Variables<H> {
    type V = (H, Seq<Seq<u8>>);

    /// The handler and the names of its variables.
    closed spec fn view(&self) -> (H, Seq<Seq<u8>>) {
        (self.handler, names_view(self.variables@))
    }
}

/// Copy a list of names.
pub fn copy_names(names: &Vec<MaybeUtf8>) -> (r: Vec<MaybeUtf8>)
    ensures
        names_view(r@) == names_view(names@),
{
    let mut r: Vec<MaybeUtf8> = Vec::new();
    let mut i: usize = 0;
    while i < names.len()
        invariant
            0 <= i <= names@.len(),
            r@.len() == i,
            forall|j: int| 0 <= j < i ==> (#[trigger] r@[j])@ == names@[j]@,
        decreases names@.len() - i,
    {
        r.push(names[i].duplicate());
        i = i + 1;
    }
    proof {
        assert(names_view(r@) =~= names_view(names@));
    }
    r
}

impl<H> Variables<H> {
    /// Pair a handler with variable names.
    pub fn with_names(handler: H, names: Vec<MaybeUtf8>) -> (r: Variables<H>)
        ensures
            r@ == (handler, names_view(names@)),
    {
        Variables { handler, variables: names }
    }

    /// Build an endpoint from a route that has been walked: the names are
    /// those recorded in the route.
    pub fn build(route: InsertState, item: H) -> (r: Variables<H>)
        ensures
            r@ == (item, route.names()),
    {
        Variables { handler: item, variables: route.variables() }
    }

    /// Replace the handler, taking the names recorded in the route.
    pub fn insert(&mut self, route: InsertState, item: H)
        ensures
            final(self)@ == (item, route.names()),
    {
        self.handler = item;
        self.variables = route.variables();
    }

    /// Change the names as if the endpoint was placed under the route: the
    /// names recorded in the route come first.
    pub fn prefix(&mut self, route: &InsertState)
        ensures
            final(self)@ == (old(self)@.0, route.names() + old(self)@.1),
    {
        let mut new_vars = route.clone_names();
        let mut i: usize = 0;
        let ghost prefix = route.names();
        while i < self.variables.len()
            invariant
                0 <= i <= self.variables@.len(),
                names_view(new_vars@) == prefix + names_view(self.variables@).take(i as int),
            decreases self.variables@.len() - i,
        {
            let ghost before = new_vars@;
            new_vars.push(self.variables[i].duplicate());
            proof {
                assert(names_view(self.variables@).take(i + 1) =~= names_view(self.variables@).take(i as int).push(self.variables@[i as int]@));
                assert(names_view(new_vars@) =~= names_view(before).push(self.variables@[i as int]@));
            }
            i = i + 1;
        }
        proof {
            assert(names_view(self.variables@).take(self.variables@.len() as int) =~= names_view(self.variables@));
        }
        self.variables = new_vars;
    }

    /// Replace this endpoint with another one, placed under the route.
    pub fn insert_router(&mut self, route: &InsertState, router: Variables<H>)
        ensures
            final(self)@ == (router@.0, route.names() + router@.1),
    {
        let mut router = router;
        router.prefix(route);
        *self = router;
    }

    /// The handler.
    pub fn handler(&self) -> (r: &H)
        ensures
            *r == self@.0,
    {
        &self.handler
    }

    /// Find the handler and name the variables of the route.
    pub fn find<'a>(&'a self, route: &RouteState) -> (r: Endpoint<'a, H>)
        ensures
            r.handler == Some(&self@.0),
            r.variables.wf(),
            r.variables@ == route_variables(route.segments_view(), route.marks(), self@.1),
            r.hyperlinks@.len() == 0,
    {
        Endpoint {
            handler: Some(&self.handler),
            variables: route.variables(&self.variables),
            hyperlinks: Vec::new(),
        }
    }

    /// The hyperlink to this endpoint, based on the provided base link.
    pub fn hyperlinks<'a>(&'a self, base: Link<'a, H>) -> (r: Vec<Link<'a, H>>)
        ensures
            r@.len() == 1,
            r@[0]@ == (LinkView { handler: Some(self@.0), ..base@ }),
    {
        let mut base = base;
        base.handler = Some(&self.handler);
        let mut r: Vec<Link<'a, H>> = Vec::new();
        r.push(base);
        r
    }
}

} // verus!
