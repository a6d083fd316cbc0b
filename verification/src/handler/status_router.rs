//! A router that selects a handler from an HTTP status code.

use std::collections::HashMap;

use vstd::prelude::*;
use vstd::std_specs::hash::{spec_hash_map_iter, spec_keys_iter};
use vstd::std_specs::iter::IteratorSpec;

use crate::context::hypermedia::Link;

verus! {

broadcast use vstd::std_specs::hash::group_hash_axioms;

/// A router that selects a handler from an HTTP status code: a response
/// with a status that has a handler goes to it, any other is declined.
pub struct StatusRouter<H> {
    handlers: HashMap<u16, H>,
}

impl<H> View for StatusRouter<H> {
    type V = Map<u16, H>;

    closed spec fn view(&self) -> Map<u16, H> {
        self.handlers@
    }
}

impl<H> StatusRouter<H> {
    /// Create an empty `StatusRouter`.
    pub fn new() -> (r: StatusRouter<H>)
        ensures
            r@ == Map::<u16, H>::empty(),
    {
        StatusRouter { handlers: HashMap::new() }
    }

    /// Set the handler for a status, replacing any earlier one.
    pub fn insert(&mut self, status: u16, handler: H)
        ensures
            final(self)@ == old(self)@.insert(status, handler),
    {
        self.handlers.insert(status, handler);
    }

    /// The handler for a status, if there is one; a response with any other
    /// status is declined.
    pub fn find(&self, status: u16) -> (r: Option<&H>)
        ensures
            r is Some <==> self@.dom().contains(status),
            r matches Some(h) ==> *h == self@[status],
    {
        self.handlers.get(&status)
    }

    /// Move the handlers of another router into this one; a status that
    /// both have gets the other router's handler.
    pub fn merge(&mut self, other: StatusRouter<H>)
        ensures
            final(self)@ == old(self)@.union_prefer_right(other@),
    {
        let ghost start = self@;
        let ghost theirs = other@;
        let mut rest = other.handlers;
        let ghost listed = spec_keys_iter(&rest).remaining();
        proof {
            assert(listed.unref().to_set() == theirs.dom());
        }
        let mut keys: Vec<u16> = Vec::new();
        for k in it: rest.keys()
            invariant
                it.seq() == listed,
                keys@.len() == it.index(),
                forall|j: int| 0 <= j < keys@.len() ==> keys@[j] == *listed[j],
        {
            keys.push(*k);
        }
        proof {
            assert(keys@ =~= listed.unref());
            assert(keys@.no_duplicates()) by {
                assert forall|a: int, b: int| 0 <= a < keys@.len() && 0 <= b < keys@.len() && a != b
                    implies keys@[a] != keys@[b] by {
                    assert(listed[a] != listed[b]);
                }
            }
        }
        let mut i: usize = 0;
        while i < keys.len()
            invariant
                0 <= i <= keys@.len(),
                keys@.no_duplicates(),
                keys@.to_set() == theirs.dom(),
                forall|j: int| i <= j < keys@.len() ==> #[trigger] rest@.contains_key(keys@[j]) && rest@[keys@[j]] == theirs[keys@[j]],
                self@ == start.union_prefer_right(theirs.restrict(keys@.take(i as int).to_set())),
            decreases keys@.len() - i,
        {
            let k = keys[i];
            let ghost taken = keys@.take(i as int).to_set();
            proof {
                assert(rest@.contains_key(keys@[i as int]));
            }
            let removed = rest.remove(&k);
            match removed {
                Some(h) => {
                    self.handlers.insert(k, h);
                },
                None => {},
            }
            proof {
                assert(keys@.take(i + 1) =~= keys@.take(i as int).push(k));
                assert forall|x: u16| keys@.take(i + 1).to_set().contains(x) == taken.insert(k).contains(x) by {
                    let t0 = keys@.take(i as int);
                    let t1 = keys@.take(i + 1);
                    if t1.contains(x) {
                        let j = choose|j: int| 0 <= j < t1.len() && t1[j] == x;
                        if j < i {
                            assert(t0[j] == x);
                        }
                    }
                    if t0.contains(x) {
                        let j = choose|j: int| 0 <= j < t0.len() && t0[j] == x;
                        assert(t1[j] == x);
                    }
                    if x == k {
                        assert(t1[i as int] == x);
                    }
                }
                assert(keys@.take(i + 1).to_set() =~= taken.insert(k));
                assert forall|j: int| i + 1 <= j < keys@.len() implies #[trigger] rest@.contains_key(keys@[j]) && rest@[keys@[j]] == theirs[keys@[j]] by {
                    assert(keys@[j] != k);
                }
                assert(self@ =~= start.union_prefer_right(theirs.restrict(taken.insert(k))));
            }
            i = i + 1;
        }
        proof {
            assert(keys@.take(keys@.len() as int) =~= keys@);
            assert(theirs.restrict(theirs.dom()) =~= theirs);
        }
    }

    /// The hyperlinks of the handlers: one for each status, pointing at its
    /// handler.
    pub fn hyperlinks<'a>(&'a self, base: &Link<'a, H>) -> (r: Vec<Link<'a, H>>)
        ensures
            r@.len() == self@.dom().len(),
            forall|i: int| 0 <= i < r@.len() ==> {
                &&& (#[trigger] r@[i])@.method == base@.method
                &&& r@[i]@.path == base@.path
                &&& exists|s: u16| #[trigger] self@.dom().contains(s) && r@[i]@.handler == Some(self@[s])
            },
            forall|s: u16| #[trigger] self@.dom().contains(s) ==> exists|i: int| 0 <= i < r@.len() && r@[i]@.handler == Some(self@[s]),
    {
        let ghost listed = spec_hash_map_iter(&self.handlers).remaining();
        let ghost m = self@;
        proof {
            assert(listed.len() == m.dom().len());
        }
        let mut r: Vec<Link<'a, H>> = Vec::new();
        for entry in it: self.handlers.iter()
            invariant
                it.seq() == listed,
                r@.len() == it.index(),
                forall|j: int| 0 <= j < r@.len() ==> {
                    &&& (#[trigger] r@[j])@.method == base@.method
                    &&& r@[j]@.path == base@.path
                    &&& r@[j]@.handler == Some(*listed[j].1)
                },
        {
            let (_, handler) = entry;
            let mut link = base.duplicate();
            link.handler = Some(handler);
            r.push(link);
        }
        proof {
            assert forall|j: int| #![trigger r@[j]] 0 <= j < r@.len() implies exists|s: u16| #[trigger] m.dom().contains(s) && r@[j]@.handler == Some(m[s]) by {
                assert(m.contains_key(*listed[j].0) && m[*listed[j].0] == *listed[j].1);
            }
            assert forall|s: u16| #[trigger] m.dom().contains(s) implies exists|j: int| 0 <= j < r@.len() && r@[j]@.handler == Some(m[s]) by {
                assert(m.contains_key(s));
                assert(listed.contains((&s, &m[s])));
                let j = choose|j: int| 0 <= j < listed.len() && listed[j] == (&s, &m[s]);
                assert(r@[j]@.handler == Some(m[s]));
            }
        }
        r
    }
}

} // verus!
