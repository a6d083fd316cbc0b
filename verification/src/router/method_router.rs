//! A router which selects a handler from an HTTP method.

use vstd::prelude::*;

use crate::method::{Method, MethodView};
use crate::context::hypermedia::{Link, LinkView};
use super::{InsertState, RouteState, Endpoint, route_variables};
use super::variables::Variables;

verus! {

/// A router which selects a handler from an HTTP method.
///
/// It's a simple mapping between `Method` and an endpoint, while the
/// requested path is ignored. It's therefore a good idea to pair a
/// `MethodRouter` with an exhaustive path router of some sort.
#[derive(Debug)]
pub struct MethodRouter<H> {
    items: Vec<(Method, Variables<H>)>,
}

/// The position of a method among the entries.
pub open spec fn method_index<H>(items: Seq<(Method, Variables<H>)>, m: MethodView) -> int {
    choose|i: int| 0 <= i < items.len() && items[i].0@ == m
}

/// The map that entries with distinct methods stand for.
pub open spec fn items_map<H>(items: Seq<(Method, Variables<H>)>) -> Map<MethodView, (H, Seq<Seq<u8>>)> {
    Map::new(
        |m: MethodView| exists|i: int| 0 <= i < items.len() && items[i].0@ == m,
        |m: MethodView| items[method_index(items, m)].1@,
    )
}

/// No method occurs twice.
pub open spec fn distinct_methods<H>(items: Seq<(Method, Variables<H>)>) -> bool {
    forall|i: int, j: int|
        0 <= i < items.len() && 0 <= j < items.len() && i != j ==> items[i].0@ != items[j].0@
}

/// The links to each method's handler, in the router's order.
pub open spec fn method_links<H>(items: Seq<(Method, Variables<H>)>, base: LinkView<H>) -> Seq<LinkView<H>> {
    Seq::new(
        items.len(),
        |i: int| LinkView { method: Some(items[i].0@), handler: Some(items[i].1@.0), ..base },
    )
}

/// The entries of a method map, with the given names put before the names
/// of each entry's variables.
pub open spec fn prefixed<H>(
    items: Map<MethodView, (H, Seq<Seq<u8>>)>,
    names: Seq<Seq<u8>>,
) -> Map<MethodView, (H, Seq<Seq<u8>>)> {
    Map::new(|m: MethodView| items.dom().contains(m), |m: MethodView| (items[m].0, names + items[m].1))
}

proof fn lemma_lookup<H>(items: Seq<(Method, Variables<H>)>, i: int)
    requires
        distinct_methods(items),
        0 <= i < items.len(),
    ensures
        items_map(items).dom().contains(items[i].0@),
        items_map(items)[items[i].0@] == items[i].1@,
{
    let m = items[i].0@;
    assert(exists|j: int| 0 <= j < items.len() && items[j].0@ == m);
    let j = method_index(items, m);
    assert(j == i);
}

impl<H> View for MethodRouter<H> {
    type V = Map<MethodView, (H, Seq<Seq<u8>>)>;

    closed spec fn view(&self) -> Map<MethodView, (H, Seq<Seq<u8>>)> {
        items_map(self.items@)
    }
}

impl<H> MethodRouter<H> {
    /// No method occurs twice.
    pub closed spec fn wf(&self) -> bool {
        distinct_methods(self.items@)
    }

    /// The hyperlinks this router lists, in order.
    pub closed spec fn links(&self, base: LinkView<H>) -> Seq<LinkView<H>> {
        method_links(self.items@, base)
    }

    /// Create an empty `MethodRouter`.
    pub fn new() -> (r: MethodRouter<H>)
        ensures
            r.wf(),
            r@ == Map::<MethodView, (H, Seq<Seq<u8>>)>::empty(),
            forall|base: LinkView<H>| r.links(base).len() == 0,
    {
        let r = MethodRouter { items: Vec::new() };
        assert(r@ =~= Map::<MethodView, (H, Seq<Seq<u8>>)>::empty());
        r
    }

    fn position(&self, method: &Method) -> (r: Option<usize>)
        requires
            self.wf(),
        ensures
            match r {
                Some(i) => i < self.items@.len() && self.items@[i as int].0@ == method@,
                None => forall|j: int| 0 <= j < self.items@.len() ==> self.items@[j].0@ != method@,
            },
    {
        let mut i: usize = 0;
        while i < self.items.len()
            invariant
                0 <= i <= self.items@.len(),
                forall|j: int| 0 <= j < i ==> self.items@[j].0@ != method@,
            decreases self.items@.len() - i,
        {
            if self.items[i].0.same_as(method) {
                return Some(i);
            }
            i = i + 1;
        }
        None
    }

    /// Set the endpoint for a method, replacing any earlier one.
    pub fn set(&mut self, method: Method, item: Variables<H>)
        requires
            old(self).wf(),
        ensures
            final(self).wf(),
            final(self)@ == old(self)@.insert(method@, item@),
    {
        let ghost old_items = self.items@;
        let ghost mv = method@;
        let ghost iv = item@;
        match self.position(&method) {
            Some(i) => {
                proof {
                    lemma_lookup(old_items, i as int);
                }
                self.items.set(i, (method, item));
                proof {
                    let new_items = self.items@;
                    assert(distinct_methods(new_items));
                    assert forall|m: MethodView| #[trigger] items_map(new_items).dom().contains(m)
                        <==> items_map(old_items).insert(mv, iv).dom().contains(m) by {
                        if items_map(old_items).dom().contains(m) {
                            let j = choose|j: int| 0 <= j < old_items.len() && old_items[j].0@ == m;
                            assert(new_items[j].0@ == m);
                        }
                        if items_map(new_items).dom().contains(m) {
                            let j = choose|j: int| 0 <= j < new_items.len() && new_items[j].0@ == m;
                            assert(old_items[j].0@ == m);
                        }
                    }
                    assert forall|m: MethodView| #[trigger] items_map(new_items).dom().contains(m)
                        implies items_map(new_items)[m] == items_map(old_items).insert(mv, iv)[m] by {
                        let j = choose|j: int| 0 <= j < new_items.len() && new_items[j].0@ == m;
                        lemma_lookup(new_items, j);
                        lemma_lookup(old_items, j);
                    }
                    assert(self@ =~= items_map(old_items).insert(mv, iv));
                }
            },
            None => {
                self.items.push((method, item));
                proof {
                    let new_items = self.items@;
                    assert(distinct_methods(new_items));
                    assert forall|m: MethodView| #[trigger] items_map(new_items).dom().contains(m)
                        <==> items_map(old_items).insert(mv, iv).dom().contains(m) by {
                        if items_map(old_items).dom().contains(m) && m != mv {
                            let j = choose|j: int| 0 <= j < old_items.len() && old_items[j].0@ == m;
                            assert(new_items[j].0@ == m);
                        }
                        if m == mv {
                            assert(new_items[old_items.len() as int].0@ == m);
                        }
                        if items_map(new_items).dom().contains(m) && m != mv {
                            let j = choose|j: int| 0 <= j < new_items.len() && new_items[j].0@ == m;
                            assert(old_items[j].0@ == m);
                        }
                    }
                    assert forall|m: MethodView| #[trigger] items_map(new_items).dom().contains(m)
                        implies items_map(new_items)[m] == items_map(old_items).insert(mv, iv)[m] by {
                        let j = choose|j: int| 0 <= j < new_items.len() && new_items[j].0@ == m;
                        lemma_lookup(new_items, j);
                        if j < old_items.len() {
                            lemma_lookup(old_items, j);
                        }
                    }
                    assert(self@ =~= items_map(old_items).insert(mv, iv));
                }
            },
        }
    }

    /// Insert a handler for a method, with the variable names recorded in
    /// the route.
    pub fn insert(&mut self, method: Method, route: InsertState, item: H)
        requires
            old(self).wf(),
        ensures
            final(self).wf(),
            final(self)@ == old(self)@.insert(method@, (item, route.names())),
    {
        let endpoint = Variables::build(route, item);
        self.set(method, endpoint);
    }

    /// Find the handler for the method and name the variables of the route.
    pub fn find<'a>(&'a self, method: &Method, route: &RouteState) -> (r: Endpoint<'a, H>)
        requires
            self.wf(),
        ensures
            r.variables.wf(),
            r.hyperlinks@.len() == 0,
            self@.dom().contains(method@) ==> {
                &&& r.handler == Some(&self@[method@].0)
                &&& r.variables@ == route_variables(route.segments_view(), route.marks(), self@[method@].1)
            },
            !self@.dom().contains(method@) ==> {
                &&& r.handler is None
                &&& r.variables@ == Map::<Seq<u8>, Seq<u8>>::empty()
            },
    {
        match self.position(method) {
            Some(i) => {
                proof {
                    lemma_lookup(self.items@, i as int);
                }
                self.items[i].1.find(route)
            },
            None => Endpoint::none(),
        }
    }

    /// Change the router as if it was placed under the route: the names
    /// recorded in the route are put before the variable names of every
    /// endpoint.
    pub fn prefix(&mut self, route: &InsertState)
        requires
            old(self).wf(),
        ensures
            final(self).wf(),
            final(self)@ == prefixed(old(self)@, route.names()),
    {
        let ghost old_items = self.items@;
        let ghost names = route.names();
        let mut i: usize = 0;
        while i < self.items.len()
            invariant
                0 <= i <= self.items@.len(),
                self.items@.len() == old_items.len(),
                names == route.names(),
                distinct_methods(old_items),
                forall|j: int| 0 <= j < old_items.len() ==> (#[trigger] self.items@[j]).0 == old_items[j].0,
                forall|j: int| 0 <= j < i ==> (#[trigger] self.items@[j]).1@ == (old_items[j].1@.0, names + old_items[j].1@.1),
                forall|j: int| i <= j < old_items.len() ==> (#[trigger] self.items@[j]).1 == old_items[j].1,
            decreases old_items.len() - i,
        {
            let (method, mut item) = self.items.remove(i);
            item.prefix(route);
            self.items.insert(i, (method, item));
            proof {
                assert forall|j: int| 0 <= j < old_items.len() implies (#[trigger] self.items@[j]).0 == old_items[j].0 by {}
            }
            i = i + 1;
        }
        proof {
            let new_items = self.items@;
            assert(distinct_methods(new_items)) by {
                assert forall|a: int, b: int| 0 <= a < new_items.len() && 0 <= b < new_items.len() && a != b
                    implies new_items[a].0@ != new_items[b].0@ by {
                    assert(new_items[a].0 == old_items[a].0);
                    assert(new_items[b].0 == old_items[b].0);
                }
            }
            let target = prefixed(items_map(old_items), names);
            assert forall|m: MethodView| #[trigger] items_map(new_items).dom().contains(m) <==> target.dom().contains(m) by {
                if items_map(new_items).dom().contains(m) {
                    let j = choose|j: int| 0 <= j < new_items.len() && new_items[j].0@ == m;
                    assert(old_items[j].0 == new_items[j].0);
                }
                if target.dom().contains(m) {
                    let j = choose|j: int| 0 <= j < old_items.len() && old_items[j].0@ == m;
                    assert(old_items[j].0 == new_items[j].0);
                }
            }
            assert forall|m: MethodView| #[trigger] items_map(new_items).dom().contains(m) implies items_map(new_items)[m] == target[m] by {
                let j = choose|j: int| 0 <= j < new_items.len() && new_items[j].0@ == m;
                lemma_lookup(new_items, j);
                assert(old_items[j].0 == new_items[j].0);
                lemma_lookup(old_items, j);
            }
            assert(self@ =~= target);
        }
    }

    /// Merge another router into this one, as if it was placed under the
    /// route. Its endpoints replace those of this router for the same method.
    pub fn insert_router(&mut self, route: &InsertState, router: MethodRouter<H>)
        requires
            old(self).wf(),
            router.wf(),
        ensures
            final(self).wf(),
            final(self)@ == old(self)@.union_prefer_right(prefixed(router@, route.names())),
    {
        let ghost names = route.names();
        let ghost ritems = router.items@;
        let ghost n = ritems.len() as int;
        let mut items = router.items;
        proof {
            assert(items_map(ritems.subrange(n, n)) =~= Map::<MethodView, (H, Seq<Seq<u8>>)>::empty());
            assert(self@.union_prefer_right(prefixed(items_map(ritems.subrange(n, n)), names)) =~= self@);
        }
        let ghost start = self@;
        while items.len() > 0
            invariant
                self.wf(),
                names == route.names(),
                distinct_methods(ritems),
                n == ritems.len(),
                items@.len() <= n,
                items@ == ritems.subrange(0, items@.len() as int),
                self@ == start.union_prefer_right(prefixed(items_map(ritems.subrange(items@.len() as int, n)), names)),
            decreases items@.len(),
        {
            let ghost k = items@.len() as int;
            let (method, mut item) = items.pop().unwrap();
            item.prefix(route);
            let ghost mv = method@;
            let ghost iv = item@;
            self.set(method, item);
            proof {
                let before = ritems.subrange(k, n);
                let after = ritems.subrange(k - 1, n);
                assert(after =~= seq![ritems[k - 1]] + before);
                assert forall|a: int, b: int| 0 <= a < after.len() && 0 <= b < after.len() && a != b
                    implies after[a].0@ != after[b].0@ by {
                    assert(after[a] == ritems[a + k - 1]);
                    assert(after[b] == ritems[b + k - 1]);
                }
                assert forall|a: int, b: int| 0 <= a < before.len() && 0 <= b < before.len() && a != b
                    implies before[a].0@ != before[b].0@ by {
                    assert(before[a] == ritems[a + k]);
                    assert(before[b] == ritems[b + k]);
                }
                assert(ritems[k - 1].0@ == mv);
                assert forall|m: MethodView| #[trigger] items_map(after).dom().contains(m) <==> items_map(before).insert(mv, ritems[k - 1].1@).dom().contains(m) by {
                    if items_map(after).dom().contains(m) && m != mv {
                        let j = choose|j: int| 0 <= j < after.len() && after[j].0@ == m;
                        assert(j > 0);
                        assert(before[j - 1].0@ == m);
                    }
                    if items_map(before).dom().contains(m) {
                        let j = choose|j: int| 0 <= j < before.len() && before[j].0@ == m;
                        assert(after[j + 1].0@ == m);
                    }
                    if m == mv {
                        assert(after[0].0@ == m);
                    }
                }
                assert forall|m: MethodView| #[trigger] items_map(after).dom().contains(m) implies items_map(after)[m] == items_map(before).insert(mv, ritems[k - 1].1@)[m] by {
                    let j = choose|j: int| 0 <= j < after.len() && after[j].0@ == m;
                    lemma_lookup(after, j);
                    if j > 0 {
                        assert(before[j - 1] == after[j]);
                        lemma_lookup(before, j - 1);
                        assert(m != mv) by {
                            assert(after[0].0@ == mv);
                        }
                    }
                }
                assert(items_map(after) =~= items_map(before).insert(mv, ritems[k - 1].1@));
                assert(iv == (ritems[k - 1].1@.0, names + ritems[k - 1].1@.1));
                assert(prefixed(items_map(after), names) =~= prefixed(items_map(before), names).insert(mv, iv));
                assert(self@ =~= start.union_prefer_right(prefixed(items_map(after), names)));
                assert(items@ =~= ritems.subrange(0, k - 1));
            }
        }
        proof {
            assert(ritems.subrange(0, n) =~= ritems);
        }
    }

    /// The hyperlinks to each method's handler, based on the provided base link.
    pub fn hyperlinks<'a>(&'a self, base: &Link<'a, H>) -> (r: Vec<Link<'a, H>>)
        ensures
            r@.map_values(|l: Link<'a, H>| l@) == self.links(base@),
    {
        let mut r: Vec<Link<'a, H>> = Vec::new();
        let mut i: usize = 0;
        while i < self.items.len()
            invariant
                0 <= i <= self.items@.len(),
                r@.len() == i,
                forall|j: int| 0 <= j < i ==> (#[trigger] r@[j])@ == method_links(self.items@, base@)[j],
            decreases self.items@.len() - i,
        {
            let mut link = base.duplicate();
            link.method = Some(self.items[i].0.duplicate());
            let mut links = self.items[i].1.hyperlinks(link);
            let l = links.pop().unwrap();
            r.push(l);
            i = i + 1;
        }
        proof {
            assert(r@.map_values(|l: Link<'a, H>| l@) =~= self.links(base@));
        }
        r
    }
}

} // verus!
