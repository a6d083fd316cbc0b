//! A tree shaped router that selects handlers using paths.

use vstd::prelude::*;
use vstd::string::StringSliceAdditionalSpecFns;

use crate::method::{Method, MethodView};
use crate::context::{MaybeUtf8, Parameters};
use crate::context::hypermedia::{Link, LinkView, LinkSegment, SegmentType, method_view, handler_view, link_views, sort_links, ordered_links};
use crate::utils::bytes_eq;
use super::{InsertState, RouteState, Endpoint, route_variables, is_variable_segment, variable_names, route_segments, var_fold, VarGroup};
use super::method_router::{MethodRouter, prefixed};

verus! {

/// The three ways a path segment can be matched, in the order they are tried.
#[derive(Clone, Copy, Debug)]
pub enum Branch {
    /// A static segment, equal to the requested one.
    Static,
    /// A variable segment, matching one requested segment.
    Variable,
    /// A variable sequence, matching one or more requested segments.
    Wildcard,
}

/// A tree shaped router that selects handlers using paths.
///
/// Each tree node stores a `MethodRouter` and a number of child nodes: one
/// per static segment, one for a variable segment and one for a variable
/// sequence. The requested path must always be exhausted before a node's
/// `MethodRouter` is searched.
///
/// The `TreeRouter` has support for shallow hyperlinks to children and
/// siblings. Hyperlinks have to be activated by setting `find_hyperlinks`
/// to `true`.
pub struct TreeRouter<H> {
    item: MethodRouter<H>,
    static_routes: Vec<(MaybeUtf8, TreeRouter<H>)>,
    variable_route: Option<Box<TreeRouter<H>>>,
    wildcard_route: Option<Box<TreeRouter<H>>>,
    /// Should the router search for hyperlinks? Setting this to `true` may
    /// slow down endpoint search, but enables hyperlinks.
    pub find_hyperlinks: bool,
}

/// A node where the requested path ended, in search order, with the state
/// of the route when it was reached.
pub ghost struct Hit<H> {
    pub node: TreeRouter<H>,
    pub branch: Branch,
    pub var_index: int,
    pub marks: Seq<Option<usize>>,
}

/// A link with no method, path or handler.
pub open spec fn empty_link<H>() -> LinkView<H> {
    LinkView { method: None, path: Seq::empty(), handler: None }
}

/// A link one segment away.
pub open spec fn child_link<H>(label: Seq<u8>, ty: SegmentType) -> LinkView<H> {
    LinkView { method: None, path: seq![(label, ty)], handler: None }
}

/// The links that do not point back at the current endpoint with the
/// requested method.
pub open spec fn without_method<H>(links: Seq<LinkView<H>>, m: MethodView) -> Seq<LinkView<H>>
    decreases links.len(),
{
    if links.len() == 0 {
        Seq::empty()
    } else {
        let rest = without_method(links.drop_last(), m);
        let l = links.last();
        if l.method != Some(m) || l.path.len() != 0 {
            rest.push(l)
        } else {
            rest
        }
    }
}

/// The index of the first hit that has a handler for the method, or the
/// number of entries when there is none.
pub open spec fn first_handler<H>(hits: Seq<Option<Hit<H>>>, m: MethodView) -> int
    decreases hits.len(),
{
    if hits.len() == 0 {
        0
    } else {
        let k = first_handler(hits.drop_last(), m);
        if k < hits.len() - 1 {
            k
        } else if hits.last() matches Some(h) && h.node.item_view().dom().contains(m) {
            hits.len() - 1
        } else {
            hits.len() as int
        }
    }
}

/// A step of the search that is still to be taken: a node, the branch to
/// try there, and the state of the route when it was put aside.
pub ghost struct Frame<H> {
    pub node: TreeRouter<H>,
    pub branch: Branch,
    pub i: int,
    pub v: int,
    pub marks: Seq<Option<usize>>,
}

/// What the steps put aside still produce, the last one first.
pub open spec fn pending<H>(frames: Seq<Frame<H>>, route: Seq<Seq<u8>>) -> Seq<Option<Hit<H>>>
    decreases frames.len(),
{
    if frames.len() == 0 {
        Seq::empty()
    } else {
        let f = frames.last();
        f.node.run(f.branch, f.i, f.v, f.marks, route) + pending(frames.drop_last(), route)
    }
}

/// The handler of the first hit that has one for the method.
pub open spec fn outcome_handler<H>(hits: Seq<Option<Hit<H>>>, m: MethodView) -> Option<H> {
    let k = first_handler(hits, m);
    if 0 <= k < hits.len() {
        match hits[k] {
            Some(h) => Some(h.node.item_view()[m].0),
            None => None,
        }
    } else {
        None
    }
}

/// The named variables of the first hit that has a handler for the method.
pub open spec fn outcome_variables<H>(
    hits: Seq<Option<Hit<H>>>,
    m: MethodView,
    route: Seq<Seq<u8>>,
) -> Map<Seq<u8>, Seq<u8>> {
    let k = first_handler(hits, m);
    if 0 <= k < hits.len() {
        match hits[k] {
            Some(h) => route_variables(route, h.marks, h.node.item_view()[m].1),
            None => Map::empty(),
        }
    } else {
        Map::empty()
    }
}

/// The links found on the way: those of every hit reached through a static
/// branch, up to and including the first hit with a handler.
pub open spec fn hit_links<H>(hits: Seq<Option<Hit<H>>>, m: MethodView) -> Seq<LinkView<H>>
    decreases hits.len(),
{
    if hits.len() == 0 {
        Seq::empty()
    } else {
        let prev = hits.drop_last();
        let rest = hit_links(prev, m);
        if first_handler(prev, m) < prev.len() {
            rest
        } else {
            match hits.last() {
                Some(h) => if h.branch is Static {
                    rest + h.node.node_links(m)
                } else {
                    rest
                },
                None => rest,
            }
        }
    }
}

proof fn lemma_first_handler_bound<H>(hits: Seq<Option<Hit<H>>>, m: MethodView)
    ensures
        0 <= first_handler(hits, m) <= hits.len(),
        first_handler(hits, m) < hits.len() ==> hits[first_handler(hits, m)] is Some,
    decreases hits.len(),
{
    if hits.len() > 0 {
        lemma_first_handler_bound(hits.drop_last(), m);
    }
}

/// Once a handler is found, what follows does not change the outcome.
proof fn lemma_found_prefix<H>(a: Seq<Option<Hit<H>>>, b: Seq<Option<Hit<H>>>, m: MethodView)
    requires
        first_handler(a, m) < a.len(),
    ensures
        first_handler(a + b, m) == first_handler(a, m),
        hit_links(a + b, m) == hit_links(a, m),
    decreases b.len(),
{
    if b.len() == 0 {
        assert(a + b =~= a);
    } else {
        lemma_found_prefix(a, b.drop_last(), m);
        assert((a + b).drop_last() =~= a + b.drop_last());
        lemma_first_handler_bound(a, m);
    }
}

proof fn lemma_pending_push<H>(frames: Seq<Frame<H>>, f: Frame<H>, route: Seq<Seq<u8>>)
    ensures
        pending(frames.push(f), route) == f.node.run(f.branch, f.i, f.v, f.marks, route)
            + pending(frames, route),
{
    assert(frames.push(f).drop_last() =~= frames);
}

/// A step put aside is well formed for a route of `len` segments searched
/// from position `i0` with `v0` variables taken.
pub open spec fn frame_ok<H>(f: Frame<H>, i0: int, v0: int, len: int) -> bool {
    &&& f.node.wf()
    &&& f.marks.len() == len
    &&& i0 <= f.i
    &&& (f.i <= len || f.i == i0)
    &&& 0 <= f.v <= v0 + f.i - i0
}

/// The steps put aside are well formed, agree with the route's marks
/// before their position, and their positions grow towards the top.
#[verifier::opaque]
pub open spec fn frames_ok<H>(
    frames: Seq<Frame<H>>,
    marks: Seq<Option<usize>>,
    i0: int,
    v0: int,
    len: int,
) -> bool {
    &&& forall|k: int| 0 <= k < frames.len() ==> frame_ok(#[trigger] frames[k], i0, v0, len)
    &&& forall|k: int, p: int|
        0 <= k < frames.len() && 0 <= p < frames[k].i && p < len
            ==> #[trigger] frames[k].marks[p] == marks[p]
    &&& forall|a: int, b: int| 0 <= a <= b < frames.len() ==> frames[a].i <= frames[b].i
}

/// The executable stack holds the steps put aside.
#[verifier::opaque]
pub open spec fn stack_matches<'a, H>(
    stack: Seq<(&'a TreeRouter<H>, Branch, (usize, usize))>,
    frames: Seq<Frame<H>>,
) -> bool {
    &&& stack.len() == frames.len()
    &&& forall|k: int| 0 <= k < frames.len() ==> {
        &&& *(#[trigger] stack[k]).0 == frames[k].node
        &&& stack[k].1 == frames[k].branch
        &&& stack[k].2.0 == frames[k].i
        &&& stack[k].2.1 == frames[k].v
    }
}

proof fn lemma_wf_node_ok<H>(t: TreeRouter<H>)
    requires
        t.wf(),
    ensures
        t.node_ok(),
        t.item.wf(),
{
    reveal(TreeRouter::wf);
    assert(t.ok_at(Seq::empty()));
}

proof fn lemma_wf_child<H>(t: TreeRouter<H>, key: Seq<u8>)
    requires
        t.wf(),
        t.child(key) is Some,
    ensures
        t.child(key)->0.wf(),
{
    reveal(TreeRouter::wf);
    let c = t.child(key)->0;
    assert forall|p: Seq<Seq<u8>>| #[trigger] c.ok_at(p) by {
        let q = seq![key] + p;
        assert(q[0] == key);
        assert(q.drop_first() =~= p);
        assert(t.ok_at(q));
    }
}

proof fn lemma_static_child<H>(t: TreeRouter<H>, j: int)
    requires
        t.wf(),
        0 <= j < t.static_routes@.len(),
    ensures
        t.child(t.static_routes@[j].0@) == Some(t.static_routes@[j].1),
        t.static_routes@[j].1.wf(),
{
    lemma_wf_node_ok(t);
    let key = t.static_routes@[j].0@;
    assert(!is_variable_segment(key));
    if key == seq![58u8] {
        assert(key[0] == 58u8);
    }
    if key == seq![42u8] {
        assert(key[0] == 42u8);
    }
    let jc = choose|i: int| 0 <= i < t.static_routes@.len() && t.static_routes@[i].0@ == key;
    assert(jc == j);
    lemma_wf_child(t, key);
}

proof fn lemma_stack_pop<'a, H>(
    stack: Seq<(&'a TreeRouter<H>, Branch, (usize, usize))>,
    frames: Seq<Frame<H>>,
)
    requires
        stack_matches(stack, frames),
        frames.len() > 0,
    ensures
        stack.len() == frames.len(),
        stack_matches(stack.drop_last(), frames.drop_last()),
        *stack.last().0 == frames.last().node,
        stack.last().1 == frames.last().branch,
        stack.last().2.0 == frames.last().i,
        stack.last().2.1 == frames.last().v,
{
    reveal(stack_matches);
    assert(stack[stack.len() - 1] == stack.last());
}

proof fn lemma_stack_push<'a, H>(
    stack: Seq<(&'a TreeRouter<H>, Branch, (usize, usize))>,
    frames: Seq<Frame<H>>,
    x: (&'a TreeRouter<H>, Branch, (usize, usize)),
    f: Frame<H>,
)
    requires
        stack_matches(stack, frames),
        *x.0 == f.node,
        x.1 == f.branch,
        x.2.0 == f.i,
        x.2.1 == f.v,
    ensures
        stack_matches(stack.push(x), frames.push(f)),
        stack.push(x).len() == frames.push(f).len(),
{
    reveal(stack_matches);
    assert forall|k: int| 0 <= k < frames.push(f).len() implies {
        &&& *(#[trigger] stack.push(x)[k]).0 == frames.push(f)[k].node
        &&& stack.push(x)[k].1 == frames.push(f)[k].branch
        &&& stack.push(x)[k].2.0 == frames.push(f)[k].i
        &&& stack.push(x)[k].2.1 == frames.push(f)[k].v
    } by {
        if k < frames.len() {
            assert(stack[k] == stack.push(x)[k]);
        }
    }
}

proof fn lemma_frames_pop<H>(
    frames: Seq<Frame<H>>,
    marks: Seq<Option<usize>>,
    i0: int,
    v0: int,
    len: int,
)
    requires
        frames_ok(frames, marks, i0, v0, len),
        frames.len() > 0,
    ensures
        frames_ok(frames.drop_last(), marks, i0, v0, len),
        frame_ok(frames.last(), i0, v0, len),
        forall|p: int| 0 <= p < frames.last().i && p < len ==> #[trigger] frames.last().marks[p] == marks[p],
        forall|k: int| 0 <= k < frames.len() - 1 ==> #[trigger] frames[k].i <= frames.last().i,
{
    reveal(frames_ok);
    let n = frames.len() - 1;
    assert(frames[n] == frames.last());
    assert forall|p: int| 0 <= p < frames.last().i && p < len implies #[trigger] frames.last().marks[p] == marks[p] by {
        assert(frames[n].marks[p] == marks[p]);
    }
    let rest = frames.drop_last();
    assert forall|k: int| 0 <= k < rest.len() implies frame_ok(#[trigger] rest[k], i0, v0, len) by {
        assert(rest[k] == frames[k]);
    }
    assert forall|k: int, p: int| 0 <= k < rest.len() && 0 <= p < rest[k].i && p < len
        implies #[trigger] rest[k].marks[p] == marks[p] by {
        assert(rest[k] == frames[k]);
    }
}

/// The steps left after a pop stay valid when the route's mark at the
/// popped position changes.
proof fn lemma_frames_remark<H>(
    frames: Seq<Frame<H>>,
    marks: Seq<Option<usize>>,
    i0: int,
    v0: int,
    len: int,
    at: int,
    x: Option<usize>,
)
    requires
        frames_ok(frames, marks, i0, v0, len),
        forall|k: int| 0 <= k < frames.len() ==> #[trigger] frames[k].i <= at,
        0 <= at < marks.len(),
    ensures
        frames_ok(frames, marks.update(at, x), i0, v0, len),
{
    reveal(frames_ok);
}

proof fn lemma_frames_extend<H>(
    frames: Seq<Frame<H>>,
    children: Seq<Frame<H>>,
    marks: Seq<Option<usize>>,
    i0: int,
    v0: int,
    len: int,
    at: int,
)
    requires
        frames_ok(frames, marks, i0, v0, len),
        forall|k: int| 0 <= k < frames.len() ==> #[trigger] frames[k].i <= at,
        0 <= at < len,
        marks.len() == len,
        forall|c: int| 0 <= c < children.len() ==> {
            &&& frame_ok(#[trigger] children[c], i0, v0, len)
            &&& children[c].i == at + 1
            &&& children[c].marks[at] == marks[at]
            &&& forall|p: int| 0 <= p < at ==> #[trigger] children[c].marks[p] == marks[p]
        },
    ensures
        frames_ok(frames + children, marks, i0, v0, len),
{
    reveal(frames_ok);
    let all = frames + children;
    assert forall|k: int| 0 <= k < all.len() implies frame_ok(#[trigger] all[k], i0, v0, len) by {
        if k < frames.len() {
            assert(all[k] == frames[k]);
        } else {
            assert(all[k] == children[k - frames.len()]);
        }
    }
    assert forall|k: int, p: int| 0 <= k < all.len() && 0 <= p < all[k].i && p < len
        implies #[trigger] all[k].marks[p] == marks[p] by {
        if k < frames.len() {
            assert(all[k] == frames[k]);
            assert(frames[k].marks[p] == marks[p]);
        } else {
            let c = k - frames.len();
            assert(all[k] == children[c]);
            assert(frame_ok(children[c], i0, v0, len));
            assert(children[c].i == at + 1);
            if p < at {
                assert(children[c].marks[p] == marks[p]);
            } else {
                assert(p == at);
                assert(children[c].marks[at] == marks[at]);
            }
        }
    }
    assert forall|a: int, b: int| 0 <= a <= b < all.len() implies all[a].i <= all[b].i by {
        if b < frames.len() {
            assert(all[a] == frames[a]);
            assert(all[b] == frames[b]);
        } else if a < frames.len() {
            assert(all[a] == frames[a]);
            assert(all[b] == children[b - frames.len()]);
        } else {
            assert(all[a] == children[a - frames.len()]);
            assert(all[b] == children[b - frames.len()]);
        }
    }
}

impl<H> TreeRouter<H> {
    /// The method router at this node.
    pub closed spec fn item_view(self) -> Map<MethodView, (H, Seq<Seq<u8>>)> {
        self.item@
    }

    /// The node has no children.
    pub closed spec fn is_leaf(self) -> bool {
        &&& self.static_routes@.len() == 0
        &&& self.variable_route is None
        &&& self.wildcard_route is None
    }

    /// Whether the search collects hyperlinks.
    pub closed spec fn links_enabled(self) -> bool {
        self.find_hyperlinks
    }

    /// The child for a static segment, if there is one.
    pub closed spec fn static_child(self, key: Seq<u8>) -> Option<TreeRouter<H>> {
        if exists|i: int| 0 <= i < self.static_routes@.len() && self.static_routes@[i].0@ == key {
            let i = choose|i: int| 0 <= i < self.static_routes@.len() && self.static_routes@[i].0@ == key;
            Some(self.static_routes@[i].1)
        } else {
            None
        }
    }

    /// The child under a key: `:` for the variable segment, `*` for the
    /// variable sequence, and any other key for a static segment.
    pub closed spec fn child(self, key: Seq<u8>) -> Option<TreeRouter<H>> {
        if key == seq![58u8] {
            match self.variable_route {
                Some(b) => Some(*b),
                None => None,
            }
        } else if key == seq![42u8] {
            match self.wildcard_route {
                Some(b) => Some(*b),
                None => None,
            }
        } else {
            self.static_child(key)
        }
    }

    /// The node reached by following a path of keys, if there is one.
    pub closed spec fn node_at(self, path: Seq<Seq<u8>>) -> Option<TreeRouter<H>>
        decreases path.len(),
    {
        if path.len() == 0 {
            Some(self)
        } else {
            match self.child(path[0]) {
                Some(c) => c.node_at(path.drop_first()),
                None => None,
            }
        }
    }

    /// The conditions on a single node: its method router is well formed,
    /// and its static keys are distinct and are not variables.
    pub closed spec fn node_ok(self) -> bool {
        &&& self.item.wf()
        &&& forall|i: int, j: int|
            0 <= i < self.static_routes@.len() && 0 <= j < self.static_routes@.len() && i != j
                ==> self.static_routes@[i].0@ != self.static_routes@[j].0@
        &&& forall|i: int|
            0 <= i < self.static_routes@.len() ==> !is_variable_segment(#[trigger] self.static_routes@[i].0@)
    }

    /// The node at a path, if there is one, meets the node conditions.
    pub closed spec fn ok_at(self, path: Seq<Seq<u8>>) -> bool {
        match self.node_at(path) {
            Some(n) => n.node_ok(),
            None => true,
        }
    }

    /// Every node of the tree meets the node conditions.
    #[verifier::opaque]
    pub closed spec fn wf(self) -> bool {
        forall|path: Seq<Seq<u8>>| #[trigger] self.ok_at(path)
    }

    /// The links from this node: to its own handlers for other methods, and
    /// one segment down to each child.
    pub closed spec fn node_links(self, m: MethodView) -> Seq<LinkView<H>> {
        without_method(self.item.links(empty_link()), m)
            + Seq::new(
                self.static_routes@.len(),
                |i: int| child_link(self.static_routes@[i].0@, SegmentType::Static),
            )
            + (if self.variable_route is Some {
                seq![child_link(Seq::empty(), SegmentType::VariableSegment)]
            } else {
                Seq::empty()
            })
            + (if self.wildcard_route is Some {
                seq![child_link(Seq::empty(), SegmentType::VariableSequence)]
            } else {
                Seq::empty()
            })
    }

    /// The search from this node, trying the given branch at position `i`
    /// of the route: one entry per step, and a hit for every node where the
    /// route ends. At each node the static child is tried first, then the
    /// variable child, then the variable sequence, which takes the shortest
    /// number of segments first.
    pub closed spec fn run(
        self,
        br: Branch,
        i: int,
        v: int,
        marks: Seq<Option<usize>>,
        route: Seq<Seq<u8>>,
    ) -> Seq<Option<Hit<H>>>
        decreases self, route.len() - i,
    {
        if i == route.len() {
            seq![Some(Hit { node: self, branch: br, var_index: v, marks })]
        } else if i > route.len() || i < 0 {
            seq![None]
        } else {
            match br {
                Branch::Static => {
                    if exists|j: int| 0 <= j < self.static_routes@.len() && self.static_routes@[j].0@ == route[i] {
                        let j = choose|j: int| 0 <= j < self.static_routes@.len() && self.static_routes@[j].0@ == route[i];
                        proof {
                            assert(decreases_to!(self => self.static_routes));
                        }
                        let c = self.static_routes@[j].1;
                        let m2 = marks.update(i, None);
                        seq![None]
                            + c.run(Branch::Static, i + 1, v, m2, route)
                            + c.run(Branch::Variable, i + 1, v, m2, route)
                            + c.run(Branch::Wildcard, i + 1, v, m2, route)
                    } else {
                        seq![None]
                    }
                },
                Branch::Variable => {
                    match self.variable_route {
                        Some(c) => {
                            let m2 = marks.update(i, Some(v as usize));
                            seq![None]
                                + c.run(Branch::Static, i + 1, v + 1, m2, route)
                                + c.run(Branch::Variable, i + 1, v + 1, m2, route)
                                + c.run(Branch::Wildcard, i + 1, v + 1, m2, route)
                        },
                        None => seq![None],
                    }
                },
                Branch::Wildcard => {
                    match self.wildcard_route {
                        Some(c) => {
                            let m2 = marks.update(i, Some(v as usize));
                            seq![None]
                                + c.run(Branch::Static, i + 1, v + 1, m2, route)
                                + c.run(Branch::Variable, i + 1, v + 1, m2, route)
                                + c.run(Branch::Wildcard, i + 1, v + 1, m2, route)
                                + self.run(Branch::Wildcard, i + 1, v, m2, route)
                        },
                        None => seq![None],
                    }
                },
            }
        }
    }
}


impl<H> TreeRouter<H> {
    /// The whole search from this node, starting at position `i` of the
    /// route with `v` variables taken: the static branch, then the variable
    /// branch, then the variable sequence.
    pub closed spec fn search(
        self,
        route: Seq<Seq<u8>>,
        i: int,
        v: int,
        marks: Seq<Option<usize>>,
    ) -> Seq<Option<Hit<H>>> {
        self.run(Branch::Static, i, v, marks, route) + self.run(Branch::Variable, i, v, marks, route)
            + self.run(Branch::Wildcard, i, v, marks, route)
    }
}

impl<H> TreeRouter<H> {
    /// The position of the static child with the given key.
    fn static_index(&self, key: &[u8]) -> (r: Option<usize>)
        ensures
            match r {
                Some(j) => j < self.static_routes@.len() && self.static_routes@[j as int].0@ == key@,
                None => forall|j: int|
                    0 <= j < self.static_routes@.len() ==> self.static_routes@[j].0@ != key@,
            },
    {
        let mut j: usize = 0;
        while j < self.static_routes.len()
            invariant
                0 <= j <= self.static_routes@.len(),
                forall|k: int| 0 <= k < j ==> self.static_routes@[k].0@ != key@,
            decreases self.static_routes@.len() - j,
        {
            if bytes_eq(self.static_routes[j].0.as_bytes(), key) {
                return Some(j);
            }
            j = j + 1;
        }
        None
    }

    /// The links from this node, as listed by `node_links`.
    fn node_hyperlinks<'a>(&'a self, method: &Method) -> (r: Vec<Link<'a, H>>)
        ensures
            r@.map_values(|l: Link<'a, H>| l@) == self.node_links(method@),
    {
        let ghost m = method@;
        let base: Link<'a, H> = Link { method: None, path: Vec::new(), handler: None };
        proof {
            assert(base@.path =~= Seq::<(Seq<u8>, SegmentType)>::empty());
            assert(base@ == empty_link::<H>());
        }
        let own = self.item.hyperlinks(&base);
        let ghost own_view = own@.map_values(|l: Link<'a, H>| l@);
        let mut r: Vec<Link<'a, H>> = Vec::new();
        let mut i: usize = 0;
        while i < own.len()
            invariant
                0 <= i <= own@.len(),
                own_view == own@.map_values(|l: Link<'a, H>| l@),
                m == method@,
                r@.map_values(|l: Link<'a, H>| l@) == without_method(own_view.take(i as int), m),
            decreases own@.len() - i,
        {
            let l = &own[i];
            let same = match &l.method {
                Some(lm) => lm.same_as(method),
                None => false,
            };
            let ghost before = r@;
            proof {
                assert(own_view.take(i + 1).drop_last() =~= own_view.take(i as int));
                assert(own_view.take(i + 1).last() == own@[i as int]@);
            }
            proof {
                assert(own@[i as int]@.path.len() == own@[i as int].path@.len());
            }
            if !same || own[i].path.len() > 0 {
                r.push(own[i].duplicate());
                proof {
                    assert(r@.map_values(|l: Link<'a, H>| l@) =~= before.map_values(|l: Link<'a, H>| l@).push(own@[i as int]@));
                }
            } else {
                proof {
                    assert(r@.map_values(|l: Link<'a, H>| l@) =~= before.map_values(|l: Link<'a, H>| l@));
                }
            }
            i = i + 1;
        }
        proof {
            assert(own_view.take(own@.len() as int) =~= own_view);
        }
        let ghost filtered = r@.map_values(|l: Link<'a, H>| l@);
        let mut j: usize = 0;
        while j < self.static_routes.len()
            invariant
                0 <= j <= self.static_routes@.len(),
                r@.map_values(|l: Link<'a, H>| l@) == filtered + Seq::new(
                    j as nat,
                    |k: int| child_link::<H>(self.static_routes@[k].0@, SegmentType::Static),
                ),
            decreases self.static_routes@.len() - j,
        {
            let ghost before = r@;
            let seg = LinkSegment { label: self.static_routes[j].0.duplicate(), ty: SegmentType::Static };
            let mut path: Vec<LinkSegment> = Vec::new();
            path.push(seg);
            let link: Link<'a, H> = Link { method: None, path, handler: None };
            proof {
                assert(link@.path =~= seq![(self.static_routes@[j as int].0@, SegmentType::Static)]);
                assert(link@ == child_link::<H>(self.static_routes@[j as int].0@, SegmentType::Static));
            }
            let ghost lv = link@;
            r.push(link);
            proof {
                assert(r@.map_values(|l: Link<'a, H>| l@) =~= before.map_values(|l: Link<'a, H>| l@).push(lv));
                assert(r@.map_values(|l: Link<'a, H>| l@) =~= filtered + Seq::new(
                    (j + 1) as nat,
                    |k: int| child_link::<H>(self.static_routes@[k].0@, SegmentType::Static),
                ));
            }
            j = j + 1;
        }
        let ghost with_static = r@.map_values(|l: Link<'a, H>| l@);
        if self.variable_route.is_some() {
            let mut path: Vec<LinkSegment> = Vec::new();
            path.push(LinkSegment { label: MaybeUtf8::new(), ty: SegmentType::VariableSegment });
            let link: Link<'a, H> = Link { method: None, path, handler: None };
            proof {
                assert(link@.path =~= seq![(Seq::<u8>::empty(), SegmentType::VariableSegment)]);
            }
            r.push(link);
        }
        let ghost with_variable = r@.map_values(|l: Link<'a, H>| l@);
        proof {
            if self.variable_route is Some {
                assert(with_variable =~= with_static + seq![child_link::<H>(Seq::empty(), SegmentType::VariableSegment)]);
            } else {
                assert(with_variable =~= with_static + Seq::<LinkView<H>>::empty());
            }
        }
        if self.wildcard_route.is_some() {
            let mut path: Vec<LinkSegment> = Vec::new();
            path.push(LinkSegment { label: MaybeUtf8::new(), ty: SegmentType::VariableSequence });
            let link: Link<'a, H> = Link { method: None, path, handler: None };
            proof {
                assert(link@.path =~= seq![(Seq::<u8>::empty(), SegmentType::VariableSequence)]);
            }
            r.push(link);
        }
        proof {
            let fin = r@.map_values(|l: Link<'a, H>| l@);
            if self.wildcard_route is Some {
                assert(fin =~= with_variable + seq![child_link::<H>(Seq::empty(), SegmentType::VariableSequence)]);
            } else {
                assert(fin =~= with_variable + Seq::<LinkView<H>>::empty());
            }
            assert(fin =~= self.node_links(m));
        }
        r
    }
}

impl<H> TreeRouter<H> {
    /// Take one step from a node where the route is not exhausted: put
    /// aside the children to try, in the order they are to be tried.
    #[verifier::rlimit(80)]
    fn expand<'a>(
        current: &'a TreeRouter<H>,
        branch: Branch,
        route: &mut RouteState,
        stack: &mut Vec<(&'a TreeRouter<H>, Branch, (usize, usize))>,
        Ghost(rest): Ghost<Seq<Frame<H>>>,
        Ghost(f): Ghost<Frame<H>>,
        Ghost(i0): Ghost<int>,
        Ghost(v0): Ghost<int>,
    ) -> (frames: Ghost<Seq<Frame<H>>>)
        requires
            *current == f.node,
            branch == f.branch,
            old(route).wf(),
            old(route).position() == f.i,
            old(route).var_position() == f.v,
            0 <= f.i < old(route).segments_view().len(),
            0 <= i0,
            0 <= v0,
            v0 + old(route).segments_view().len() <= usize::MAX,
            stack_matches(old(stack)@, rest),
            frames_ok(rest, old(route).marks(), i0, v0, old(route).segments_view().len() as int),
            forall|k: int| 0 <= k < rest.len() ==> #[trigger] rest[k].i <= f.i,
            frame_ok(f, i0, v0, old(route).segments_view().len() as int),
            forall|p: int| 0 <= p < f.i ==> #[trigger] f.marks[p] == old(route).marks()[p],
        ensures
            final(route).wf(),
            final(route).segments_view() == old(route).segments_view(),
            stack_matches(final(stack)@, frames@),
            final(stack)@.len() == frames@.len(),
            frames_ok(frames@, final(route).marks(), i0, v0, old(route).segments_view().len() as int),
            seq![None::<Hit<H>>] + pending(frames@, old(route).segments_view())
                == f.node.run(f.branch, f.i, f.v, f.marks, old(route).segments_view())
                + pending(rest, old(route).segments_view()),
    {
        let ghost segs = route.segments_view();
        let ghost len = segs.len() as int;
        let ghost i = f.i;
        let ghost v = f.v;
        let ghost marks0 = route.marks();
        let segment = route.get().unwrap();
        proof {
            assert(segment@ == segs[i]);
            assert(f.node.wf());
        }
        match branch {
            Branch::Static => {
                match current.static_index(segment) {
                    Some(j) => {
                        let next = &current.static_routes[j].1;
                        route.skip();
                        let snap = route.snapshot();
                        let ghost m2 = f.marks.update(i, None);
                        let ghost c = *next;
                        let ghost a = Frame { node: c, branch: Branch::Wildcard, i: i + 1, v: v, marks: m2 };
                        let ghost b = Frame { node: c, branch: Branch::Variable, i: i + 1, v: v, marks: m2 };
                        let ghost d = Frame { node: c, branch: Branch::Static, i: i + 1, v: v, marks: m2 };
                        proof {
                            lemma_stack_push(stack@, rest, (next, Branch::Wildcard, snap), a);
                            lemma_stack_push(stack@.push((next, Branch::Wildcard, snap)), rest.push(a), (next, Branch::Variable, snap), b);
                            lemma_stack_push(stack@.push((next, Branch::Wildcard, snap)).push((next, Branch::Variable, snap)), rest.push(a).push(b), (next, Branch::Static, snap), d);
                        }
                        stack.push((next, Branch::Wildcard, snap));
                        stack.push((next, Branch::Variable, snap));
                        stack.push((next, Branch::Static, snap));
                        proof {
                            lemma_wf_node_ok(f.node);
                            let jc = choose|jj: int| 0 <= jj < f.node.static_routes@.len() && f.node.static_routes@[jj].0@ == segs[i];
                            assert(f.node.static_routes@[j as int].0@ == segs[i]);
                            assert(jc == j);
                            assert(c == f.node.static_routes@[j as int].1);
                            lemma_static_child(f.node, j as int);
                            assert(f.node.run(f.branch, i, v, f.marks, segs) =~= seq![None]
                                + c.run(Branch::Static, i + 1, v, m2, segs)
                                + c.run(Branch::Variable, i + 1, v, m2, segs)
                                + c.run(Branch::Wildcard, i + 1, v, m2, segs));
                            lemma_pending_push(rest, a, segs);
                            lemma_pending_push(rest.push(a), b, segs);
                            lemma_pending_push(rest.push(a).push(b), d, segs);
                            lemma_frames_remark(rest, marks0, i0, v0, len, i, None);
                            let children = seq![a, b, d];
                            lemma_frames_extend(rest, children, route.marks(), i0, v0, len, i);
                            assert(rest + children =~= rest.push(a).push(b).push(d));
                        }
                        Ghost(rest.push(a).push(b).push(d))
                    },
                    None => {
                        proof {
                            assert(f.node.run(f.branch, i, v, f.marks, segs) =~= seq![None]);
                            reveal(stack_matches);
                        }
                        Ghost(rest)
                    },
                }
            },
            Branch::Variable => {
                match &current.variable_route {
                    Some(next) => {
                        route.keep();
                        let snap = route.snapshot();
                        let ghost m2 = f.marks.update(i, Some(v as usize));
                        let ghost c = **next;
                        let ghost a = Frame { node: c, branch: Branch::Wildcard, i: i + 1, v: v + 1, marks: m2 };
                        let ghost b = Frame { node: c, branch: Branch::Variable, i: i + 1, v: v + 1, marks: m2 };
                        let ghost d = Frame { node: c, branch: Branch::Static, i: i + 1, v: v + 1, marks: m2 };
                        proof {
                            lemma_stack_push(stack@, rest, (&**next, Branch::Wildcard, snap), a);
                            lemma_stack_push(stack@.push((&**next, Branch::Wildcard, snap)), rest.push(a), (&**next, Branch::Variable, snap), b);
                            lemma_stack_push(stack@.push((&**next, Branch::Wildcard, snap)).push((&**next, Branch::Variable, snap)), rest.push(a).push(b), (&**next, Branch::Static, snap), d);
                        }
                        stack.push((&**next, Branch::Wildcard, snap));
                        stack.push((&**next, Branch::Variable, snap));
                        stack.push((&**next, Branch::Static, snap));
                        proof {
                            assert(f.node.variable_route == Some(*next));
                            assert(f.node.child(seq![58u8]) == Some(c));
                            lemma_wf_child(f.node, seq![58u8]);
                            assert(f.node.run(f.branch, i, v, f.marks, segs) =~= seq![None]
                                + c.run(Branch::Static, i + 1, v + 1, m2, segs)
                                + c.run(Branch::Variable, i + 1, v + 1, m2, segs)
                                + c.run(Branch::Wildcard, i + 1, v + 1, m2, segs));
                            lemma_pending_push(rest, a, segs);
                            lemma_pending_push(rest.push(a), b, segs);
                            lemma_pending_push(rest.push(a).push(b), d, segs);
                            lemma_frames_remark(rest, marks0, i0, v0, len, i, Some(v as usize));
                            let children = seq![a, b, d];
                            lemma_frames_extend(rest, children, route.marks(), i0, v0, len, i);
                            assert(rest + children =~= rest.push(a).push(b).push(d));
                        }
                        Ghost(rest.push(a).push(b).push(d))
                    },
                    None => {
                        proof {
                            assert(f.node.run(f.branch, i, v, f.marks, segs) =~= seq![None]);
                            reveal(stack_matches);
                        }
                        Ghost(rest)
                    },
                }
            },
            Branch::Wildcard => {
                match &current.wildcard_route {
                    Some(next) => {
                        let start = route.snapshot();
                        route.fuse();
                        let s1 = route.snapshot();
                        route.go_to(start);
                        route.keep();
                        let snap = route.snapshot();
                        let ghost m2 = f.marks.update(i, Some(v as usize));
                        let ghost c = **next;
                        let ghost e = Frame { node: f.node, branch: Branch::Wildcard, i: i + 1, v: v, marks: m2 };
                        let ghost a = Frame { node: c, branch: Branch::Wildcard, i: i + 1, v: v + 1, marks: m2 };
                        let ghost b = Frame { node: c, branch: Branch::Variable, i: i + 1, v: v + 1, marks: m2 };
                        let ghost d = Frame { node: c, branch: Branch::Static, i: i + 1, v: v + 1, marks: m2 };
                        proof {
                            lemma_stack_push(stack@, rest, (current, Branch::Wildcard, s1), e);
                            lemma_stack_push(stack@.push((current, Branch::Wildcard, s1)), rest.push(e), (&**next, Branch::Wildcard, snap), a);
                            lemma_stack_push(stack@.push((current, Branch::Wildcard, s1)).push((&**next, Branch::Wildcard, snap)), rest.push(e).push(a), (&**next, Branch::Variable, snap), b);
                            lemma_stack_push(stack@.push((current, Branch::Wildcard, s1)).push((&**next, Branch::Wildcard, snap)).push((&**next, Branch::Variable, snap)), rest.push(e).push(a).push(b), (&**next, Branch::Static, snap), d);
                        }
                        stack.push((current, Branch::Wildcard, s1));
                        stack.push((&**next, Branch::Wildcard, snap));
                        stack.push((&**next, Branch::Variable, snap));
                        stack.push((&**next, Branch::Static, snap));
                        proof {
                            assert(f.node.wildcard_route == Some(*next));
                            assert(seq![42u8] != seq![58u8]) by {
                                assert(seq![42u8][0] != seq![58u8][0]);
                            }
                            assert(f.node.child(seq![42u8]) == Some(c));
                            lemma_wf_child(f.node, seq![42u8]);
                            assert(f.node.run(f.branch, i, v, f.marks, segs) =~= seq![None]
                                + c.run(Branch::Static, i + 1, v + 1, m2, segs)
                                + c.run(Branch::Variable, i + 1, v + 1, m2, segs)
                                + c.run(Branch::Wildcard, i + 1, v + 1, m2, segs)
                                + f.node.run(Branch::Wildcard, i + 1, v, m2, segs));
                            lemma_pending_push(rest, e, segs);
                            lemma_pending_push(rest.push(e), a, segs);
                            lemma_pending_push(rest.push(e).push(a), b, segs);
                            lemma_pending_push(rest.push(e).push(a).push(b), d, segs);
                            lemma_frames_remark(rest, marks0, i0, v0, len, i, Some(v as usize));
                            assert(route.marks() =~= marks0.update(i, Some(v as usize)));
                            let children = seq![e, a, b, d];
                            lemma_frames_extend(rest, children, route.marks(), i0, v0, len, i);
                            assert(rest + children =~= rest.push(e).push(a).push(b).push(d));
                        }
                        Ghost(rest.push(e).push(a).push(b).push(d))
                    },
                    None => {
                        proof {
                            assert(f.node.run(f.branch, i, v, f.marks, segs) =~= seq![None]);
                            reveal(stack_matches);
                        }
                        Ghost(rest)
                    },
                }
            },
        }
    }

    /// Find the endpoint for a method and the rest of a route.
    ///
    /// The tree is searched depth first, trying static children before
    /// variable segments before variable sequences. The handler comes from
    /// the first node where the route ends and that has a handler for the
    /// method, with the variables collected on the way there. When
    /// `find_hyperlinks` is set, the links of every node reached through a
    /// static branch are collected as well, up to that node.
    pub fn find<'a>(&'a self, method: &Method, route: &mut RouteState) -> (r: Endpoint<'a, H>)
        requires
            self.wf(),
            old(route).wf(),
            old(route).var_position() + old(route).segments_view().len() <= usize::MAX,
        ensures
            final(route).wf(),
            final(route).segments_view() == old(route).segments_view(),
            r.variables.wf(),
            handler_view(r.handler) == outcome_handler(
                self.search(old(route).segments_view(), old(route).position(), old(route).var_position(), old(route).marks()),
                method@,
            ),
            r.variables@ == outcome_variables(
                self.search(old(route).segments_view(), old(route).position(), old(route).var_position(), old(route).marks()),
                method@,
                old(route).segments_view(),
            ),
            r.hyperlinks@.map_values(|l: Link<'a, H>| l@) == if self.links_enabled() {
                hit_links(
                    self.search(old(route).segments_view(), old(route).position(), old(route).var_position(), old(route).marks()),
                    method@,
                )
            } else {
                Seq::empty()
            },
    {
        let ghost segs = route.segments_view();
        let ghost m = method@;
        let ghost i0 = route.position();
        let ghost v0 = route.var_position();
        let ghost len = segs.len() as int;
        let ghost all = self.search(segs, i0, v0, route.marks());
        let now = route.snapshot();
        let mut stack: Vec<(&'a TreeRouter<H>, Branch, (usize, usize))> = Vec::new();
        let ghost fw = Frame { node: *self, branch: Branch::Wildcard, i: i0, v: v0, marks: route.marks() };
        let ghost fv = Frame { node: *self, branch: Branch::Variable, i: i0, v: v0, marks: route.marks() };
        let ghost fs = Frame { node: *self, branch: Branch::Static, i: i0, v: v0, marks: route.marks() };
        let ghost e0 = Seq::<Frame<H>>::empty();
        proof {
            reveal(stack_matches);
            assert(stack_matches(stack@, e0));
        }
        stack.push((self, Branch::Wildcard, now));
        proof { lemma_stack_push(Seq::empty(), e0, (self, Branch::Wildcard, now), fw); }
        stack.push((self, Branch::Variable, now));
        proof { lemma_stack_push(seq![(self, Branch::Wildcard, now)], e0.push(fw), (self, Branch::Variable, now), fv); }
        stack.push((self, Branch::Static, now));
        proof {
            lemma_stack_push(seq![(self, Branch::Wildcard, now)].push((self, Branch::Variable, now)), e0.push(fw).push(fv), (self, Branch::Static, now), fs);
            assert(stack@ =~= seq![(self, Branch::Wildcard, now)].push((self, Branch::Variable, now)).push((self, Branch::Static, now)));
        }
        let ghost mut frames: Seq<Frame<H>> = e0.push(fw).push(fv).push(fs);
        let ghost mut done: Seq<Option<Hit<H>>> = Seq::empty();
        let mut result: Endpoint<'a, H> = Endpoint::none();
        proof {
            lemma_pending_push(e0.push(fw).push(fv), fs, segs);
            lemma_pending_push(e0.push(fw), fv, segs);
            lemma_pending_push(e0, fw, segs);
            assert(done + pending(frames, segs) =~= all);
            assert(hit_links(done, m) =~= Seq::<LinkView<H>>::empty());
            assert(result.hyperlinks@.map_values(|l: Link<'a, H>| l@) =~= Seq::<LinkView<H>>::empty());
            reveal(frames_ok);
            assert(frames_ok(frames, route.marks(), i0, v0, len));
        }
        while stack.len() > 0
            invariant
                self.wf(),
                route.wf(),
                route.segments_view() == segs,
                segs == old(route).segments_view(),
                all == self.search(old(route).segments_view(), old(route).position(), old(route).var_position(), old(route).marks()),
                len == segs.len(),
                m == method@,
                0 <= i0,
                0 <= v0,
                v0 + len <= usize::MAX,
                stack@.len() == frames.len(),
                stack_matches(stack@, frames),
                frames_ok(frames, route.marks(), i0, v0, len),
                done + pending(frames, segs) == all,
                result.variables.wf(),
                handler_view(result.handler) == outcome_handler(done, m),
                result.variables@ == outcome_variables(done, m, segs),
                result.hyperlinks@.map_values(|l: Link<'a, H>| l@) == if self.find_hyperlinks {
                    hit_links(done, m)
                } else {
                    Seq::empty()
                },
            decreases all.len() - done.len(),
        {
            proof {
                lemma_first_handler_bound(done, m);
                lemma_stack_pop(stack@, frames);
                lemma_frames_pop(frames, route.marks(), i0, v0, len);
            }
            let ghost f = frames.last();
            let ghost rest = frames.drop_last();
            let ghost done_before = done;
            let top = stack.pop();
            let (current, branch, snapshot) = top.unwrap();
            proof {
                assert(frames =~= rest.push(f));
                lemma_pending_push(rest, f, segs);
                frames = rest;
            }
            route.go_to(snapshot);
            if route.is_empty() && result.handler.is_none() {
                proof {
                    lemma_wf_node_ok(f.node);
                }
                let endpoint = current.item.find(method, route);
                let ghost x = Some(Hit { node: f.node, branch: f.branch, var_index: f.v, marks: f.marks });
                proof {
                    assert(route.marks() =~= f.marks);
                    assert(f.node.run(f.branch, f.i, f.v, f.marks, segs) =~= seq![x]);
                    done = done.push(x);
                    assert(done.drop_last() =~= done_before);
                    assert(done + pending(frames, segs) =~= all);
                }
                if endpoint.handler.is_some() {
                    result.handler = endpoint.handler;
                    result.variables = endpoint.variables;
                    if !self.find_hyperlinks {
                        proof {
                            lemma_found_prefix(done, pending(frames, segs), m);
                        }
                        return result;
                    }
                } else if !self.find_hyperlinks {
                    continue;
                }
                match branch {
                    Branch::Static => {
                        let mut links = current.node_hyperlinks(method);
                        let ghost before = result.hyperlinks@;
                        result.hyperlinks.append(&mut links);
                        proof {
                            assert(result.hyperlinks@.map_values(|l: Link<'a, H>| l@) =~= before.map_values(|l: Link<'a, H>| l@) + f.node.node_links(m));
                        }
                    },
                    _ => {},
                }
            } else {
                match route.get() {
                    Some(_) => {
                        let Ghost(new_frames) = TreeRouter::expand(current, branch, route, &mut stack, Ghost(frames), Ghost(f), Ghost(i0), Ghost(v0));
                        proof {
                            frames = new_frames;
                            done = done.push(None);
                            assert(done.drop_last() =~= done_before);
                            assert(done + pending(frames, segs) =~= all);
                        }
                    },
                    None => {
                        let ghost x = f.node.run(f.branch, f.i, f.v, f.marks, segs)[0];
                        proof {
                            assert(f.node.run(f.branch, f.i, f.v, f.marks, segs) =~= seq![x]);
                            done = done.push(x);
                            assert(done.drop_last() =~= done_before);
                            assert(done + pending(frames, segs) =~= all);
                        }
                    },
                }
            }
        }
        proof {
            assert(done =~= all);
        }
        result
    }
}

/// Whether `p` is a prefix of `q`.
pub open spec fn is_prefix<T>(p: Seq<T>, q: Seq<T>) -> bool {
    p.len() <= q.len() && q.take(p.len() as int) == p
}

/// The key under which a route segment is stored: a variable is known by
/// its indicator alone, a static segment by all of its bytes.
pub open spec fn pattern_key(segment: Seq<u8>) -> Seq<u8> {
    if is_variable_segment(segment) {
        seq![segment[0]]
    } else {
        segment
    }
}

/// The keys of a route's segments.
pub open spec fn pattern(segments: Seq<Seq<u8>>) -> Seq<Seq<u8>> {
    segments.map_values(|s: Seq<u8>| pattern_key(s))
}

/// The method maps of a tree after a handler is set for a method at a path:
/// the nodes on the way are created with no handlers where they are
/// missing, and the method is set at the path's node, replacing any earlier
/// handler for it.
pub open spec fn inserted_at<H>(
    items: Map<Seq<Seq<u8>>, Map<MethodView, (H, Seq<Seq<u8>>)>>,
    q: Seq<Seq<u8>>,
    m: MethodView,
    v: (H, Seq<Seq<u8>>),
) -> Map<Seq<Seq<u8>>, Map<MethodView, (H, Seq<Seq<u8>>)>> {
    Map::new(
        |p: Seq<Seq<u8>>| items.dom().contains(p) || is_prefix(p, q),
        |p: Seq<Seq<u8>>|
            if p == q {
                (if items.dom().contains(q) { items[q] } else { Map::empty() }).insert(m, v)
            } else if items.dom().contains(p) {
                items[p]
            } else {
                Map::empty()
            },
    )
}

/// The method maps of a single node with no handlers.
pub open spec fn empty_items<H>() -> Map<Seq<Seq<u8>>, Map<MethodView, (H, Seq<Seq<u8>>)>> {
    Map::empty().insert(Seq::empty(), Map::empty())
}

impl<H> TreeRouter<H> {
    /// The method map of every node, by the path of keys that leads to it.
    pub closed spec fn items(self) -> Map<Seq<Seq<u8>>, Map<MethodView, (H, Seq<Seq<u8>>)>> {
        Map::new(
            |p: Seq<Seq<u8>>| self.node_at(p) is Some,
            |p: Seq<Seq<u8>>| self.node_at(p)->0.item_view(),
        )
    }

    /// The method maps below a child, or those of a new empty node.
    pub closed spec fn child_items(self, key: Seq<u8>) -> Map<Seq<Seq<u8>>, Map<MethodView, (H, Seq<Seq<u8>>)>> {
        match self.child(key) {
            Some(c) => c.items(),
            None => empty_items(),
        }
    }
}

proof fn lemma_node_at_cons<H>(t: TreeRouter<H>, k: Seq<u8>, p: Seq<Seq<u8>>)
    ensures
        t.node_at(seq![k] + p) == match t.child(k) {
            Some(c) => c.node_at(p),
            None => None,
        },
{
    let q = seq![k] + p;
    assert(q[0] == k);
    assert(q.drop_first() =~= p);
}

/// A tree's method maps are those of its root and of its children.
proof fn lemma_items_split<H>(t: TreeRouter<H>, p: Seq<Seq<u8>>)
    ensures
        p.len() == 0 ==> t.items().dom().contains(p) && t.items()[p] == t.item_view(),
        p.len() > 0 ==> {
            &&& t.items().dom().contains(p) <==> (t.child(p[0]) is Some
                && t.child(p[0])->0.items().dom().contains(p.drop_first()))
            &&& t.items().dom().contains(p) ==> t.items()[p] == t.child(p[0])->0.items()[p.drop_first()]
        },
{
}

/// Replacing one child of a node, and nothing else, changes the method
/// maps below that child only.
proof fn lemma_items_replace_child<H>(
    old: TreeRouter<H>,
    new: TreeRouter<H>,
    k: Seq<u8>,
    nc: TreeRouter<H>,
    q: Seq<Seq<u8>>,
    m: MethodView,
    v: (H, Seq<Seq<u8>>),
)
    requires
        new.item_view() == old.item_view(),
        new.child(k) == Some(nc),
        forall|k2: Seq<u8>| k2 != k ==> #[trigger] new.child(k2) == old.child(k2),
        nc.items() == inserted_at(old.child_items(k), q, m, v),
    ensures
        new.items() == inserted_at(old.items(), seq![k] + q, m, v),
{
    let target = inserted_at(old.items(), seq![k] + q, m, v);
    let kq = seq![k] + q;
    assert(kq[0] == k);
    assert(kq.drop_first() =~= q);
    assert forall|p: Seq<Seq<u8>>| #[trigger] new.items().dom().contains(p) <==> target.dom().contains(p) by {
        lemma_items_split(new, p);
        lemma_items_split(old, p);
        if p.len() == 0 {
            assert(is_prefix(p, kq)) by {
                assert(kq.take(0) =~= p);
            }
        } else if p[0] == k {
            let p1 = p.drop_first();
            assert(p =~= seq![k] + p1);
            assert(is_prefix(p, kq) <==> is_prefix(p1, q)) by {
                if p.len() <= kq.len() {
                    let x = q.take(p1.len() as int);
                    assert(kq.take(p.len() as int) =~= seq![k] + x);
                    if x == p1 {
                        assert(seq![k] + x =~= p);
                    }
                    if kq.take(p.len() as int) == p {
                        assert((seq![k] + x).drop_first() =~= x);
                        assert(p.drop_first() =~= p1);
                    }
                }
            }
            if old.child(k) is None {
                assert(empty_items::<H>().dom().contains(p1) ==> p1.len() == 0);
                if p1.len() == 0 {
                    assert(q.take(0) =~= p1);
                }
            }
        } else {
            assert(!is_prefix(p, kq)) by {
                if p.len() <= kq.len() {
                    assert(kq.take(p.len() as int)[0] == k);
                }
            }
        }
    }
    assert forall|p: Seq<Seq<u8>>| #[trigger] new.items().dom().contains(p) implies new.items()[p] == target[p] by {
        lemma_items_split(new, p);
        lemma_items_split(old, p);
        if p.len() == 0 {
            assert(p != kq);
        } else if p[0] == k {
            let p1 = p.drop_first();
            assert(p =~= seq![k] + p1);
            assert(p == kq <==> p1 == q) by {
                if p1 == q {
                    assert(p =~= kq);
                }
                if p == kq {
                    assert(p1 =~= q);
                }
            }
            if old.child(k) is None {
                assert(!old.items().dom().contains(p));
                if p1 != q && !empty_items::<H>().dom().contains(p1) {
                    assert(!old.items().dom().contains(p));
                }
            }
        } else {
            assert(p != kq);
        }
    }
    assert(new.items() =~= target);
}

/// Setting the method map of the root, and nothing else, changes the
/// method map at the empty path only.
proof fn lemma_items_set_root<H>(
    old: TreeRouter<H>,
    new: TreeRouter<H>,
    m: MethodView,
    v: (H, Seq<Seq<u8>>),
)
    requires
        new.item_view() == old.item_view().insert(m, v),
        forall|k: Seq<u8>| #[trigger] new.child(k) == old.child(k),
    ensures
        new.items() == inserted_at(old.items(), Seq::empty(), m, v),
{
    let target = inserted_at(old.items(), Seq::empty(), m, v);
    assert forall|p: Seq<Seq<u8>>| #[trigger] new.items().dom().contains(p) <==> target.dom().contains(p) by {
        lemma_items_split(new, p);
        lemma_items_split(old, p);
        if p.len() == 0 {
            assert(p =~= Seq::<Seq<u8>>::empty());
        } else {
            assert(!is_prefix(p, Seq::<Seq<u8>>::empty()));
        }
    }
    assert forall|p: Seq<Seq<u8>>| #[trigger] new.items().dom().contains(p) implies new.items()[p] == target[p] by {
        lemma_items_split(new, p);
        lemma_items_split(old, p);
        if p.len() == 0 {
            assert(p =~= Seq::<Seq<u8>>::empty());
        }
    }
    assert(new.items() =~= target);
}

/// A node that meets the node conditions and whose children are well
/// formed is well formed.
proof fn lemma_wf_from_children<H>(t: TreeRouter<H>)
    requires
        t.node_ok(),
        forall|k: Seq<u8>| #[trigger] t.child(k) is Some ==> t.child(k)->0.wf(),
    ensures
        t.wf(),
{
    reveal(TreeRouter::wf);
    assert forall|p: Seq<Seq<u8>>| #[trigger] t.ok_at(p) by {
        if p.len() > 0 {
            let k = p[0];
            if t.child(k) is Some {
                let c = t.child(k)->0;
                assert(c.wf());
                assert(c.ok_at(p.drop_first()));
            }
        }
    }
}

/// Replacing the child under the static key at position `j`.
proof fn lemma_child_static_set<H>(old: TreeRouter<H>, new: TreeRouter<H>, j: int, nc: TreeRouter<H>)
    requires
        old.node_ok(),
        0 <= j < old.static_routes@.len(),
        new.static_routes@ == old.static_routes@.update(j, (old.static_routes@[j].0, nc)),
        new.variable_route == old.variable_route,
        new.wildcard_route == old.wildcard_route,
    ensures
        new.child(old.static_routes@[j].0@) == Some(nc),
        forall|k2: Seq<u8>| k2 != old.static_routes@[j].0@ ==> #[trigger] new.child(k2) == old.child(k2),
        forall|i: int, i2: int|
            0 <= i < new.static_routes@.len() && 0 <= i2 < new.static_routes@.len() && i != i2
                ==> new.static_routes@[i].0@ != new.static_routes@[i2].0@,
        forall|i: int|
            0 <= i < new.static_routes@.len() ==> !is_variable_segment(#[trigger] new.static_routes@[i].0@),
{
    let key = old.static_routes@[j].0@;
    assert(new.static_routes@[j].0@ == key);
    assert(!is_variable_segment(key));
    if key == seq![58u8] {
        assert(key[0] == 58u8);
    }
    if key == seq![42u8] {
        assert(key[0] == 42u8);
    }
    let jc = choose|i: int| 0 <= i < new.static_routes@.len() && new.static_routes@[i].0@ == key;
    assert(jc == j);
    assert forall|k2: Seq<u8>| k2 != key implies #[trigger] new.child(k2) == old.child(k2) by {
        if k2 != seq![58u8] && k2 != seq![42u8] {
            if exists|i: int| 0 <= i < old.static_routes@.len() && old.static_routes@[i].0@ == k2 {
                let i1 = choose|i: int| 0 <= i < old.static_routes@.len() && old.static_routes@[i].0@ == k2;
                assert(new.static_routes@[i1].0@ == k2);
                let i2 = choose|i: int| 0 <= i < new.static_routes@.len() && new.static_routes@[i].0@ == k2;
                assert(old.static_routes@[i2].0@ == k2);
                assert(i1 == i2);
            } else {
                assert forall|i: int| 0 <= i < new.static_routes@.len() implies new.static_routes@[i].0@ != k2 by {
                    assert(old.static_routes@[i].0@ == new.static_routes@[i].0@);
                }
            }
        }
    }
    assert forall|i: int| 0 <= i < new.static_routes@.len() implies !is_variable_segment(#[trigger] new.static_routes@[i].0@) by {
        assert(old.static_routes@[i].0@ == new.static_routes@[i].0@);
    }
    assert forall|i: int, i2: int|
        0 <= i < new.static_routes@.len() && 0 <= i2 < new.static_routes@.len() && i != i2
            implies new.static_routes@[i].0@ != new.static_routes@[i2].0@ by {
        assert(old.static_routes@[i].0@ == new.static_routes@[i].0@);
        assert(old.static_routes@[i2].0@ == new.static_routes@[i2].0@);
    }
}

/// Adding a child under a new static key.
proof fn lemma_child_static_push<H>(old: TreeRouter<H>, new: TreeRouter<H>, kk: MaybeUtf8, nc: TreeRouter<H>)
    requires
        old.node_ok(),
        forall|i: int| 0 <= i < old.static_routes@.len() ==> old.static_routes@[i].0@ != kk@,
        !is_variable_segment(kk@),
        new.static_routes@ == old.static_routes@.push((kk, nc)),
        new.variable_route == old.variable_route,
        new.wildcard_route == old.wildcard_route,
    ensures
        new.child(kk@) == Some(nc),
        old.child(kk@) is None,
        forall|k2: Seq<u8>| k2 != kk@ ==> #[trigger] new.child(k2) == old.child(k2),
        forall|i: int, i2: int|
            0 <= i < new.static_routes@.len() && 0 <= i2 < new.static_routes@.len() && i != i2
                ==> new.static_routes@[i].0@ != new.static_routes@[i2].0@,
        forall|i: int|
            0 <= i < new.static_routes@.len() ==> !is_variable_segment(#[trigger] new.static_routes@[i].0@),
{
    let key = kk@;
    let n = old.static_routes@.len() as int;
    if key == seq![58u8] {
        assert(key[0] == 58u8);
    }
    if key == seq![42u8] {
        assert(key[0] == 42u8);
    }
    assert(new.static_routes@[n].0@ == key);
    let jc = choose|i: int| 0 <= i < new.static_routes@.len() && new.static_routes@[i].0@ == key;
    assert(jc == n);
    assert forall|k2: Seq<u8>| k2 != key implies #[trigger] new.child(k2) == old.child(k2) by {
        if k2 != seq![58u8] && k2 != seq![42u8] {
            if exists|i: int| 0 <= i < old.static_routes@.len() && old.static_routes@[i].0@ == k2 {
                let i1 = choose|i: int| 0 <= i < old.static_routes@.len() && old.static_routes@[i].0@ == k2;
                assert(new.static_routes@[i1].0@ == k2);
                let i2 = choose|i: int| 0 <= i < new.static_routes@.len() && new.static_routes@[i].0@ == k2;
                assert(i2 != n);
                assert(old.static_routes@[i2].0@ == k2);
                assert(i1 == i2);
            } else {
                assert forall|i: int| 0 <= i < new.static_routes@.len() implies new.static_routes@[i].0@ != k2 by {
                    if i < n {
                        assert(old.static_routes@[i].0@ == new.static_routes@[i].0@);
                    }
                }
            }
        }
    }
    assert forall|i: int| 0 <= i < new.static_routes@.len() implies !is_variable_segment(#[trigger] new.static_routes@[i].0@) by {
        if i < n {
            assert(old.static_routes@[i].0@ == new.static_routes@[i].0@);
        }
    }
    assert forall|i: int, i2: int|
        0 <= i < new.static_routes@.len() && 0 <= i2 < new.static_routes@.len() && i != i2
            implies new.static_routes@[i].0@ != new.static_routes@[i2].0@ by {
        if i < n {
            assert(old.static_routes@[i].0@ == new.static_routes@[i].0@);
        }
        if i2 < n {
            assert(old.static_routes@[i2].0@ == new.static_routes@[i2].0@);
        }
    }
}

/// Replacing the variable segment's child or the variable sequence's child.
proof fn lemma_child_variable_set<H>(old: TreeRouter<H>, new: TreeRouter<H>, wildcard: bool, nc: TreeRouter<H>)
    requires
        new.static_routes == old.static_routes,
        wildcard ==> new.variable_route == old.variable_route,
        wildcard ==> (new.wildcard_route matches Some(b) && *b == nc),
        !wildcard ==> new.wildcard_route == old.wildcard_route,
        !wildcard ==> (new.variable_route matches Some(b) && *b == nc),
    ensures
        new.child(if wildcard { seq![42u8] } else { seq![58u8] }) == Some(nc),
        forall|k2: Seq<u8>| k2 != (if wildcard { seq![42u8] } else { seq![58u8] }) ==> #[trigger] new.child(k2) == old.child(k2),
{
    assert(seq![42u8] != seq![58u8]) by {
        assert(seq![42u8][0] != seq![58u8][0]);
    }
}

/// The keys of a route's segments from a position on.
proof fn lemma_pattern_step(segs: Seq<Seq<u8>>, i: int)
    requires
        0 <= i < segs.len(),
    ensures
        pattern(segs.skip(i)) == seq![pattern_key(segs[i])] + pattern(segs.skip(i + 1)),
{
    assert(pattern(segs.skip(i)) =~= seq![pattern_key(segs[i])] + pattern(segs.skip(i + 1)));
}

impl<H> TreeRouter<H> {
    /// Create an empty `TreeRouter`, which selects handlers based on path
    /// and then HTTP method, and collects any variables on the way.
    pub fn new() -> (r: TreeRouter<H>)
        ensures
            r.wf(),
            r.items() == empty_items::<H>(),
            r.item_view() == Map::<MethodView, (H, Seq<Seq<u8>>)>::empty(),
            r.is_leaf(),
            !r.links_enabled(),
    {
        let r = TreeRouter {
            item: MethodRouter::new(),
            static_routes: Vec::new(),
            variable_route: None,
            wildcard_route: None,
            find_hyperlinks: false,
        };
        proof {
            assert forall|k: Seq<u8>| #[trigger] r.child(k) is None by {}
            assert(r.node_ok());
            lemma_wf_from_children(r);
            assert forall|p: Seq<Seq<u8>>| #[trigger] r.items().dom().contains(p) <==> empty_items::<H>().dom().contains(p) by {
                lemma_items_split(r, p);
                if p.len() == 0 {
                    assert(p =~= Seq::<Seq<u8>>::empty());
                }
            }
            assert forall|p: Seq<Seq<u8>>| #[trigger] r.items().dom().contains(p) implies r.items()[p] == empty_items::<H>()[p] by {
                lemma_items_split(r, p);
                assert(r.item@ =~= Map::<MethodView, (H, Seq<Seq<u8>>)>::empty());
                if p.len() == 0 {
                    assert(p =~= Seq::<Seq<u8>>::empty());
                }
            }
            assert(r.items() =~= empty_items::<H>());
        }
        r
    }

    /// Walk the rest of the route, creating the nodes that are missing, and
    /// insert the handler at the node where it ends.
    fn insert_rec(&mut self, route: InsertState, method: Method, item: H)
        requires
            old(self).wf(),
            route.wf(),
        ensures
            final(self).wf(),
            final(self).links_enabled() == old(self).links_enabled(),
            final(self).items() == inserted_at(
                old(self).items(),
                pattern(route.segments_view().skip(route.position())),
                method@,
                (item, variable_names(route.segments_view())),
            ),
        decreases route.segments_view().len() - route.position(),
    {
        let ghost segs = route.segments_view();
        let ghost pos = route.position();
        let ghost m = method@;
        let ghost v = (item, variable_names(segs));
        let ghost old_self = *self;
        let mut route = route;
        proof {
            lemma_wf_node_ok(old_self);
        }
        match route.next() {
            None => {
                proof {
                    assert(segs.take(pos) =~= segs);
                    assert(pattern(segs.skip(pos)) =~= Seq::<Seq<u8>>::empty());
                }
                self.item.insert(method, route, item);
                proof {
                    assert forall|k: Seq<u8>| #[trigger] self.child(k) == old_self.child(k) by {}
                    lemma_items_set_root(old_self, *self, m, v);
                    assert forall|k: Seq<u8>| #[trigger] self.child(k) is Some implies self.child(k)->0.wf() by {
                        lemma_wf_child(old_self, k);
                    }
                    lemma_wf_from_children(*self);
                }
            },
            Some(segment) => {
                proof {
                    lemma_pattern_step(segs, pos);
                }
                let ghost q = pattern(segs.skip(pos + 1));
                if segment.len() > 0 && segment[0] == 42u8 {
                    proof {
                        assert(pattern_key(segs[pos]) == seq![42u8]);
                    }
                    if self.wildcard_route.is_none() {
                        self.wildcard_route = Some(Box::new(TreeRouter::new()));
                    }
                    let mut b = self.wildcard_route.take().unwrap();
                    proof {
                        assert(seq![42u8] != seq![58u8]) by {
                            assert(seq![42u8][0] != seq![58u8][0]);
                        }
                        assert(b.items() == old_self.child_items(seq![42u8]));
                        if old_self.child(seq![42u8]) is Some {
                            lemma_wf_child(old_self, seq![42u8]);
                        }
                    }
                    proof {
                        assert(b.wf());
                    }
                    (&mut *b).insert_rec(route, method, item);
                    let ghost nc = *b;
                    self.wildcard_route = Some(b);
                    proof {
                        lemma_child_variable_set(old_self, *self, true, nc);
                        lemma_items_replace_child(old_self, *self, seq![42u8], nc, q, m, v);
                        assert forall|k: Seq<u8>| #[trigger] self.child(k) is Some implies self.child(k)->0.wf() by {
                            if k != seq![42u8] {
                                lemma_wf_child(old_self, k);
                            }
                        }
                        lemma_wf_from_children(*self);
                    }
                } else if segment.len() > 0 && segment[0] == 58u8 {
                    proof {
                        assert(pattern_key(segs[pos]) == seq![58u8]);
                    }
                    if self.variable_route.is_none() {
                        self.variable_route = Some(Box::new(TreeRouter::new()));
                    }
                    let mut b = self.variable_route.take().unwrap();
                    proof {
                        assert(b.items() == old_self.child_items(seq![58u8]));
                        if old_self.child(seq![58u8]) is Some {
                            lemma_wf_child(old_self, seq![58u8]);
                        }
                    }
                    proof {
                        assert(b.wf());
                    }
                    (&mut *b).insert_rec(route, method, item);
                    let ghost nc = *b;
                    self.variable_route = Some(b);
                    proof {
                        lemma_child_variable_set(old_self, *self, false, nc);
                        lemma_items_replace_child(old_self, *self, seq![58u8], nc, q, m, v);
                        assert forall|k: Seq<u8>| #[trigger] self.child(k) is Some implies self.child(k)->0.wf() by {
                            if k != seq![58u8] {
                                lemma_wf_child(old_self, k);
                            }
                        }
                        lemma_wf_from_children(*self);
                    }
                } else {
                    let ghost key = segment@;
                    proof {
                        assert(!is_variable_segment(key));
                        assert(pattern_key(segs[pos]) == key);
                    }
                    match self.static_index(segment.as_slice()) {
                        Some(j) => {
                            proof {
                                lemma_static_child(old_self, j as int);
                            }
                            let (k, mut c) = self.static_routes.remove(j);
                            proof {
                                assert(c.items() == old_self.child_items(key));
                            }
                            c.insert_rec(route, method, item);
                            let ghost nc = c;
                            self.static_routes.insert(j, (k, c));
                            proof {
                                assert(self.static_routes@ =~= old_self.static_routes@.update(j as int, (old_self.static_routes@[j as int].0, nc)));
                                lemma_child_static_set(old_self, *self, j as int, nc);
                                lemma_items_replace_child(old_self, *self, key, nc, q, m, v);
                                assert forall|k2: Seq<u8>| #[trigger] self.child(k2) is Some implies self.child(k2)->0.wf() by {
                                    if k2 != key {
                                        lemma_wf_child(old_self, k2);
                                    }
                                }
                                assert(self.node_ok());
                                lemma_wf_from_children(*self);
                            }
                        },
                        None => {
                            let mut c = TreeRouter::new();
                            let kk = MaybeUtf8::from_bytes(segment);
                            proof {
                                assert(old_self.child(key) is None) by {
                                    if key == seq![58u8] {
                                        assert(key[0] == 58u8);
                                    }
                                    if key == seq![42u8] {
                                        assert(key[0] == 42u8);
                                    }
                                }
                                assert(c.items() == old_self.child_items(key));
                            }
                            c.insert_rec(route, method, item);
                            let ghost nc = c;
                            self.static_routes.push((kk, c));
                            proof {
                                lemma_child_static_push(old_self, *self, kk, nc);
                                lemma_items_replace_child(old_self, *self, key, nc, q, m, v);
                                assert forall|k2: Seq<u8>| #[trigger] self.child(k2) is Some implies self.child(k2)->0.wf() by {
                                    if k2 != key {
                                        lemma_wf_child(old_self, k2);
                                    }
                                }
                                assert(self.node_ok());
                                lemma_wf_from_children(*self);
                            }
                        },
                    }
                }
            },
        }
    }
}

/// The method maps of a tree after another tree's are merged into it: the
/// other tree's endpoints, with the given names put before their variable
/// names, replace those of the same method at the same path.
pub open spec fn merged<H>(
    a: Map<Seq<Seq<u8>>, Map<MethodView, (H, Seq<Seq<u8>>)>>,
    b: Map<Seq<Seq<u8>>, Map<MethodView, (H, Seq<Seq<u8>>)>>,
    names: Seq<Seq<u8>>,
) -> Map<Seq<Seq<u8>>, Map<MethodView, (H, Seq<Seq<u8>>)>> {
    Map::new(
        |p: Seq<Seq<u8>>| a.dom().contains(p) || b.dom().contains(p),
        |p: Seq<Seq<u8>>|
            if b.dom().contains(p) {
                (if a.dom().contains(p) { a[p] } else { Map::empty() }).union_prefer_right(prefixed(b[p], names))
            } else {
                a[p]
            },
    )
}

/// The child under a key after a merge: merged with the other tree's
/// child `r` if there is one, unchanged otherwise.
spec fn merged_child_at<H>(
    new: TreeRouter<H>,
    old: TreeRouter<H>,
    k: Seq<u8>,
    r: Option<TreeRouter<H>>,
    names: Seq<Seq<u8>>,
) -> bool {
    match r {
        Some(rc) => new.child(k) is Some && new.child(k)->0.items() == merged(old.child_items(k), rc.items(), names),
        None => new.child(k) == old.child(k),
    }
}

/// The child under a key among the first `i` static children.
spec fn first_static<H>(t: TreeRouter<H>, i: int, k: Seq<u8>) -> Option<TreeRouter<H>> {
    if exists|j: int| 0 <= j < i && j < t.static_routes@.len() && t.static_routes@[j].0@ == k {
        let j = choose|j: int| 0 <= j < i && j < t.static_routes@.len() && t.static_routes@[j].0@ == k;
        Some(t.static_routes@[j].1)
    } else {
        None
    }
}

/// A node's method maps after each child was merged with the other tree's
/// child under the same key.
proof fn lemma_items_merge<H>(
    old: TreeRouter<H>,
    new: TreeRouter<H>,
    r: TreeRouter<H>,
    names: Seq<Seq<u8>>,
)
    requires
        new.item_view() == old.item_view().union_prefer_right(prefixed(r.item_view(), names)),
        forall|k: Seq<u8>| #[trigger] merged_child_at(new, old, k, r.child(k), names),
    ensures
        new.items() == merged(old.items(), r.items(), names),
{
    let target = merged(old.items(), r.items(), names);
    assert forall|p: Seq<Seq<u8>>| #[trigger] new.items().dom().contains(p) <==> target.dom().contains(p) by {
        lemma_items_split(new, p);
        lemma_items_split(old, p);
        lemma_items_split(r, p);
        if p.len() > 0 {
            let k = p[0];
            assert(merged_child_at(new, old, k, r.child(k), names));
            if r.child(k) is Some && old.child(k) is None {
                lemma_items_split(r.child(k)->0, p.drop_first());
            }
        }
    }
    assert forall|p: Seq<Seq<u8>>| #[trigger] new.items().dom().contains(p) implies new.items()[p] == target[p] by {
        lemma_items_split(new, p);
        lemma_items_split(old, p);
        lemma_items_split(r, p);
        if p.len() > 0 {
            let k = p[0];
            assert(merged_child_at(new, old, k, r.child(k), names));
            if r.child(k) is Some && old.child(k) is None {
                lemma_items_split(r.child(k)->0, p.drop_first());
            }
        }
    }
    assert(new.items() =~= target);
}

impl<H> TreeRouter<H> {
    /// Merge another tree into this one, node by node, as if it was placed
    /// under the route whose names are recorded in `state`.
    fn merge_router(&mut self, state: &InsertState, router: TreeRouter<H>)
        requires
            old(self).wf(),
            router.wf(),
        ensures
            final(self).wf(),
            final(self).links_enabled() == old(self).links_enabled(),
            final(self).items() == merged(old(self).items(), router.items(), state.names()),
        decreases router,
    {
        let ghost r0 = router;
        let ghost old_self = *self;
        let ghost names = state.names();
        proof {
            lemma_wf_node_ok(r0);
            lemma_wf_node_ok(old_self);
        }
        let TreeRouter { item, static_routes, variable_route, wildcard_route, find_hyperlinks: _ } = router;
        self.item.insert_router(state, item);
        proof {
            assert forall|k: Seq<u8>| #[trigger] self.child(k) is Some implies self.child(k)->0.wf() by {
                lemma_wf_child(old_self, k);
            }
            lemma_wf_from_children(*self);
            assert forall|k: Seq<u8>| #[trigger] merged_child_at(*self, old_self, k, first_static(r0, 0, k), names) by {}
        }
        let ghost n = r0.static_routes@.len() as int;
        let ghost root = self.item_view();
        let mut routes = static_routes;
        while routes.len() > 0
            invariant
                self.wf(),
                r0 == router,
                self.item_view() == root,
                root == old_self.item_view().union_prefer_right(prefixed(r0.item_view(), names)),
                self.find_hyperlinks == old_self.find_hyperlinks,
                self.variable_route == old_self.variable_route,
                self.wildcard_route == old_self.wildcard_route,
                names == state.names(),
                r0.node_ok(),
                r0.wf(),
                old_self.wf(),
                n == r0.static_routes@.len(),
                routes@.len() <= n,
                routes@ == r0.static_routes@.skip(n - routes@.len()),
                forall|k: Seq<u8>| #[trigger] merged_child_at(*self, old_self, k, first_static(r0, n - routes@.len(), k), names),
            decreases routes@.len(),
        {
            let ghost i = n - routes@.len();
            let ghost before = *self;
            let (key, child) = routes.remove(0);
            proof {
                assert(r0.static_routes@[i] == (key, child));
                lemma_static_child(r0, i);
                assert(decreases_to!(r0 => child)) by {
                    assert(decreases_to!(r0 => r0.static_routes));
                    assert(decreases_to!(r0.static_routes => r0.static_routes@));
                    assert(decreases_to!(r0.static_routes@ => r0.static_routes@[i]));
                    assert(decreases_to!(r0.static_routes@[i] => r0.static_routes@[i].1));
                }
                assert(first_static(r0, i, key@) is None);
                assert(merged_child_at(before, old_self, key@, first_static(r0, i, key@), names));
                assert forall|k: Seq<u8>| k != key@ implies #[trigger] first_static(r0, i + 1, k) == first_static(r0, i, k) by {
                    if exists|j: int| 0 <= j < i + 1 && j < n && r0.static_routes@[j].0@ == k {
                        let j = choose|j: int| 0 <= j < i + 1 && j < n && r0.static_routes@[j].0@ == k;
                        assert(j != i);
                    }
                }
                lemma_wf_node_ok(before);
            }
            let ghost key_view = key@;
            match self.static_index(key.as_bytes()) {
                Some(j) => {
                    proof {
                        lemma_static_child(before, j as int);
                    }
                    let (k, mut c) = self.static_routes.remove(j);
                    proof {
                        assert(c.items() == old_self.child_items(key_view));
                    }
                    c.merge_router(state, child);
                    let ghost nc = c;
                    self.static_routes.insert(j, (k, c));
                    proof {
                        assert(self.static_routes@ =~= before.static_routes@.update(j as int, (before.static_routes@[j as int].0, nc)));
                        lemma_child_static_set(before, *self, j as int, nc);
                        assert forall|k2: Seq<u8>| #[trigger] self.child(k2) is Some implies self.child(k2)->0.wf() by {
                            if k2 != key_view {
                                lemma_wf_child(before, k2);
                            }
                        }
                        assert(self.node_ok());
                        lemma_wf_from_children(*self);
                    }
                },
                None => {
                    let mut c = TreeRouter::new();
                    proof {
                        assert(before.child(key_view) is None) by {
                            if key_view == seq![58u8] {
                                assert(key_view[0] == 58u8);
                            }
                            if key_view == seq![42u8] {
                                assert(key_view[0] == 42u8);
                            }
                        }
                        assert(c.items() == old_self.child_items(key_view));
                    }
                    c.merge_router(state, child);
                    let ghost nc = c;
                    self.static_routes.push((key, c));
                    proof {
                        lemma_child_static_push(before, *self, key, nc);
                        assert forall|k2: Seq<u8>| #[trigger] self.child(k2) is Some implies self.child(k2)->0.wf() by {
                            if k2 != key_view {
                                lemma_wf_child(before, k2);
                            }
                        }
                        assert(self.node_ok());
                        lemma_wf_from_children(*self);
                    }
                },
            }
            proof {
                assert(routes@ =~= r0.static_routes@.skip(n - routes@.len()));
                assert forall|k: Seq<u8>| #[trigger] merged_child_at(*self, old_self, k, first_static(r0, n - routes@.len(), k), names) by {
                    if k != key_view {
                        assert(merged_child_at(before, old_self, k, first_static(r0, i, k), names));
                    } else {
                        let jc = choose|j: int| 0 <= j < i + 1 && j < n && r0.static_routes@[j].0@ == k;
                        assert(jc == i);
                    }
                }
            }
        }
        let ghost after_static = *self;
        proof {
            assert(seq![42u8] != seq![58u8]) by {
                assert(seq![42u8][0] != seq![58u8][0]);
            }
            assert forall|k: Seq<u8>| #[trigger] first_static(r0, n, k) == (if k == seq![58u8] || k == seq![42u8] {
                None
            } else {
                r0.child(k)
            }) by {
                if k == seq![58u8] || k == seq![42u8] {
                    if exists|j: int| 0 <= j < n && j < n && r0.static_routes@[j].0@ == k {
                        let j = choose|j: int| 0 <= j < n && j < n && r0.static_routes@[j].0@ == k;
                        assert(!is_variable_segment(r0.static_routes@[j].0@));
                        assert(k[0] == 58u8 || k[0] == 42u8);
                    }
                }
            }
        }
        match variable_route {
            Some(b) => {
                if self.variable_route.is_none() {
                    self.variable_route = Some(Box::new(TreeRouter::new()));
                }
                let mut c = self.variable_route.take().unwrap();
                proof {
                    assert(c.items() == old_self.child_items(seq![58u8]));
                    if old_self.child(seq![58u8]) is Some {
                        lemma_wf_child(old_self, seq![58u8]);
                    }
                    assert(r0.child(seq![58u8]) == Some(*b));
                    lemma_wf_child(r0, seq![58u8]);
                }
                (&mut *c).merge_router(state, *b);
                let ghost nc = *c;
                self.variable_route = Some(c);
                proof {
                    lemma_child_variable_set(after_static, *self, false, nc);
                    lemma_wf_node_ok(after_static);
                    assert forall|k: Seq<u8>| #[trigger] self.child(k) is Some implies self.child(k)->0.wf() by {
                        if k != seq![58u8] {
                            lemma_wf_child(after_static, k);
                        }
                    }
                    lemma_wf_from_children(*self);
                }
            },
            None => {},
        }
        let ghost after_variable = *self;
        proof {
            assert forall|k: Seq<u8>| k != seq![42u8] implies #[trigger] merged_child_at(*self, old_self, k, r0.child(k), names) by {
                if k != seq![58u8] {
                    assert(merged_child_at(after_static, old_self, k, first_static(r0, n, k), names));
                }
            }
        }
        match wildcard_route {
            Some(b) => {
                if self.wildcard_route.is_none() {
                    self.wildcard_route = Some(Box::new(TreeRouter::new()));
                }
                let mut c = self.wildcard_route.take().unwrap();
                proof {
                    assert(c.items() == old_self.child_items(seq![42u8]));
                    if old_self.child(seq![42u8]) is Some {
                        lemma_wf_child(old_self, seq![42u8]);
                    }
                    assert(r0.child(seq![42u8]) == Some(*b));
                    lemma_wf_child(r0, seq![42u8]);
                }
                (&mut *c).merge_router(state, *b);
                let ghost nc = *c;
                self.wildcard_route = Some(c);
                proof {
                    lemma_child_variable_set(after_variable, *self, true, nc);
                    lemma_wf_node_ok(after_variable);
                    assert forall|k: Seq<u8>| #[trigger] self.child(k) is Some implies self.child(k)->0.wf() by {
                        if k != seq![42u8] {
                            lemma_wf_child(after_variable, k);
                        }
                    }
                    lemma_wf_from_children(*self);
                }
            },
            None => {},
        }
        proof {
            assert forall|k: Seq<u8>| #[trigger] merged_child_at(*self, old_self, k, r0.child(k), names) by {
                if k != seq![42u8] {
                    assert(merged_child_at(after_variable, old_self, k, r0.child(k), names));
                } else {
                    assert(merged_child_at(after_static, old_self, k, first_static(r0, n, k), names));
                }
            }
            lemma_items_merge(old_self, *self, r0, names);
        }
    }
}

/// The method maps of a tree placed under a path: the nodes on the path
/// have no handlers, and the tree's nodes follow the path.
pub open spec fn chain<H>(
    q: Seq<Seq<u8>>,
    b: Map<Seq<Seq<u8>>, Map<MethodView, (H, Seq<Seq<u8>>)>>,
) -> Map<Seq<Seq<u8>>, Map<MethodView, (H, Seq<Seq<u8>>)>>
    decreases q.len(),
{
    if q.len() == 0 {
        b
    } else {
        let inner = chain(q.drop_first(), b);
        Map::new(
            |p: Seq<Seq<u8>>| p.len() == 0 || (p[0] == q[0] && inner.dom().contains(p.drop_first())),
            |p: Seq<Seq<u8>>| if p.len() == 0 { Map::empty() } else { inner[p.drop_first()] },
        )
    }
}

/// The method maps of every node after prefixing: the names are put before
/// the variable names of every endpoint.
pub open spec fn prefixed_items<H>(
    a: Map<Seq<Seq<u8>>, Map<MethodView, (H, Seq<Seq<u8>>)>>,
    names: Seq<Seq<u8>>,
) -> Map<Seq<Seq<u8>>, Map<MethodView, (H, Seq<Seq<u8>>)>> {
    Map::new(|p: Seq<Seq<u8>>| a.dom().contains(p), |p: Seq<Seq<u8>>| prefixed(a[p], names))
}

/// A tree's method maps are a given map when the root's method map is the
/// map's entry at the empty path, and every other entry is that of a child.
proof fn lemma_items_by_children<H>(
    t: TreeRouter<H>,
    target: Map<Seq<Seq<u8>>, Map<MethodView, (H, Seq<Seq<u8>>)>>,
)
    requires
        target.dom().contains(Seq::empty()),
        target[Seq::empty()] == t.item_view(),
        forall|p: Seq<Seq<u8>>| p.len() > 0 ==> ((#[trigger] target.dom().contains(p)) <==> (t.child(p[0]) is Some
            && t.child(p[0])->0.items().dom().contains(p.drop_first()))),
        forall|p: Seq<Seq<u8>>| p.len() > 0 && #[trigger] target.dom().contains(p)
            ==> target[p] == t.child(p[0])->0.items()[p.drop_first()],
    ensures
        t.items() == target,
{
    assert forall|p: Seq<Seq<u8>>| #[trigger] t.items().dom().contains(p) <==> target.dom().contains(p) by {
        lemma_items_split(t, p);
        if p.len() == 0 {
            assert(p =~= Seq::<Seq<u8>>::empty());
        }
    }
    assert forall|p: Seq<Seq<u8>>| #[trigger] t.items().dom().contains(p) implies t.items()[p] == target[p] by {
        lemma_items_split(t, p);
        if p.len() == 0 {
            assert(p =~= Seq::<Seq<u8>>::empty());
        }
    }
    assert(t.items() =~= target);
}

/// Every tree has a root.
proof fn lemma_items_root<H>(t: TreeRouter<H>)
    ensures
        t.items().dom().contains(Seq::empty()),
        t.items()[Seq::empty()] == t.item_view(),
{
    lemma_items_split(t, Seq::empty());
}

/// A chain keeps the root of the tree it ends in.
proof fn lemma_chain_root<H>(q: Seq<Seq<u8>>, b: Map<Seq<Seq<u8>>, Map<MethodView, (H, Seq<Seq<u8>>)>>)
    requires
        b.dom().contains(Seq::empty()),
    ensures
        chain(q, b).dom().contains(Seq::empty()),
    decreases q.len(),
{
    if q.len() > 0 {
        lemma_chain_root(q.drop_first(), b);
    }
}

impl<H> TreeRouter<H> {
    /// Put a tree at the end of the rest of the route, below new nodes
    /// that have no handlers.
    fn graft(route: &mut InsertState, tree: TreeRouter<H>) -> (r: TreeRouter<H>)
        requires
            old(route).wf(),
            tree.wf(),
        ensures
            final(route).wf(),
            final(route).segments_view() == old(route).segments_view(),
            final(route).position() == old(route).segments_view().len(),
            r.wf(),
            r.items() == chain(pattern(old(route).segments_view().skip(old(route).position())), tree.items()),
            old(route).position() == old(route).segments_view().len() ==> r == tree,
            old(route).position() < old(route).segments_view().len() ==> !r.links_enabled(),
        decreases old(route).segments_view().len() - old(route).position(),
    {
        let ghost segs = route.segments_view();
        let ghost pos = route.position();
        match route.next() {
            None => {
                proof {
                    assert(pattern(segs.skip(pos)) =~= Seq::<Seq<u8>>::empty());
                }
                tree
            },
            Some(segment) => {
                proof {
                    lemma_pattern_step(segs, pos);
                }
                let ghost tree_items = tree.items();
                let child = TreeRouter::graft(route, tree);
                let ghost q = pattern(segs.skip(pos + 1));
                let ghost inner = chain(q, tree_items);
                let mut node = TreeRouter::new();
                let ghost key = pattern_key(segs[pos]);
                let ghost empty = node;
                proof {
                    lemma_wf_node_ok(empty);
                    assert(seq![42u8] != seq![58u8]) by {
                        assert(seq![42u8][0] != seq![58u8][0]);
                    }
                    assert forall|k: Seq<u8>| #[trigger] empty.child(k) is None by {}
                }
                let ghost cv = child;
                if segment.len() > 0 && segment[0] == 42u8 {
                    node.wildcard_route = Some(Box::new(child));
                    proof {
                        assert(key == seq![42u8]);
                        lemma_child_variable_set(empty, node, true, cv);
                    }
                } else if segment.len() > 0 && segment[0] == 58u8 {
                    node.variable_route = Some(Box::new(child));
                    proof {
                        assert(key == seq![58u8]);
                        lemma_child_variable_set(empty, node, false, cv);
                    }
                } else {
                    let kk = MaybeUtf8::from_bytes(segment);
                    node.static_routes.push((kk, child));
                    proof {
                        assert(!is_variable_segment(kk@));
                        assert(key == kk@);
                        lemma_child_static_push(empty, node, kk, cv);
                    }
                }
                proof {
                    let full = pattern(segs.skip(pos));
                    assert(full.drop_first() =~= q);
                    assert(full[0] == key);
                    assert forall|k: Seq<u8>| #[trigger] node.child(k) is Some implies node.child(k)->0.wf() by {}
                    assert(node.node_ok());
                    lemma_wf_from_children(node);
                    lemma_items_root(cv);
                    lemma_items_by_children(node, chain(full, tree_items));
                }
                node
            },
        }
    }
}

/// Two nodes with the same method router and children have the same method
/// maps and are well formed together.
proof fn lemma_same_shape<H>(a: TreeRouter<H>, b: TreeRouter<H>)
    requires
        a.item == b.item,
        a.static_routes == b.static_routes,
        a.variable_route == b.variable_route,
        a.wildcard_route == b.wildcard_route,
    ensures
        a.items() == b.items(),
        a.wf() ==> b.wf(),
{
    assert forall|k: Seq<u8>| #[trigger] a.child(k) == b.child(k) by {}
    lemma_items_root(a);
    lemma_items_by_children(b, a.items());
    if a.wf() {
        lemma_wf_node_ok(a);
        assert forall|k: Seq<u8>| #[trigger] b.child(k) is Some implies b.child(k)->0.wf() by {
            lemma_wf_child(a, k);
        }
        lemma_wf_from_children(b);
    }
}

/// A node whose static keys are those of another node, in the same order,
/// has its static children at the same positions.
proof fn lemma_child_static_same_keys<H>(old: TreeRouter<H>, new: TreeRouter<H>, k: Seq<u8>)
    requires
        old.node_ok(),
        new.static_routes@.len() == old.static_routes@.len(),
        forall|i: int| 0 <= i < old.static_routes@.len() ==> (#[trigger] new.static_routes@[i]).0 == old.static_routes@[i].0,
        k != seq![58u8],
        k != seq![42u8],
    ensures
        match old.child(k) {
            None => new.child(k) is None,
            Some(oc) => exists|i: int|
                0 <= i < old.static_routes@.len() && old.static_routes@[i].1 == oc
                    && new.child(k) == Some(#[trigger] new.static_routes@[i].1),
        },
{
    if exists|i: int| 0 <= i < old.static_routes@.len() && old.static_routes@[i].0@ == k {
        let i1 = choose|i: int| 0 <= i < old.static_routes@.len() && old.static_routes@[i].0@ == k;
        assert(new.static_routes@[i1].0@ == k);
        let i2 = choose|i: int| 0 <= i < new.static_routes@.len() && new.static_routes@[i].0@ == k;
        assert(old.static_routes@[i2].0@ == k);
        assert(i1 == i2);
    } else {
        assert forall|i: int| 0 <= i < new.static_routes@.len() implies new.static_routes@[i].0@ != k by {
            assert(new.static_routes@[i].0 == old.static_routes@[i].0);
        }
    }
}

/// Merging a tree placed under a path that starts with the key `k` changes
/// the child under `k` only.
proof fn lemma_merge_chain_step<H>(
    old: TreeRouter<H>,
    new: TreeRouter<H>,
    k: Seq<u8>,
    nc: TreeRouter<H>,
    q: Seq<Seq<u8>>,
    b: Map<Seq<Seq<u8>>, Map<MethodView, (H, Seq<Seq<u8>>)>>,
    names: Seq<Seq<u8>>,
)
    requires
        new.item_view() == old.item_view(),
        new.child(k) == Some(nc),
        forall|k2: Seq<u8>| k2 != k ==> #[trigger] new.child(k2) == old.child(k2),
        nc.items() == merged(old.child_items(k), chain(q, b), names),
        b.dom().contains(Seq::empty()),
    ensures
        new.items() == merged(old.items(), chain(seq![k] + q, b), names),
{
    let kq = seq![k] + q;
    assert(kq[0] == k);
    assert(kq.drop_first() =~= q);
    let target = merged(old.items(), chain(kq, b), names);
    let inner = chain(q, b);
    lemma_chain_root(q, b);
    lemma_items_root(old);
    assert(prefixed(Map::<MethodView, (H, Seq<Seq<u8>>)>::empty(), names) =~= Map::empty());
    assert(old.item_view().union_prefer_right(Map::<MethodView, (H, Seq<Seq<u8>>)>::empty()) =~= old.item_view());
    assert(target.dom().contains(Seq::empty()));
    assert(target[Seq::empty()] == new.item_view());
    assert forall|p: Seq<Seq<u8>>| p.len() > 0 implies ((#[trigger] target.dom().contains(p)) <==> (new.child(p[0]) is Some
        && new.child(p[0])->0.items().dom().contains(p.drop_first()))) by {
        lemma_items_split(old, p);
        if p[0] == k && old.child(k) is None {
            assert(empty_items::<H>().dom().contains(p.drop_first()) ==> p.drop_first().len() == 0);
            if p.drop_first().len() == 0 {
                assert(p.drop_first() =~= Seq::<Seq<u8>>::empty());
            }
        }
    }
    assert forall|p: Seq<Seq<u8>>| p.len() > 0 && #[trigger] target.dom().contains(p)
        implies target[p] == new.child(p[0])->0.items()[p.drop_first()] by {
        lemma_items_split(old, p);
        if p[0] == k && old.child(k) is None {
            if p.drop_first().len() == 0 {
                assert(p.drop_first() =~= Seq::<Seq<u8>>::empty());
            }
        }
    }
    lemma_items_by_children(new, target);
}

impl<H> TreeRouter<H> {
    /// Put the names before the variable names of every endpoint of the
    /// tree.
    fn prefix_all(&mut self, state: &InsertState)
        requires
            old(self).wf(),
        ensures
            final(self).wf(),
            final(self).links_enabled() == old(self).links_enabled(),
            final(self).items() == prefixed_items(old(self).items(), state.names()),
        decreases *old(self),
    {
        let ghost old_self = *self;
        let ghost names = state.names();
        proof {
            lemma_wf_node_ok(old_self);
        }
        self.item.prefix(state);
        let mut j: usize = 0;
        while j < self.static_routes.len()
            invariant
                old_self == *old(self),
                old_self.node_ok(),
                old_self.wf(),
                names == state.names(),
                self.item.wf(),
                self.item@ == prefixed(old_self.item@, names),
                self.find_hyperlinks == old_self.find_hyperlinks,
                self.variable_route == old_self.variable_route,
                self.wildcard_route == old_self.wildcard_route,
                0 <= j <= self.static_routes@.len(),
                self.static_routes@.len() == old_self.static_routes@.len(),
                forall|i: int| 0 <= i < old_self.static_routes@.len() ==> (#[trigger] self.static_routes@[i]).0 == old_self.static_routes@[i].0,
                forall|i: int| 0 <= i < j ==> {
                    &&& (#[trigger] self.static_routes@[i]).1.wf()
                    &&& self.static_routes@[i].1.items() == prefixed_items(old_self.static_routes@[i].1.items(), names)
                },
                forall|i: int| j <= i < old_self.static_routes@.len() ==> #[trigger] self.static_routes@[i] == old_self.static_routes@[i],
            decreases old_self.static_routes@.len() - j,
        {
            let (k, mut c) = self.static_routes.remove(j);
            proof {
                assert(c == old_self.static_routes@[j as int].1);
                lemma_static_child(old_self, j as int);
                assert(decreases_to!(old_self => c)) by {
                    assert(decreases_to!(old_self => old_self.static_routes));
                    assert(decreases_to!(old_self.static_routes => old_self.static_routes@));
                    assert(decreases_to!(old_self.static_routes@ => old_self.static_routes@[j as int]));
                    assert(decreases_to!(old_self.static_routes@[j as int] => old_self.static_routes@[j as int].1));
                }
            }
            c.prefix_all(state);
            self.static_routes.insert(j, (k, c));
            proof {
                assert forall|i: int| 0 <= i < old_self.static_routes@.len() implies (#[trigger] self.static_routes@[i]).0 == old_self.static_routes@[i].0 by {}
            }
            j = j + 1;
        }
        proof {
            assert(seq![42u8] != seq![58u8]) by {
                assert(seq![42u8][0] != seq![58u8][0]);
            }
        }
        let ghost after_static = *self;
        if self.variable_route.is_some() {
            let mut b = self.variable_route.take().unwrap();
            proof {
                assert(old_self.child(seq![58u8]) == Some(*b));
                lemma_wf_child(old_self, seq![58u8]);
            }
            (&mut *b).prefix_all(state);
            self.variable_route = Some(b);
        }
        if self.wildcard_route.is_some() {
            let mut b = self.wildcard_route.take().unwrap();
            proof {
                assert(old_self.child(seq![42u8]) == Some(*b));
                lemma_wf_child(old_self, seq![42u8]);
            }
            (&mut *b).prefix_all(state);
            self.wildcard_route = Some(b);
        }
        proof {
            let new = *self;
            let target = prefixed_items(old_self.items(), names);
            lemma_items_root(old_self);
            assert forall|k: Seq<u8>| #[trigger] new.child(k) is Some <==> old_self.child(k) is Some by {
                if k != seq![58u8] && k != seq![42u8] {
                    lemma_child_static_same_keys(old_self, new, k);
                }
            }
            assert forall|k: Seq<u8>| #[trigger] old_self.child(k) is Some implies
                new.child(k)->0.items() == prefixed_items(old_self.child(k)->0.items(), names)
                && new.child(k)->0.wf() by {
                if k != seq![58u8] && k != seq![42u8] {
                    lemma_child_static_same_keys(old_self, new, k);
                    let i = choose|i: int|
                        0 <= i < old_self.static_routes@.len() && old_self.static_routes@[i].1 == old_self.child(k)->0
                            && new.child(k) == Some(#[trigger] new.static_routes@[i].1);
                    assert(new.static_routes@[i] == after_static.static_routes@[i]);
                }
            }
            assert forall|p: Seq<Seq<u8>>| p.len() > 0 implies ((#[trigger] target.dom().contains(p)) <==> (new.child(p[0]) is Some
                && new.child(p[0])->0.items().dom().contains(p.drop_first()))) by {
                lemma_items_split(old_self, p);
            }
            assert forall|p: Seq<Seq<u8>>| p.len() > 0 && #[trigger] target.dom().contains(p)
                implies target[p] == new.child(p[0])->0.items()[p.drop_first()] by {
                lemma_items_split(old_self, p);
            }
            lemma_items_by_children(new, target);
            assert(new.node_ok()) by {
                assert forall|i: int, i2: int|
                    0 <= i < new.static_routes@.len() && 0 <= i2 < new.static_routes@.len() && i != i2
                        implies new.static_routes@[i].0@ != new.static_routes@[i2].0@ by {
                    assert(new.static_routes@[i].0 == old_self.static_routes@[i].0);
                    assert(new.static_routes@[i2].0 == old_self.static_routes@[i2].0);
                }
                assert forall|i: int| 0 <= i < new.static_routes@.len()
                    implies !is_variable_segment(#[trigger] new.static_routes@[i].0@) by {
                    assert(new.static_routes@[i].0 == old_self.static_routes@[i].0);
                }
            }
            lemma_wf_from_children(new);
        }
    }
}

impl<H> TreeRouter<H> {
    /// Walk the rest of the route, creating the nodes that are missing, and
    /// merge the other tree into the node where it ends.
    fn insert_router_rec(&mut self, route: InsertState, router: TreeRouter<H>)
        requires
            old(self).wf(),
            route.wf(),
            router.wf(),
        ensures
            final(self).wf(),
            final(self).links_enabled() == old(self).links_enabled(),
            final(self).items() == merged(
                old(self).items(),
                chain(pattern(route.segments_view().skip(route.position())), router.items()),
                variable_names(route.segments_view()),
            ),
        decreases route.segments_view().len() - route.position(),
    {
        let ghost segs = route.segments_view();
        let ghost pos = route.position();
        let ghost names = variable_names(segs);
        let ghost b = router.items();
        let ghost old_self = *self;
        let mut route = route;
        proof {
            lemma_wf_node_ok(old_self);
            lemma_items_root(router);
            assert(seq![42u8] != seq![58u8]) by {
                assert(seq![42u8][0] != seq![58u8][0]);
            }
        }
        match route.next() {
            None => {
                proof {
                    assert(segs.take(pos) =~= segs);
                    assert(pattern(segs.skip(pos)) =~= Seq::<Seq<u8>>::empty());
                }
                self.merge_router(&route, router);
            },
            Some(segment) => {
                proof {
                    lemma_pattern_step(segs, pos);
                }
                let ghost q = pattern(segs.skip(pos + 1));
                if segment.len() > 0 && segment[0] == 42u8 {
                    if self.wildcard_route.is_none() {
                        self.wildcard_route = Some(Box::new(TreeRouter::new()));
                    }
                    let mut c = self.wildcard_route.take().unwrap();
                    proof {
                        assert(c.items() == old_self.child_items(seq![42u8]));
                        if old_self.child(seq![42u8]) is Some {
                            lemma_wf_child(old_self, seq![42u8]);
                        }
                        assert(c.wf());
                    }
                    (&mut *c).insert_router_rec(route, router);
                    let ghost nc = *c;
                    self.wildcard_route = Some(c);
                    proof {
                        lemma_child_variable_set(old_self, *self, true, nc);
                        lemma_merge_chain_step(old_self, *self, seq![42u8], nc, q, b, names);
                        assert forall|k: Seq<u8>| #[trigger] self.child(k) is Some implies self.child(k)->0.wf() by {
                            if k != seq![42u8] {
                                lemma_wf_child(old_self, k);
                            }
                        }
                        lemma_wf_from_children(*self);
                    }
                } else if segment.len() > 0 && segment[0] == 58u8 {
                    if self.variable_route.is_none() {
                        self.variable_route = Some(Box::new(TreeRouter::new()));
                    }
                    let mut c = self.variable_route.take().unwrap();
                    proof {
                        assert(c.items() == old_self.child_items(seq![58u8]));
                        if old_self.child(seq![58u8]) is Some {
                            lemma_wf_child(old_self, seq![58u8]);
                        }
                        assert(c.wf());
                    }
                    (&mut *c).insert_router_rec(route, router);
                    let ghost nc = *c;
                    self.variable_route = Some(c);
                    proof {
                        lemma_child_variable_set(old_self, *self, false, nc);
                        lemma_merge_chain_step(old_self, *self, seq![58u8], nc, q, b, names);
                        assert forall|k: Seq<u8>| #[trigger] self.child(k) is Some implies self.child(k)->0.wf() by {
                            if k != seq![58u8] {
                                lemma_wf_child(old_self, k);
                            }
                        }
                        lemma_wf_from_children(*self);
                    }
                } else {
                    let ghost key = segment@;
                    proof {
                        assert(!is_variable_segment(key));
                        assert(pattern_key(segs[pos]) == key);
                    }
                    match self.static_index(segment.as_slice()) {
                        Some(j) => {
                            proof {
                                lemma_static_child(old_self, j as int);
                            }
                            let (k, mut c) = self.static_routes.remove(j);
                            c.insert_router_rec(route, router);
                            let ghost nc = c;
                            self.static_routes.insert(j, (k, c));
                            proof {
                                assert(self.static_routes@ =~= old_self.static_routes@.update(j as int, (old_self.static_routes@[j as int].0, nc)));
                                lemma_child_static_set(old_self, *self, j as int, nc);
                                lemma_merge_chain_step(old_self, *self, key, nc, q, b, names);
                                assert forall|k2: Seq<u8>| #[trigger] self.child(k2) is Some implies self.child(k2)->0.wf() by {
                                    if k2 != key {
                                        lemma_wf_child(old_self, k2);
                                    }
                                }
                                assert(self.node_ok());
                                lemma_wf_from_children(*self);
                            }
                        },
                        None => {
                            let mut c = TreeRouter::new();
                            let kk = MaybeUtf8::from_bytes(segment);
                            proof {
                                assert(old_self.child(key) is None) by {
                                    if key == seq![58u8] {
                                        assert(key[0] == 58u8);
                                    }
                                    if key == seq![42u8] {
                                        assert(key[0] == 42u8);
                                    }
                                }
                                assert(c.items() == old_self.child_items(key));
                            }
                            c.insert_router_rec(route, router);
                            let ghost nc = c;
                            self.static_routes.push((kk, c));
                            proof {
                                lemma_child_static_push(old_self, *self, kk, nc);
                                lemma_merge_chain_step(old_self, *self, key, nc, q, b, names);
                                assert forall|k2: Seq<u8>| #[trigger] self.child(k2) is Some implies self.child(k2)->0.wf() by {
                                    if k2 != key {
                                        lemma_wf_child(old_self, k2);
                                    }
                                }
                                assert(self.node_ok());
                                lemma_wf_from_children(*self);
                            }
                        },
                    }
                }
            },
        }
    }

    /// Build a new router with a single route.
    pub fn build(method: Method, route: &str, item: H) -> (r: TreeRouter<H>)
        ensures
            r.wf(),
            !r.links_enabled(),
            r.items() == inserted_at(
                empty_items::<H>(),
                pattern(route_segments(route.spec_bytes())),
                method@,
                (item, variable_names(route_segments(route.spec_bytes()))),
            ),
    {
        let mut router = TreeRouter::new();
        router.insert(method, route, item);
        router
    }

    /// Insert a handler for a method at a route. The nodes on the way are
    /// created where they are missing, and an earlier handler for the same
    /// method at the same route is replaced.
    pub fn insert(&mut self, method: Method, route: &str, item: H)
        requires
            old(self).wf(),
        ensures
            final(self).wf(),
            final(self).links_enabled() == old(self).links_enabled(),
            final(self).items() == inserted_at(
                old(self).items(),
                pattern(route_segments(route.spec_bytes())),
                method@,
                (item, variable_names(route_segments(route.spec_bytes()))),
            ),
    {
        let state = InsertState::from_route(route.as_bytes());
        proof {
            assert(route_segments(route.spec_bytes()).skip(0) =~= route_segments(route.spec_bytes()));
        }
        self.insert_rec(state, method, item);
    }

    /// Insert another router at a route. The content of the other router is
    /// merged with this one, its variables are named after those of the
    /// route, and conflicting endpoints are replaced.
    pub fn insert_router(&mut self, route: &str, router: TreeRouter<H>)
        requires
            old(self).wf(),
            router.wf(),
        ensures
            final(self).wf(),
            final(self).links_enabled() == old(self).links_enabled(),
            final(self).items() == merged(
                old(self).items(),
                chain(pattern(route_segments(route.spec_bytes())), router.items()),
                variable_names(route_segments(route.spec_bytes())),
            ),
    {
        let state = InsertState::from_route(route.as_bytes());
        proof {
            assert(route_segments(route.spec_bytes()).skip(0) =~= route_segments(route.spec_bytes()));
        }
        self.insert_router_rec(state, router);
    }

    /// Merge this router with another one, replacing conflicting endpoints.
    pub fn merge(&mut self, other: TreeRouter<H>)
        requires
            old(self).wf(),
            other.wf(),
        ensures
            final(self).wf(),
            final(self).links_enabled() == old(self).links_enabled(),
            final(self).items() == merged(old(self).items(), other.items(), Seq::empty()),
    {
        let root = "";
        proof {
            reveal_strlit("");
            assert(root@ =~= Seq::<char>::empty());
            assert(root.spec_bytes() =~= Seq::<u8>::empty());
            assert(route_segments(root.spec_bytes()) =~= Seq::<Seq<u8>>::empty());
            assert(pattern(Seq::<Seq<u8>>::empty()) =~= Seq::<Seq<u8>>::empty());
        }
        self.insert_router(root, other);
    }

    /// Change the router as if it was placed under the route: the nodes of
    /// the route are put above it, and its variables are named after those
    /// of the route.
    pub fn prefix(&mut self, route: &str)
        requires
            old(self).wf(),
        ensures
            final(self).wf(),
            final(self).links_enabled() == old(self).links_enabled(),
            final(self).items() == prefixed_items(
                chain(pattern(route_segments(route.spec_bytes())), old(self).items()),
                variable_names(route_segments(route.spec_bytes())),
            ),
    {
        let mut state = InsertState::from_route(route.as_bytes());
        proof {
            assert(route_segments(route.spec_bytes()).skip(0) =~= route_segments(route.spec_bytes()));
        }
        let links = self.find_hyperlinks;
        let mut tree = TreeRouter::new();
        std::mem::swap(self, &mut tree);
        let mut r = TreeRouter::graft(&mut state, tree);
        proof {
            assert(state.segments_view().take(state.position()) =~= state.segments_view());
        }
        r.prefix_all(&state);
        let ghost before = r;
        r.find_hyperlinks = links;
        proof {
            lemma_same_shape(before, r);
        }
        *self = r;
    }
}

/// A link one segment further than the base link.
pub open spec fn extended_link<H>(base: LinkView<H>, label: Seq<u8>, ty: SegmentType) -> LinkView<H> {
    LinkView { path: base.path.push((label, ty)), ..base }
}

impl<H> TreeRouter<H> {
    /// The links into this router from the base link: to the root's
    /// handlers, and one segment down to each child.
    pub closed spec fn links(self, base: LinkView<H>) -> Seq<LinkView<H>> {
        self.item.links(base)
            + Seq::new(
                self.static_routes@.len(),
                |i: int| extended_link(base, self.static_routes@[i].0@, SegmentType::Static),
            )
            + (if self.variable_route is Some {
                seq![extended_link(base, Seq::empty(), SegmentType::VariableSegment)]
            } else {
                Seq::empty()
            })
            + (if self.wildcard_route is Some {
                seq![extended_link(base, Seq::empty(), SegmentType::VariableSequence)]
            } else {
                Seq::empty()
            })
    }

    /// The base link extended by one segment.
    fn extend_link<'a>(base: &Link<'a, H>, label: MaybeUtf8, ty: SegmentType) -> (r: Link<'a, H>)
        ensures
            r@ == extended_link(base@, label@, ty),
    {
        let mut link = base.duplicate();
        let ghost before = link.path@;
        link.path.push(LinkSegment { label, ty });
        proof {
            assert(link@.path =~= base@.path.push((label@, ty)));
        }
        link
    }

    /// List the hyperlinks into this router, based on the provided base link:
    /// the root's handlers and the root's children.
    pub fn hyperlinks<'a>(&'a self, base: Link<'a, H>) -> (r: Vec<Link<'a, H>>)
        ensures
            r@.map_values(|l: Link<'a, H>| l@) == self.links(base@),
    {
        let mut r = self.item.hyperlinks(&base);
        let ghost own = r@.map_values(|l: Link<'a, H>| l@);
        let mut j: usize = 0;
        while j < self.static_routes.len()
            invariant
                0 <= j <= self.static_routes@.len(),
                r@.map_values(|l: Link<'a, H>| l@) == own + Seq::new(
                    j as nat,
                    |i: int| extended_link(base@, self.static_routes@[i].0@, SegmentType::Static),
                ),
            decreases self.static_routes@.len() - j,
        {
            let ghost before = r@;
            let link = TreeRouter::extend_link(&base, self.static_routes[j].0.duplicate(), SegmentType::Static);
            let ghost lv = link@;
            r.push(link);
            proof {
                assert(r@.map_values(|l: Link<'a, H>| l@) =~= before.map_values(|l: Link<'a, H>| l@).push(lv));
                assert(r@.map_values(|l: Link<'a, H>| l@) =~= own + Seq::new(
                    (j + 1) as nat,
                    |i: int| extended_link(base@, self.static_routes@[i].0@, SegmentType::Static),
                ));
            }
            j = j + 1;
        }
        let ghost with_static = r@.map_values(|l: Link<'a, H>| l@);
        if self.variable_route.is_some() {
            let link = TreeRouter::extend_link(&base, MaybeUtf8::new(), SegmentType::VariableSegment);
            r.push(link);
        }
        let ghost with_variable = r@.map_values(|l: Link<'a, H>| l@);
        proof {
            if self.variable_route is Some {
                assert(with_variable =~= with_static + seq![extended_link(base@, Seq::empty(), SegmentType::VariableSegment)]);
            } else {
                assert(with_variable =~= with_static + Seq::<LinkView<H>>::empty());
            }
        }
        if self.wildcard_route.is_some() {
            let link = TreeRouter::extend_link(&base, MaybeUtf8::new(), SegmentType::VariableSequence);
            r.push(link);
        }
        proof {
            let fin = r@.map_values(|l: Link<'a, H>| l@);
            if self.wildcard_route is Some {
                assert(fin =~= with_variable + seq![extended_link(base@, Seq::empty(), SegmentType::VariableSequence)]);
            } else {
                assert(fin =~= with_variable + Seq::<LinkView<H>>::empty());
            }
            assert(fin =~= self.links(base@));
        }
        r
    }
}

impl<H> Default for TreeRouter<H> {
    fn default() -> (r: TreeRouter<H>)
        ensures
            r.wf(),
            r.items() == empty_items::<H>(),
            r.is_leaf(),
            !r.links_enabled(),
    {
        TreeRouter::new()
    }
}

/// Marks cleared from a position on.
pub open spec fn cleared(marks: Seq<Option<usize>>, i: int) -> Seq<Option<usize>> {
    Seq::new(marks.len(), |j: int| if j >= i { None } else { marks[j] })
}

proof fn lemma_first_handler_none<H>(hits: Seq<Option<Hit<H>>>, m: MethodView)
    requires
        forall|j: int| 0 <= j < hits.len() ==> #[trigger] hits[j] is None,
    ensures
        first_handler(hits, m) == hits.len(),
    decreases hits.len(),
{
    if hits.len() > 0 {
        lemma_first_handler_none(hits.drop_last(), m);
    }
}

proof fn lemma_first_handler_at<H>(hits: Seq<Option<Hit<H>>>, k: int, m: MethodView)
    requires
        0 <= k < hits.len(),
        forall|j: int| 0 <= j < k ==> #[trigger] hits[j] is None,
        hits[k] matches Some(h) && h.node.item_view().dom().contains(m),
    ensures
        first_handler(hits, m) == k,
    decreases hits.len(),
{
    if k < hits.len() - 1 {
        lemma_first_handler_at(hits.drop_last(), k, m);
    } else {
        lemma_first_handler_none(hits.drop_last(), m);
    }
}

/// With no saved variables, no variables are named.
proof fn lemma_no_variables(
    route: Seq<Seq<u8>>,
    marks: Seq<Option<usize>>,
    names: Seq<Seq<u8>>,
    p: int,
)
    requires
        forall|j: int| 0 <= j < marks.len() ==> #[trigger] marks[j] is None,
        p <= marks.len(),
    ensures
        var_fold(route, marks, names, p) == (None::<VarGroup>, Map::<Seq<u8>, Seq<u8>>::empty()),
    decreases p,
{
    if p > 0 {
        lemma_no_variables(route, marks, names, p - 1);
    }
}

/// Following static children from position `i`, the search meets only
/// empty steps until the node at the end of the route.
proof fn lemma_static_run<H>(
    t: TreeRouter<H>,
    i: int,
    v: int,
    marks: Seq<Option<usize>>,
    segs: Seq<Seq<u8>>,
)
    requires
        t.wf(),
        0 <= i <= segs.len(),
        marks.len() == segs.len(),
        forall|j: int| i <= j < segs.len() ==> !is_variable_segment(#[trigger] segs[j]),
        t.node_at(segs.skip(i)) is Some,
    ensures
        t.run(Branch::Static, i, v, marks, segs).len() > segs.len() - i,
        forall|j: int| 0 <= j < segs.len() - i ==> (#[trigger] t.run(Branch::Static, i, v, marks, segs)[j]) is None,
        t.run(Branch::Static, i, v, marks, segs)[segs.len() - i] == Some(Hit {
            node: t.node_at(segs.skip(i))->0,
            branch: Branch::Static,
            var_index: v,
            marks: cleared(marks, i),
        }),
    decreases segs.len() - i,
{
    let len = segs.len() as int;
    if i == len {
        assert(segs.skip(i) =~= Seq::<Seq<u8>>::empty());
        assert(cleared(marks, i) =~= marks);
    } else {
        let key = segs[i];
        assert(segs.skip(i) =~= seq![key] + segs.skip(i + 1));
        lemma_node_at_cons(t, key, segs.skip(i + 1));
        assert(!is_variable_segment(key));
        assert(key != seq![58u8]) by {
            if key == seq![58u8] {
                assert(key[0] == 58u8);
            }
        }
        assert(key != seq![42u8]) by {
            if key == seq![42u8] {
                assert(key[0] == 42u8);
            }
        }
        let c = t.child(key)->0;
        lemma_wf_child(t, key);
        assert(t.static_child(key) is Some);
        assert(exists|j: int| 0 <= j < t.static_routes@.len() && t.static_routes@[j].0@ == key);
        let j = choose|j: int| 0 <= j < t.static_routes@.len() && t.static_routes@[j].0@ == key;
        lemma_static_child(t, j);
        assert(t.static_routes@[j].1 == c);
        let m2 = marks.update(i, None);
        lemma_static_run(c, i + 1, v, m2, segs);
        assert(cleared(m2, i + 1) =~= cleared(marks, i));
        let r = t.run(Branch::Static, i, v, marks, segs);
        let rc = c.run(Branch::Static, i + 1, v, m2, segs);
        assert(r =~= seq![None] + rc + c.run(Branch::Variable, i + 1, v, m2, segs)
            + c.run(Branch::Wildcard, i + 1, v, m2, segs));
        assert forall|k: int| 0 <= k < len - i implies (#[trigger] r[k]) is None by {
            if k > 0 {
                assert(r[k] == rc[k - 1]);
            }
        }
        assert(r[len - i] == rc[len - i - 1]);
    }
}

/// A route made of static segments only reaches its node first: a search for
/// it finds the node's handler for the method, with no variables.
pub proof fn lemma_static_route_found<H>(t: TreeRouter<H>, segs: Seq<Seq<u8>>, m: MethodView)
    requires
        t.wf(),
        forall|j: int| 0 <= j < segs.len() ==> !is_variable_segment(#[trigger] segs[j]),
        t.items().dom().contains(segs),
        t.items()[segs].dom().contains(m),
    ensures
        outcome_handler(t.search(segs, 0, 0, Seq::new(segs.len(), |j: int| None::<usize>)), m)
            == Some(t.items()[segs][m].0),
        outcome_variables(t.search(segs, 0, 0, Seq::new(segs.len(), |j: int| None::<usize>)), m, segs)
            == Map::<Seq<u8>, Seq<u8>>::empty(),
{
    let marks = Seq::new(segs.len(), |j: int| None::<usize>);
    assert(segs.skip(0) =~= segs);
    lemma_static_run(t, 0, 0, marks, segs);
    let hits = t.search(segs, 0, 0, marks);
    let r = t.run(Branch::Static, 0, 0, marks, segs);
    let k = segs.len() as int;
    assert forall|j: int| 0 <= j < k implies #[trigger] hits[j] is None by {
        assert(hits[j] == r[j]);
    }
    assert(hits[k] == r[k]);
    lemma_first_handler_at(hits, k, m);
    let cm = cleared(marks, 0);
    assert forall|j: int| 0 <= j < cm.len() implies #[trigger] cm[j] is None by {}
    let names = t.items()[segs][m].1;
    lemma_no_variables(segs, cm, names, segs.len() as int);
}

/// A handler inserted for a method at a route made of static segments only
/// is found by a search for that route, with no variables.
pub proof fn law_static_route_found<H>(
    before: TreeRouter<H>,
    after: TreeRouter<H>,
    route: Seq<u8>,
    m: MethodView,
    h: H,
)
    requires
        before.wf(),
        after.wf(),
        after.items() == inserted_at(
            before.items(),
            pattern(route_segments(route)),
            m,
            (h, variable_names(route_segments(route))),
        ),
        forall|j: int| 0 <= j < route_segments(route).len()
            ==> !is_variable_segment(#[trigger] route_segments(route)[j]),
    ensures
        outcome_handler(
            after.search(route_segments(route), 0, 0, Seq::new(route_segments(route).len(), |j: int| None::<usize>)),
            m,
        ) == Some(h),
        outcome_variables(
            after.search(route_segments(route), 0, 0, Seq::new(route_segments(route).len(), |j: int| None::<usize>)),
            m,
            route_segments(route),
        ) == Map::<Seq<u8>, Seq<u8>>::empty(),
{
    let segs = route_segments(route);
    assert(pattern(segs) =~= segs);
    assert(is_prefix(segs, segs)) by {
        assert(segs.take(segs.len() as int) =~= segs);
    }
    lemma_static_route_found(after, segs, m);
}

/// Inserting a handler changes no other route: every node that existed
/// keeps its handlers, except at the inserted route.
pub proof fn law_insert_keeps_other_routes<H>(
    before: TreeRouter<H>,
    after: TreeRouter<H>,
    route: Seq<u8>,
    m: MethodView,
    h: H,
    p: Seq<Seq<u8>>,
)
    requires
        after.items() == inserted_at(
            before.items(),
            pattern(route_segments(route)),
            m,
            (h, variable_names(route_segments(route))),
        ),
        before.items().dom().contains(p),
        p != pattern(route_segments(route)),
    ensures
        after.items().dom().contains(p),
        after.items()[p] == before.items()[p],
{
}

/// A later insert for the same method at the same route replaces the
/// earlier handler, and keeps the other methods there.
pub proof fn law_insert_replaces<H>(
    first: TreeRouter<H>,
    second: TreeRouter<H>,
    third: TreeRouter<H>,
    route: Seq<u8>,
    m: MethodView,
    h1: H,
    h2: H,
)
    requires
        second.items() == inserted_at(
            first.items(),
            pattern(route_segments(route)),
            m,
            (h1, variable_names(route_segments(route))),
        ),
        third.items() == inserted_at(
            second.items(),
            pattern(route_segments(route)),
            m,
            (h2, variable_names(route_segments(route))),
        ),
    ensures
        third.items()[pattern(route_segments(route))] == second.items()[pattern(route_segments(route))].insert(
            m,
            (h2, variable_names(route_segments(route))),
        ),
        third.items()[pattern(route_segments(route))][m].0 == h2,
{
    let q = pattern(route_segments(route));
    assert(is_prefix(q, q)) by {
        assert(q.take(q.len() as int) =~= q);
    }
}

/// Merging another router replaces, at every route of the other router,
/// the handlers for its methods, and keeps the rest.
pub proof fn law_merge_overrides<H>(
    before: TreeRouter<H>,
    other: TreeRouter<H>,
    after: TreeRouter<H>,
    p: Seq<Seq<u8>>,
    m: MethodView,
)
    requires
        after.items() == merged(before.items(), other.items(), Seq::empty()),
    ensures
        other.items().dom().contains(p) && other.items()[p].dom().contains(m) ==> {
            &&& after.items().dom().contains(p)
            &&& after.items()[p].dom().contains(m)
            &&& after.items()[p][m] == other.items()[p][m]
        },
        !other.items().dom().contains(p) ==> (after.items().dom().contains(p) <==> before.items().dom().contains(p)),
        !other.items().dom().contains(p) && before.items().dom().contains(p) ==> after.items()[p] == before.items()[p],
{
    if other.items().dom().contains(p) && other.items()[p].dom().contains(m) {
        let entry = other.items()[p][m];
        assert(Seq::<Seq<u8>>::empty() + entry.1 =~= entry.1);
    }
}

/// Prefixing a router with a route moves every node under that route, and
/// puts the route's variable names before those of every endpoint.
pub proof fn law_prefix_moves_routes<H>(
    before: TreeRouter<H>,
    after: TreeRouter<H>,
    route: Seq<u8>,
    p: Seq<Seq<u8>>,
)
    requires
        after.items() == prefixed_items(
            chain(pattern(route_segments(route)), before.items()),
            variable_names(route_segments(route)),
        ),
        before.items().dom().contains(p),
    ensures
        after.items().dom().contains(pattern(route_segments(route)) + p),
        after.items()[pattern(route_segments(route)) + p] == prefixed(
            before.items()[p],
            variable_names(route_segments(route)),
        ),
{
    lemma_chain_lookup(pattern(route_segments(route)), before.items(), p);
}

/// A node of a tree placed under a path is found under that path.
proof fn lemma_chain_lookup<H>(
    q: Seq<Seq<u8>>,
    b: Map<Seq<Seq<u8>>, Map<MethodView, (H, Seq<Seq<u8>>)>>,
    p: Seq<Seq<u8>>,
)
    requires
        b.dom().contains(p),
    ensures
        chain(q, b).dom().contains(q + p),
        chain(q, b)[q + p] == b[p],
    decreases q.len(),
{
    if q.len() == 0 {
        assert(q + p =~= p);
    } else {
        lemma_chain_lookup(q.drop_first(), b, p);
        let qp = q + p;
        assert(qp.len() > 0);
        assert(qp[0] == q[0]);
        assert(qp.drop_first() =~= q.drop_first() + p);
    }
}

/// The marks of a route whose keys are `q`, starting with `v` variables
/// taken: each variable segment is saved under the next variable index, and
/// other segments are not saved.
pub open spec fn var_marks_from(q: Seq<Seq<u8>>, v: int) -> Seq<Option<usize>>
    decreases q.len(),
{
    if q.len() == 0 {
        Seq::empty()
    } else if q[0] == seq![58u8] {
        seq![Some(v as usize)] + var_marks_from(q.drop_first(), v + 1)
    } else {
        seq![None] + var_marks_from(q.drop_first(), v)
    }
}

/// The route keys `q` match the route segments `ps` from position `i`: the
/// keys are static segments equal to the requested ones, or variable
/// segments.
pub open spec fn keys_match(q: Seq<Seq<u8>>, ps: Seq<Seq<u8>>, i: int) -> bool {
    &&& ps.len() == i + q.len()
    &&& forall|j: int| 0 <= j < q.len() ==> #[trigger] q[j] != seq![42u8]
    &&& forall|j: int| 0 <= j < q.len() && q[j] != seq![58u8]
        ==> !is_variable_segment(q[j]) && ps[i + j] == #[trigger] q[j]
}

/// The shape of a tree that holds a single route: a chain of nodes without
/// handlers that ends in the route's node.
proof fn lemma_single_shape<H>(t: TreeRouter<H>, q: Seq<Seq<u8>>, m: MethodView, val: (H, Seq<Seq<u8>>))
    requires
        t.wf(),
        t.items() == inserted_at(empty_items::<H>(), q, m, val),
    ensures
        q.len() == 0 ==> t.item_view() == Map::<MethodView, (H, Seq<Seq<u8>>)>::empty().insert(m, val),
        q.len() == 0 ==> forall|k: Seq<u8>| #[trigger] t.child(k) is None,
        q.len() > 0 ==> {
            &&& t.child(q[0]) is Some
            &&& t.child(q[0])->0.wf()
            &&& t.child(q[0])->0.items() == inserted_at(empty_items::<H>(), q.drop_first(), m, val)
            &&& forall|k: Seq<u8>| k != q[0] ==> #[trigger] t.child(k) is None
        },
{
    let target = inserted_at(empty_items::<H>(), q, m, val);
    lemma_items_root(t);
    if q.len() == 0 {
        assert(q =~= Seq::<Seq<u8>>::empty());
        assert forall|k: Seq<u8>| #[trigger] t.child(k) is None by {
            if t.child(k) is Some {
                let p = seq![k];
                lemma_items_split(t, p);
                assert(p.drop_first() =~= Seq::<Seq<u8>>::empty());
                lemma_items_root(t.child(k)->0);
                assert(t.items().dom().contains(p));
                assert(!is_prefix(p, q));
            }
        }
    } else {
        let k0 = q[0];
        let p0 = seq![k0];
        assert(is_prefix(p0, q)) by {
            assert(q.take(1) =~= p0);
        }
        lemma_items_split(t, p0);
        assert(p0.drop_first() =~= Seq::<Seq<u8>>::empty());
        let c = t.child(k0)->0;
        lemma_wf_child(t, k0);
        let inner = inserted_at(empty_items::<H>(), q.drop_first(), m, val);
        assert forall|p: Seq<Seq<u8>>| #[trigger] c.items().dom().contains(p) <==> inner.dom().contains(p) by {
            let kp = seq![k0] + p;
            lemma_items_split(t, kp);
            assert(kp[0] == k0);
            assert(kp.drop_first() =~= p);
            assert(is_prefix(kp, q) <==> is_prefix(p, q.drop_first())) by {
                if kp.len() <= q.len() {
                    assert(q.take(kp.len() as int) =~= seq![k0] + q.drop_first().take(p.len() as int));
                    if q.take(kp.len() as int) == kp {
                        assert((seq![k0] + q.drop_first().take(p.len() as int)).drop_first() =~= q.drop_first().take(p.len() as int));
                    }
                }
            }
            assert(!empty_items::<H>().dom().contains(kp));
            if p.len() == 0 {
                assert(p =~= Seq::<Seq<u8>>::empty());
            }
        }
        assert forall|p: Seq<Seq<u8>>| #[trigger] c.items().dom().contains(p) implies c.items()[p] == inner[p] by {
            let kp = seq![k0] + p;
            lemma_items_split(t, kp);
            assert(kp[0] == k0);
            assert(kp.drop_first() =~= p);
            assert(kp == q <==> p == q.drop_first()) by {
                if p == q.drop_first() {
                    assert(kp =~= q);
                }
                if kp == q {
                    assert(p =~= q.drop_first());
                }
            }
            if p.len() == 0 {
                assert(p =~= Seq::<Seq<u8>>::empty());
            }
        }
        assert(c.items() =~= inner);
        assert forall|k: Seq<u8>| k != k0 implies #[trigger] t.child(k) is None by {
            if t.child(k) is Some {
                let p = seq![k];
                lemma_items_split(t, p);
                assert(p.drop_first() =~= Seq::<Seq<u8>>::empty());
                lemma_items_root(t.child(k)->0);
                assert(t.items().dom().contains(p));
                assert(!is_prefix(p, q)) by {
                    if p.len() <= q.len() {
                        assert(q.take(1)[0] == k0);
                    }
                }
            }
        }
    }
}

/// Searching a tree that holds a single route, along a matching path,
/// meets only empty steps until it reaches the route's node, with every
/// variable segment saved under its own index.
#[verifier::rlimit(40)]
proof fn lemma_single_run<H>(
    t: TreeRouter<H>,
    q: Seq<Seq<u8>>,
    i: int,
    v: int,
    marks: Seq<Option<usize>>,
    ps: Seq<Seq<u8>>,
    m: MethodView,
    val: (H, Seq<Seq<u8>>),
) -> (k: int)
    requires
        t.wf(),
        t.items() == inserted_at(empty_items::<H>(), q, m, val),
        0 <= i,
        0 <= v,
        v + q.len() <= usize::MAX,
        marks.len() == ps.len(),
        keys_match(q, ps, i),
    ensures
        0 <= k < t.search(ps, i, v, marks).len(),
        forall|j: int| 0 <= j < k ==> (#[trigger] t.search(ps, i, v, marks)[j]) is None,
        t.search(ps, i, v, marks)[k] matches Some(hit) && hit.node.item_view()
            == Map::<MethodView, (H, Seq<Seq<u8>>)>::empty().insert(m, val) && hit.marks == marks.take(i)
            + var_marks_from(q, v),
    decreases q.len(),
{
    lemma_single_shape(t, q, m, val);
    let srch = t.search(ps, i, v, marks);
    if q.len() == 0 {
        assert(marks.take(i) + var_marks_from(q, v) =~= marks);
        assert(srch[0] == t.run(Branch::Static, i, v, marks, ps)[0]);
        0
    } else {
        let k0 = q[0];
        let q1 = q.drop_first();
        let c = t.child(k0)->0;
        assert(keys_match(q1, ps, i + 1)) by {
            assert forall|j: int| 0 <= j < q1.len() implies #[trigger] q1[j] != seq![42u8] by {
                assert(q1[j] == q[j + 1]);
            }
            assert forall|j: int| 0 <= j < q1.len() && q1[j] != seq![58u8]
                implies !is_variable_segment(q1[j]) && ps[i + 1 + j] == #[trigger] q1[j] by {
                assert(q1[j] == q[j + 1]);
            }
        }
        assert(q[0] != seq![42u8]);
        if k0 == seq![58u8] {
            let m2 = marks.update(i, Some(v as usize));
            let k1 = lemma_single_run(c, q1, i + 1, v + 1, m2, ps, m, val);
            let cs = c.search(ps, i + 1, v + 1, m2);
            assert(t.static_routes@.len() == 0) by {
                if t.static_routes@.len() > 0 {
                    lemma_static_child(t, 0);
                    lemma_wf_node_ok(t);
                    let key = t.static_routes@[0].0@;
                    assert(!is_variable_segment(key));
                    assert(key != seq![58u8]) by {
                        if key == seq![58u8] {
                            assert(key[0] == 58u8);
                        }
                    }
                }
            }
            assert(t.variable_route == Some(Box::new(c)));
            let rs = t.run(Branch::Static, i, v, marks, ps);
            let rv = t.run(Branch::Variable, i, v, marks, ps);
            assert(rs =~= seq![None]);
            assert(rv =~= seq![None] + cs) by {
                assert(cs =~= c.run(Branch::Static, i + 1, v + 1, m2, ps) + c.run(Branch::Variable, i + 1, v + 1, m2, ps)
                    + c.run(Branch::Wildcard, i + 1, v + 1, m2, ps));
            }
            let k = k1 + 2;
            assert(srch =~= seq![None, None] + cs + t.run(Branch::Wildcard, i, v, marks, ps));
            assert forall|j: int| 0 <= j < k implies (#[trigger] srch[j]) is None by {
                if j >= 2 {
                    assert(srch[j] == cs[j - 2]);
                }
            }
            assert(srch[k] == cs[k1]);
            assert(m2.take(i + 1) + var_marks_from(q1, v + 1) =~= marks.take(i) + var_marks_from(q, v));
            k
        } else {
            let m2 = marks.update(i, None);
            let k1 = lemma_single_run(c, q1, i + 1, v, m2, ps, m, val);
            let cs = c.search(ps, i + 1, v, m2);
            assert(!is_variable_segment(k0));
            assert(ps[i] == k0);
            assert(k0 != seq![42u8]);
            assert(t.static_child(k0) is Some);
            assert(exists|j: int| 0 <= j < t.static_routes@.len() && t.static_routes@[j].0@ == k0);
            let jj = choose|j: int| 0 <= j < t.static_routes@.len() && t.static_routes@[j].0@ == k0;
            lemma_static_child(t, jj);
            let rs = t.run(Branch::Static, i, v, marks, ps);
            assert(rs =~= seq![None] + cs) by {
                assert(cs =~= c.run(Branch::Static, i + 1, v, m2, ps) + c.run(Branch::Variable, i + 1, v, m2, ps)
                    + c.run(Branch::Wildcard, i + 1, v, m2, ps));
            }
            let k = k1 + 1;
            assert(srch =~= seq![None] + cs + t.run(Branch::Variable, i, v, marks, ps) + t.run(Branch::Wildcard, i, v, marks, ps));
            assert forall|j: int| 0 <= j < k implies (#[trigger] srch[j]) is None by {
                if j >= 1 {
                    assert(srch[j] == cs[j - 1]);
                }
            }
            assert(srch[k] == cs[k1]);
            assert(m2.take(i + 1) + var_marks_from(q1, v) =~= marks.take(i) + var_marks_from(q, v));
            k
        }
    }
}

/// A router that holds a single route made of static segments and variable
/// segments (`:label`) finds it for every path with the route's static
/// segments in the same places and as many segments: the handler is the
/// route's, and each variable segment takes the path's segment in its place
/// under the variable's label.
pub proof fn law_variable_route_found<H>(t: TreeRouter<H>, route: Seq<u8>, m: MethodView, h: H, path: Seq<u8>)
    requires
        t.wf(),
        t.items() == inserted_at(
            empty_items::<H>(),
            pattern(route_segments(route)),
            m,
            (h, variable_names(route_segments(route))),
        ),
        route_segments(route).len() <= usize::MAX,
        forall|j: int| 0 <= j < route_segments(route).len()
            ==> (#[trigger] route_segments(route)[j]).len() == 0 || route_segments(route)[j][0] != 42u8,
        route_segments(path).len() == route_segments(route).len(),
        forall|j: int| 0 <= j < route_segments(route).len() && !is_variable_segment(
            #[trigger] route_segments(route)[j],
        ) ==> route_segments(path)[j] == route_segments(route)[j],
    ensures
        outcome_handler(
            t.search(route_segments(path), 0, 0, Seq::new(route_segments(path).len(), |j: int| None::<usize>)),
            m,
        ) == Some(h),
        outcome_variables(
            t.search(route_segments(path), 0, 0, Seq::new(route_segments(path).len(), |j: int| None::<usize>)),
            m,
            route_segments(path),
        ) == route_variables(
            route_segments(path),
            var_marks_from(pattern(route_segments(route)), 0),
            variable_names(route_segments(route)),
        ),
{
    let segs = route_segments(route);
    let ps = route_segments(path);
    let q = pattern(segs);
    let names = variable_names(segs);
    let marks = Seq::new(ps.len(), |j: int| None::<usize>);
    assert(keys_match(q, ps, 0)) by {
        assert forall|j: int| 0 <= j < q.len() implies #[trigger] q[j] != seq![42u8] by {
            let sj = segs[j];
            if q[j] == seq![42u8] {
                if is_variable_segment(sj) {
                    assert(q[j] == seq![sj[0]]);
                    assert(q[j][0] == sj[0]);
                } else {
                    assert(sj == seq![42u8]);
                    assert(sj[0] == 42u8);
                }
            }
        }
        assert forall|j: int| 0 <= j < q.len() && q[j] != seq![58u8]
            implies !is_variable_segment(q[j]) && ps[0 + j] == #[trigger] q[j] by {
            let sj = segs[j];
            if is_variable_segment(sj) {
                assert(q[j] == seq![sj[0]]);
                assert(q[j][0] == sj[0]);
                assert(sj[0] == 42u8 || sj[0] == 58u8);
                assert(sj[0] != 42u8);
            }
        }
    }
    let k = lemma_single_run(t, q, 0, 0, marks, ps, m, (h, names));
    let hits = t.search(ps, 0, 0, marks);
    lemma_first_handler_at(hits, k, m);
    assert(marks.take(0) + var_marks_from(q, 0) =~= var_marks_from(q, 0));
}

/// The keys of variable segments and variable sequences differ.
proof fn lemma_variable_keys()
    ensures
        seq![58u8] != seq![42u8],
{
    assert(seq![58u8][0] != seq![42u8][0]);
}

/// A node whose only child, if any, is its variable sequence.
proof fn lemma_no_children<H>(t: TreeRouter<H>)
    requires
        t.wf(),
        forall|k: Seq<u8>| k != seq![42u8] ==> #[trigger] t.child(k) is None,
    ensures
        t.static_routes@.len() == 0,
        t.variable_route is None,
        t.child(seq![42u8]) is None ==> t.wildcard_route is None,
        t.child(seq![42u8]) matches Some(c) ==> t.wildcard_route == Some(Box::new(c)),
{
    lemma_variable_keys();
    assert(t.child(seq![58u8]) is None);
    if t.static_routes@.len() > 0 {
        lemma_static_child(t, 0);
        lemma_wf_node_ok(t);
        let key = t.static_routes@[0].0@;
        assert(!is_variable_segment(key));
        assert(key != seq![42u8]) by {
            if key == seq![42u8] {
                assert(key[0] == 42u8);
            }
        }
    }
}

/// The marks of a route whose keys are `q`, starting with `v` variables
/// taken, where the route's last key is a variable sequence that takes `n`
/// segments: each variable segment is saved under the next variable index,
/// the segments of the sequence all under one index, and other segments are
/// not saved.
pub open spec fn wild_marks_from(q: Seq<Seq<u8>>, v: int, n: nat) -> Seq<Option<usize>>
    decreases q.len(),
{
    if q.len() == 0 {
        Seq::empty()
    } else if q[0] == seq![58u8] {
        seq![Some(v as usize)] + wild_marks_from(q.drop_first(), v + 1, n)
    } else if q[0] == seq![42u8] {
        Seq::new(n, |j: int| Some(v as usize))
    } else {
        seq![None] + wild_marks_from(q.drop_first(), v, n)
    }
}

/// The route keys `q` match the route segments `ps` from position `i`: the
/// last key is a variable sequence, which takes at least one segment, and
/// the keys before it are static segments equal to the requested ones, or
/// variable segments.
pub open spec fn wild_keys_match(q: Seq<Seq<u8>>, ps: Seq<Seq<u8>>, i: int) -> bool {
    &&& q.len() >= 1
    &&& q.last() == seq![42u8]
    &&& ps.len() >= i + q.len()
    &&& forall|j: int| 0 <= j < q.len() - 1 ==> #[trigger] q[j] != seq![42u8]
    &&& forall|j: int| 0 <= j < q.len() - 1 && q[j] != seq![58u8]
        ==> !is_variable_segment(q[j]) && ps[i + j] == #[trigger] q[j]
}

/// A variable sequence that leads to a node without children takes the
/// segments one by one, meeting only empty steps, until it has taken all
/// the rest of the route: the node is then reached with every one of them
/// saved under the sequence's index.
proof fn lemma_wild_tail<H>(
    t: TreeRouter<H>,
    i: int,
    v: int,
    marks: Seq<Option<usize>>,
    ps: Seq<Seq<u8>>,
    m: MethodView,
    val: (H, Seq<Seq<u8>>),
) -> (k: int)
    requires
        t.wf(),
        t.child(seq![42u8]) is Some,
        t.child(seq![42u8])->0.wf(),
        t.child(seq![42u8])->0.items() == inserted_at(empty_items::<H>(), Seq::empty(), m, val),
        0 <= i < ps.len(),
        0 <= v <= usize::MAX,
        marks.len() == ps.len(),
    ensures
        0 <= k < t.run(Branch::Wildcard, i, v, marks, ps).len(),
        forall|j: int| 0 <= j < k ==> (#[trigger] t.run(Branch::Wildcard, i, v, marks, ps)[j]) is None,
        t.run(Branch::Wildcard, i, v, marks, ps)[k] matches Some(hit) && hit.node.item_view()
            == Map::<MethodView, (H, Seq<Seq<u8>>)>::empty().insert(m, val) && hit.marks == marks.take(i)
            + Seq::new((ps.len() - i) as nat, |j: int| Some(v as usize)),
    decreases ps.len() - i,
{
    let c = t.child(seq![42u8])->0;
    lemma_variable_keys();
    lemma_single_shape(c, Seq::empty(), m, val);
    assert(forall|key: Seq<u8>| key != seq![42u8] ==> #[trigger] c.child(key) is None);
    assert(c.child(seq![42u8]) is None);
    lemma_no_children(c);
    assert(t.wildcard_route == Some(Box::new(c)));
    let m2 = marks.update(i, Some(v as usize));
    let r = t.run(Branch::Wildcard, i, v, marks, ps);
    let cs = c.run(Branch::Static, i + 1, v + 1, m2, ps);
    let cv = c.run(Branch::Variable, i + 1, v + 1, m2, ps);
    let cw = c.run(Branch::Wildcard, i + 1, v + 1, m2, ps);
    let rest = t.run(Branch::Wildcard, i + 1, v, m2, ps);
    assert(r =~= seq![None] + cs + cv + cw + rest);
    let n = ps.len() as int;
    if i + 1 == n {
        assert(cs =~= seq![Some(Hit { node: c, branch: Branch::Static, var_index: v + 1, marks: m2 })]);
        assert(r[1] == cs[0]);
        assert(m2 =~= marks.take(i) + Seq::new((ps.len() - i) as nat, |j: int| Some(v as usize)));
        1
    } else {
        assert(!(exists|j: int| 0 <= j < c.static_routes@.len() && c.static_routes@[j].0@ == ps[i + 1]));
        assert(cs =~= seq![None]);
        assert(cv =~= seq![None]);
        assert(cw =~= seq![None]);
        let k1 = lemma_wild_tail(t, i + 1, v, m2, ps, m, val);
        assert forall|j: int| 0 <= j < k1 + 4 implies (#[trigger] r[j]) is None by {
            if j >= 4 {
                assert(r[j] == rest[j - 4]);
            }
        }
        assert(r[k1 + 4] == rest[k1]);
        assert(m2.take(i + 1) + Seq::new((ps.len() - (i + 1)) as nat, |j: int| Some(v as usize)) =~= marks.take(i)
            + Seq::new((ps.len() - i) as nat, |j: int| Some(v as usize)));
        k1 + 4
    }
}

/// Searching a tree that holds a single route ending in a variable
/// sequence, along a matching path, meets only empty steps until it reaches
/// the route's node, with every variable segment saved under its own index
/// and the segments that the sequence takes under the sequence's index.
#[verifier::rlimit(80)]
proof fn lemma_single_run_wild<H>(
    t: TreeRouter<H>,
    q: Seq<Seq<u8>>,
    i: int,
    v: int,
    marks: Seq<Option<usize>>,
    ps: Seq<Seq<u8>>,
    m: MethodView,
    val: (H, Seq<Seq<u8>>),
) -> (k: int)
    requires
        t.wf(),
        t.items() == inserted_at(empty_items::<H>(), q, m, val),
        0 <= i,
        0 <= v,
        v + q.len() <= usize::MAX,
        marks.len() == ps.len(),
        wild_keys_match(q, ps, i),
    ensures
        0 <= k < t.search(ps, i, v, marks).len(),
        forall|j: int| 0 <= j < k ==> (#[trigger] t.search(ps, i, v, marks)[j]) is None,
        t.search(ps, i, v, marks)[k] matches Some(hit) && hit.node.item_view()
            == Map::<MethodView, (H, Seq<Seq<u8>>)>::empty().insert(m, val) && hit.marks == marks.take(i)
            + wild_marks_from(q, v, (ps.len() - i - q.len() + 1) as nat),
    decreases q.len(),
{
    lemma_single_shape(t, q, m, val);
    let srch = t.search(ps, i, v, marks);
    let k0 = q[0];
    let q1 = q.drop_first();
    let c = t.child(k0)->0;
    if q.len() == 1 {
        assert(k0 == seq![42u8]);
        assert(q1 =~= Seq::<Seq<u8>>::empty());
        assert(forall|key: Seq<u8>| key != seq![42u8] ==> #[trigger] t.child(key) is None);
        lemma_no_children(t);
        let kw = lemma_wild_tail(t, i, v, marks, ps, m, val);
        let rw = t.run(Branch::Wildcard, i, v, marks, ps);
        assert(!(exists|j: int| 0 <= j < t.static_routes@.len() && t.static_routes@[j].0@ == ps[i]));
        assert(t.run(Branch::Static, i, v, marks, ps) =~= seq![None]);
        assert(t.run(Branch::Variable, i, v, marks, ps) =~= seq![None]);
        assert(srch =~= seq![None, None] + rw);
        assert forall|j: int| 0 <= j < kw + 2 implies (#[trigger] srch[j]) is None by {
            if j >= 2 {
                assert(srch[j] == rw[j - 2]);
            }
        }
        assert(srch[kw + 2] == rw[kw]);
        assert(wild_marks_from(q, v, (ps.len() - i - q.len() + 1) as nat) =~= Seq::new(
            (ps.len() - i) as nat,
            |j: int| Some(v as usize),
        ));
        kw + 2
    } else {
        assert(q.len() - 1 > 0);
        assert(k0 != seq![42u8]) by {
            assert(q[0] != seq![42u8]);
        }
        assert(wild_keys_match(q1, ps, i + 1)) by {
            assert(q1.last() == q.last());
            assert forall|j: int| 0 <= j < q1.len() - 1 implies #[trigger] q1[j] != seq![42u8] by {
                assert(q1[j] == q[j + 1]);
            }
            assert forall|j: int| 0 <= j < q1.len() - 1 && q1[j] != seq![58u8]
                implies !is_variable_segment(q1[j]) && ps[i + 1 + j] == #[trigger] q1[j] by {
                assert(q1[j] == q[j + 1]);
            }
        }
        let n = (ps.len() - i - q.len() + 1) as nat;
        if k0 == seq![58u8] {
            let m2 = marks.update(i, Some(v as usize));
            let k1 = lemma_single_run_wild(c, q1, i + 1, v + 1, m2, ps, m, val);
            let cs = c.search(ps, i + 1, v + 1, m2);
            assert(t.static_routes@.len() == 0) by {
                if t.static_routes@.len() > 0 {
                    lemma_static_child(t, 0);
                    lemma_wf_node_ok(t);
                    let key = t.static_routes@[0].0@;
                    assert(!is_variable_segment(key));
                    assert(key != seq![58u8]) by {
                        if key == seq![58u8] {
                            assert(key[0] == 58u8);
                        }
                    }
                }
            }
            assert(t.variable_route == Some(Box::new(c)));
            let rs = t.run(Branch::Static, i, v, marks, ps);
            let rv = t.run(Branch::Variable, i, v, marks, ps);
            assert(rs =~= seq![None]);
            assert(rv =~= seq![None] + cs) by {
                assert(cs =~= c.run(Branch::Static, i + 1, v + 1, m2, ps) + c.run(Branch::Variable, i + 1, v + 1, m2, ps)
                    + c.run(Branch::Wildcard, i + 1, v + 1, m2, ps));
            }
            let k = k1 + 2;
            assert(srch =~= seq![None, None] + cs + t.run(Branch::Wildcard, i, v, marks, ps));
            assert forall|j: int| 0 <= j < k implies (#[trigger] srch[j]) is None by {
                if j >= 2 {
                    assert(srch[j] == cs[j - 2]);
                }
            }
            assert(srch[k] == cs[k1]);
            assert(m2.take(i + 1) + wild_marks_from(q1, v + 1, n) =~= marks.take(i) + wild_marks_from(q, v, n));
            k
        } else {
            let m2 = marks.update(i, None);
            let k1 = lemma_single_run_wild(c, q1, i + 1, v, m2, ps, m, val);
            let cs = c.search(ps, i + 1, v, m2);
            assert(!is_variable_segment(k0));
            assert(ps[i] == k0);
            assert(t.static_child(k0) is Some);
            assert(exists|j: int| 0 <= j < t.static_routes@.len() && t.static_routes@[j].0@ == k0);
            let jj = choose|j: int| 0 <= j < t.static_routes@.len() && t.static_routes@[j].0@ == k0;
            lemma_static_child(t, jj);
            let rs = t.run(Branch::Static, i, v, marks, ps);
            assert(rs =~= seq![None] + cs) by {
                assert(cs =~= c.run(Branch::Static, i + 1, v, m2, ps) + c.run(Branch::Variable, i + 1, v, m2, ps)
                    + c.run(Branch::Wildcard, i + 1, v, m2, ps));
            }
            let k = k1 + 1;
            assert(srch =~= seq![None] + cs + t.run(Branch::Variable, i, v, marks, ps) + t.run(Branch::Wildcard, i, v, marks, ps));
            assert forall|j: int| 0 <= j < k implies (#[trigger] srch[j]) is None by {
                if j >= 1 {
                    assert(srch[j] == cs[j - 1]);
                }
            }
            assert(srch[k] == cs[k1]);
            assert(m2.take(i + 1) + wild_marks_from(q1, v, n) =~= marks.take(i) + wild_marks_from(q, v, n));
            k
        }
    }
}

/// A router that holds a single route made of static segments and variable
/// segments (`:label`) and ending in a variable sequence (`*label`) finds it
/// for every path with the route's static segments in the same places and
/// at least as many segments: the handler is the route's, each variable
/// segment takes the path's segment in its place, and the variable sequence
/// takes all the rest of the path.
pub proof fn law_wildcard_route_found<H>(t: TreeRouter<H>, route: Seq<u8>, m: MethodView, h: H, path: Seq<u8>)
    requires
        t.wf(),
        t.items() == inserted_at(
            empty_items::<H>(),
            pattern(route_segments(route)),
            m,
            (h, variable_names(route_segments(route))),
        ),
        1 <= route_segments(route).len() <= usize::MAX,
        route_segments(route).last().len() > 0 && route_segments(route).last()[0] == 42u8,
        forall|j: int| 0 <= j < route_segments(route).len() - 1
            ==> (#[trigger] route_segments(route)[j]).len() == 0 || route_segments(route)[j][0] != 42u8,
        route_segments(path).len() >= route_segments(route).len(),
        forall|j: int| 0 <= j < route_segments(route).len() - 1 && !is_variable_segment(
            #[trigger] route_segments(route)[j],
        ) ==> route_segments(path)[j] == route_segments(route)[j],
    ensures
        outcome_handler(
            t.search(route_segments(path), 0, 0, Seq::new(route_segments(path).len(), |j: int| None::<usize>)),
            m,
        ) == Some(h),
        outcome_variables(
            t.search(route_segments(path), 0, 0, Seq::new(route_segments(path).len(), |j: int| None::<usize>)),
            m,
            route_segments(path),
        ) == route_variables(
            route_segments(path),
            wild_marks_from(
                pattern(route_segments(route)),
                0,
                (route_segments(path).len() - route_segments(route).len() + 1) as nat,
            ),
            variable_names(route_segments(route)),
        ),
{
    let segs = route_segments(route);
    let ps = route_segments(path);
    let q = pattern(segs);
    let names = variable_names(segs);
    let marks = Seq::new(ps.len(), |j: int| None::<usize>);
    assert(wild_keys_match(q, ps, 0)) by {
        let sl = segs.last();
        assert(sl == segs[segs.len() - 1]);
        assert(is_variable_segment(sl));
        assert(q.last() == pattern_key(sl));
        assert(q.last() =~= seq![42u8]);
        assert forall|j: int| 0 <= j < q.len() - 1 implies #[trigger] q[j] != seq![42u8] by {
            let sj = segs[j];
            if q[j] == seq![42u8] {
                if is_variable_segment(sj) {
                    assert(q[j] == seq![sj[0]]);
                    assert(q[j][0] == sj[0]);
                } else {
                    assert(sj == seq![42u8]);
                    assert(sj[0] == 42u8);
                }
            }
        }
        assert forall|j: int| 0 <= j < q.len() - 1 && q[j] != seq![58u8]
            implies !is_variable_segment(q[j]) && ps[0 + j] == #[trigger] q[j] by {
            let sj = segs[j];
            if is_variable_segment(sj) {
                assert(q[j] == seq![sj[0]]);
                assert(q[j][0] == sj[0]);
                assert(sj[0] == 42u8 || sj[0] == 58u8);
                assert(sj[0] != 42u8);
            }
        }
    }
    let k = lemma_single_run_wild(t, q, 0, 0, marks, ps, m, (h, names));
    let hits = t.search(ps, 0, 0, marks);
    lemma_first_handler_at(hits, k, m);
    let n = (ps.len() - q.len() + 1) as nat;
    assert(marks.take(0) + wild_marks_from(q, 0, n) =~= wild_marks_from(q, 0, n));
}

/// A node where the requested path ended: its method router and the state
/// of the route there.
pub struct Match<'a, H> {
    /// The method router at the node.
    pub item: &'a MethodRouter<H>,
    /// The state of the route at the node, from which the variables are
    /// named.
    pub route: RouteState,
}

/// All the nodes where the requested path ended, and the hyperlinks found on
/// the way.
pub struct Matches<'a, H> {
    /// The nodes, in search order.
    pub matches: Vec<Match<'a, H>>,
    /// The hyperlinks.
    pub hyperlinks: Vec<Link<'a, H>>,
}

/// The abstract value of a match: the method map, the marks and the number
/// of variables taken.
pub ghost struct MatchView<H> {
    pub items: Map<MethodView, (H, Seq<Seq<u8>>)>,
    pub marks: Seq<Option<usize>>,
    pub var_index: int,
}

/// The abstract values of matches.
pub open spec fn match_views<'a, H>(ms: Seq<Match<'a, H>>) -> Seq<MatchView<H>> {
    ms.map_values(|x: Match<'a, H>| MatchView { items: x.item@, marks: x.route.marks(), var_index: x.route.var_position() })
}

/// Every hit, in search order.
pub open spec fn hit_matches<H>(hits: Seq<Option<Hit<H>>>) -> Seq<MatchView<H>>
    decreases hits.len(),
{
    if hits.len() == 0 {
        Seq::empty()
    } else {
        let rest = hit_matches(hits.drop_last());
        match hits.last() {
            Some(h) => rest.push(MatchView { items: h.node.item_view(), marks: h.marks, var_index: h.var_index }),
            None => rest,
        }
    }
}

/// The first hit only, if there is one.
pub open spec fn first_match<H>(hits: Seq<Option<Hit<H>>>) -> Seq<MatchView<H>> {
    if hit_matches(hits).len() == 0 {
        Seq::empty()
    } else {
        hit_matches(hits).take(1)
    }
}

/// The links of every hit reached through a static branch.
pub open spec fn all_hit_links<H>(hits: Seq<Option<Hit<H>>>, m: MethodView) -> Seq<LinkView<H>>
    decreases hits.len(),
{
    if hits.len() == 0 {
        Seq::empty()
    } else {
        let rest = all_hit_links(hits.drop_last(), m);
        match hits.last() {
            Some(h) => if h.branch is Static {
                rest + h.node.node_links(m)
            } else {
                rest
            },
            None => rest,
        }
    }
}

proof fn lemma_hit_matches_append<H>(a: Seq<Option<Hit<H>>>, b: Seq<Option<Hit<H>>>)
    ensures
        hit_matches(a + b) == hit_matches(a) + hit_matches(b),
    decreases b.len(),
{
    if b.len() == 0 {
        assert(a + b =~= a);
        assert(hit_matches(b) =~= Seq::<MatchView<H>>::empty());
        assert(hit_matches(a) + hit_matches(b) =~= hit_matches(a));
    } else {
        lemma_hit_matches_append(a, b.drop_last());
        assert((a + b).drop_last() =~= a + b.drop_last());
        assert((a + b).last() == b.last());
        match b.last() {
            Some(h) => {
                assert(hit_matches(a) + hit_matches(b) =~= (hit_matches(a) + hit_matches(b.drop_last())).push(
                    MatchView { items: h.node.item_view(), marks: h.marks, var_index: h.var_index },
                ));
            },
            None => {},
        }
    }
}

proof fn lemma_no_hit_matches<H>(hits: Seq<Option<Hit<H>>>)
    requires
        forall|j: int| 0 <= j < hits.len() ==> #[trigger] hits[j] is None,
    ensures
        hit_matches(hits) == Seq::<MatchView<H>>::empty(),
    decreases hits.len(),
{
    if hits.len() > 0 {
        lemma_no_hit_matches(hits.drop_last());
    }
}

impl<H> TreeRouter<H> {
    /// Find every node where the rest of the route ends, trying static
    /// children before variable segments before variable sequences. Without
    /// `find_hyperlinks`, the search stops at the first such node. With it,
    /// every node is listed, and the links of every node reached through a
    /// static branch are collected, in search order.
    #[verifier::rlimit(60)]
    pub fn matches<'a>(&'a self, method: &Method, route: &mut RouteState) -> (r: Matches<'a, H>)
        requires
            self.wf(),
            old(route).wf(),
            old(route).var_position() + old(route).segments_view().len() <= usize::MAX,
        ensures
            final(route).wf(),
            final(route).segments_view() == old(route).segments_view(),
            forall|k: int| 0 <= k < r.matches@.len() ==> {
                &&& (#[trigger] r.matches@[k]).route.wf()
                &&& r.matches@[k].route.segments_view() == old(route).segments_view()
                &&& r.matches@[k].route.position() == old(route).segments_view().len()
                &&& r.matches@[k].item.wf()
            },
            match_views(r.matches@) == if self.links_enabled() {
                hit_matches(self.search(old(route).segments_view(), old(route).position(), old(route).var_position(), old(route).marks()))
            } else {
                first_match(self.search(old(route).segments_view(), old(route).position(), old(route).var_position(), old(route).marks()))
            },
            if self.links_enabled() {
                link_views(r.hyperlinks@) == ordered_links(
                    all_hit_links(
                        self.search(old(route).segments_view(), old(route).position(), old(route).var_position(), old(route).marks()),
                        method@,
                    ),
                )
            } else {
                link_views(r.hyperlinks@) == Seq::<LinkView<H>>::empty()
            },
    {
        let ghost segs = route.segments_view();
        let ghost m = method@;
        let ghost i0 = route.position();
        let ghost v0 = route.var_position();
        let ghost len = segs.len() as int;
        let ghost all = self.search(segs, i0, v0, route.marks());
        let now = route.snapshot();
        let mut stack: Vec<(&'a TreeRouter<H>, Branch, (usize, usize))> = Vec::new();
        let ghost fw = Frame { node: *self, branch: Branch::Wildcard, i: i0, v: v0, marks: route.marks() };
        let ghost fv = Frame { node: *self, branch: Branch::Variable, i: i0, v: v0, marks: route.marks() };
        let ghost fs = Frame { node: *self, branch: Branch::Static, i: i0, v: v0, marks: route.marks() };
        let ghost e0 = Seq::<Frame<H>>::empty();
        proof {
            reveal(stack_matches);
            assert(stack_matches(stack@, e0));
        }
        stack.push((self, Branch::Wildcard, now));
        proof { lemma_stack_push(Seq::empty(), e0, (self, Branch::Wildcard, now), fw); }
        stack.push((self, Branch::Variable, now));
        proof { lemma_stack_push(seq![(self, Branch::Wildcard, now)], e0.push(fw), (self, Branch::Variable, now), fv); }
        stack.push((self, Branch::Static, now));
        proof {
            lemma_stack_push(seq![(self, Branch::Wildcard, now)].push((self, Branch::Variable, now)), e0.push(fw).push(fv), (self, Branch::Static, now), fs);
            assert(stack@ =~= seq![(self, Branch::Wildcard, now)].push((self, Branch::Variable, now)).push((self, Branch::Static, now)));
        }
        let ghost mut frames: Seq<Frame<H>> = e0.push(fw).push(fv).push(fs);
        let ghost mut done: Seq<Option<Hit<H>>> = Seq::empty();
        let mut found: Vec<Match<'a, H>> = Vec::new();
        let mut links: Vec<Link<'a, H>> = Vec::new();
        proof {
            lemma_pending_push(e0.push(fw).push(fv), fs, segs);
            lemma_pending_push(e0.push(fw), fv, segs);
            lemma_pending_push(e0, fw, segs);
            assert(done + pending(frames, segs) =~= all);
            assert(match_views(found@) =~= Seq::<MatchView<H>>::empty());
            assert(link_views(links@) =~= Seq::<LinkView<H>>::empty());
            reveal(frames_ok);
            assert(frames_ok(frames, route.marks(), i0, v0, len));
        }
        while stack.len() > 0
            invariant
                self.wf(),
                route.wf(),
                route.segments_view() == segs,
                segs == old(route).segments_view(),
                all == self.search(old(route).segments_view(), old(route).position(), old(route).var_position(), old(route).marks()),
                len == segs.len(),
                m == method@,
                0 <= i0,
                0 <= v0,
                v0 + len <= usize::MAX,
                stack@.len() == frames.len(),
                stack_matches(stack@, frames),
                frames_ok(frames, route.marks(), i0, v0, len),
                done + pending(frames, segs) == all,
                forall|k: int| 0 <= k < found@.len() ==> {
                    &&& (#[trigger] found@[k]).route.wf()
                    &&& found@[k].route.segments_view() == segs
                    &&& found@[k].route.position() == len
                    &&& found@[k].item.wf()
                },
                match_views(found@) == hit_matches(done),
                !self.find_hyperlinks ==> hit_matches(done).len() == 0,
                link_views(links@) == if self.find_hyperlinks {
                    all_hit_links(done, m)
                } else {
                    Seq::empty()
                },
            decreases all.len() - done.len(),
        {
            proof {
                lemma_stack_pop(stack@, frames);
                lemma_frames_pop(frames, route.marks(), i0, v0, len);
            }
            let ghost f = frames.last();
            let ghost rest = frames.drop_last();
            let ghost done_before = done;
            let top = stack.pop();
            let (current, branch, snapshot) = top.unwrap();
            proof {
                assert(frames =~= rest.push(f));
                lemma_pending_push(rest, f, segs);
                frames = rest;
            }
            route.go_to(snapshot);
            if route.is_empty() {
                proof {
                    lemma_wf_node_ok(f.node);
                }
                let ghost x = Some(Hit { node: f.node, branch: f.branch, var_index: f.v, marks: f.marks });
                let ghost before_found = found@;
                found.push(Match { item: &current.item, route: route.duplicate() });
                proof {
                    assert(route.marks() =~= f.marks);
                    assert(f.node.run(f.branch, f.i, f.v, f.marks, segs) =~= seq![x]);
                    done = done.push(x);
                    assert(done.drop_last() =~= done_before);
                    assert(done + pending(frames, segs) =~= all);
                    assert(match_views(found@) =~= match_views(before_found).push(
                        MatchView { items: f.node.item_view(), marks: f.marks, var_index: f.v },
                    ));
                }
                if !self.find_hyperlinks {
                    proof {
                        lemma_hit_matches_append(done, pending(frames, segs));
                        assert(hit_matches(all).take(1) =~= hit_matches(done));
                    }
                    return Matches { matches: found, hyperlinks: links };
                }
                match branch {
                    Branch::Static => {
                        let mut more = current.node_hyperlinks(method);
                        let ghost before = links@;
                        links.append(&mut more);
                        proof {
                            assert(link_views(links@) =~= link_views(before) + f.node.node_links(m));
                        }
                    },
                    _ => {},
                }
            } else {
                match route.get() {
                    Some(_) => {
                        let Ghost(new_frames) = TreeRouter::expand(current, branch, route, &mut stack, Ghost(frames), Ghost(f), Ghost(i0), Ghost(v0));
                        proof {
                            frames = new_frames;
                            done = done.push(None);
                            assert(done.drop_last() =~= done_before);
                            assert(done + pending(frames, segs) =~= all);
                        }
                    },
                    None => {
                        proof {
                            assert(f.node.run(f.branch, f.i, f.v, f.marks, segs) =~= seq![None]);
                            done = done.push(None);
                            assert(done.drop_last() =~= done_before);
                            assert(done + pending(frames, segs) =~= all);
                        }
                    },
                }
            }
        }
        proof {
            assert(done =~= all);
        }
        if self.find_hyperlinks {
            let sorted = sort_links(&links);
            Matches { matches: found, hyperlinks: sorted }
        } else {
            Matches { matches: found, hyperlinks: links }
        }
    }
}

} // verus!
