//! Routers store request handlers, using an HTTP method and a path as keys.
//!
//! Routes may contain variables that capture parts of the requested path.
//! A variable is an indicator character (`:` or `*`) followed by a label.
//! A variable segment (`:label`) matches one arbitrary segment, and a
//! variable sequence (`*label`) matches one or more segments, until the rest
//! of the pattern matches.

use vstd::prelude::*;
use vstd::string::StringSliceAdditionalSpecFns;

use crate::context::{MaybeUtf8, Parameters};
use crate::context::hypermedia::Link;
use crate::utils::{split_bytes, split_on, lemma_split_bytes_nonempty};

pub mod tree_router;
pub mod method_router;
pub mod variables;

pub use self::tree_router::TreeRouter;
pub use self::method_router::MethodRouter;
pub use self::variables::Variables;

verus! {

/// A route without one leading and one trailing slash.
pub open spec fn strip_route(s: Seq<u8>) -> Seq<u8> {
    let a = if s.len() > 0 && s[0] == 47u8 { s.skip(1) } else { s };
    if a.len() > 0 && a.last() == 47u8 { a.drop_last() } else { a }
}

/// The segments of a route: the route without one leading and one trailing
/// slash, split on slashes. A root path (`/` or the empty string) has no
/// segments.
pub open spec fn route_segments(s: Seq<u8>) -> Seq<Seq<u8>> {
    let t = strip_route(s);
    if t.len() == 0 {
        Seq::empty()
    } else {
        split_bytes(t, 47u8)
    }
}

/// Whether a route segment is a variable (`:label` or `*label`).
pub open spec fn is_variable_segment(segment: Seq<u8>) -> bool {
    segment.len() > 0 && (segment[0] == 58u8 || segment[0] == 42u8)
}

/// The labels of the variables among route segments, in order.
pub open spec fn variable_names(segments: Seq<Seq<u8>>) -> Seq<Seq<u8>>
    decreases segments.len(),
{
    if segments.len() == 0 {
        Seq::empty()
    } else {
        let rest = variable_names(segments.drop_last());
        if is_variable_segment(segments.last()) {
            rest.push(segments.last().skip(1))
        } else {
            rest
        }
    }
}

/// Split a route into its segments.
pub fn segments(route: &[u8]) -> (r: Vec<Vec<u8>>)
    ensures
        r@.map_values(|p: Vec<u8>| p@) == route_segments(route@),
{
    let len = route.len();
    let start: usize = if len > 0 && route[0] == 47u8 { 1 } else { 0 };
    let end: usize = if len > start && route[len - 1] == 47u8 { len - 1 } else { len };
    let mut stripped: Vec<u8> = Vec::new();
    let mut i: usize = start;
    while i < end
        invariant
            start <= i <= end <= len == route@.len(),
            stripped@ == route@.subrange(start as int, i as int),
        decreases end - i,
    {
        stripped.push(route[i]);
        proof {
            assert(route@.subrange(start as int, i + 1) =~= route@.subrange(start as int, i as int).push(route@[i as int]));
        }
        i = i + 1;
    }
    proof {
        let s = route@;
        let a = if s.len() > 0 && s[0] == 47u8 { s.skip(1) } else { s };
        assert(a =~= s.subrange(start as int, len as int));
        if a.len() > 0 && a.last() == 47u8 {
            assert(a.drop_last() =~= s.subrange(start as int, end as int));
        } else {
            assert(a =~= s.subrange(start as int, end as int));
        }
        assert(stripped@ == strip_route(s));
    }
    if stripped.len() == 0 {
        let r: Vec<Vec<u8>> = Vec::new();
        proof {
            assert(r@.map_values(|p: Vec<u8>| p@) =~= Seq::<Seq<u8>>::empty());
        }
        r
    } else {
        split_on(stripped.as_slice(), 47u8)
    }
}

/// A route that can be split into segments.
pub trait Route {
    /// The segments of the route: the route without one leading and one
    /// trailing slash, split on slashes. A root path has no segments.
    fn segments(&self) -> Vec<Vec<u8>>;
}

impl Route for str {
    fn segments(&self) -> (r: Vec<Vec<u8>>)
        ensures
            r@.map_values(|p: Vec<u8>| p@) == route_segments(self.spec_bytes()),
    {
        segments(self.as_bytes())
    }
}

impl Route for [u8] {
    fn segments(&self) -> (r: Vec<Vec<u8>>)
        ensures
            r@.map_values(|p: Vec<u8>| p@) == route_segments(self@),
    {
        segments(self)
    }
}

/// The segments of several routes, one route after the other.
pub open spec fn all_route_segments(routes: Seq<Seq<u8>>) -> Seq<Seq<u8>>
    decreases routes.len(),
{
    if routes.len() == 0 {
        Seq::empty()
    } else {
        all_route_segments(routes.drop_last()) + route_segments(routes.last())
    }
}

impl<'a> Route for [&'a str] {
    fn segments(&self) -> (r: Vec<Vec<u8>>)
        ensures
            r@.map_values(|p: Vec<u8>| p@) == all_route_segments(self@.map_values(|s: &'a str| s.spec_bytes())),
    {
        let ghost routes = self@.map_values(|s: &'a str| s.spec_bytes());
        let mut r: Vec<Vec<u8>> = Vec::new();
        let mut i: usize = 0;
        while i < self.len()
            invariant
                0 <= i <= self@.len(),
                routes == self@.map_values(|s: &'a str| s.spec_bytes()),
                r@.map_values(|p: Vec<u8>| p@) == all_route_segments(routes.take(i as int)),
            decreases self@.len() - i,
        {
            let mut more = segments(self[i].as_bytes());
            let ghost before = r@.map_values(|p: Vec<u8>| p@);
            let ghost added = more@.map_values(|p: Vec<u8>| p@);
            r.append(&mut more);
            proof {
                assert(routes.take(i + 1).drop_last() =~= routes.take(i as int));
                assert(routes.take(i + 1).last() == self@[i as int].spec_bytes());
                assert(r@.map_values(|p: Vec<u8>| p@) =~= before + added);
            }
            i = i + 1;
        }
        proof {
            assert(routes.take(i as int) =~= routes);
        }
        r
    }
}

/// A state object for route insertion.
///
/// It works as an iterator over the path segments and will, at the same
/// time, record the variable names.
#[derive(Debug)]
pub struct InsertState {
    route: Vec<Vec<u8>>,
    index: usize,
    variables: Vec<MaybeUtf8>,
}

/// The bytes of a sequence of strings.
pub open spec fn names_view(names: Seq<MaybeUtf8>) -> Seq<Seq<u8>> {
    names.map_values(|n: MaybeUtf8| n@)
}

impl InsertState {
    /// The segments of the route.
    pub closed spec fn segments_view(&self) -> Seq<Seq<u8>> {
        self.route@.map_values(|p: Vec<u8>| p@)
    }

    /// How many segments have been consumed.
    pub closed spec fn position(&self) -> int {
        self.index as int
    }

    /// The variable names recorded so far.
    pub closed spec fn names(&self) -> Seq<Seq<u8>> {
        names_view(self.variables@)
    }

    /// The recorded names are those of the consumed segments.
    pub closed spec fn wf(&self) -> bool {
        &&& self.index <= self.route@.len()
        &&& self.names() == variable_names(self.segments_view().take(self.index as int))
    }

    /// Start inserting a route.
    pub fn from_route(route: &[u8]) -> (r: InsertState)
        ensures
            r.wf(),
            r.segments_view() == route_segments(route@),
            r.position() == 0,
            r.names() == Seq::<Seq<u8>>::empty(),
    {
        let r = InsertState { route: segments(route), index: 0, variables: Vec::new() };
        proof {
            assert(r.segments_view().take(0) =~= Seq::<Seq<u8>>::empty());
            assert(r.names() =~= Seq::<Seq<u8>>::empty());
        }
        r
    }

    /// Take the next segment, recording its label if it is a variable.
    pub fn next(&mut self) -> (r: Option<Vec<u8>>)
        requires
            old(self).wf(),
        ensures
            final(self).wf(),
            final(self).segments_view() == old(self).segments_view(),
            old(self).position() < old(self).segments_view().len() ==> {
                &&& r matches Some(s) && s@ == old(self).segments_view()[old(self).position()]
                &&& final(self).position() == old(self).position() + 1
            },
            old(self).position() >= old(self).segments_view().len() ==> {
                &&& r is None
                &&& final(self).position() == old(self).position()
            },
    {
        if self.index >= self.route.len() {
            return None;
        }
        let ghost consumed = self.segments_view().take(self.index as int);
        let segment = self.route[self.index].clone();
        let ghost names_before = self.variables@;
        if segment.len() > 0 && (segment[0] == 58u8 || segment[0] == 42u8) {
            let mut label: Vec<u8> = Vec::new();
            let mut j: usize = 1;
            while j < segment.len()
                invariant
                    1 <= j <= segment@.len(),
                    label@ == segment@.subrange(1, j as int),
                decreases segment@.len() - j,
            {
                label.push(segment[j]);
                proof {
                    assert(segment@.subrange(1, j + 1) =~= segment@.subrange(1, j as int).push(segment@[j as int]));
                }
                j = j + 1;
            }
            proof {
                assert(label@ =~= segment@.skip(1));
            }
            self.variables.push(MaybeUtf8::from_bytes(label));
        }
        self.index = self.index + 1;
        proof {
            let segs = self.segments_view();
            assert(segs.take(self.index as int).drop_last() =~= consumed);
            assert(segs.take(self.index as int).last() == segment@);
            assert(self.names() =~= variable_names(segs.take(self.index as int)));
        }
        Some(segment)
    }

    /// Check if there are no more segments.
    pub fn is_empty(&self) -> (r: bool)
        requires
            self.wf(),
        ensures
            r <==> self.position() == self.segments_view().len(),
    {
        self.index == self.route.len()
    }

    /// Copy the variable names recorded so far.
    pub fn clone_names(&self) -> (r: Vec<MaybeUtf8>)
        ensures
            names_view(r@) == self.names(),
    {
        let mut r: Vec<MaybeUtf8> = Vec::new();
        let mut i: usize = 0;
        while i < self.variables.len()
            invariant
                0 <= i <= self.variables@.len(),
                r@.len() == i,
                forall|j: int| 0 <= j < i ==> (#[trigger] r@[j])@ == self.variables@[j]@,
            decreases self.variables@.len() - i,
        {
            r.push(self.variables[i].duplicate());
            i = i + 1;
        }
        proof {
            assert(names_view(r@) =~= self.names());
        }
        r
    }

    /// Extract the variable names from the parsed path.
    pub fn variables(self) -> (r: Vec<MaybeUtf8>)
        ensures
            names_view(r@) == self.names(),
    {
        self.variables
    }
}

/// The value of a route variable while it is being collected.
pub ghost struct VarGroup {
    pub index: int,
    pub name: Seq<u8>,
    pub value: Seq<u8>,
}

/// The variables collected from the first `p` positions of a route: the
/// group that is still open and the map of the finished ones. Consecutive
/// positions saved under the same variable index form one value, joined
/// with slashes. Positions whose index has no name, or an empty name, are
/// left out.
pub open spec fn var_fold(
    route: Seq<Seq<u8>>,
    marks: Seq<Option<usize>>,
    names: Seq<Seq<u8>>,
    p: int,
) -> (Option<VarGroup>, Map<Seq<u8>, Seq<u8>>)
    decreases p,
{
    if p <= 0 {
        (None, Map::empty())
    } else {
        let (cur, map) = var_fold(route, marks, names, p - 1);
        let q = p - 1;
        match marks[q] {
            Some(k) => if k < names.len() && names[k as int].len() > 0 {
                match cur {
                    Some(g) => if g.index == k {
                        (Some(VarGroup { index: g.index, name: g.name, value: g.value + seq![47u8] + route[q] }), map)
                    } else {
                        (Some(VarGroup { index: k as int, name: names[k as int], value: route[q] }), map.insert(g.name, g.value))
                    },
                    None => (Some(VarGroup { index: k as int, name: names[k as int], value: route[q] }), map),
                }
            } else {
                (cur, map)
            },
            None => (cur, map),
        }
    }
}

/// The named variables of a route, given which positions were saved under
/// which variable index. Later values overwrite earlier ones of the same name.
pub open spec fn route_variables(
    route: Seq<Seq<u8>>,
    marks: Seq<Option<usize>>,
    names: Seq<Seq<u8>>,
) -> Map<Seq<u8>, Seq<u8>> {
    let n = if route.len() < marks.len() { route.len() as int } else { marks.len() as int };
    let (cur, map) = var_fold(route, marks, names, n);
    match cur {
        Some(g) => map.insert(g.name, g.value),
        None => map,
    }
}

/// The abstract state of routing a path: the path's segments, for each
/// segment the variable index it was saved under, the current position and
/// the index of the next variable.
#[verifier::ext_equal]
pub ghost struct RouteView {
    pub segments: Seq<Seq<u8>>,
    pub marks: Seq<Option<usize>>,
    pub position: int,
    pub var_position: int,
}

/// Every segment has a mark, and both positions fit in a `usize`.
pub open spec fn route_valid(m: RouteView) -> bool {
    &&& m.marks.len() == m.segments.len()
    &&& 0 <= m.position <= usize::MAX
    &&& 0 <= m.var_position <= usize::MAX
}

/// The marks with the current segment marked as given, if there is a current
/// segment.
pub open spec fn mark_current(m: RouteView, mark: Option<usize>) -> Seq<Option<usize>> {
    if 0 <= m.position < m.marks.len() {
        m.marks.update(m.position, mark)
    } else {
        m.marks
    }
}

/// `skip`: the current segment goes into no variable.
pub open spec fn route_skip(m: RouteView) -> RouteView {
    RouteView { marks: mark_current(m, None), position: m.position + 1, ..m }
}

/// `keep`: the current segment starts the next variable.
pub open spec fn route_keep(m: RouteView) -> RouteView {
    RouteView {
        marks: mark_current(m, Some(m.var_position as usize)),
        position: m.position + 1,
        var_position: m.var_position + 1,
        ..m
    }
}

/// `fuse`: the current segment is saved under the next variable index,
/// which does not advance, so that it joins what comes after it.
pub open spec fn route_fuse(m: RouteView) -> RouteView {
    RouteView { marks: mark_current(m, Some(m.var_position as usize)), position: m.position + 1, ..m }
}

/// `snapshot`: the two positions.
pub open spec fn route_snapshot(m: RouteView) -> (usize, usize) {
    (m.position as usize, m.var_position as usize)
}

/// `go_to`: the positions of a snapshot, with the marks as they are.
pub open spec fn route_go_to(m: RouteView, snapshot: (usize, usize)) -> RouteView {
    RouteView { position: snapshot.0 as int, var_position: snapshot.1 as int, ..m }
}

/// `get`: the current segment, if there is one.
pub open spec fn route_current(m: RouteView) -> Option<Seq<u8>> {
    if 0 <= m.position < m.segments.len() {
        Some(m.segments[m.position])
    } else {
        None
    }
}

/// `is_empty`: the position is past the last segment.
pub open spec fn route_is_empty(m: RouteView) -> bool {
    m.position == m.segments.len()
}

/// One step of routing.
pub ghost enum RouteStep {
    Skip,
    Keep,
    Fuse,
}

/// The state after a number of steps.
pub open spec fn route_steps(m: RouteView, steps: Seq<RouteStep>) -> RouteView
    decreases steps.len(),
{
    if steps.len() == 0 {
        m
    } else {
        let next = match steps[0] {
            RouteStep::Skip => route_skip(m),
            RouteStep::Keep => route_keep(m),
            RouteStep::Fuse => route_fuse(m),
        };
        route_steps(next, steps.drop_first())
    }
}

/// A state object for routing.
#[derive(Debug)]
pub struct RouteState {
    route: Vec<Vec<u8>>,
    variables: Vec<Option<usize>>,
    index: usize,
    var_index: usize,
}

impl RouteState {
    /// The segments of the requested path.
    pub closed spec fn segments_view(&self) -> Seq<Seq<u8>> {
        self.route@.map_values(|p: Vec<u8>| p@)
    }

    /// For each segment, the variable index it was saved under, if any.
    pub closed spec fn marks(&self) -> Seq<Option<usize>> {
        self.variables@
    }

    /// The current position.
    pub closed spec fn position(&self) -> int {
        self.index as int
    }

    /// The index of the next variable.
    pub closed spec fn var_position(&self) -> int {
        self.var_index as int
    }

    /// Every segment has a mark.
    pub closed spec fn wf(&self) -> bool {
        self.variables@.len() == self.route@.len()
    }
}

impl View for RouteState {
    type V = RouteView;

    closed spec fn view(&self) -> RouteView {
        RouteView {
            segments: self.segments_view(),
            marks: self.marks(),
            position: self.position(),
            var_position: self.var_position(),
        }
    }
}

impl RouteState {
    /// The view is made of the state's parts, both positions fit in a
    /// `usize`, and the state is well formed exactly when its view is valid.
    pub proof fn lemma_view(&self)
        ensures
            self@.segments == self.segments_view(),
            self@.marks == self.marks(),
            self@.position == self.position(),
            self@.var_position == self.var_position(),
            self.wf() <==> route_valid(self@),
    {
    }

    /// Start routing a path.
    pub fn from_path(path: &[u8]) -> (r: RouteState)
        ensures
            r.wf(),
            r.segments_view() == route_segments(path@),
            r.marks() == Seq::new(route_segments(path@).len(), |i: int| None::<usize>),
            r.position() == 0,
            r.var_position() == 0,
            r@ == (RouteView {
                segments: route_segments(path@),
                marks: Seq::new(route_segments(path@).len(), |i: int| None::<usize>),
                position: 0,
                var_position: 0,
            }),
            route_valid(r@),
    {
        let route = segments(path);
        let mut variables: Vec<Option<usize>> = Vec::new();
        let mut i: usize = 0;
        while i < route.len()
            invariant
                0 <= i <= route@.len(),
                variables@ == Seq::new(i as nat, |j: int| None::<usize>),
            decreases route@.len() - i,
        {
            variables.push(None);
            proof {
                assert(variables@ =~= Seq::new((i + 1) as nat, |j: int| None::<usize>));
            }
            i = i + 1;
        }
        RouteState { route, variables, index: 0, var_index: 0 }
    }

    /// Copy the state.
    pub fn duplicate(&self) -> (r: RouteState)
        ensures
            r.segments_view() == self.segments_view(),
            r.marks() == self.marks(),
            r.position() == self.position(),
            r.var_position() == self.var_position(),
            r.wf() == self.wf(),
    {
        let mut route: Vec<Vec<u8>> = Vec::new();
        let mut i: usize = 0;
        while i < self.route.len()
            invariant
                0 <= i <= self.route@.len(),
                route@.len() == i,
                forall|j: int| 0 <= j < i ==> (#[trigger] route@[j])@ == self.route@[j]@,
            decreases self.route@.len() - i,
        {
            route.push(self.route[i].clone());
            i = i + 1;
        }
        let mut variables: Vec<Option<usize>> = Vec::new();
        let mut j: usize = 0;
        while j < self.variables.len()
            invariant
                0 <= j <= self.variables@.len(),
                variables@ == self.variables@.take(j as int),
            decreases self.variables@.len() - j,
        {
            variables.push(self.variables[j]);
            proof {
                assert(self.variables@.take(j + 1) =~= self.variables@.take(j as int).push(self.variables@[j as int]));
            }
            j = j + 1;
        }
        proof {
            assert(variables@ =~= self.variables@);
        }
        let r = RouteState { route, variables, index: self.index, var_index: self.var_index };
        proof {
            assert(r.segments_view() =~= self.segments_view());
        }
        r
    }

    /// Get the current path segment.
    pub fn get(&self) -> (r: Option<&[u8]>)
        ensures
            r is Some <==> 0 <= self.position() < self.segments_view().len(),
            r matches Some(s) ==> s@ == self.segments_view()[self.position()],
            match r {
                Some(s) => route_current(self@) == Some(s@),
                None => route_current(self@) is None,
            },
    {
        if self.index < self.route.len() {
            Some(self.route[self.index].as_slice())
        } else {
            None
        }
    }

    /// Don't include this path segment in a variable.
    pub fn skip(&mut self)
        requires
            old(self).position() < usize::MAX,
        ensures
            final(self).segments_view() == old(self).segments_view(),
            final(self).marks() == if old(self).position() < old(self).marks().len() {
                old(self).marks().update(old(self).position(), None)
            } else {
                old(self).marks()
            },
            final(self).position() == old(self).position() + 1,
            final(self).var_position() == old(self).var_position(),
            old(self).wf() ==> final(self).wf(),
            final(self)@ == route_skip(old(self)@),
    {
        if self.index < self.variables.len() {
            self.variables.set(self.index, None);
        }
        self.index = self.index + 1;
    }

    /// Include this path segment as a variable.
    pub fn keep(&mut self)
        requires
            old(self).position() < usize::MAX,
            old(self).var_position() < usize::MAX,
        ensures
            final(self).segments_view() == old(self).segments_view(),
            final(self).marks() == if old(self).position() < old(self).marks().len() {
                old(self).marks().update(old(self).position(), Some(old(self).var_position() as usize))
            } else {
                old(self).marks()
            },
            final(self).position() == old(self).position() + 1,
            final(self).var_position() == old(self).var_position() + 1,
            old(self).wf() ==> final(self).wf(),
            final(self)@ == route_keep(old(self)@),
    {
        let v_i = self.var_index;
        if self.index < self.variables.len() {
            self.variables.set(self.index, Some(v_i));
        }
        self.index = self.index + 1;
        self.var_index = self.var_index + 1;
    }

    /// Extend a previously saved variable value with this path segment, or
    /// save it as a new variable.
    pub fn fuse(&mut self)
        requires
            old(self).position() < usize::MAX,
        ensures
            final(self).segments_view() == old(self).segments_view(),
            final(self).marks() == if old(self).position() < old(self).marks().len() {
                old(self).marks().update(old(self).position(), Some(old(self).var_position() as usize))
            } else {
                old(self).marks()
            },
            final(self).position() == old(self).position() + 1,
            final(self).var_position() == old(self).var_position(),
            old(self).wf() ==> final(self).wf(),
            final(self)@ == route_fuse(old(self)@),
    {
        let v_i = self.var_index;
        if self.index < self.variables.len() {
            self.variables.set(self.index, Some(v_i));
        }
        self.index = self.index + 1;
    }

    /// Get a snapshot of a part of the current state.
    pub fn snapshot(&self) -> (r: (usize, usize))
        ensures
            r.0 == self.position(),
            r.1 == self.var_position(),
            r == route_snapshot(self@),
    {
        (self.index, self.var_index)
    }

    /// Go to a previously recorded state.
    pub fn go_to(&mut self, snapshot: (usize, usize))
        ensures
            final(self).segments_view() == old(self).segments_view(),
            final(self).marks() == old(self).marks(),
            final(self).position() == snapshot.0,
            final(self).var_position() == snapshot.1,
            old(self).wf() ==> final(self).wf(),
            final(self)@ == route_go_to(old(self)@, snapshot),
    {
        let (index, var_index) = snapshot;
        self.index = index;
        self.var_index = var_index;
    }

    /// Check if there are no more segments.
    pub fn is_empty(&self) -> (r: bool)
        ensures
            r <==> self.position() == self.segments_view().len(),
            r == route_is_empty(self@),
    {
        self.index == self.route.len()
    }

    /// Assign names to the saved variables and return them.
    pub fn variables(&self, names: &Vec<MaybeUtf8>) -> (r: Parameters)
        ensures
            r.wf(),
            r@ == route_variables(self.segments_view(), self.marks(), names_view(names@)),
    {
        let ghost route = self.segments_view();
        let ghost marks = self.marks();
        let ghost nv = names_view(names@);
        let n = if self.route.len() < self.variables.len() {
            self.route.len()
        } else {
            self.variables.len()
        };
        let mut map = Parameters::new();
        let mut cur: Option<(usize, MaybeUtf8, MaybeUtf8)> = None;
        let mut p: usize = 0;
        while p < n
            invariant
                0 <= p <= n,
                n <= self.route@.len(),
                n <= self.variables@.len(),
                route == self.segments_view(),
                marks == self.marks(),
                nv == names_view(names@),
                map.wf(),
                ({
                    let (gc, gm) = var_fold(route, marks, nv, p as int);
                    &&& map@ == gm
                    &&& match cur {
                        Some((k, name, value)) => gc == Some(
                            VarGroup { index: k as int, name: name@, value: value@ },
                        ),
                        None => gc is None,
                    }
                }),
            decreases n - p,
        {
            let mark = self.variables[p];
            let segment = &self.route[p];
            proof {
                assert(route[p as int] == segment@);
            }
            match mark {
                Some(k) => {
                    if k < names.len() && names[k].as_bytes().len() > 0 {
                        proof {
                            assert(nv[k as int] == names@[k as int]@);
                        }
                        match cur {
                            Some((index, name, mut value)) => {
                                if index == k {
                                    let ghost before = value@;
                                    value.push_byte(47u8);
                                    value.push_bytes(segment.as_slice());
                                    proof {
                                        assert(value@ =~= before + seq![47u8] + route[p as int]);
                                    }
                                    cur = Some((index, name, value));
                                } else {
                                    map.insert(name, value);
                                    cur = Some((k, names[k].duplicate(), MaybeUtf8::from_slice(segment.as_slice())));
                                }
                            },
                            None => {
                                cur = Some((k, names[k].duplicate(), MaybeUtf8::from_slice(segment.as_slice())));
                            },
                        }
                    }
                },
                None => {},
            }
            p = p + 1;
        }
        match cur {
            Some((_, name, value)) => {
                map.insert(name, value);
            },
            None => {},
        }
        map
    }
}

/// API endpoint data.
pub struct Endpoint<'a, H> {
    /// A request handler, if found.
    pub handler: Option<&'a H>,
    /// Path variables for the matching endpoint. May be empty, depending on
    /// the router implementation.
    pub variables: Parameters,
    /// Any associated hyperlinks.
    pub hyperlinks: Vec<Link<'a, H>>,
}

impl<'a, H> Endpoint<'a, H> {
    /// An endpoint without a handler, variables or hyperlinks.
    pub fn none() -> (r: Endpoint<'a, H>)
        ensures
            r.handler is None,
            r.variables.wf(),
            r.variables@ == Map::<Seq<u8>, Seq<u8>>::empty(),
            r.hyperlinks@.len() == 0,
    {
        Endpoint { handler: None, variables: Parameters::new(), hyperlinks: Vec::new() }
    }
}


/// Steps of routing keep the segments.
proof fn lemma_steps_keep_segments(m: RouteView, steps: Seq<RouteStep>)
    ensures
        route_steps(m, steps).segments == m.segments,
    decreases steps.len(),
{
    if steps.len() > 0 {
        let next = match steps[0] {
            RouteStep::Skip => route_skip(m),
            RouteStep::Keep => route_keep(m),
            RouteStep::Fuse => route_fuse(m),
        };
        lemma_steps_keep_segments(next, steps.drop_first());
    }
}

/// Going back to a snapshot after any steps gives back the positions of the
/// snapshot, and with them the current segment and whether the path is
/// done.
pub proof fn law_go_to_restores(m: RouteView, steps: Seq<RouteStep>)
    requires
        route_valid(m),
    ensures
        ({
            let back = route_go_to(route_steps(m, steps), route_snapshot(m));
            &&& route_snapshot(back) == route_snapshot(m)
            &&& back.segments == m.segments
            &&& route_current(back) == route_current(m)
            &&& route_is_empty(back) == route_is_empty(m)
        }),
{
    lemma_steps_keep_segments(m, steps);
}

/// `skip` moves to the next segment and keeps the variable index; the
/// segment it leaves is in no variable.
pub proof fn law_skip(m: RouteView)
    requires
        route_valid(m),
        m.position < m.segments.len(),
    ensures
        route_snapshot(route_skip(m)) == ((m.position + 1) as usize, m.var_position as usize),
        route_skip(m).marks[m.position] is None,
        forall|j: int| 0 <= j < m.marks.len() && j != m.position ==> route_skip(m).marks[j] == m.marks[j],
        route_skip(m).segments == m.segments,
{
}

/// `keep` moves to the next segment and to the next variable; the segment it
/// leaves is saved under the variable index of the snapshot before it.
pub proof fn law_keep(m: RouteView)
    requires
        route_valid(m),
        m.position < m.segments.len(),
        m.var_position < usize::MAX,
    ensures
        route_snapshot(route_keep(m)) == ((m.position + 1) as usize, (m.var_position + 1) as usize),
        route_keep(m).marks[m.position] == Some(m.var_position as usize),
        forall|j: int| 0 <= j < m.marks.len() && j != m.position ==> route_keep(m).marks[j] == m.marks[j],
        route_keep(m).segments == m.segments,
{
}

/// `fuse` moves to the next segment and keeps the variable index; the
/// segment it leaves is saved under that index, so that the segment after it
/// joins the same variable.
pub proof fn law_fuse(m: RouteView)
    requires
        route_valid(m),
        m.position < m.segments.len(),
    ensures
        route_snapshot(route_fuse(m)) == ((m.position + 1) as usize, m.var_position as usize),
        route_fuse(m).marks[m.position] == Some(m.var_position as usize),
        forall|j: int| 0 <= j < m.marks.len() && j != m.position ==> route_fuse(m).marks[j] == m.marks[j],
        route_fuse(m).segments == m.segments,
{
}

/// `fuse` and then `keep` save two segments in a row under one variable
/// index, and move past both to the next variable.
pub proof fn law_fuse_then_keep(m: RouteView)
    requires
        route_valid(m),
        m.position + 1 < m.segments.len(),
        m.var_position < usize::MAX,
    ensures
        ({
            let after = route_keep(route_fuse(m));
            &&& route_snapshot(after) == ((m.position + 2) as usize, (m.var_position + 1) as usize)
            &&& after.marks[m.position] == Some(m.var_position as usize)
            &&& after.marks[m.position + 1] == Some(m.var_position as usize)
        }),
{
}

/// While the position is not past the last segment, the path is done
/// exactly when there is no current segment, and a step taken before the
/// path is done keeps it so.
pub proof fn law_is_empty_matches_get(m: RouteView)
    requires
        route_valid(m),
        m.position <= m.segments.len(),
    ensures
        route_is_empty(m) <==> route_current(m) is None,
        !route_is_empty(m) ==> route_skip(m).position <= m.segments.len(),
        !route_is_empty(m) ==> route_keep(m).position <= m.segments.len(),
        !route_is_empty(m) ==> route_fuse(m).position <= m.segments.len(),
{
}

/// The variables do not depend on a segment that is marked for none.
proof fn lemma_fold_ignores_unmarked(
    route: Seq<Seq<u8>>,
    marks: Seq<Option<usize>>,
    names: Seq<Seq<u8>>,
    i: int,
    other: Seq<u8>,
    p: int,
)
    requires
        0 <= i < route.len(),
        i < marks.len(),
        marks[i] is None,
        p <= route.len(),
    ensures
        var_fold(route.update(i, other), marks, names, p) == var_fold(route, marks, names, p),
    decreases p,
{
    if p > 0 {
        lemma_fold_ignores_unmarked(route, marks, names, i, other, p - 1);
        if p - 1 != i {
            assert(route.update(i, other)[p - 1] == route[p - 1]);
        }
    }
}

/// A skipped segment is part of no variable: whatever it holds, the named
/// variables are the same.
pub proof fn law_skipped_segment_is_in_no_variable(m: RouteView, names: Seq<Seq<u8>>, other: Seq<u8>)
    requires
        route_valid(m),
        m.position < m.segments.len(),
    ensures
        route_variables(route_skip(m).segments.update(m.position, other), route_skip(m).marks, names)
            == route_variables(route_skip(m).segments, route_skip(m).marks, names),
{
    let s = route_skip(m);
    let n = if s.segments.len() < s.marks.len() { s.segments.len() as int } else { s.marks.len() as int };
    lemma_fold_ignores_unmarked(s.segments, s.marks, names, m.position, other, n);
}

/// The segments from `a` up to `b`, joined with slashes.
pub open spec fn joined(segments: Seq<Seq<u8>>, a: int, b: int) -> Seq<u8>
    decreases b - a,
{
    if b <= a + 1 {
        segments[a]
    } else {
        joined(segments, a, b - 1) + seq![47u8] + segments[b - 1]
    }
}

/// Position `j` is saved under a variable with the name `name`.
pub open spec fn marked_as(marks: Seq<Option<usize>>, names: Seq<Seq<u8>>, j: int, name: Seq<u8>) -> bool {
    marks[j] matches Some(k) && k < names.len() && names[k as int].len() > 0 && names[k as int] == name
}

/// While the variables of a route are collected, a block of positions that
/// alone are saved under a variable's name becomes that variable's value.
proof fn lemma_fold_block(
    route: Seq<Seq<u8>>,
    marks: Seq<Option<usize>>,
    names: Seq<Seq<u8>>,
    v: int,
    a: int,
    b: int,
    p: int,
)
    requires
        0 <= v < names.len(),
        v <= usize::MAX,
        names[v].len() > 0,
        0 <= a < b <= route.len(),
        route.len() == marks.len(),
        0 <= p <= route.len(),
        forall|j: int| a <= j < b ==> marks[j] == Some(v as usize),
        forall|j: int| 0 <= j < marks.len() && !(a <= j < b) ==> !#[trigger] marked_as(marks, names, j, names[v]),
    ensures
        ({
            let (cur, map) = var_fold(route, marks, names, p);
            let n = names[v];
            &&& cur matches Some(g) ==> 0 <= g.index < names.len() && g.name == names[g.index]
            &&& p <= a ==> !map.dom().contains(n) && (cur matches Some(g) ==> g.name != n)
            &&& a < p <= b ==> !map.dom().contains(n) && cur == Some(VarGroup { index: v, name: n, value: joined(route, a, p) })
            &&& p > b ==> (cur matches Some(g) && (
                (g.name == n && g.index == v && g.value == joined(route, a, b) && !map.dom().contains(n))
                || (g.name != n && map.dom().contains(n) && map[n] == joined(route, a, b))))
        }),
    decreases p,
{
    if p > 0 {
        lemma_fold_block(route, marks, names, v, a, b, p - 1);
        let q = p - 1;
        let n = names[v];
        let (cur, map) = var_fold(route, marks, names, q);
        if !(a <= q < b) {
            assert(!marked_as(marks, names, q, n));
        } else {
            assert(marks[q] == Some(v as usize));
            if q == a {
                assert(joined(route, a, p) == route[a]);
            } else {
                assert(joined(route, a, p) == joined(route, a, p - 1) + seq![47u8] + route[p - 1]);
            }
        }
    }
}

/// The variables of a route whose only positions saved under a variable's
/// name are a block: that name holds the block's segments joined with
/// slashes.
proof fn lemma_block_variable(
    route: Seq<Seq<u8>>,
    marks: Seq<Option<usize>>,
    names: Seq<Seq<u8>>,
    v: int,
    a: int,
    b: int,
)
    requires
        0 <= v < names.len(),
        v <= usize::MAX,
        names[v].len() > 0,
        0 <= a < b <= route.len(),
        route.len() == marks.len(),
        forall|j: int| a <= j < b ==> marks[j] == Some(v as usize),
        forall|j: int| 0 <= j < marks.len() && !(a <= j < b) ==> !#[trigger] marked_as(marks, names, j, names[v]),
    ensures
        route_variables(route, marks, names).dom().contains(names[v]),
        route_variables(route, marks, names)[names[v]] == joined(route, a, b),
{
    lemma_fold_block(route, marks, names, v, a, b, route.len() as int);
}

/// A segment that `keep` saves under the next variable index is that
/// variable's value, when the variable has a name and no other segment is
/// saved under the same name.
pub proof fn law_kept_segment_is_its_variable(m: RouteView, names: Seq<Seq<u8>>)
    requires
        route_valid(m),
        m.position < m.segments.len(),
        m.var_position < names.len(),
        names[m.var_position].len() > 0,
        forall|j: int| 0 <= j < m.marks.len() && j != m.position
            ==> !#[trigger] marked_as(route_keep(m).marks, names, j, names[m.var_position]),
    ensures
        route_variables(route_keep(m).segments, route_keep(m).marks, names).dom().contains(names[m.var_position]),
        route_variables(route_keep(m).segments, route_keep(m).marks, names)[names[m.var_position]]
            == m.segments[m.position],
{
    let k = route_keep(m);
    lemma_block_variable(k.segments, k.marks, names, m.var_position, m.position, m.position + 1);
}

/// Two segments saved by `fuse` and then `keep` form one value: the first
/// segment, a slash and the second, when the variable has a name and no
/// other segment is saved under the same name.
pub proof fn law_fused_segments_are_joined(m: RouteView, names: Seq<Seq<u8>>)
    requires
        route_valid(m),
        m.position + 1 < m.segments.len(),
        m.var_position < names.len(),
        names[m.var_position].len() > 0,
        forall|j: int| 0 <= j < m.marks.len() && j != m.position && j != m.position + 1
            ==> !#[trigger] marked_as(route_keep(route_fuse(m)).marks, names, j, names[m.var_position]),
    ensures
        ({
            let k = route_keep(route_fuse(m));
            &&& route_variables(k.segments, k.marks, names).dom().contains(names[m.var_position])
            &&& route_variables(k.segments, k.marks, names)[names[m.var_position]]
                == m.segments[m.position] + seq![47u8] + m.segments[m.position + 1]
        }),
{
    let k = route_keep(route_fuse(m));
    lemma_block_variable(k.segments, k.marks, names, m.var_position, m.position, m.position + 2);
    assert(joined(k.segments, m.position, m.position + 2)
        == joined(k.segments, m.position, m.position + 1) + seq![47u8] + k.segments[m.position + 1]);
}

} // verus!
