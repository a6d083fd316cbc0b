//! Hyperlinks between endpoints.

use vstd::prelude::*;
use vstd::string::*;
use vstd::utf8::*;

use crate::method::{Method, MethodView, method_name};
use crate::utils::bytes_eq;
use super::maybe_utf8::MaybeUtf8;

verus! {

/// The type of a hyperlink segment.
#[derive(Clone, Copy, PartialEq, Eq, Debug)]
pub enum SegmentType {
    /// A static part of a path.
    Static,
    /// A single dynamic part of a path. This will match one arbitrary path segment.
    VariableSegment,
    /// A dynamic sequence of segments. This works like a variable segment, but
    /// will match one or more segments until the rest of the pattern matches.
    VariableSequence,
}

/// A segment of a hyperlink path.
#[derive(Debug)]
pub struct LinkSegment {
    /// The expected static segment or the name of a variable segment. Variable
    /// segments are allowed to have an empty string as label if it's unknown or
    /// unimportant.
    pub label: MaybeUtf8,
    /// The type of the segment (e.g. static or variable).
    pub ty: SegmentType,
}

/// A hyperlink.
pub struct Link<'a, H> {
    /// The HTTP method for which an endpoint is available. It can be left
    /// unspecified if the method doesn't matter.
    pub method: Option<Method>,
    /// A relative path from the current location.
    pub path: Vec<LinkSegment>,
    /// The handler that will answer at the endpoint.
    pub handler: Option<&'a H>,
}

/// The abstract value of a hyperlink.
pub ghost struct LinkView<H> {
    pub method: Option<MethodView>,
    pub path: Seq<(Seq<u8>, SegmentType)>,
    pub handler: Option<H>,
}

impl View for LinkSegment {
    type V = (Seq<u8>, SegmentType);

    open spec fn view(&self) -> (Seq<u8>, SegmentType) {
        (self.label@, self.ty)
    }
}

/// The abstract value of an optional method.
pub open spec fn method_view(m: Option<Method>) -> Option<MethodView> {
    match m {
        Some(m) => Some(m@),
        None => None,
    }
}

/// The abstract value of an optional handler reference.
pub open spec fn handler_view<H>(h: Option<&H>) -> Option<H> {
    match h {
        Some(h) => Some(*h),
        None => None,
    }
}

impl<'a, H> View for Link<'a, H> {
    type V = LinkView<H>;

    open spec fn view(&self) -> LinkView<H> {
        LinkView {
            method: method_view(self.method),
            path: self.path@.map_values(|s: LinkSegment| s@),
            handler: handler_view(self.handler),
        }
    }
}

impl LinkSegment {
    /// Copy the segment.
    pub fn duplicate(&self) -> (r: LinkSegment)
        ensures
            r@ == self@,
    {
        LinkSegment { label: self.label.duplicate(), ty: self.ty }
    }
}

impl<'a, H> Link<'a, H> {
    /// Copy the link.
    pub fn duplicate(&self) -> (r: Link<'a, H>)
        ensures
            r@ == self@,
    {
        let method = match &self.method {
            Some(m) => Some(m.duplicate()),
            None => None,
        };
        let mut path: Vec<LinkSegment> = Vec::new();
        let mut i: usize = 0;
        while i < self.path.len()
            invariant
                0 <= i <= self.path@.len(),
                path@.len() == i,
                forall|j: int| 0 <= j < i ==> (#[trigger] path@[j])@ == self.path@[j]@,
            decreases self.path@.len() - i,
        {
            let seg = self.path[i].duplicate();
            path.push(seg);
            i = i + 1;
        }
        proof {
            assert(path@.map_values(|s: LinkSegment| s@) =~= self.path@.map_values(|s: LinkSegment| s@));
        }
        Link { method, path, handler: self.handler }
    }
}

/// Lexicographic order on bytes.
pub open spec fn bytes_lt(a: Seq<u8>, b: Seq<u8>) -> bool
    decreases a.len(),
{
    if a.len() == 0 {
        b.len() > 0
    } else if b.len() == 0 {
        false
    } else if a[0] != b[0] {
        a[0] < b[0]
    } else {
        bytes_lt(a.drop_first(), b.drop_first())
    }
}

/// The rank of a segment type: static, then variable segment, then variable
/// sequence.
pub open spec fn segment_rank(t: SegmentType) -> int {
    match t {
        SegmentType::Static => 0,
        SegmentType::VariableSegment => 1,
        SegmentType::VariableSequence => 2,
    }
}

/// Segments are ordered by label, then by type.
pub open spec fn segment_lt(a: (Seq<u8>, SegmentType), b: (Seq<u8>, SegmentType)) -> bool {
    bytes_lt(a.0, b.0) || (a.0 == b.0 && segment_rank(a.1) < segment_rank(b.1))
}

/// Lexicographic order on paths.
pub open spec fn path_lt(a: Seq<(Seq<u8>, SegmentType)>, b: Seq<(Seq<u8>, SegmentType)>) -> bool
    decreases a.len(),
{
    if a.len() == 0 {
        b.len() > 0
    } else if b.len() == 0 {
        false
    } else if a[0] != b[0] {
        segment_lt(a[0], b[0])
    } else {
        path_lt(a.drop_first(), b.drop_first())
    }
}

/// The name of an optional method, as bytes.
pub open spec fn method_key(m: Option<MethodView>) -> Option<Seq<u8>> {
    match m {
        Some(x) => Some(encode_utf8(method_name(x))),
        None => None,
    }
}

/// Optional names are ordered by their bytes; no name comes first.
pub open spec fn key_lt(a: Option<Seq<u8>>, b: Option<Seq<u8>>) -> bool {
    match (a, b) {
        (None, Some(_)) => true,
        (Some(x), Some(y)) => bytes_lt(x, y),
        _ => false,
    }
}

/// Methods are ordered by name alone. No method comes before any method.
pub open spec fn method_lt(a: Option<MethodView>, b: Option<MethodView>) -> bool {
    key_lt(method_key(a), method_key(b))
}

/// Links are ordered by method name, then by path.
pub open spec fn link_lt<H>(a: LinkView<H>, b: LinkView<H>) -> bool {
    method_lt(a.method, b.method) || (method_key(a.method) == method_key(b.method) && path_lt(a.path, b.path))
}

/// Links take the same place in the order: the same method name and path.
pub open spec fn same_rank<H>(a: LinkView<H>, b: LinkView<H>) -> bool {
    method_key(a.method) == method_key(b.method) && a.path == b.path
}

/// Links are the same when their methods and paths are.
pub open spec fn same_link<H>(a: LinkView<H>, b: LinkView<H>) -> bool {
    a.method == b.method && a.path == b.path
}

proof fn lemma_bytes_lt_irreflexive(a: Seq<u8>)
    ensures
        !bytes_lt(a, a),
    decreases a.len(),
{
    if a.len() > 0 {
        lemma_bytes_lt_irreflexive(a.drop_first());
    }
}

proof fn lemma_bytes_lt_transitive(a: Seq<u8>, b: Seq<u8>, c: Seq<u8>)
    ensures
        bytes_lt(a, b) && bytes_lt(b, c) ==> bytes_lt(a, c),
    decreases a.len(),
{
    if a.len() > 0 && b.len() > 0 && c.len() > 0 {
        lemma_bytes_lt_transitive(a.drop_first(), b.drop_first(), c.drop_first());
    }
}

proof fn lemma_bytes_lt_total(a: Seq<u8>, b: Seq<u8>)
    ensures
        a != b ==> bytes_lt(a, b) || bytes_lt(b, a),
    decreases a.len(),
{
    if a.len() > 0 && b.len() > 0 {
        lemma_bytes_lt_total(a.drop_first(), b.drop_first());
        if a[0] == b[0] && a != b {
            assert(a.drop_first() != b.drop_first()) by {
                if a.drop_first() == b.drop_first() {
                    assert(a =~= seq![a[0]] + a.drop_first());
                    assert(b =~= seq![b[0]] + b.drop_first());
                }
            }
        }
    }
    if a.len() == 0 && b.len() == 0 {
        assert(a =~= b);
    }
}

/// The order on bytes is a strict total order.
pub proof fn lemma_bytes_lt(a: Seq<u8>, b: Seq<u8>, c: Seq<u8>)
    ensures
        !bytes_lt(a, a),
        bytes_lt(a, b) && bytes_lt(b, c) ==> bytes_lt(a, c),
        a != b ==> bytes_lt(a, b) || bytes_lt(b, a),
{
    lemma_bytes_lt_irreflexive(a);
    lemma_bytes_lt_transitive(a, b, c);
    lemma_bytes_lt_total(a, b);
}

proof fn lemma_segment_lt(x: (Seq<u8>, SegmentType), y: (Seq<u8>, SegmentType), z: (Seq<u8>, SegmentType))
    ensures
        !segment_lt(x, x),
        segment_lt(x, y) && segment_lt(y, z) ==> segment_lt(x, z),
        x != y ==> segment_lt(x, y) || segment_lt(y, x),
{
    lemma_bytes_lt(x.0, y.0, z.0);
    lemma_bytes_lt(y.0, x.0, y.0);
    if x != y && x.0 == y.0 {
        assert(x.1 != y.1);
    }
}

proof fn lemma_path_lt_irreflexive(a: Seq<(Seq<u8>, SegmentType)>)
    ensures
        !path_lt(a, a),
    decreases a.len(),
{
    if a.len() > 0 {
        lemma_path_lt_irreflexive(a.drop_first());
    }
}

proof fn lemma_path_lt_transitive(a: Seq<(Seq<u8>, SegmentType)>, b: Seq<(Seq<u8>, SegmentType)>, c: Seq<(Seq<u8>, SegmentType)>)
    ensures
        path_lt(a, b) && path_lt(b, c) ==> path_lt(a, c),
    decreases a.len(),
{
    if a.len() > 0 && b.len() > 0 && c.len() > 0 {
        lemma_path_lt_transitive(a.drop_first(), b.drop_first(), c.drop_first());
        lemma_segment_lt(a[0], b[0], c[0]);
        lemma_segment_lt(b[0], c[0], a[0]);
        lemma_segment_lt(c[0], a[0], b[0]);
    }
}

proof fn lemma_path_lt_total(a: Seq<(Seq<u8>, SegmentType)>, b: Seq<(Seq<u8>, SegmentType)>)
    ensures
        a != b ==> path_lt(a, b) || path_lt(b, a),
    decreases a.len(),
{
    if a.len() > 0 && b.len() > 0 {
        lemma_path_lt_total(a.drop_first(), b.drop_first());
        lemma_segment_lt(a[0], b[0], a[0]);
        if a[0] == b[0] && a != b {
            assert(a.drop_first() != b.drop_first()) by {
                if a.drop_first() == b.drop_first() {
                    assert(a =~= seq![a[0]] + a.drop_first());
                    assert(b =~= seq![b[0]] + b.drop_first());
                }
            }
        }
    }
    if a.len() == 0 && b.len() == 0 {
        assert(a =~= b);
    }
}

/// The order on paths is a strict total order.
pub proof fn lemma_path_lt(a: Seq<(Seq<u8>, SegmentType)>, b: Seq<(Seq<u8>, SegmentType)>, c: Seq<(Seq<u8>, SegmentType)>)
    ensures
        !path_lt(a, a),
        path_lt(a, b) && path_lt(b, c) ==> path_lt(a, c),
        a != b ==> path_lt(a, b) || path_lt(b, a),
{
    lemma_path_lt_irreflexive(a);
    lemma_path_lt_transitive(a, b, c);
    lemma_path_lt_total(a, b);
}

/// The order on optional names is a strict total order.
proof fn lemma_key_lt(a: Option<Seq<u8>>, b: Option<Seq<u8>>, c: Option<Seq<u8>>)
    ensures
        !key_lt(a, a),
        key_lt(a, b) && key_lt(b, c) ==> key_lt(a, c),
        a != b ==> key_lt(a, b) || key_lt(b, a),
{
    match (a, b, c) {
        (Some(x), Some(y), Some(z)) => {
            lemma_bytes_lt(x, y, z);
        },
        (Some(x), Some(y), None) => {
            lemma_bytes_lt(x, y, x);
        },
        (Some(x), None, _) => {
            lemma_bytes_lt(x, x, x);
        },
        (None, Some(y), _) => {
            lemma_bytes_lt(y, y, y);
        },
        _ => {},
    }
}

/// The order on links is a strict weak order: links of the same method
/// name and path take the same place, and any two others are ordered.
pub proof fn lemma_link_lt<H>(a: LinkView<H>, b: LinkView<H>, c: LinkView<H>)
    ensures
        !link_lt(a, a),
        link_lt(a, b) && link_lt(b, c) ==> link_lt(a, c),
        !same_rank(a, b) ==> link_lt(a, b) || link_lt(b, a),
        same_rank(a, b) ==> (link_lt(a, c) == link_lt(b, c) && link_lt(c, a) == link_lt(c, b)),
        !link_lt(b, a) && !link_lt(c, b) ==> !link_lt(c, a),
{
    let ka = method_key(a.method);
    let kb = method_key(b.method);
    let kc = method_key(c.method);
    lemma_key_lt(ka, kb, kc);
    lemma_key_lt(kb, kc, ka);
    lemma_key_lt(kc, ka, kb);
    lemma_key_lt(ka, kc, kb);
    lemma_key_lt(kb, ka, kc);
    lemma_key_lt(kc, kb, ka);
    lemma_path_lt(a.path, b.path, c.path);
    lemma_path_lt(b.path, c.path, a.path);
    lemma_path_lt(c.path, a.path, b.path);
    lemma_path_lt(a.path, c.path, b.path);
    lemma_path_lt(b.path, a.path, c.path);
    lemma_path_lt(c.path, b.path, a.path);
}

/// Whether `a` comes before `b` in the order on bytes.
pub fn bytes_less(a: &[u8], b: &[u8]) -> (r: bool)
    ensures
        r == bytes_lt(a@, b@),
{
    let mut i: usize = 0;
    proof {
        assert(a@.skip(0) =~= a@);
        assert(b@.skip(0) =~= b@);
    }
    while i < a.len() && i < b.len()
        invariant
            0 <= i <= a@.len(),
            i <= b@.len(),
            bytes_lt(a@, b@) == bytes_lt(a@.skip(i as int), b@.skip(i as int)),
        decreases a@.len() - i,
    {
        let ghost sa = a@.skip(i as int);
        let ghost sb = b@.skip(i as int);
        assert(sa[0] == a@[i as int]);
        assert(sb[0] == b@[i as int]);
        if a[i] != b[i] {
            return a[i] < b[i];
        }
        proof {
            assert(sa.drop_first() =~= a@.skip(i + 1));
            assert(sb.drop_first() =~= b@.skip(i + 1));
        }
        i = i + 1;
    }
    i < b.len()
}

/// The rank of a segment type, as a number.
fn type_rank(t: SegmentType) -> (r: u8)
    ensures
        r == segment_rank(t),
{
    match t {
        SegmentType::Static => 0,
        SegmentType::VariableSegment => 1,
        SegmentType::VariableSequence => 2,
    }
}

impl LinkSegment {
    /// Whether this segment comes before `other`: by label, then by type.
    pub fn precedes(&self, other: &LinkSegment) -> (r: bool)
        ensures
            r == segment_lt(self@, other@),
    {
        let a = self.label.as_bytes();
        let b = other.label.as_bytes();
        if bytes_less(a, b) {
            true
        } else if bytes_eq(a, b) {
            type_rank(self.ty) < type_rank(other.ty)
        } else {
            false
        }
    }

    /// Whether this segment has the label and type of `other`.
    pub fn same_as(&self, other: &LinkSegment) -> (r: bool)
        ensures
            r == (self@ == other@),
    {
        bytes_eq(self.label.as_bytes(), other.label.as_bytes()) && type_rank(self.ty) == type_rank(other.ty)
    }
}

/// The abstract value of a path.
pub open spec fn path_view(p: Seq<LinkSegment>) -> Seq<(Seq<u8>, SegmentType)> {
    p.map_values(|s: LinkSegment| s@)
}

/// Whether path `a` comes before path `b`.
pub fn path_less(a: &Vec<LinkSegment>, b: &Vec<LinkSegment>) -> (r: bool)
    ensures
        r == path_lt(path_view(a@), path_view(b@)),
{
    let ghost va = path_view(a@);
    let ghost vb = path_view(b@);
    let mut i: usize = 0;
    proof {
        assert(va.skip(0) =~= va);
        assert(vb.skip(0) =~= vb);
    }
    while i < a.len() && i < b.len()
        invariant
            va == path_view(a@),
            vb == path_view(b@),
            0 <= i <= a@.len(),
            i <= b@.len(),
            path_lt(va, vb) == path_lt(va.skip(i as int), vb.skip(i as int)),
        decreases a@.len() - i,
    {
        let ghost sa = va.skip(i as int);
        let ghost sb = vb.skip(i as int);
        assert(sa[0] == a@[i as int]@);
        assert(sb[0] == b@[i as int]@);
        if !a[i].same_as(&b[i]) {
            return a[i].precedes(&b[i]);
        }
        proof {
            assert(sa.drop_first() =~= va.skip(i + 1));
            assert(sb.drop_first() =~= vb.skip(i + 1));
        }
        i = i + 1;
    }
    i < b.len()
}

/// Whether method `a` comes before method `b`: no method first, then by
/// name.
pub fn method_less(a: &Option<Method>, b: &Option<Method>) -> (r: bool)
    ensures
        r == method_lt(method_view(*a), method_view(*b)),
{
    match (a, b) {
        (None, Some(_)) => true,
        (Some(x), Some(y)) => bytes_less(x.as_str().as_bytes(), y.as_str().as_bytes()),
        _ => false,
    }
}

impl<'a, H> Link<'a, H> {
    /// Whether this link comes before `other`: by method, then by path.
    pub fn precedes(&self, other: &Link<'a, H>) -> (r: bool)
        ensures
            r == link_lt(self@, other@),
    {
        if method_less(&self.method, &other.method) {
            true
        } else if method_less(&other.method, &self.method) {
            false
        } else {
            proof {
                let ka = method_key(method_view(self.method));
                let kb = method_key(method_view(other.method));
                lemma_key_lt(ka, kb, ka);
            }
            path_less(&self.path, &other.path)
        }
    }
}

/// The abstract values of links.
pub open spec fn link_views<'a, H>(ls: Seq<Link<'a, H>>) -> Seq<LinkView<H>> {
    ls.map_values(|l: Link<'a, H>| l@)
}

/// Put `x` into links sorted by method name and path: after every link that
/// does not come after it, so that links of the same place keep the order in
/// which they came.
pub open spec fn insert_link<H>(r: Seq<LinkView<H>>, x: LinkView<H>) -> Seq<LinkView<H>>
    decreases r.len(),
{
    if r.len() == 0 {
        seq![x]
    } else if link_lt(x, r.last()) {
        insert_link(r.drop_last(), x).push(r.last())
    } else {
        r.push(x)
    }
}

/// Links sorted stably by method name, then path.
pub open spec fn sorted_links<H>(s: Seq<LinkView<H>>) -> Seq<LinkView<H>>
    decreases s.len(),
{
    if s.len() == 0 {
        Seq::empty()
    } else {
        insert_link(sorted_links(s.drop_last()), s.last())
    }
}

/// Links with each one dropped that has the method and path of the link
/// just before it.
pub open spec fn dedup_links<H>(r: Seq<LinkView<H>>) -> Seq<LinkView<H>>
    decreases r.len(),
{
    if r.len() == 0 {
        Seq::empty()
    } else if r.len() >= 2 && same_link(r[r.len() - 2], r.last()) {
        dedup_links(r.drop_last())
    } else {
        dedup_links(r.drop_last()).push(r.last())
    }
}

/// The hyperlinks that a search gives: sorted, then without repeats.
pub open spec fn ordered_links<H>(s: Seq<LinkView<H>>) -> Seq<LinkView<H>> {
    dedup_links(sorted_links(s))
}

/// Whether two links have the same method and path.
fn same_links<'a, H>(a: &Link<'a, H>, b: &Link<'a, H>) -> (r: bool)
    ensures
        r == same_link(a@, b@),
{
    let same_method = match (&a.method, &b.method) {
        (Some(x), Some(y)) => x.same_as(y),
        (None, None) => true,
        _ => false,
    };
    if !same_method {
        return false;
    }
    if a.path.len() != b.path.len() {
        proof {
            assert(path_view(a.path@).len() != path_view(b.path@).len());
        }
        return false;
    }
    let mut i: usize = 0;
    while i < a.path.len()
        invariant
            a.path@.len() == b.path@.len(),
            0 <= i <= a.path@.len(),
            forall|j: int| 0 <= j < i ==> path_view(a.path@)[j] == path_view(b.path@)[j],
        decreases a.path@.len() - i,
    {
        if !a.path[i].same_as(&b.path[i]) {
            proof {
                assert(path_view(a.path@)[i as int] != path_view(b.path@)[i as int]);
            }
            return false;
        }
        i = i + 1;
    }
    proof {
        assert(path_view(a.path@) =~= path_view(b.path@));
    }
    true
}

/// Sort links stably by method name and path, and drop each link that has
/// the method and path of the one just before it.
pub fn sort_links<'a, H>(links: &Vec<Link<'a, H>>) -> (r: Vec<Link<'a, H>>)
    ensures
        link_views(r@) == ordered_links(link_views(links@)),
{
    let ghost s = link_views(links@);
    let mut sorted: Vec<Link<'a, H>> = Vec::new();
    let mut n: usize = 0;
    while n < links.len()
        invariant
            s == link_views(links@),
            0 <= n <= links@.len(),
            link_views(sorted@) == sorted_links(s.take(n as int)),
        decreases links@.len() - n,
    {
        let ghost o = link_views(sorted@);
        let x = links[n].duplicate();
        let ghost xv = x@;
        let mut p: usize = sorted.len();
        proof {
            assert(o.take(p as int) =~= o);
            assert(insert_link(o, xv) + o.skip(p as int) =~= insert_link(o, xv));
        }
        while p > 0 && x.precedes(&sorted[p - 1])
            invariant
                o == link_views(sorted@),
                xv == x@,
                0 <= p <= o.len(),
                insert_link(o, xv) == insert_link(o.take(p as int), xv) + o.skip(p as int),
            decreases p,
        {
            proof {
                let t = o.take(p as int);
                assert(t.last() == o[p - 1]);
                assert(t.drop_last() =~= o.take(p - 1));
                assert(insert_link(t, xv) == insert_link(o.take(p - 1), xv).push(o[p - 1]));
                assert(insert_link(o.take(p - 1), xv).push(o[p - 1]) + o.skip(p as int)
                    =~= insert_link(o.take(p - 1), xv) + o.skip(p - 1));
            }
            p = p - 1;
        }
        proof {
            let t = o.take(p as int);
            if p == 0 {
                assert(t =~= Seq::<LinkView<H>>::empty());
            } else {
                assert(t.last() == o[p - 1]);
            }
            assert(insert_link(t, xv) =~= t.push(xv));
            assert(t.push(xv) + o.skip(p as int) =~= o.insert(p as int, xv));
        }
        sorted.insert(p, x);
        proof {
            assert(link_views(sorted@) =~= o.insert(p as int, xv));
            assert(s.take(n + 1).drop_last() =~= s.take(n as int));
            assert(s.take(n + 1).last() == xv);
        }
        n = n + 1;
    }
    proof {
        assert(s.take(n as int) =~= s);
    }
    let ghost t = link_views(sorted@);
    let mut out: Vec<Link<'a, H>> = Vec::new();
    let mut i: usize = 0;
    while i < sorted.len()
        invariant
            t == link_views(sorted@),
            0 <= i <= sorted@.len(),
            link_views(out@) == dedup_links(t.take(i as int)),
        decreases sorted@.len() - i,
    {
        let repeat = i > 0 && same_links(&sorted[i - 1], &sorted[i]);
        proof {
            let u = t.take(i + 1);
            assert(u.drop_last() =~= t.take(i as int));
            assert(u.last() == t[i as int]);
            if i > 0 {
                assert(u[u.len() - 2] == t[i - 1]);
            }
        }
        if !repeat {
            let l = sorted[i].duplicate();
            out.push(l);
            proof {
                assert(link_views(out@) =~= dedup_links(t.take(i as int)).push(t[i as int]));
            }
        }
        i = i + 1;
    }
    proof {
        assert(t.take(i as int) =~= t);
    }
    out
}

/// Each link comes no later in the order than the ones after it.
pub open spec fn links_in_order<H>(r: Seq<LinkView<H>>) -> bool {
    forall|i: int, j: int| 0 <= i < j < r.len() ==> !link_lt(#[trigger] r[j], #[trigger] r[i])
}

/// Putting a link into sorted links adds it to them, keeps their order and
/// keeps them sorted.
proof fn lemma_insert_link<H>(r: Seq<LinkView<H>>, x: LinkView<H>)
    requires
        links_in_order(r),
    ensures
        insert_link(r, x).len() == r.len() + 1,
        forall|y: LinkView<H>| #[trigger] insert_link(r, x).contains(y) <==> (r.contains(y) || y == x),
        links_in_order(insert_link(r, x)),
    decreases r.len(),
{
    let n = insert_link(r, x);
    if r.len() == 0 {
        assert forall|y: LinkView<H>| n.contains(y) <==> (r.contains(y) || y == x) by {
            if n.contains(y) {
                assert(n[0] == x);
            }
            if y == x {
                assert(n[0] == y);
            }
        }
    } else if link_lt(x, r.last()) {
        let d = r.drop_last();
        assert(links_in_order(d)) by {
            assert forall|i: int, j: int| 0 <= i < j < d.len() implies !link_lt(#[trigger] d[j], #[trigger] d[i]) by {
                assert(d[i] == r[i] && d[j] == r[j]);
            }
        }
        lemma_insert_link(d, x);
        let m = insert_link(d, x);
        assert(n == m.push(r.last()));
        assert(m.contains(x));
        assert forall|y: LinkView<H>| n.contains(y) <==> (r.contains(y) || y == x) by {
            if n.contains(y) {
                let k = choose|k: int| 0 <= k < n.len() && n[k] == y;
                if k < m.len() {
                    assert(m[k] == y);
                    assert(m.contains(y));
                    if d.contains(y) {
                        let q = choose|q: int| 0 <= q < d.len() && d[q] == y;
                        assert(r[q] == y);
                    }
                } else {
                    assert(r[r.len() - 1] == y);
                }
            }
            if r.contains(y) {
                let q = choose|q: int| 0 <= q < r.len() && r[q] == y;
                if q < d.len() {
                    assert(d[q] == y);
                    assert(m.contains(y));
                    let k = choose|k: int| 0 <= k < m.len() && m[k] == y;
                    assert(n[k] == y);
                } else {
                    assert(n[n.len() - 1] == y);
                }
            }
            if y == x {
                assert(m.contains(y));
                let k = choose|k: int| 0 <= k < m.len() && m[k] == y;
                assert(n[k] == y);
            }
        }
        assert forall|i: int, j: int| 0 <= i < j < n.len() implies !link_lt(#[trigger] n[j], #[trigger] n[i]) by {
            if j < m.len() {
                assert(n[i] == m[i] && n[j] == m[j]);
            } else {
                let e = m[i];
                assert(n[i] == e);
                assert(m.contains(e));
                if e == x {
                    lemma_link_lt(x, r.last(), x);
                } else {
                    assert(d.contains(e));
                    let q = choose|q: int| 0 <= q < d.len() && d[q] == e;
                    assert(r[q] == e);
                    assert(!link_lt(r[r.len() - 1], r[q]));
                }
            }
        }
    } else {
        assert forall|y: LinkView<H>| n.contains(y) <==> (r.contains(y) || y == x) by {
            if n.contains(y) {
                let k = choose|k: int| 0 <= k < n.len() && n[k] == y;
                if k < r.len() {
                    assert(r[k] == y);
                }
            }
            if r.contains(y) {
                let q = choose|q: int| 0 <= q < r.len() && r[q] == y;
                assert(n[q] == y);
            }
            if y == x {
                assert(n[n.len() - 1] == y);
            }
        }
        assert forall|i: int, j: int| 0 <= i < j < n.len() implies !link_lt(#[trigger] n[j], #[trigger] n[i]) by {
            if j < r.len() {
                assert(n[i] == r[i] && n[j] == r[j]);
            } else {
                assert(n[i] == r[i]);
                if i < r.len() - 1 {
                    assert(!link_lt(r[r.len() - 1], r[i]));
                }
                lemma_link_lt(r[i], r.last(), x);
            }
        }
    }
}

/// Sorting keeps the links, as many as there were, and puts them in order.
proof fn lemma_sorted_links<H>(s: Seq<LinkView<H>>)
    ensures
        sorted_links(s).len() == s.len(),
        forall|y: LinkView<H>| #[trigger] sorted_links(s).contains(y) <==> s.contains(y),
        links_in_order(sorted_links(s)),
    decreases s.len(),
{
    if s.len() > 0 {
        let d = s.drop_last();
        lemma_sorted_links(d);
        lemma_insert_link(sorted_links(d), s.last());
        assert forall|y: LinkView<H>| sorted_links(s).contains(y) <==> s.contains(y) by {
            if d.contains(y) {
                let q = choose|q: int| 0 <= q < d.len() && d[q] == y;
                assert(s[q] == y);
            }
            if s.contains(y) {
                let q = choose|q: int| 0 <= q < s.len() && s[q] == y;
                if q < d.len() {
                    assert(d[q] == y);
                }
            }
        }
    }
}

/// Dropping repeats keeps links of the sequence in their order, keeps one
/// link of each method and path, ends with one of the method and path that
/// the sequence ends with, and leaves no two neighbours the same.
proof fn lemma_dedup_links<H>(r: Seq<LinkView<H>>)
    ensures
        forall|y: LinkView<H>| #[trigger] dedup_links(r).contains(y) ==> r.contains(y),
        forall|y: LinkView<H>| r.contains(y) ==> exists|k: int| 0 <= k < dedup_links(r).len() && same_link(#[trigger] dedup_links(r)[k], y),
        r.len() > 0 ==> dedup_links(r).len() > 0 && same_link(dedup_links(r).last(), r.last()),
        forall|i: int| 0 <= i < dedup_links(r).len() - 1 ==> !same_link(#[trigger] dedup_links(r)[i], dedup_links(r)[i + 1]),
        links_in_order(r) ==> links_in_order(dedup_links(r)),
    decreases r.len(),
{
    if r.len() > 0 {
        let d = r.drop_last();
        let e = dedup_links(d);
        lemma_dedup_links(d);
        let x = r.last();
        assert(links_in_order(r) ==> links_in_order(d)) by {
            if links_in_order(r) {
                assert forall|i: int, j: int| 0 <= i < j < d.len() implies !link_lt(#[trigger] d[j], #[trigger] d[i]) by {
                    assert(d[i] == r[i] && d[j] == r[j]);
                }
            }
        }
        let n = dedup_links(r);
        if r.len() >= 2 && same_link(r[r.len() - 2], x) {
            assert(n == e);
            assert(d.last() == r[r.len() - 2]);
            assert forall|y: LinkView<H>| n.contains(y) implies r.contains(y) by {
                assert(e.contains(y));
                assert(d.contains(y));
                let q = choose|q: int| 0 <= q < d.len() && d[q] == y;
                assert(r[q] == y);
            }
            assert forall|y: LinkView<H>| r.contains(y) implies exists|k: int| 0 <= k < n.len() && same_link(#[trigger] n[k], y) by {
                let q = choose|q: int| 0 <= q < r.len() && r[q] == y;
                if q < d.len() {
                    assert(d[q] == y);
                    assert(d.contains(y));
                } else {
                    assert(same_link(e.last(), d.last()));
                    assert(same_link(n[n.len() - 1], y));
                }
            }
        } else {
            assert(n == e.push(x));
            assert forall|y: LinkView<H>| n.contains(y) implies r.contains(y) by {
                let k = choose|k: int| 0 <= k < n.len() && n[k] == y;
                if k < e.len() {
                    assert(e.contains(y));
                    let q = choose|q: int| 0 <= q < d.len() && d[q] == y;
                    assert(r[q] == y);
                } else {
                    assert(r[r.len() - 1] == y);
                }
            }
            assert forall|y: LinkView<H>| r.contains(y) implies exists|k: int| 0 <= k < n.len() && same_link(#[trigger] n[k], y) by {
                let q = choose|q: int| 0 <= q < r.len() && r[q] == y;
                if q < d.len() {
                    assert(d[q] == y);
                    assert(d.contains(y));
                    let k = choose|k: int| 0 <= k < e.len() && same_link(#[trigger] e[k], y);
                    assert(n[k] == e[k]);
                } else {
                    assert(same_link(n[n.len() - 1], y));
                }
            }
            assert forall|i: int| 0 <= i < n.len() - 1 implies !same_link(#[trigger] n[i], n[i + 1]) by {
                if i < e.len() - 1 {
                    assert(n[i] == e[i] && n[i + 1] == e[i + 1]);
                } else {
                    assert(d.len() > 0);
                    assert(d.last() == r[r.len() - 2]);
                    assert(same_link(e.last(), d.last()));
                    assert(n[i] == e.last());
                }
            }
            if links_in_order(r) {
                assert forall|i: int, j: int| 0 <= i < j < n.len() implies !link_lt(#[trigger] n[j], #[trigger] n[i]) by {
                    if j < e.len() {
                        assert(n[i] == e[i] && n[j] == e[j]);
                    } else {
                        assert(n[i] == e[i]);
                        assert(e.contains(e[i]));
                        let q = choose|q: int| 0 <= q < d.len() && d[q] == e[i];
                        assert(r[q] == e[i]);
                        assert(n[j] == r[r.len() - 1]);
                    }
                }
            }
        }
    }
}

/// The hyperlinks of a search come in order, by method name and then path,
/// with no two neighbours of the same method and path; each of them is one
/// of the links found, and each link found has one of its method and path
/// among them.
pub proof fn law_ordered_links<H>(s: Seq<LinkView<H>>)
    ensures
        links_in_order(ordered_links(s)),
        forall|i: int| 0 <= i < ordered_links(s).len() - 1 ==> !same_link(#[trigger] ordered_links(s)[i], ordered_links(s)[i + 1]),
        forall|y: LinkView<H>| #[trigger] ordered_links(s).contains(y) ==> s.contains(y),
        forall|y: LinkView<H>| s.contains(y) ==> exists|k: int| 0 <= k < ordered_links(s).len() && same_link(#[trigger] ordered_links(s)[k], y),
{
    lemma_sorted_links(s);
    lemma_dedup_links(sorted_links(s));
    assert forall|y: LinkView<H>| s.contains(y) implies exists|k: int|
        0 <= k < ordered_links(s).len() && same_link(#[trigger] ordered_links(s)[k], y) by {
        let r = sorted_links(s);
        assert(r.contains(y));
        let k = choose|k: int| 0 <= k < dedup_links(r).len() && same_link(#[trigger] dedup_links(r)[k], y);
        assert(ordered_links(s)[k] == dedup_links(r)[k]);
    }
}

} // verus!
