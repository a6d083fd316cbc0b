//! Taking request URIs apart: path, query, fragment and host.

use vstd::prelude::*;
use vstd::string::*;
use vstd::utf8::*;

use crate::context::{MaybeUtf8, Parameters, UriPath, UriPathView};
use crate::utils::{percent_decode_bytes, percent_decoded, parse_parameters, query_parameters};

verus! {

#[verifier::external_type_specification]
#[verifier::external_body]
pub struct ExUrl(url::Url);

/// A request URI, taken apart.
pub struct ParsedUri {
    /// The host name and port, if the URI has them.
    pub host: Option<(String, Option<u16>)>,
    /// The percent-decoded path.
    pub uri_path: UriPath,
    /// The query parameters.
    pub query: Parameters,
    /// The percent-decoded fragment, if there is one.
    pub fragment: Option<MaybeUtf8>,
}

/// The abstract value of a request URI taken apart.
pub ghost struct ParsedUriView {
    pub host: Option<(Seq<char>, Option<u16>)>,
    pub uri_path: UriPathView,
    pub query: Map<Seq<u8>, Seq<u8>>,
    pub fragment: Option<Seq<u8>>,
}

/// The abstract value of an optional host and port.
pub open spec fn host_view(host: Option<(String, Option<u16>)>) -> Option<(Seq<char>, Option<u16>)> {
    match host {
        Some((name, port)) => Some((name@, port)),
        None => None,
    }
}

/// The bytes of an optional string.
pub open spec fn bytes_view(s: Option<MaybeUtf8>) -> Option<Seq<u8>> {
    match s {
        Some(s) => Some(s@),
        None => None,
    }
}

impl View for ParsedUri {
    type V = ParsedUriView;

    open spec fn view(&self) -> ParsedUriView {
        ParsedUriView {
            host: host_view(self.host),
            uri_path: self.uri_path@,
            query: self.query@,
            fragment: bytes_view(self.fragment),
        }
    }
}

/// The position of the first occurrence of a byte.
pub open spec fn find_byte(s: Seq<u8>, b: u8) -> Option<int>
    decreases s.len(),
{
    if s.len() == 0 {
        None
    } else if s[0] == b {
        Some(0)
    } else {
        match find_byte(s.skip(1), b) {
            Some(i) => Some(i + 1),
            None => None,
        }
    }
}

proof fn lemma_find_byte(s: Seq<u8>, b: u8, i: int)
    requires
        0 <= i <= s.len(),
        forall|j: int| 0 <= j < i ==> s[j] != b,
    ensures
        i < s.len() && s[i] == b ==> find_byte(s, b) == Some(i),
        i == s.len() ==> find_byte(s, b) is None,
    decreases i,
{
    if i > 0 {
        assert forall|j: int| 0 <= j < i - 1 implies s.skip(1)[j] != b by {
            assert(s.skip(1)[j] == s[j + 1]);
        }
        lemma_find_byte(s.skip(1), b, i - 1);
        if i < s.len() {
            assert(s.skip(1)[i - 1] == s[i]);
        }
    } else if s.len() == 0 {
    }
}

/// The part before the first `#`, and the part after it if there is one.
pub open spec fn split_fragment(s: Seq<u8>) -> (Seq<u8>, Option<Seq<u8>>) {
    match find_byte(s, 35u8) {
        Some(i) => (s.take(i), Some(s.skip(i + 1))),
        None => (s, None),
    }
}

/// The percent-decoding of an optional part.
pub open spec fn decoded_part(s: Option<Seq<u8>>) -> Option<Seq<u8>> {
    match s {
        Some(s) => Some(percent_decoded(s)),
        None => None,
    }
}

/// An empty path stands for the root.
pub open spec fn root_if_empty(p: Seq<u8>) -> Seq<u8> {
    if p.len() == 0 {
        seq![47u8]
    } else {
        p
    }
}

/// A request path taken apart: the part before the first `?` is the path,
/// what follows up to the first `#` is the query, and the rest is the
/// fragment. The path and the fragment are percent-decoded, and an empty
/// path is the root.
pub open spec fn parsed_path(s: Seq<u8>) -> ParsedUriView {
    match find_byte(s, 63u8) {
        Some(q) => {
            let (query, fragment) = split_fragment(s.skip(q + 1));
            ParsedUriView {
                host: None,
                uri_path: UriPathView::Path(root_if_empty(percent_decoded(s.take(q)))),
                query: query_parameters(query),
                fragment: decoded_part(fragment),
            }
        },
        None => {
            let (path, fragment) = split_fragment(s);
            ParsedUriView {
                host: None,
                uri_path: UriPathView::Path(root_if_empty(percent_decoded(path))),
                query: Map::empty(),
                fragment: decoded_part(fragment),
            }
        },
    }
}

/// The path of a request path with a `?` is the percent-decoding of what
/// comes before the first `?` (the root if that is empty), whatever comes
/// after it.
pub proof fn law_path_before_query(p: Seq<u8>, q: int)
    requires
        0 <= q < p.len(),
        p[q] == 63u8,
        forall|j: int| 0 <= j < q ==> p[j] != 63u8,
    ensures
        parsed_path(p).uri_path == UriPathView::Path(root_if_empty(percent_decoded(p.take(q)))),
{
    lemma_find_byte(p, 63u8, q);
}

/// The path of a request path without `?` but with a `#` is the
/// percent-decoding of what comes before the first `#` (the root if that is
/// empty).
pub proof fn law_path_before_fragment(p: Seq<u8>, h: int)
    requires
        !p.contains(63u8),
        0 <= h < p.len(),
        p[h] == 35u8,
        forall|j: int| 0 <= j < h ==> p[j] != 35u8,
    ensures
        parsed_path(p).uri_path == UriPathView::Path(root_if_empty(percent_decoded(p.take(h)))),
{
    assert forall|j: int| 0 <= j < p.len() implies p[j] != 63u8 by {
        if p[j] == 63u8 {
            assert(p.contains(63u8));
        }
    }
    lemma_find_byte(p, 63u8, p.len() as int);
    lemma_find_byte(p, 35u8, h);
}

/// The path of a request path with neither `?` nor `#` is its
/// percent-decoding (the root if that is empty).
pub proof fn law_path_alone(p: Seq<u8>)
    requires
        !p.contains(63u8),
        !p.contains(35u8),
    ensures
        parsed_path(p).uri_path == UriPathView::Path(root_if_empty(percent_decoded(p))),
{
    assert forall|j: int| 0 <= j < p.len() implies p[j] != 63u8 && p[j] != 35u8 by {
        if p[j] == 63u8 {
            assert(p.contains(63u8));
        }
        if p[j] == 35u8 {
            assert(p.contains(35u8));
        }
    }
    lemma_find_byte(p, 63u8, p.len() as int);
    lemma_find_byte(p, 35u8, p.len() as int);
}

/// Adding a `?` to a request path with neither `?` nor `#` leaves its path
/// as it was: the path is decoded alike with and without a query.
pub proof fn law_query_mark_keeps_path(p: Seq<u8>)
    requires
        !p.contains(63u8),
        !p.contains(35u8),
    ensures
        parsed_path(p.push(63u8)).uri_path == parsed_path(p).uri_path,
{
    law_path_alone(p);
    let r = p.push(63u8);
    assert forall|j: int| 0 <= j < p.len() implies r[j] != 63u8 by {
        assert(r[j] == p[j]);
        if p[j] == 63u8 {
            assert(p.contains(63u8));
        }
    }
    law_path_before_query(r, p.len() as int);
    assert(r.take(p.len() as int) =~= p);
}

/// A request path with a `?` and no `#` after it has as query the
/// parameters of everything after the first `?`, and no fragment.
pub proof fn law_query_after_mark(p: Seq<u8>, q: int)
    requires
        0 <= q < p.len(),
        p[q] == 63u8,
        forall|j: int| 0 <= j < q ==> p[j] != 63u8,
        forall|j: int| q < j < p.len() ==> p[j] != 35u8,
    ensures
        parsed_path(p).query == query_parameters(p.skip(q + 1)),
        parsed_path(p).fragment is None,
{
    lemma_find_byte(p, 63u8, q);
    let rest = p.skip(q + 1);
    assert forall|j: int| 0 <= j < rest.len() implies rest[j] != 35u8 by {
        assert(rest[j] == p[q + 1 + j]);
    }
    lemma_find_byte(rest, 35u8, rest.len() as int);
}

/// A request path without `?` has no query, and its fragment is the
/// percent-decoding of everything after the first `#`.
pub proof fn law_fragment_after_mark(p: Seq<u8>, h: int)
    requires
        !p.contains(63u8),
        0 <= h < p.len(),
        p[h] == 35u8,
        forall|j: int| 0 <= j < h ==> p[j] != 35u8,
    ensures
        parsed_path(p).query == Map::<Seq<u8>, Seq<u8>>::empty(),
        parsed_path(p).fragment == Some(percent_decoded(p.skip(h + 1))),
{
    assert forall|j: int| 0 <= j < p.len() implies p[j] != 63u8 by {
        if p[j] == 63u8 {
            assert(p.contains(63u8));
        }
    }
    lemma_find_byte(p, 63u8, p.len() as int);
    lemma_find_byte(p, 35u8, h);
}

/// The position of the first occurrence of a byte.
fn find_first(s: &[u8], b: u8) -> (r: Option<usize>)
    ensures
        match r {
            Some(i) => find_byte(s@, b) == Some(i as int),
            None => find_byte(s@, b) is None,
        },
        r matches Some(i) ==> i < s@.len() && s@[i as int] == b,
{
    let mut i: usize = 0;
    while i < s.len()
        invariant
            0 <= i <= s@.len(),
            forall|j: int| 0 <= j < i ==> s@[j] != b,
        decreases s@.len() - i,
    {
        if s[i] == b {
            proof {
                lemma_find_byte(s@, b, i as int);
            }
            return Some(i);
        }
        i = i + 1;
    }
    proof {
        lemma_find_byte(s@, b, i as int);
    }
    None
}

/// Split off the fragment: the part before the first `#`, and the part
/// after it if there is one.
pub fn parse_fragment(path: &[u8]) -> (r: (&[u8], Option<&[u8]>))
    ensures
        r.0@ == split_fragment(path@).0,
        match r.1 {
            Some(f) => split_fragment(path@).1 == Some(f@),
            None => split_fragment(path@).1 is None,
        },
{
    match find_first(path, 35u8) {
        Some(index) => {
            let n = path.len();
            let before = vstd::slice::slice_subrange(path, 0, index);
            let after = vstd::slice::slice_subrange(path, index + 1, n);
            proof {
                assert(before@ =~= path@.take(index as int));
                assert(after@ =~= path@.skip(index + 1));
            }
            (before, Some(after))
        },
        None => (path, None),
    }
}

/// Percent-decode a path, where an empty path is the root.
fn decode_path(bytes: &[u8]) -> (r: MaybeUtf8)
    ensures
        r@ == root_if_empty(percent_decoded(bytes@)),
        r.inv(),
{
    let mut path = percent_decode_bytes(bytes);
    if path.len() == 0 {
        path.push(47u8);
        proof {
            assert(path@ =~= seq![47u8]);
        }
    }
    MaybeUtf8::from_bytes(path)
}

/// Percent-decode an optional part.
fn decode_part(part: Option<&[u8]>) -> (r: Option<MaybeUtf8>)
    ensures
        match part {
            Some(p) => bytes_view(r) == Some(percent_decoded(p@)),
            None => r is None,
        },
{
    match part {
        Some(p) => Some(MaybeUtf8::from_bytes(percent_decode_bytes(p))),
        None => None,
    }
}

/// Take a request path apart into path, query and fragment.
pub fn parse_path(path: &str) -> (r: ParsedUri)
    ensures
        r@ == parsed_path(path.spec_bytes()),
        r.query.wf(),
        r.query.values_inv(),
        r.uri_path.inv(),
{
    let bytes = path.as_bytes();
    match find_first(bytes, 63u8) {
        Some(index) => {
            let n = bytes.len();
            let before = vstd::slice::slice_subrange(bytes, 0, index);
            let rest = vstd::slice::slice_subrange(bytes, index + 1, n);
            proof {
                assert(before@ =~= bytes@.take(index as int));
                assert(rest@ =~= bytes@.skip(index + 1));
            }
            let (query, fragment) = parse_fragment(rest);
            let uri_path = decode_path(before);
            let query = parse_parameters(query);
            let fragment = decode_part(fragment);
            ParsedUri { host: None, uri_path: UriPath::Path(uri_path), query, fragment }
        },
        None => {
            let (p, fragment) = parse_fragment(bytes);
            let uri_path = decode_path(p);
            let fragment = decode_part(fragment);
            let r = ParsedUri { host: None, uri_path: UriPath::Path(uri_path), query: Parameters::new(), fragment };
            r
        },
    }
}

/// The parts of an absolute URL that a request is made of, as the `url`
/// crate gives them.
pub struct UrlParts {
    /// The path, still percent-encoded.
    pub path: String,
    /// The query's name and value pairs, decoded.
    pub query_pairs: Vec<(String, String)>,
    /// The host name, if there is one.
    pub host: Option<String>,
    /// The port, if there is one.
    pub port: Option<u16>,
    /// The fragment, still percent-encoded, if there is one.
    pub fragment: Option<String>,
}

/// The abstract value of the parts of an absolute URL.
pub ghost struct UrlPartsView {
    pub path: Seq<char>,
    pub query_pairs: Seq<(Seq<char>, Seq<char>)>,
    pub host: Option<Seq<char>>,
    pub port: Option<u16>,
    pub fragment: Option<Seq<char>>,
}

/// The text of an optional string.
pub open spec fn text_of(s: Option<String>) -> Option<Seq<char>> {
    match s {
        Some(t) => Some(t@),
        None => None,
    }
}

/// The texts of name and value pairs.
pub open spec fn pair_texts(pairs: Seq<(String, String)>) -> Seq<(Seq<char>, Seq<char>)> {
    pairs.map_values(|p: (String, String)| (p.0@, p.1@))
}

impl View for UrlParts {
    type V = UrlPartsView;

    open spec fn view(&self) -> UrlPartsView {
        UrlPartsView {
            path: self.path@,
            query_pairs: pair_texts(self.query_pairs@),
            host: text_of(self.host),
            port: self.port,
            fragment: text_of(self.fragment),
        }
    }
}

/// The parameters of the first `n` decoded query pairs: a later pair
/// replaces an earlier one with the same name.
pub open spec fn pairs_map(pairs: Seq<(Seq<char>, Seq<char>)>, n: int) -> Map<Seq<u8>, Seq<u8>>
    decreases n,
{
    if n <= 0 {
        Map::empty()
    } else {
        pairs_map(pairs, n - 1).insert(encode_utf8(pairs[n - 1].0), encode_utf8(pairs[n - 1].1))
    }
}

/// The request URI made of the parts of an absolute URL: the path and the
/// fragment are percent-decoded, the query pairs are the parameters, and the
/// host comes with the port.
pub open spec fn parsed_url(parts: UrlPartsView) -> ParsedUriView {
    ParsedUriView {
        host: match parts.host {
            Some(h) => Some((h, parts.port)),
            None => None,
        },
        uri_path: UriPathView::Path(percent_decoded(encode_utf8(parts.path))),
        query: pairs_map(parts.query_pairs, parts.query_pairs.len() as int),
        fragment: match parts.fragment {
            Some(f) => Some(percent_decoded(encode_utf8(f))),
            None => None,
        },
    }
}

/// Take the parts of an absolute URL apart into a request URI.
pub fn parse_url_parts(parts: UrlParts) -> (r: ParsedUri)
    ensures
        r@ == parsed_url(parts@),
        r.query.wf(),
        r.query.values_inv(),
        r.uri_path.inv(),
{
    let ghost p0 = parts@;
    let UrlParts { path, query_pairs, host, port, fragment } = parts;
    let uri_path = MaybeUtf8::from_bytes(percent_decode_bytes(path.as_str().as_bytes()));
    let mut query = Parameters::new();
    let mut i: usize = 0;
    while i < query_pairs.len()
        invariant
            0 <= i <= query_pairs@.len(),
            pair_texts(query_pairs@) == p0.query_pairs,
            query.wf(),
            query.values_inv(),
            query@ == pairs_map(p0.query_pairs, i as int),
        decreases query_pairs@.len() - i,
    {
        let name = MaybeUtf8::from_str(query_pairs[i].0.as_str());
        let value = MaybeUtf8::from_str(query_pairs[i].1.as_str());
        proof {
            assert(p0.query_pairs[i as int] == (query_pairs@[i as int].0@, query_pairs@[i as int].1@));
        }
        query.insert(name, value);
        i = i + 1;
    }
    let host = match host {
        Some(h) => Some((h, port)),
        None => None,
    };
    let fragment = match fragment {
        Some(f) => Some(MaybeUtf8::from_bytes(percent_decode_bytes(f.as_str().as_bytes()))),
        None => None,
    };
    ParsedUri { host, uri_path: UriPath::Path(uri_path), query, fragment }
}

/// What `Url::path` gives for a URL.
pub uninterp spec fn url_path_of(url: url::Url) -> Seq<char>;

/// What `Url::query_pairs` gives for a URL, each pair taken by its text.
pub uninterp spec fn url_query_pairs_of(url: url::Url) -> Seq<(Seq<char>, Seq<char>)>;

/// What `Url::host_str` gives for a URL.
pub uninterp spec fn url_host_of(url: url::Url) -> Option<Seq<char>>;

/// What `Url::port` gives for a URL.
pub uninterp spec fn url_port_of(url: url::Url) -> Option<u16>;

/// What `Url::fragment` gives for a URL.
pub uninterp spec fn url_fragment_of(url: url::Url) -> Option<Seq<char>>;

/// The parts of a URL as the `url` crate gives them.
pub open spec fn url_parts_of(url: url::Url) -> UrlPartsView {
    UrlPartsView {
        path: url_path_of(url),
        query_pairs: url_query_pairs_of(url),
        host: url_host_of(url),
        port: url_port_of(url),
        fragment: url_fragment_of(url),
    }
}

/// `Url::path`: the URL's path, still percent-encoded. Claimed: the text is
/// a function of the URL alone, named `url_path_of`.
#[verifier::external_body]
fn url_path(url: &url::Url) -> (r: String)
    ensures
        r@ == url_path_of(*url),
{
    url.path().to_owned()
}

/// `Url::query_pairs`: the URL's query, decoded into name and value pairs
/// in their order in the query. Claimed: the pairs are a function of the URL
/// alone, named `url_query_pairs_of`.
#[verifier::external_body]
fn url_query_pairs(url: &url::Url) -> (r: Vec<(String, String)>)
    ensures
        pair_texts(r@) == url_query_pairs_of(*url),
{
    url.query_pairs().map(|(k, v)| (k.into_owned(), v.into_owned())).collect()
}

/// `Url::host_str`: the URL's host name, if it has one. Claimed: the result
/// is a function of the URL alone, named `url_host_of`.
#[verifier::external_body]
fn url_host_str(url: &url::Url) -> (r: Option<String>)
    ensures
        text_of(r) == url_host_of(*url),
{
    url.host_str().map(|h| h.to_owned())
}

/// `Url::port`: the URL's explicit port, if it has one. Claimed: the result
/// is a function of the URL alone, named `url_port_of`.
#[verifier::external_body]
fn url_port(url: &url::Url) -> (r: Option<u16>)
    ensures
        r == url_port_of(*url),
{
    url.port()
}

/// `Url::fragment`: the URL's fragment, still percent-encoded, if it has
/// one. Claimed: the result is a function of the URL alone, named
/// `url_fragment_of`.
#[verifier::external_body]
fn url_fragment(url: &url::Url) -> (r: Option<String>)
    ensures
        text_of(r) == url_fragment_of(*url),
{
    url.fragment().map(|f| f.to_owned())
}

/// Take an absolute URL apart into a request URI: the URL's parts are read
/// with the `url` crate and put together as `parse_url_parts` does.
pub fn parse_url(url: &url::Url) -> (r: ParsedUri)
    ensures
        r.query.wf(),
        r.query.values_inv(),
        r.uri_path.inv(),
        r@ == parsed_url(url_parts_of(*url)),
{
    let parts = UrlParts {
        path: url_path(url),
        query_pairs: url_query_pairs(url),
        host: url_host_str(url),
        port: url_port(url),
        fragment: url_fragment(url),
    };
    proof {
        assert(parts@ == url_parts_of(*url));
    }
    parse_url_parts(parts)
}

/// `num_cpus::get`: the number of CPUs that the current process can use,
/// which the crate documents as always at least 1.
#[verifier::external_body]
fn cpu_count() -> (r: usize)
    ensures
        r >= 1,
{
    num_cpus::get()
}

/// The number of request threads: the configured number, or five for every
/// four CPUs.
pub fn threads_for(configured: Option<usize>, cpus: usize) -> (r: usize)
    requires
        configured is None ==> cpus * 5 <= usize::MAX,
    ensures
        r == match configured {
            Some(n) => n as int,
            None => cpus * 5 / 4,
        },
{
    match configured {
        Some(n) => n,
        None => cpus * 5 / 4,
    }
}

/// The number of request threads: the configured number, or, with none
/// configured, five for every four CPUs that the process can use, which is
/// at least one (a count of CPUs too large for that product gives
/// `usize::MAX`).
pub fn thread_count(configured: Option<usize>) -> (r: usize)
    ensures
        configured matches Some(n) ==> r == n,
        configured is None ==> r >= 1,
        configured is None ==> exists|cpus: usize| cpus >= 1 && r == default_threads(cpus as int),
{
    match configured {
        Some(n) => n,
        None => {
            let cpus = cpu_count();
            if cpus <= usize::MAX / 5 {
                proof {
                    assert(cpus * 5 <= usize::MAX) by (nonlinear_arith)
                        requires
                            cpus <= usize::MAX / 5,
                    ;
                }
                let r = threads_for(None, cpus);
                assert(r == default_threads(cpus as int));
                r
            } else {
                proof {
                    assert(cpus * 5 > usize::MAX) by (nonlinear_arith)
                        requires
                            cpus > usize::MAX / 5,
                    ;
                }
                assert(usize::MAX == default_threads(cpus as int));
                usize::MAX
            }
        },
    }
}

/// The number of threads for a number of CPUs when none is configured: five
/// for every four CPUs, or `usize::MAX` when that product does not fit.
pub open spec fn default_threads(cpus: int) -> int {
    if cpus * 5 <= usize::MAX {
        cpus * 5 / 4
    } else {
        usize::MAX as int
    }
}

/// Whether a response closes its connection: with keep-alive, when the
/// threads in use and the threads to keep free are more than there are
/// threads; without keep-alive, never.
pub fn must_close(keep_alive_free_threads: Option<usize>, in_use: usize, threads: usize) -> (r: bool)
    ensures
        r == match keep_alive_free_threads {
            Some(free) => in_use + free > threads,
            None => false,
        },
{
    match keep_alive_free_threads {
        Some(free) => in_use > threads || free > threads - in_use,
        None => false,
    }
}

/// The status of a response that no handler took: 404 Not Found in place of
/// 200 OK, any other status as it is.
pub fn unhandled_status(status: u16) -> (r: u16)
    ensures
        r == if status == 200 {
            404
        } else {
            status
        },
{
    if status == 200 {
        404
    } else {
        status
    }
}

/// What came of offering a request to one matching route.
#[derive(Clone, Copy, PartialEq, Eq, Debug)]
pub enum RouteOutcome {
    /// The route had a handler for the method, and it took the request.
    Handled,
    /// The route had a handler for the method, and it gave the request back.
    Declined,
    /// The route had no handler for the method.
    NoHandler,
}

/// What to do next with a request and the routes that match its path.
#[derive(Clone, Copy, PartialEq, Eq, Debug)]
pub enum RouteNext {
    /// Offer the request to the matching route at this index.
    Try(usize),
    /// Stop: whether a handler took the request.
    Done(bool),
}

/// Start offering a request to the `candidates` routes that match its path:
/// with none, the response is 404 Not Found and nobody took the request;
/// else the first route is tried.
pub fn route_start(candidates: usize) -> (r: (Option<u16>, RouteNext))
    ensures
        r == if candidates == 0 {
            (Some(404u16), RouteNext::Done(false))
        } else {
            (None::<u16>, RouteNext::Try(0))
        },
{
    if candidates == 0 {
        (Some(404), RouteNext::Done(false))
    } else {
        (None, RouteNext::Try(0))
    }
}

/// Go on after the route at index `i` of `candidates` was offered the
/// request: a handler that took it ends the search; a route without a
/// handler for the method sets 405 Method Not Allowed; in both other cases
/// the next route is tried, and after the last one nobody took the request.
pub fn route_step(candidates: usize, i: usize, outcome: RouteOutcome) -> (r: (Option<u16>, RouteNext))
    requires
        i < candidates,
    ensures
        r.0 == if outcome == RouteOutcome::NoHandler {
            Some(405u16)
        } else {
            None::<u16>
        },
        r.1 == if outcome == RouteOutcome::Handled {
            RouteNext::Done(true)
        } else if i + 1 < candidates {
            RouteNext::Try((i + 1) as usize)
        } else {
            RouteNext::Done(false)
        },
{
    let status = match outcome {
        RouteOutcome::NoHandler => Some(405),
        _ => None,
    };
    let next = match outcome {
        RouteOutcome::Handled => RouteNext::Done(true),
        _ => if i + 1 < candidates {
            RouteNext::Try(i + 1)
        } else {
            RouteNext::Done(false)
        },
    };
    (status, next)
}

} // verus!
