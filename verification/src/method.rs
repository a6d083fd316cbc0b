//! HTTP request methods.

use vstd::prelude::*;
use vstd::string::*;

verus! {

/// An HTTP request method.
#[derive(Debug)]
pub enum Method {
    /// OPTIONS
    Options,
    /// GET
    Get,
    /// POST
    Post,
    /// PUT
    Put,
    /// DELETE
    Delete,
    /// HEAD
    Head,
    /// TRACE
    Trace,
    /// CONNECT
    Connect,
    /// PATCH
    Patch,
    /// A method that is not among the standard ones.
    Extension(String),
}

/// The abstract value of a method: an extension method is known by its name.
pub ghost enum MethodView {
    Options,
    Get,
    Post,
    Put,
    Delete,
    Head,
    Trace,
    Connect,
    Patch,
    Extension(Seq<char>),
}

impl View for Method {
    type V = MethodView;

    open spec fn view(&self) -> MethodView {
        match self {
            Method::Options => MethodView::Options,
            Method::Get => MethodView::Get,
            Method::Post => MethodView::Post,
            Method::Put => MethodView::Put,
            Method::Delete => MethodView::Delete,
            Method::Head => MethodView::Head,
            Method::Trace => MethodView::Trace,
            Method::Connect => MethodView::Connect,
            Method::Patch => MethodView::Patch,
            Method::Extension(s) => MethodView::Extension(s@),
        }
    }
}

/// The name of a method, as it appears in a request.
pub open spec fn method_name(m: MethodView) -> Seq<char> {
    match m {
        MethodView::Options => seq!['O', 'P', 'T', 'I', 'O', 'N', 'S'],
        MethodView::Get => seq!['G', 'E', 'T'],
        MethodView::Post => seq!['P', 'O', 'S', 'T'],
        MethodView::Put => seq!['P', 'U', 'T'],
        MethodView::Delete => seq!['D', 'E', 'L', 'E', 'T', 'E'],
        MethodView::Head => seq!['H', 'E', 'A', 'D'],
        MethodView::Trace => seq!['T', 'R', 'A', 'C', 'E'],
        MethodView::Connect => seq!['C', 'O', 'N', 'N', 'E', 'C', 'T'],
        MethodView::Patch => seq!['P', 'A', 'T', 'C', 'H'],
        MethodView::Extension(name) => name,
    }
}

impl Method {
    /// Check if two methods are the same.
    pub fn same_as(&self, other: &Method) -> (r: bool)
        ensures
            r == (self@ == other@),
    {
        match (self, other) {
            (Method::Options, Method::Options) => true,
            (Method::Get, Method::Get) => true,
            (Method::Post, Method::Post) => true,
            (Method::Put, Method::Put) => true,
            (Method::Delete, Method::Delete) => true,
            (Method::Head, Method::Head) => true,
            (Method::Trace, Method::Trace) => true,
            (Method::Connect, Method::Connect) => true,
            (Method::Patch, Method::Patch) => true,
            (Method::Extension(a), Method::Extension(b)) => a.eq(b),
            _ => false,
        }
    }

    /// Copy the method.
    pub fn duplicate(&self) -> (r: Method)
        ensures
            r@ == self@,
    {
        match self {
            Method::Options => Method::Options,
            Method::Get => Method::Get,
            Method::Post => Method::Post,
            Method::Put => Method::Put,
            Method::Delete => Method::Delete,
            Method::Head => Method::Head,
            Method::Trace => Method::Trace,
            Method::Connect => Method::Connect,
            Method::Patch => Method::Patch,
            Method::Extension(s) => Method::Extension(s.clone()),
        }
    }
}

impl Method {
    /// The name of the method, as it appears in a request.
    pub fn as_str(&self) -> (r: &str)
        ensures
            r@ == method_name(self@),
    {
        match self {
            Method::Options => {
                proof {
                    reveal_strlit("OPTIONS");
                }
                "OPTIONS"
            },
            Method::Get => {
                proof {
                    reveal_strlit("GET");
                }
                "GET"
            },
            Method::Post => {
                proof {
                    reveal_strlit("POST");
                }
                "POST"
            },
            Method::Put => {
                proof {
                    reveal_strlit("PUT");
                }
                "PUT"
            },
            Method::Delete => {
                proof {
                    reveal_strlit("DELETE");
                }
                "DELETE"
            },
            Method::Head => {
                proof {
                    reveal_strlit("HEAD");
                }
                "HEAD"
            },
            Method::Trace => {
                proof {
                    reveal_strlit("TRACE");
                }
                "TRACE"
            },
            Method::Connect => {
                proof {
                    reveal_strlit("CONNECT");
                }
                "CONNECT"
            },
            Method::Patch => {
                proof {
                    reveal_strlit("PATCH");
                }
                "PATCH"
            },
            Method::Extension(name) => name.as_str(),
        }
    }
}

} // verus!
