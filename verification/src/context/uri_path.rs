//! The path of a request URI.

use vstd::prelude::*;
use vstd::string::*;
use vstd::utf8::*;

use super::maybe_utf8::{MaybeUtf8, MaybeUtf8Slice, lossy_text};

verus! {

/// A URI path that can be a path or an asterisk (`*`).
///
/// The path may be invalid UTF-8, so it is stored as percent-decoded bytes
/// that can be read as a string when they are valid UTF-8.
#[derive(Debug)]
pub enum UriPath {
    /// A path URI.
    Path(MaybeUtf8),
    /// An asterisk (`*`) URI.
    Asterisk,
}

/// The abstract value of a URI path: the bytes of a path, or an asterisk.
pub ghost enum UriPathView {
    Path(Seq<u8>),
    Asterisk,
}

impl View for UriPath {
    type V = UriPathView;

    open spec fn view(&self) -> UriPathView {
        match self {
            UriPath::Path(p) => UriPathView::Path(p@),
            UriPath::Asterisk => UriPathView::Asterisk,
        }
    }
}

impl UriPath {
    /// A path's string agrees with its bytes: only invalid UTF-8 is
    /// `NotUtf8`.
    pub open spec fn inv(&self) -> bool {
        self matches UriPath::Path(p) ==> p.inv()
    }

    /// Borrow the URI as a raw path.
    pub fn as_path(&self) -> (r: Option<MaybeUtf8Slice<'_>>)
        ensures
            r is Some <==> self is Path,
            r matches Some(s) ==> self@ == UriPathView::Path(s@),
    {
        match self {
            UriPath::Path(path) => Some(path.as_slice()),
            UriPath::Asterisk => None,
        }
    }

    /// Borrow the URI as a UTF-8 path, if it is a path encoded as UTF-8.
    pub fn as_utf8_path(&self) -> (r: Option<&str>)
        ensures
            r is Some <==> (self matches UriPath::Path(p) && p is Utf8),
            r matches Some(s) ==> self@ == UriPathView::Path(s.spec_bytes()),
            self.inv() ==> (r is Some <==> (self@ matches UriPathView::Path(b) && valid_utf8(b))),
    {
        match self {
            UriPath::Path(path) => path.as_utf8(),
            UriPath::Asterisk => None,
        }
    }

    /// The URI as a UTF-8 path, if it is a path: valid UTF-8 is kept as it
    /// is, and anything else is converted lossily.
    pub fn as_utf8_path_lossy(&self) -> (r: Option<String>)
        ensures
            r is Some <==> self is Path,
            r matches Some(s) ==> (self matches UriPath::Path(p) ==> s@ == lossy_text(p@)),
    {
        match self {
            UriPath::Path(path) => Some(path.as_utf8_lossy()),
            UriPath::Asterisk => None,
        }
    }

    /// Check if the URI is a path.
    pub fn is_path(&self) -> (r: bool)
        ensures
            r <==> self is Path,
    {
        match self {
            UriPath::Path(_) => true,
            UriPath::Asterisk => false,
        }
    }

    /// Check if the URI is an asterisk (`*`).
    pub fn is_asterisk(&self) -> (r: bool)
        ensures
            r <==> self is Asterisk,
    {
        match self {
            UriPath::Path(_) => false,
            UriPath::Asterisk => true,
        }
    }

    /// The URI as text: the path, converted lossily if it is not UTF-8, or
    /// `*`.
    pub fn to_string(&self) -> (r: String)
        ensures
            self matches UriPath::Path(p) ==> r@ == lossy_text(p@),
            self is Asterisk ==> r@ == seq!['*'],
    {
        match self {
            UriPath::Path(path) => path.as_utf8_lossy(),
            UriPath::Asterisk => {
                let s = "*";
                proof {
                    reveal_strlit("*");
                }
                s.to_owned()
            },
        }
    }
}

} // verus!
