//! Request data: strings that may or may not be UTF-8, parameters and paths.

pub mod hypermedia;
mod maybe_utf8;
mod parameters;
mod uri_path;

pub use self::maybe_utf8::{MaybeUtf8, MaybeUtf8Owned, MaybeUtf8Slice, Buffer};
pub(crate) use self::maybe_utf8::str_from_utf8;
pub use self::parameters::{Entry, Parameters};
pub use self::uri_path::{UriPath, UriPathView};
