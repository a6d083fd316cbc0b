//! Server settings.

use vstd::prelude::*;

verus! {

/// HTTP or HTTPS.
#[derive(Debug)]
pub enum Scheme {
    /// Standard HTTP.
    Http,
}

} // verus!
