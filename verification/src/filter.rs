//! The results of response filters.

use vstd::prelude::*;
use vstd::std_specs::convert::IntoSpec;

use crate::response::Data;

verus! {

/// The result from a response filter.
pub enum ResponseAction<'a> {
    /// Continue to the next filter and maybe write data.
    Next(Option<Data<'a>>),
    /// Do not continue to the next filter.
    SilentAbort,
    /// Abort with an error.
    Abort(String),
}

impl<'a> ResponseAction<'a> {
    /// Continue to the next filter, with the data converted to `Data` if
    /// there is any.
    pub fn next<T: Into<Data<'a>>>(data: Option<T>) -> (r: ResponseAction<'a>)
        ensures
            match data {
                None => r matches ResponseAction::Next(None),
                Some(d) => r matches ResponseAction::Next(Some(x)) && (T::obeys_into_spec() ==> x == d.into_spec()),
            },
    {
        match data {
            Some(d) => ResponseAction::Next(Some(d.into())),
            None => ResponseAction::Next(None),
        }
    }

    /// Stop without an error.
    pub fn silent_abort() -> (r: ResponseAction<'a>)
        ensures
            r is SilentAbort,
    {
        ResponseAction::SilentAbort
    }

    /// Abort with an error message.
    pub fn abort(message: String) -> (r: ResponseAction<'a>)
        ensures
            r matches ResponseAction::Abort(m) && m == message,
    {
        ResponseAction::Abort(message)
    }
}

/// The result from a context filter.
#[derive(Clone, Copy, PartialEq, Eq, Debug)]
pub enum ContextAction {
    /// Continue to the next filter in the stack.
    Next,
    /// Abort and send this HTTP status.
    Abort(u16),
}

impl ContextAction {
    /// Continue to the next filter.
    pub fn next() -> (r: ContextAction)
        ensures
            r is Next,
    {
        ContextAction::Next
    }

    /// Abort with an HTTP status.
    pub fn abort(status: u16) -> (r: ContextAction)
        ensures
            r == ContextAction::Abort(status),
    {
        ContextAction::Abort(status)
    }
}

} // verus!
