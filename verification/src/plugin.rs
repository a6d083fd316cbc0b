//! The results of response plugins.

use vstd::prelude::*;
use vstd::std_specs::convert::IntoSpec;

use crate::response::Data;

verus! {

/// The result from a response plugin.
pub enum ResponseAction<'a> {
    /// Continue to the next plugin and maybe write data.
    Write(Option<Data<'a>>),
    /// Do not continue to the next plugin.
    DoNothing,
    /// Abort with an error.
    Error(String),
}

impl<'a> ResponseAction<'a> {
    /// Continue to the next plugin, with the data converted to `Data` if
    /// there is any.
    pub fn write<T: Into<Data<'a>>>(data: Option<T>) -> (r: ResponseAction<'a>)
        ensures
            match data {
                None => r matches ResponseAction::Write(None),
                Some(d) => r matches ResponseAction::Write(Some(x)) && (T::obeys_into_spec() ==> x == d.into_spec()),
            },
    {
        match data {
            Some(d) => ResponseAction::Write(Some(d.into())),
            None => ResponseAction::Write(None),
        }
    }

    /// Do not continue to the next plugin.
    pub fn do_nothing() -> (r: ResponseAction<'static>)
        ensures
            r is DoNothing,
    {
        ResponseAction::DoNothing
    }

    /// Abort with an error message.
    pub fn error(message: String) -> (r: ResponseAction<'static>)
        ensures
            r matches ResponseAction::Error(m) && m == message,
    {
        ResponseAction::Error(message)
    }
}

} // verus!
