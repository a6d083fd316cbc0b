//! Response data.

use std::borrow::Cow;

use vstd::prelude::*;
use vstd::string::*;
use vstd::utf8::*;

use crate::context::str_from_utf8;

verus! {

#[verifier::external_type_specification]
#[verifier::external_body]
pub struct ExFromUtf8Error(std::string::FromUtf8Error);

/// `String::from_utf8`: succeeds exactly when the bytes are valid UTF-8, and
/// the string it returns is encoded by exactly those bytes.
#[verifier::external_body]
fn string_from_utf8(bytes: Vec<u8>) -> (r: Result<String, std::string::FromUtf8Error>)
    ensures
        r is Ok <==> valid_utf8(bytes@),
        r matches Ok(s) ==> encode_utf8(s@) == bytes@,
{
    String::from_utf8(bytes)
}

/// A unified representation of response data.
pub enum Data<'a> {
    /// Data in byte form.
    Bytes(Cow<'a, [u8]>),
    /// Data in string form.
    String(Cow<'a, str>),
}

impl<'a> View for Data<'a> {
    type V = Seq<u8>;

    /// The bytes of the content.
    open spec fn view(&self) -> Seq<u8> {
        match self {
            Data::Bytes(b) => b@,
            Data::String(s) => encode_utf8(s@),
        }
    }
}

impl<'a> Data<'a> {
    /// Borrow the content as a byte slice.
    pub fn as_bytes(&self) -> (r: &[u8])
        ensures
            r@ == self@,
    {
        match self {
            Data::Bytes(Cow::Borrowed(b)) => b,
            Data::Bytes(Cow::Owned(v)) => v.as_slice(),
            Data::String(Cow::Borrowed(s)) => s.as_bytes(),
            Data::String(Cow::Owned(s)) => s.as_str().as_bytes(),
        }
    }

    /// Turn the content into a byte vector. Slices are copied.
    pub fn into_bytes(self) -> (r: Vec<u8>)
        ensures
            r@ == self@,
    {
        match self {
            Data::Bytes(Cow::Borrowed(b)) => vstd::slice::slice_to_vec(b),
            Data::Bytes(Cow::Owned(v)) => v,
            Data::String(Cow::Borrowed(s)) => vstd::slice::slice_to_vec(s.as_bytes()),
            Data::String(Cow::Owned(s)) => vstd::slice::slice_to_vec(s.as_str().as_bytes()),
        }
    }

    /// Borrow the content as a UTF-8 string slice, if it is valid UTF-8.
    pub fn as_string(&self) -> (r: Result<&str, std::str::Utf8Error>)
        ensures
            r is Ok <==> valid_utf8(self@),
            r matches Ok(s) ==> s.spec_bytes() == self@,
    {
        match self {
            Data::Bytes(Cow::Borrowed(b)) => str_from_utf8(b),
            Data::Bytes(Cow::Owned(v)) => str_from_utf8(v.as_slice()),
            Data::String(Cow::Borrowed(s)) => {
                proof {
                    encode_utf8_valid_utf8(s@);
                }
                Ok(*s)
            },
            Data::String(Cow::Owned(s)) => {
                proof {
                    encode_utf8_valid_utf8(s@);
                }
                Ok(s.as_str())
            },
        }
    }

    /// Turn the content into a UTF-8 string, if it is valid UTF-8. Slices
    /// are copied.
    pub fn into_string(self) -> (r: Result<String, std::string::FromUtf8Error>)
        ensures
            r is Ok <==> valid_utf8(self@),
            r matches Ok(s) ==> encode_utf8(s@) == self@,
    {
        match self {
            Data::Bytes(Cow::Borrowed(b)) => string_from_utf8(vstd::slice::slice_to_vec(b)),
            Data::Bytes(Cow::Owned(v)) => string_from_utf8(v),
            Data::String(Cow::Borrowed(s)) => {
                proof {
                    encode_utf8_valid_utf8(s@);
                }
                Ok(s.to_owned())
            },
            Data::String(Cow::Owned(s)) => {
                proof {
                    encode_utf8_valid_utf8(s@);
                }
                Ok(s)
            },
        }
    }
}

impl<'a> From<Vec<u8>> for Data<'a> {
    fn from(data: Vec<u8>) -> (r: Data<'a>) {
        Data::Bytes(Cow::Owned(data))
    }
}

impl<'a> vstd::std_specs::convert::FromSpecImpl<Vec<u8>> for Data<'a> {
    open spec fn obeys_from_spec() -> bool {
        true
    }

    open spec fn from_spec(data: Vec<u8>) -> Data<'a> {
        Data::Bytes(Cow::Owned(data))
    }
}

impl<'a> From<&'a [u8]> for Data<'a> {
    fn from(data: &'a [u8]) -> (r: Data<'a>) {
        Data::Bytes(Cow::Borrowed(data))
    }
}

impl<'a> vstd::std_specs::convert::FromSpecImpl<&'a [u8]> for Data<'a> {
    open spec fn obeys_from_spec() -> bool {
        true
    }

    open spec fn from_spec(data: &'a [u8]) -> Data<'a> {
        Data::Bytes(Cow::Borrowed(data))
    }
}

impl<'a> From<String> for Data<'a> {
    fn from(data: String) -> (r: Data<'a>) {
        Data::String(Cow::Owned(data))
    }
}

impl<'a> vstd::std_specs::convert::FromSpecImpl<String> for Data<'a> {
    open spec fn obeys_from_spec() -> bool {
        true
    }

    open spec fn from_spec(data: String) -> Data<'a> {
        Data::String(Cow::Owned(data))
    }
}

impl<'a> From<&'a str> for Data<'a> {
    fn from(data: &'a str) -> (r: Data<'a>) {
        Data::String(Cow::Borrowed(data))
    }
}

impl<'a> vstd::std_specs::convert::FromSpecImpl<&'a str> for Data<'a> {
    open spec fn obeys_from_spec() -> bool {
        true
    }

    open spec fn from_spec(data: &'a str) -> Data<'a> {
        Data::String(Cow::Borrowed(data))
    }
}

} // verus!
