use vstd::prelude::*;
use vstd::string::*;
use vstd::utf8::*;

verus! {

#[verifier::external_type_specification]
#[verifier::external_body]
pub struct ExUtf8Error(std::str::Utf8Error);

/// `std::str::from_utf8`: succeeds exactly when the bytes are valid UTF-8,
/// and the string it returns is encoded by exactly those bytes.
#[verifier::external_body]
pub(crate) fn str_from_utf8(bytes: &[u8]) -> (r: Result<&str, std::str::Utf8Error>)
    ensures
        r is Ok <==> valid_utf8(bytes@),
        r matches Ok(s) ==> s.spec_bytes() == bytes@,
{
    std::str::from_utf8(bytes)
}

/// What `String::from_utf8_lossy` makes of the bytes: their text, with each
/// invalid sequence replaced by U+FFFD.
pub uninterp spec fn utf8_lossy(bytes: Seq<u8>) -> Seq<char>;

/// The text of bytes: their decoding when they are valid UTF-8, else their
/// lossy conversion.
pub open spec fn lossy_text(bytes: Seq<u8>) -> Seq<char> {
    if valid_utf8(bytes) {
        decode_utf8(bytes)
    } else {
        utf8_lossy(bytes)
    }
}

/// `String::from_utf8_lossy`: its text is `utf8_lossy` of the bytes, and
/// for valid UTF-8 input it decodes the input exactly.
#[verifier::external_body]
pub(crate) fn string_from_utf8_lossy(bytes: &[u8]) -> (r: String)
    ensures
        r@ == utf8_lossy(bytes@),
        valid_utf8(bytes@) ==> encode_utf8(r@) == bytes@,
{
    String::from_utf8_lossy(bytes).into_owned()
}

/// The UTF-8 encoding of a concatenation is the concatenation of the encodings.
pub proof fn lemma_encode_utf8_concat(a: Seq<char>, b: Seq<char>)
    ensures
        encode_utf8(a + b) == encode_utf8(a) + encode_utf8(b),
    decreases a.len(),
{
    if a.len() == 0 {
        assert(a + b =~= b);
        assert(encode_utf8(a) =~= Seq::<u8>::empty());
        assert(encode_utf8(a) + encode_utf8(b) =~= encode_utf8(b));
    } else {
        lemma_encode_utf8_concat(a.drop_first(), b);
        assert((a + b).drop_first() =~= a.drop_first() + b);
        assert((a + b)[0] == a[0]);
        assert(encode_utf8(a + b) =~= encode_scalar(a[0] as u32) + encode_utf8(a.drop_first() + b));
        assert(encode_utf8(a) =~= encode_scalar(a[0] as u32) + encode_utf8(a.drop_first()));
    }
}

/// Appending valid UTF-8 to invalid UTF-8 never gives valid UTF-8.
pub proof fn lemma_invalid_then_valid(a: Seq<u8>, b: Seq<u8>)
    requires
        !valid_utf8(a),
        valid_utf8(b),
    ensures
        !valid_utf8(a + b),
{
    if b.len() == 0 {
        assert(a + b =~= a);
    } else if valid_utf8(a + b) {
        let ab = a + b;
        let i = a.len() as int;
        assert(ab[i] == b[0]);
        assert(valid_first_scalar(b));
        is_char_boundary_iff_is_leading_byte(ab, i);
        assert(is_char_boundary(ab, i));
        valid_utf8_split(ab, i);
        assert(ab.subrange(0, i) =~= a);
    }
}

/// String data that may or may not be UTF-8 encoded.
///
/// The data is always available as bytes. A value built by this library is
/// `Utf8` exactly when its bytes are valid UTF-8.
#[derive(Debug)]
pub enum MaybeUtf8 {
    /// A UTF-8 encoded string.
    Utf8(String),
    /// A non-UTF-8 string.
    NotUtf8(Vec<u8>),
}

/// An owned string that may be UTF-8 encoded.
pub type MaybeUtf8Owned = MaybeUtf8;

impl View for MaybeUtf8 {
    type V = Seq<u8>;

    /// The bytes of the string.
    open spec fn view(&self) -> Seq<u8> {
        match self {
            MaybeUtf8::Utf8(s) => encode_utf8(s@),
            MaybeUtf8::NotUtf8(v) => v@,
        }
    }
}

impl MaybeUtf8 {
    /// The variant agrees with the bytes: only invalid UTF-8 is `NotUtf8`.
    pub open spec fn inv(&self) -> bool {
        self matches MaybeUtf8::NotUtf8(v) ==> !valid_utf8(v@)
    }

    /// Under the invariant, a string is `Utf8` exactly when its bytes are
    /// valid UTF-8.
    pub proof fn lemma_utf8_variant(&self)
        requires
            self.inv(),
        ensures
            (*self is Utf8) <==> valid_utf8(self@),
    {
        if let MaybeUtf8::Utf8(s) = self {
            encode_utf8_valid_utf8(s@);
        }
    }

    /// Create an empty UTF-8 string.
    pub fn new() -> (r: MaybeUtf8)
        ensures
            r@ == Seq::<u8>::empty(),
            r is Utf8,
            r.inv(),
    {
        let s = String::new();
        proof {
            assert(encode_utf8(s@) =~= Seq::<u8>::empty());
        }
        MaybeUtf8::Utf8(s)
    }

    /// Create a UTF-8 string from a string slice.
    pub fn from_str(string: &str) -> (r: MaybeUtf8)
        ensures
            r@ == string.spec_bytes(),
            r is Utf8,
            r.inv(),
    {
        MaybeUtf8::Utf8(string.to_owned())
    }

    /// Create a UTF-8 string from an owned string.
    pub fn from_string(string: String) -> (r: MaybeUtf8)
        ensures
            r@ == encode_utf8(string@),
            r is Utf8,
            r.inv(),
    {
        MaybeUtf8::Utf8(string)
    }

    /// Create a string from bytes. It is `Utf8` exactly when the bytes are
    /// valid UTF-8.
    pub fn from_bytes(bytes: Vec<u8>) -> (r: MaybeUtf8)
        ensures
            r@ == bytes@,
            r is Utf8 <==> valid_utf8(bytes@),
            r.inv(),
    {
        let checked = str_from_utf8(bytes.as_slice());
        match checked {
            Ok(s) => MaybeUtf8::Utf8(s.to_owned()),
            Err(_) => MaybeUtf8::NotUtf8(bytes),
        }
    }

    /// Create a string from a byte slice.
    pub fn from_slice(bytes: &[u8]) -> (r: MaybeUtf8)
        ensures
            r@ == bytes@,
            r is Utf8 <==> valid_utf8(bytes@),
            r.inv(),
    {
        let checked = str_from_utf8(bytes);
        match checked {
            Ok(s) => MaybeUtf8::Utf8(s.to_owned()),
            Err(_) => {
                let mut v: Vec<u8> = Vec::new();
                v.extend_from_slice(bytes);
                MaybeUtf8::NotUtf8(v)
            },
        }
    }

    /// Borrow the string if it's encoded as UTF-8.
    pub fn as_utf8(&self) -> (r: Option<&str>)
        ensures
            r is Some <==> self is Utf8,
            r matches Some(s) ==> s.spec_bytes() == self@,
            self.inv() ==> (r is Some <==> valid_utf8(self@)),
    {
        proof {
            if self.inv() {
                self.lemma_utf8_variant();
            }
        }
        match self {
            MaybeUtf8::Utf8(s) => Some(s.as_str()),
            MaybeUtf8::NotUtf8(_) => None,
        }
    }

    /// Borrow the string if it's encoded as UTF-8, or make a lossy conversion.
    /// A UTF-8 string is returned unchanged.
    pub fn as_utf8_lossy(&self) -> (r: String)
        ensures
            r@ == lossy_text(self@),
            self is Utf8 ==> encode_utf8(r@) == self@,
            valid_utf8(self@) ==> encode_utf8(r@) == self@,
    {
        match self {
            MaybeUtf8::Utf8(s) => {
                proof {
                    encode_utf8_valid_utf8(s@);
                    encode_utf8_decode_utf8(s@);
                }
                s.clone()
            },
            MaybeUtf8::NotUtf8(v) => {
                let r = string_from_utf8_lossy(v.as_slice());
                proof {
                    if valid_utf8(v@) {
                        encode_utf8_decode_utf8(r@);
                    }
                }
                r
            },
        }
    }

    /// Borrow the string as a slice of bytes.
    pub fn as_bytes(&self) -> (r: &[u8])
        ensures
            r@ == self@,
    {
        match self {
            MaybeUtf8::Utf8(s) => s.as_str().as_bytes(),
            MaybeUtf8::NotUtf8(v) => v.as_slice(),
        }
    }

    /// Check if the string is valid UTF-8.
    pub fn is_utf8(&self) -> (r: bool)
        ensures
            r <==> self is Utf8,
            self.inv() ==> (r <==> valid_utf8(self@)),
    {
        match self {
            MaybeUtf8::Utf8(s) => {
                proof {
                    encode_utf8_valid_utf8(s@);
                }
                true
            },
            MaybeUtf8::NotUtf8(_) => false,
        }
    }

    /// Copy the string.
    pub fn duplicate(&self) -> (r: MaybeUtf8)
        ensures
            r@ == self@,
            (r is Utf8) == (self is Utf8),
            self.inv() ==> r.inv(),
    {
        match self {
            MaybeUtf8::Utf8(s) => MaybeUtf8::Utf8(s.clone()),
            MaybeUtf8::NotUtf8(v) => MaybeUtf8::NotUtf8(v.clone()),
        }
    }

    /// Extend the string with a string slice. A non-UTF-8 string stays
    /// non-UTF-8.
    pub fn push_str(&mut self, string: &str)
        ensures
            final(self)@ == old(self)@ + string.spec_bytes(),
            ((*final(self)) is Utf8) == ((*old(self)) is Utf8),
            (*old(self)).inv() ==> (*final(self)).inv(),
    {
        match self {
            MaybeUtf8::Utf8(s) => {
                let ghost before = s@;
                s.append(string);
                proof {
                    lemma_encode_utf8_concat(before, string@);
                }
            },
            MaybeUtf8::NotUtf8(v) => {
                let ghost before = v@;
                v.extend_from_slice(string.as_bytes());
                proof {
                    encode_utf8_valid_utf8(string@);
                    if !valid_utf8(before) {
                        lemma_invalid_then_valid(before, string.spec_bytes());
                    }
                }
            },
        }
    }

    /// Push a number of bytes to the string. The string's UTF-8
    /// compatibility is reevaluated when the bytes themselves are not UTF-8.
    pub fn push_bytes(&mut self, bytes: &[u8])
        ensures
            final(self)@ == old(self)@ + bytes@,
            (*old(self)).inv() ==> (*final(self)).inv(),
            (*old(self)).inv() ==> ((*final(self) is Utf8) <==> valid_utf8(final(self)@)),
    {
        match str_from_utf8(bytes) {
            Ok(string) => self.push_str(string),
            Err(_) => {
                let mut all: Vec<u8> = Vec::new();
                all.extend_from_slice(self.as_bytes());
                all.extend_from_slice(bytes);
                *self = MaybeUtf8::from_bytes(all);
            },
        }
        proof {
            if self.inv() {
                self.lemma_utf8_variant();
            }
        }
    }

    /// Push a single byte to the end of the string. The string's UTF-8
    /// compatibility is reevaluated.
    pub fn push_byte(&mut self, byte: u8)
        ensures
            final(self)@ == old(self)@.push(byte),
            (*old(self)).inv() ==> (*final(self)).inv(),
            (*old(self)).inv() ==> ((*final(self) is Utf8) <==> valid_utf8(final(self)@)),
    {
        let one = [byte];
        self.push_bytes(&one);
        proof {
            assert(one@ =~= seq![byte]);
        }
    }
}

/// A byte buffer for more efficient `MaybeUtf8` manipulation. The bytes
/// pushed to it are added to the string it was borrowed from, whose UTF-8
/// compatibility is reevaluated as they come.
pub struct Buffer<'a> {
    source: &'a mut MaybeUtf8,
}

impl<'a> Buffer<'a> {
    /// The string being written to.
    pub closed spec fn source(self) -> &'a mut MaybeUtf8 {
        self.source
    }
}

impl MaybeUtf8 {
    /// Borrow this string as a byte buffer. The buffer starts with the
    /// string's bytes, and the string's UTF-8 compatibility is reevaluated:
    /// it is `Utf8` exactly when its bytes are valid UTF-8, also after what
    /// the buffer adds. What the string is after the borrow is what the
    /// buffer made of it.
    pub fn as_buffer(&mut self) -> (r: Buffer<'_>)
        ensures
            (*r.source())@ == old(self)@,
            (*r.source()).inv(),
            *final(self) == *final(r.source()),
    {
        if let MaybeUtf8::NotUtf8(_) = self {
            let mut all: Vec<u8> = Vec::new();
            all.extend_from_slice(self.as_bytes());
            *self = MaybeUtf8::from_bytes(all);
        }
        Buffer { source: self }
    }
}

impl<'a> Buffer<'a> {
    /// Push a number of bytes to the buffer.
    pub fn push_bytes(&mut self, bytes: &[u8])
        ensures
            (*final(self).source())@ == (*old(self).source())@ + bytes@,
            *final(final(self).source()) == *final(old(self).source()),
            (*old(self).source()).inv() ==> (*final(self).source()).inv(),
            (*old(self).source()).inv() ==> ((*final(self).source() is Utf8) <==> valid_utf8(
                (*final(self).source())@,
            )),
    {
        self.source.push_bytes(bytes);
    }

    /// Push a single `char` to the end of the buffer.
    pub fn push_char(&mut self, c: char)
        ensures
            (*final(self).source())@ == (*old(self).source())@ + encode_utf8(seq![c]),
            *final(final(self).source()) == *final(old(self).source()),
            (*old(self).source()).inv() ==> (*final(self).source()).inv(),
            (*old(self).source()).inv() ==> ((*final(self).source() is Utf8) <==> valid_utf8(
                (*final(self).source())@,
            )),
    {
        self.source.push_char(c);
    }
}

/// A borrowed string that may be UTF-8 encoded.
#[derive(Debug)]
pub enum MaybeUtf8Slice<'a> {
    /// A UTF-8 encoded string.
    Utf8(&'a str),
    /// A non-UTF-8 string.
    NotUtf8(&'a [u8]),
}

impl<'a> View for MaybeUtf8Slice<'a> {
    type V = Seq<u8>;

    /// The bytes of the string.
    open spec fn view(&self) -> Seq<u8> {
        match self {
            MaybeUtf8Slice::Utf8(s) => s.spec_bytes(),
            MaybeUtf8Slice::NotUtf8(v) => v@,
        }
    }
}

impl<'a> MaybeUtf8Slice<'a> {
    /// Borrow the string as a slice of bytes.
    pub fn as_bytes(&self) -> (r: &'a [u8])
        ensures
            r@ == self@,
    {
        match self {
            MaybeUtf8Slice::Utf8(s) => s.as_bytes(),
            MaybeUtf8Slice::NotUtf8(v) => v,
        }
    }

    /// Borrow the string if it's encoded as UTF-8.
    pub fn as_utf8(&self) -> (r: Option<&'a str>)
        ensures
            r is Some <==> self is Utf8,
            r matches Some(s) ==> s.spec_bytes() == self@,
    {
        match self {
            MaybeUtf8Slice::Utf8(s) => Some(*s),
            MaybeUtf8Slice::NotUtf8(_) => None,
        }
    }

    /// Check if the string is valid UTF-8.
    pub fn is_utf8(&self) -> (r: bool)
        ensures
            r <==> self is Utf8,
    {
        match self {
            MaybeUtf8Slice::Utf8(_) => true,
            MaybeUtf8Slice::NotUtf8(_) => false,
        }
    }
}

/// The UTF-8 encoding of a single character.
fn encode_char(c: char) -> (r: Vec<u8>)
    ensures
        r@ == encode_utf8(seq![c]),
{
    let u = c as u32;
    proof {
        char_is_scalar(c);
        assert(seq![c][0] as u32 == u);
        assert(seq![c].drop_first() =~= Seq::<char>::empty());
        assert(encode_utf8(seq![c]) =~= encode_scalar(u) + encode_utf8(Seq::<char>::empty()));
        assert(encode_utf8(Seq::<char>::empty()) =~= Seq::<u8>::empty());
    }
    let mut r: Vec<u8> = Vec::new();
    if u <= 0x7F {
        r.push((u & 0x7F) as u8);
    } else if u <= 0x7FF {
        r.push(0xC0 | ((u >> 6) & 0x1F) as u8);
        r.push(0x80 | (u & 0x3F) as u8);
    } else if u <= 0xFFFF {
        r.push(0xE0 | ((u >> 12) & 0x0F) as u8);
        r.push(0x80 | ((u >> 6) & 0x3F) as u8);
        r.push(0x80 | (u & 0x3F) as u8);
    } else {
        r.push(0xF0 | ((u >> 18) & 0x7) as u8);
        r.push(0x80 | ((u >> 12) & 0x3F) as u8);
        r.push(0x80 | ((u >> 6) & 0x3F) as u8);
        r.push(0x80 | (u & 0x3F) as u8);
    }
    proof {
        assert(r@ =~= encode_scalar(u));
    }
    r
}

impl MaybeUtf8 {
    /// Produce a borrowed slice of this string.
    pub fn as_slice(&self) -> (r: MaybeUtf8Slice<'_>)
        ensures
            r@ == self@,
            (r is Utf8) == (self is Utf8),
    {
        match self {
            MaybeUtf8::Utf8(s) => MaybeUtf8Slice::Utf8(s.as_str()),
            MaybeUtf8::NotUtf8(v) => MaybeUtf8Slice::NotUtf8(v.as_slice()),
        }
    }

    /// Push a single `char` to the end of the string.
    pub fn push_char(&mut self, c: char)
        ensures
            final(self)@ == old(self)@ + encode_utf8(seq![c]),
            (*old(self)).inv() ==> (*final(self)).inv(),
            (*old(self)).inv() ==> ((*final(self) is Utf8) <==> valid_utf8(final(self)@)),
    {
        let bytes = encode_char(c);
        self.push_bytes(bytes.as_slice());
    }
}

} // verus!
