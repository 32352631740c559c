//! Owning containers for secret bytes and characters, with a length-prefixed
//! binary form: eight little-endian bytes of length, then the content, as
//! bincode writes a byte vector or a string.
use crate::bytes::{le_bytes, lemma_le_bytes_injective, lemma_le_bytes_len, pow256};
use vstd::prelude::*;
use vstd::slice::slice_to_vec;
use vstd::utf8::encode_utf8;

verus! {

/// The binary form of `content`: its length in eight little-endian bytes,
/// then the content.
pub open spec fn frame(content: Seq<u8>) -> Seq<u8> {
    le_bytes(content.len(), 8) + content
}

/// `bytes` starts with the binary form of `content`.
pub open spec fn starts_with_frame(bytes: Seq<u8>, content: Seq<u8>) -> bool {
    &&& bytes.len() >= 8 + content.len()
    &&& bytes.take(8 + content.len() as int) == frame(content)
}

/// The binary form of any content is read back as that content.
pub proof fn lemma_frame_reads_back(content: Seq<u8>)
    ensures
        starts_with_frame(frame(content), content),
{
    lemma_le_bytes_len(content.len(), 8);
    assert(frame(content).take(8 + content.len() as int) =~= frame(content));
}

#[verifier::external_type_specification]
#[verifier::external_body]
pub struct ExBincodeErrorKind(bincode2::ErrorKind);

/// Relies on `bincode2::serialize` of a byte vector under the default
/// options: eight little-endian length bytes, then the bytes. Writing into
/// memory does not fail.
#[verifier::external_body]
fn encode_byte_vec(v: &Vec<u8>) -> (r: Result<Vec<u8>, Box<bincode2::ErrorKind>>)
    ensures
        r is Ok,
        r is Ok ==> r->Ok_0@ == frame(v@),
{
    bincode2::serialize(v)
}

/// Relies on `bincode2::deserialize` into a byte vector: it reads the
/// eight-byte length, then that many bytes, and ignores what follows; it
/// fails where the input is too short.
#[verifier::external_body]
fn decode_byte_vec(b: &[u8]) -> (r: Result<Vec<u8>, Box<bincode2::ErrorKind>>)
    ensures
        r is Ok ==> starts_with_frame(b@, r->Ok_0@),
        forall|t: Seq<u8>| #[trigger] starts_with_frame(b@, t) ==> r is Ok && r->Ok_0@ == t,
{
    bincode2::deserialize::<Vec<u8>>(b)
}

/// Relies on `bincode2::serialize` of a string: eight little-endian length
/// bytes, then its UTF-8 bytes. Writing into memory does not fail.
#[verifier::external_body]
fn encode_string(s: &String) -> (r: Result<Vec<u8>, Box<bincode2::ErrorKind>>)
    ensures
        r is Ok,
        r is Ok ==> r->Ok_0@ == frame(encode_utf8(s@)),
{
    bincode2::serialize(s)
}

/// Relies on `bincode2::deserialize` into a string: as for bytes, and it
/// fails where the bytes are not UTF-8.
#[verifier::external_body]
fn decode_string(b: &[u8]) -> (r: Result<String, Box<bincode2::ErrorKind>>)
    ensures
        r is Ok ==> starts_with_frame(b@, encode_utf8(r->Ok_0@)),
        forall|t: Seq<char>| #[trigger] starts_with_frame(b@, encode_utf8(t)) ==> r is Ok && r->Ok_0@ == t,
{
    bincode2::deserialize::<String>(b)
}

/// Relies on `String::push`: appends one character.
#[verifier::external_body]
fn string_push(s: &mut String, c: char)
    ensures
        final(s)@ == old(s)@.push(c),
{
    s.push(c)
}

/// Secret bytes.
pub struct SecBuffer {
    inner: Vec<u8>,
}

impl View for SecBuffer {
    type V = Seq<u8>;

    closed spec fn view(&self) -> Seq<u8> {
        self.inner@
    }
}

impl SecBuffer {
    pub fn new() -> (r: SecBuffer)
        ensures
            r@ == Seq::<u8>::empty(),
    {
        SecBuffer { inner: Vec::new() }
    }

    pub fn from_bytes(bytes: &[u8]) -> (r: SecBuffer)
        ensures
            r@ == bytes@,
    {
        SecBuffer { inner: slice_to_vec(bytes) }
    }

    /// The UTF-8 bytes of `text`.
    pub fn from_text(text: &str) -> (r: SecBuffer)
        ensures
            r@ == encode_utf8(text@),
    {
        SecBuffer { inner: slice_to_vec(text.as_bytes()) }
    }

    pub fn from_vec(inner: Vec<u8>) -> (r: SecBuffer)
        ensures
            r@ == inner@,
    {
        SecBuffer { inner }
    }

    pub fn as_ref(&self) -> (r: &[u8])
        ensures
            r@ == self@,
    {
        self.inner.as_slice()
    }

    pub fn len(&self) -> (r: usize)
        ensures
            r == self@.len(),
    {
        self.inner.len()
    }

    pub fn is_empty(&self) -> (r: bool)
        ensures
            r == (self@.len() == 0),
    {
        self.inner.len() == 0
    }

    /// Hands out the bytes, giving up the container.
    pub fn into_buffer(self) -> (r: Vec<u8>)
        ensures
            r@ == self@,
    {
        self.inner
    }

    /// The binary form of the buffer.
    pub fn serialize(&self) -> (r: Vec<u8>)
        ensures
            r@ == frame(self@),
    {
        match encode_byte_vec(&self.inner) {
            Ok(v) => v,
            Err(_) => Vec::new(),
        }
    }

    /// Reads a buffer back from its binary form; bytes after it are
    /// ignored. Fails where the input holds no complete binary form.
    pub fn deserialize(bytes: &[u8]) -> (r: Result<SecBuffer, crate::error::CryptError>)
        ensures
            r is Ok ==> starts_with_frame(bytes@, r->Ok_0@),
            forall|t: Seq<u8>| #[trigger] starts_with_frame(bytes@, t) ==> r is Ok && r->Ok_0@ == t,
            r is Err ==> r->Err_0 == crate::error::CryptError::Serialization,
    {
        match decode_byte_vec(bytes) {
            Ok(inner) => Ok(SecBuffer { inner }),
            Err(_) => Err(crate::error::CryptError::Serialization),
        }
    }
}

impl Clone for SecBuffer {
    /// An independent copy with the same bytes.
    fn clone(&self) -> (r: Self)
        ensures
            r@ == self@,
    {
        SecBuffer { inner: slice_to_vec(self.inner.as_slice()) }
    }
}

/// A secret string.
pub struct SecString {
    inner: String,
}

impl View for SecString {
    type V = Seq<char>;

    closed spec fn view(&self) -> Seq<char> {
        self.inner@
    }
}

impl SecString {
    pub fn new() -> (r: SecString)
        ensures
            r@ == Seq::<char>::empty(),
    {
        SecString { inner: String::new() }
    }

    pub fn from_text(text: &str) -> (r: SecString)
        ensures
            r@ == text@,
    {
        SecString { inner: text.to_owned() }
    }

    pub fn push(&mut self, c: char)
        ensures
            final(self)@ == old(self)@.push(c),
    {
        string_push(&mut self.inner, c)
    }

    /// Length in bytes of the UTF-8 form.
    pub fn len(&self) -> (r: usize)
        ensures
            r == encode_utf8(self@).len() as usize,
    {
        self.inner.as_str().len()
    }

    pub fn as_str(&self) -> (r: &str)
        ensures
            r@ == self@,
    {
        self.inner.as_str()
    }

    /// Hands out the string, giving up the container.
    pub fn into_buffer(self) -> (r: String)
        ensures
            r@ == self@,
    {
        self.inner
    }

    /// The binary form of the string.
    pub fn serialize(&self) -> (r: Vec<u8>)
        ensures
            r@ == frame(encode_utf8(self@)),
    {
        match encode_string(&self.inner) {
            Ok(v) => v,
            Err(_) => Vec::new(),
        }
    }

    /// Reads a string back from its binary form; fails where the input
    /// holds no complete binary form of a UTF-8 string.
    pub fn deserialize(bytes: &[u8]) -> (r: Result<SecString, crate::error::CryptError>)
        ensures
            r is Ok ==> starts_with_frame(bytes@, encode_utf8(r->Ok_0@)),
            forall|t: Seq<char>| #[trigger] starts_with_frame(bytes@, encode_utf8(t)) ==> r is Ok && r->Ok_0@ == t,
            r is Err ==> r->Err_0 == crate::error::CryptError::Serialization,
    {
        match decode_string(bytes) {
            Ok(inner) => Ok(SecString { inner }),
            Err(_) => Err(crate::error::CryptError::Serialization),
        }
    }
}

impl Clone for SecString {
    /// An independent copy with the same characters.
    fn clone(&self) -> (r: Self)
        ensures
            r@ == self@,
    {
        SecString { inner: self.inner.clone() }
    }
}

/// A buffer written to its binary form and read back holds the same bytes;
/// a copy holds the same bytes as its source.
pub proof fn lemma_sec_buffer_round_trip(content: Seq<u8>)
    requires
        content.len() < pow256(8),
    ensures
        starts_with_frame(frame(content), content),
        forall|t: Seq<u8>| t.len() < pow256(8) && #[trigger] starts_with_frame(frame(content), t) ==> t == content,
{
    lemma_frame_reads_back(content);
    assert forall|t: Seq<u8>| t.len() < pow256(8) && #[trigger] starts_with_frame(frame(content), t) implies t == content by {
        lemma_le_bytes_len(content.len(), 8);
        lemma_le_bytes_len(t.len(), 8);
        assert(frame(content).take(8) =~= le_bytes(content.len(), 8));
        assert(frame(content).take(8 + t.len() as int).take(8) =~= frame(content).take(8));
        assert(frame(t).take(8) =~= le_bytes(t.len(), 8));
        lemma_le_bytes_injective(content.len(), t.len(), 8);
        assert(t.len() == content.len());
        assert(t =~= frame(t).skip(8));
        assert(content =~= frame(content).skip(8));
    }
}

/// A string written to its binary form and read back holds the same
/// characters.
pub proof fn lemma_sec_string_round_trip(content: Seq<char>)
    ensures
        starts_with_frame(frame(encode_utf8(content)), encode_utf8(content)),
{
    lemma_frame_reads_back(encode_utf8(content));
}


} // verus!
