//! A sample record type: a user with an identifier and a name.
//!
//! A user is encoded as its identifier followed by the bytes of its name as
//! a byte string.
use std::sync::Arc;
use vstd::prelude::*;
use vstd::slice::slice_to_vec;
use vstd::utf8::{encode_utf8, valid_utf8};
use crate::serdes::{
    bytes_encoding, decode_bytes, decode_u64, encodable, encode_bytes, encode_u64,
    lemma_bytes_roundtrip, lemma_u64_roundtrip, parse_bytes, parse_u64, u64_encoding, CodecError,
};

verus! {

/// A user; clones share the fields.
#[derive(Debug, PartialEq, Eq)]
pub struct User {
    pub inner: Arc<UserInner>,
}

/// The fields of a user.
#[derive(Debug, PartialEq, Eq)]
pub struct UserInner {
    pub id: u64,
    pub name: String,
}

impl Clone for User {
    fn clone(&self) -> (r: Self)
        ensures
            r == *self,
    {
        Self { inner: Arc::clone(&self.inner) }
    }
}

/// The encoding of a user with the identifier `id` and the name bytes `name`.
pub open spec fn user_encoding(id: u64, name: Seq<u8>) -> Seq<u8> {
    u64_encoding(id) + bytes_encoding(name)
}

/// Reads the identifier and the name bytes of a user from the start of `s`.
pub open spec fn parse_user(s: Seq<u8>) -> Result<(u64, Seq<u8>, int), CodecError> {
    match parse_u64(s) {
        Err(e) => Err(e),
        Ok((id, n)) => match parse_bytes(s.skip(n)) {
            Err(e) => Err(e),
            Ok((name, m)) => Ok((id, name, n + m)),
        },
    }
}

/// A user is read back from its encoding, whatever follows it.
pub proof fn lemma_user_roundtrip(id: u64, name: Seq<u8>, tail: Seq<u8>)
    requires
        encodable(name),
    ensures
        parse_user(user_encoding(id, name) + tail) == Ok::<(u64, Seq<u8>, int), CodecError>(
            (id, name, user_encoding(id, name).len() as int),
        ),
{
    let s = user_encoding(id, name) + tail;
    lemma_u64_roundtrip(id, bytes_encoding(name) + tail);
    lemma_bytes_roundtrip(name, tail);
    assert(s =~= u64_encoding(id) + (bytes_encoding(name) + tail));
    assert(s.skip(8) =~= bytes_encoding(name) + tail);
}

/// `String::from_utf8`: the string whose bytes are `bytes`, which there is
/// exactly when the bytes are valid UTF-8.
#[verifier::external_body]
fn text_from_bytes(bytes: Vec<u8>) -> (r: Option<String>)
    ensures
        r.is_some() == valid_utf8(bytes@),
        r matches Some(s) ==> encode_utf8(s@) == bytes@,
{
    String::from_utf8(bytes).ok()
}

impl User {
    /// The identifier of the user.
    pub open spec fn id(&self) -> u64 {
        self.inner.id
    }

    /// The bytes of the user's name.
    pub open spec fn name_bytes(&self) -> Seq<u8> {
        encode_utf8(self.inner.name@)
    }

    /// A user with the given identifier and name.
    pub fn new(id: u64, name: String) -> (r: User)
        ensures
            r.inner.id == id,
            r.inner.name == name,
    {
        User { inner: Arc::new(UserInner { id, name }) }
    }

    /// The key under which the user is stored: the identifier.
    pub fn primary_key(&self) -> (r: u64)
        ensures
            r == self.id(),
    {
        self.inner.id
    }

    /// Appends the encoding of the user to `sink`, or leaves `sink` as it is
    /// where the name is too long to encode.
    pub fn encode(&self, sink: &mut Vec<u8>) -> (r: Result<(), CodecError>)
        ensures
            encodable(self.name_bytes()) ==> r.is_ok() && final(sink)@ == old(sink)@
                + user_encoding(self.id(), self.name_bytes()),
            !encodable(self.name_bytes()) ==> r == Err::<(), CodecError>(CodecError::TooLong)
                && final(sink)@ == old(sink)@,
    {
        let name = slice_to_vec(self.inner.name.as_str().as_bytes());
        if name.len() > 0xffff_ffff {
            return Err(CodecError::TooLong);
        }
        encode_u64(self.inner.id, sink);
        let r = encode_bytes(&name, sink);
        proof {
            assert(sink@ =~= old(sink)@ + user_encoding(self.id(), self.name_bytes()));
        }
        r
    }

    /// The number of bytes that the encoding of the user takes, or the
    /// largest number that fits where that would be more.
    pub fn size(&self) -> (n: usize)
        ensures
            n == if 12 + self.name_bytes().len() <= usize::MAX {
                12 + self.name_bytes().len()
            } else {
                usize::MAX as nat
            },
    {
        self.inner.name.as_str().as_bytes().len().saturating_add(12)
    }

    /// Reads a user at `pos`; returns it with the position after it. Fails
    /// where the input ends early or the name is not valid UTF-8.
    pub fn decode(src: &[u8], pos: usize) -> (r: Result<(User, usize), CodecError>)
        requires
            pos <= src@.len(),
        ensures
            match (r, parse_user(src@.skip(pos as int))) {
                (Ok((user, next)), Ok((id, name, n))) => user.id() == id && user.name_bytes()
                    == name && next == pos + n,
                (Err(e), Ok((id, name, n))) => e == CodecError::InvalidText && !valid_utf8(name),
                (Err(e), Err(f)) => e == f,
                _ => false,
            },
    {
        let (id, p) = match decode_u64(src, pos) {
            Ok(x) => x,
            Err(e) => {
                return Err(e);
            },
        };
        proof {
            assert(src@.skip(pos as int).skip(p - pos) =~= src@.skip(p as int));
        }
        let (name, next) = match decode_bytes(src, p) {
            Ok(x) => x,
            Err(e) => {
                return Err(e);
            },
        };
        match text_from_bytes(name) {
            Some(name) => Ok((User::new(id, name), next)),
            None => Err(CodecError::InvalidText),
        }
    }
}

} // verus!
