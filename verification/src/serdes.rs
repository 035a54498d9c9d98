//! Encodings of timestamps, byte strings and optional values.
//!
//! A timestamp is eight bytes, little-endian. A byte string is its length as
//! four bytes, little-endian, followed by the bytes. An optional value is one
//! tag byte, 0 for absent and 1 for present, followed by the byte string when
//! present. Every parser reads from the start of its input and says how many
//! bytes it consumed.
use vstd::prelude::*;
use vstd::bytes::{
    lemma_auto_spec_u32_to_from_le_bytes, lemma_auto_spec_u64_to_from_le_bytes,
    spec_u32_from_le_bytes, spec_u32_to_le_bytes, spec_u64_from_le_bytes, spec_u64_to_le_bytes,
    u32_from_le_bytes, u32_to_le_bytes, u64_from_le_bytes, u64_to_le_bytes,
};
use vstd::slice::{slice_subrange, slice_to_vec};

verus! {

/// Why a value could not be encoded or decoded.
#[derive(Clone, Copy, Debug, PartialEq, Eq, Structural)]
pub enum CodecError {
    /// A byte string is longer than a four-byte length can say.
    TooLong,
    /// The input ended before the value did.
    UnexpectedEnd,
    /// A tag byte holds a value that stands for nothing.
    InvalidTag,
    /// The bytes of a text are not valid UTF-8.
    InvalidText,
}

/// The encoding of a timestamp.
pub open spec fn u64_encoding(x: u64) -> Seq<u8> {
    spec_u64_to_le_bytes(x)
}

/// The encoding of a byte string that is short enough to have one.
pub open spec fn bytes_encoding(b: Seq<u8>) -> Seq<u8> {
    spec_u32_to_le_bytes(b.len() as u32) + b
}

/// The encoding of an optional byte string.
pub open spec fn option_encoding(v: Option<Seq<u8>>) -> Seq<u8> {
    match v {
        Some(b) => seq![1u8] + bytes_encoding(b),
        None => seq![0u8],
    }
}

/// A byte string is short enough for a four-byte length.
pub open spec fn encodable(b: Seq<u8>) -> bool {
    b.len() <= u32::MAX
}

/// An optional byte string is absent or short enough.
pub open spec fn option_encodable(v: Option<Seq<u8>>) -> bool {
    v matches Some(b) ==> encodable(b)
}

/// Reads a timestamp from the start of `s`.
pub open spec fn parse_u64(s: Seq<u8>) -> Result<(u64, int), CodecError> {
    if s.len() < 8 {
        Err(CodecError::UnexpectedEnd)
    } else {
        Ok((spec_u64_from_le_bytes(s.subrange(0, 8)), 8))
    }
}

/// Reads a byte string from the start of `s`.
pub open spec fn parse_bytes(s: Seq<u8>) -> Result<(Seq<u8>, int), CodecError> {
    if s.len() < 4 {
        Err(CodecError::UnexpectedEnd)
    } else {
        let n = spec_u32_from_le_bytes(s.subrange(0, 4)) as int;
        if s.len() < 4 + n {
            Err(CodecError::UnexpectedEnd)
        } else {
            Ok((s.subrange(4, 4 + n), 4 + n))
        }
    }
}

/// Reads an optional byte string from the start of `s`.
pub open spec fn parse_option(s: Seq<u8>) -> Result<(Option<Seq<u8>>, int), CodecError> {
    if s.len() < 1 {
        Err(CodecError::UnexpectedEnd)
    } else if s[0] == 0 {
        Ok((None, 1))
    } else if s[0] == 1 {
        match parse_bytes(s.skip(1)) {
            Ok((b, n)) => Ok((Some(b), n + 1)),
            Err(e) => Err(e),
        }
    } else {
        Err(CodecError::InvalidTag)
    }
}

/// A timestamp is read back from its encoding, whatever follows it.
pub proof fn lemma_u64_roundtrip(x: u64, tail: Seq<u8>)
    ensures
        u64_encoding(x).len() == 8,
        parse_u64(u64_encoding(x) + tail) == Ok::<(u64, int), CodecError>((x, 8)),
{
    lemma_auto_spec_u64_to_from_le_bytes();
    assert((u64_encoding(x) + tail).subrange(0, 8) =~= u64_encoding(x));
}

/// A byte string is read back from its encoding, whatever follows it.
pub proof fn lemma_bytes_roundtrip(b: Seq<u8>, tail: Seq<u8>)
    requires
        encodable(b),
    ensures
        bytes_encoding(b).len() == 4 + b.len(),
        parse_bytes(bytes_encoding(b) + tail) == Ok::<(Seq<u8>, int), CodecError>(
            (b, 4 + b.len() as int),
        ),
{
    lemma_auto_spec_u32_to_from_le_bytes();
    let s = bytes_encoding(b) + tail;
    assert(s.subrange(0, 4) =~= spec_u32_to_le_bytes(b.len() as u32));
    assert(s.subrange(4, 4 + b.len() as int) =~= b);
}

/// An optional byte string is read back from its encoding, whatever follows it.
pub proof fn lemma_option_roundtrip(v: Option<Seq<u8>>, tail: Seq<u8>)
    requires
        option_encodable(v),
    ensures
        parse_option(option_encoding(v) + tail) == Ok::<(Option<Seq<u8>>, int), CodecError>(
            (v, option_encoding(v).len() as int),
        ),
{
    let s = option_encoding(v) + tail;
    match v {
        Some(b) => {
            lemma_bytes_roundtrip(b, tail);
            assert(s.skip(1) =~= bytes_encoding(b) + tail);
        },
        None => {},
    }
}

/// Appends the encoding of a timestamp to `sink`.
pub fn encode_u64(x: u64, sink: &mut Vec<u8>)
    ensures
        final(sink)@ == old(sink)@ + u64_encoding(x),
{
    let mut b = u64_to_le_bytes(x);
    sink.append(&mut b);
}

/// Appends the encoding of a byte string to `sink`, or leaves `sink` as it is
/// where the string is too long to encode.
pub fn encode_bytes(b: &Vec<u8>, sink: &mut Vec<u8>) -> (r: Result<(), CodecError>)
    ensures
        encodable(b@) ==> r.is_ok() && final(sink)@ == old(sink)@ + bytes_encoding(b@),
        !encodable(b@) ==> r == Err::<(), CodecError>(CodecError::TooLong) && final(sink)@ == old(
            sink,
        )@,
{
    if b.len() > 0xffff_ffff {
        return Err(CodecError::TooLong);
    }
    let mut n = u32_to_le_bytes(b.len() as u32);
    sink.append(&mut n);
    let mut i: usize = 0;
    while i < b.len()
        invariant
            i <= b.len(),
            sink@ == old(sink)@ + spec_u32_to_le_bytes(b.len() as u32) + b@.take(i as int),
        decreases b.len() - i,
    {
        sink.push(b[i]);
        proof {
            assert(b@.take(i + 1) =~= b@.take(i as int).push(b@[i as int]));
        }
        i += 1;
    }
    proof {
        assert(b@.take(b.len() as int) =~= b@);
        assert(sink@ =~= old(sink)@ + bytes_encoding(b@));
    }
    Ok(())
}

/// Appends the encoding of an optional byte string to `sink`, or leaves `sink`
/// as it is where the string is too long to encode.
pub fn encode_option(v: Option<&Vec<u8>>, sink: &mut Vec<u8>) -> (r: Result<(), CodecError>)
    ensures
        option_encodable(crate::bytes::value_ref_view(v)) ==> r.is_ok() && final(sink)@ == old(
            sink,
        )@ + option_encoding(crate::bytes::value_ref_view(v)),
        !option_encodable(crate::bytes::value_ref_view(v)) ==> r == Err::<(), CodecError>(
            CodecError::TooLong,
        ) && final(sink)@ == old(sink)@,
{
    match v {
        Some(b) => {
            if b.len() > 0xffff_ffff {
                return Err(CodecError::TooLong);
            }
            sink.push(1u8);
            let r = encode_bytes(b, sink);
            proof {
                assert(sink@ =~= old(sink)@ + (seq![1u8] + bytes_encoding(b@)));
            }
            r
        },
        None => {
            sink.push(0u8);
            proof {
                assert(sink@ =~= old(sink)@ + seq![0u8]);
            }
            Ok(())
        },
    }
}

/// The number of bytes that the encoding of a byte string takes, or the
/// largest number that fits where that would be more.
pub fn bytes_size(b: &Vec<u8>) -> (n: usize)
    ensures
        n == if 4 + b@.len() <= usize::MAX {
            4 + b@.len()
        } else {
            usize::MAX as nat
        },
{
    b.len().saturating_add(4)
}

/// The number of bytes that the encoding of an optional byte string takes, or
/// the largest number that fits where that would be more.
pub fn option_size(v: Option<&Vec<u8>>) -> (n: usize)
    ensures
        n == match v {
            Some(b) => if 5 + b@.len() <= usize::MAX {
                5 + b@.len()
            } else {
                usize::MAX as nat
            },
            None => 1,
        },
{
    match v {
        Some(b) => b.len().saturating_add(5),
        None => 1,
    }
}

/// Reads a timestamp at `pos`; returns it with the position after it.
pub fn decode_u64(src: &[u8], pos: usize) -> (r: Result<(u64, usize), CodecError>)
    requires
        pos <= src@.len(),
    ensures
        match (r, parse_u64(src@.skip(pos as int))) {
            (Ok((x, next)), Ok((y, n))) => x == y && next == pos + n,
            (Err(e), Err(f)) => e == f,
            _ => false,
        },
{
    if src.len() - pos < 8 {
        return Err(CodecError::UnexpectedEnd);
    }
    let x = u64_from_le_bytes(slice_subrange(src, pos, pos + 8));
    proof {
        assert(src@.skip(pos as int).subrange(0, 8) =~= src@.subrange(pos as int, pos + 8));
    }
    Ok((x, pos + 8))
}

/// Reads a byte string at `pos`; returns it with the position after it.
pub fn decode_bytes(src: &[u8], pos: usize) -> (r: Result<(Vec<u8>, usize), CodecError>)
    requires
        pos <= src@.len(),
    ensures
        match (r, parse_bytes(src@.skip(pos as int))) {
            (Ok((b, next)), Ok((c, n))) => b@ == c && next == pos + n,
            (Err(e), Err(f)) => e == f,
            _ => false,
        },
{
    if src.len() - pos < 4 {
        return Err(CodecError::UnexpectedEnd);
    }
    let n = u32_from_le_bytes(slice_subrange(src, pos, pos + 4)) as usize;
    proof {
        assert(src@.skip(pos as int).subrange(0, 4) =~= src@.subrange(pos as int, pos + 4));
    }
    if src.len() - pos - 4 < n {
        return Err(CodecError::UnexpectedEnd);
    }
    let b = slice_to_vec(slice_subrange(src, pos + 4, pos + 4 + n));
    proof {
        assert(src@.skip(pos as int).subrange(4, 4 + n as int) =~= src@.subrange(
            pos + 4,
            pos + 4 + n,
        ));
    }
    Ok((b, pos + 4 + n))
}

/// Reads an optional byte string at `pos`; returns it with the position after it.
pub fn decode_option(src: &[u8], pos: usize) -> (r: Result<(Option<Vec<u8>>, usize), CodecError>)
    requires
        pos <= src@.len(),
    ensures
        match (r, parse_option(src@.skip(pos as int))) {
            (Ok((v, next)), Ok((w, n))) => crate::bytes::value_view(v) == w && next == pos + n,
            (Err(e), Err(f)) => e == f,
            _ => false,
        },
{
    if src.len() - pos < 1 {
        return Err(CodecError::UnexpectedEnd);
    }
    let tag = src[pos];
    if tag == 0 {
        Ok((None, pos + 1))
    } else if tag == 1 {
        proof {
            assert(src@.skip(pos as int).skip(1) =~= src@.skip(pos + 1));
        }
        match decode_bytes(src, pos + 1) {
            Ok((b, next)) => Ok((Some(b), next)),
            Err(e) => Err(e),
        }
    } else {
        Err(CodecError::InvalidTag)
    }
}

} // verus!
