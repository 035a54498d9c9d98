//! Log records and their byte layout.
//!
//! A record is laid out as one byte for its type, then the key, the timestamp
//! and the optional value, each in its own encoding.
use vstd::prelude::*;
use vstd::bytes::{lemma_auto_spec_u32_to_from_le_bytes, lemma_auto_spec_u64_to_from_le_bytes};
use crate::bytes::{value_ref_view, value_view};
use crate::serdes::{
    bytes_encoding, bytes_size, decode_bytes, decode_option, decode_u64, encodable, encode_bytes,
    encode_option, encode_u64, lemma_bytes_roundtrip, lemma_option_roundtrip, lemma_u64_roundtrip,
    option_encodable, option_encoding, option_size, parse_bytes, parse_option, parse_u64,
    u64_encoding, CodecError,
};

verus! {

/// How a record stands in its batch: alone, or as the first, an inner or the
/// last record of a batch that commits as a whole.
#[derive(Debug, Clone, Copy, PartialEq, Eq, Structural)]
pub enum RecordType {
    Full,
    First,
    Middle,
    Last,
}

impl RecordType {
    /// The byte that stands for this type in a record's layout.
    pub open spec fn byte(self) -> u8 {
        match self {
            RecordType::Full => 0,
            RecordType::First => 1,
            RecordType::Middle => 2,
            RecordType::Last => 3,
        }
    }

    /// The type that a byte stands for; bytes above 3 stand for none.
    pub open spec fn of_byte(value: u8) -> Option<RecordType> {
        if value == 0 {
            Some(RecordType::Full)
        } else if value == 1 {
            Some(RecordType::First)
        } else if value == 2 {
            Some(RecordType::Middle)
        } else if value == 3 {
            Some(RecordType::Last)
        } else {
            None
        }
    }

    /// The byte that stands for this type in a record's layout.
    pub fn to_byte(self) -> (r: u8)
        ensures
            r == self.byte(),
            RecordType::of_byte(r) == Some(self),
    {
        match self {
            RecordType::Full => 0,
            RecordType::First => 1,
            RecordType::Middle => 2,
            RecordType::Last => 3,
        }
    }

    /// The type that `value` stands for.
    pub fn from(value: u8) -> (r: Self)
        requires
            value <= 3,
        ensures
            Some(r) == RecordType::of_byte(value),
            r.byte() == value,
    {
        if value == 0 {
            RecordType::Full
        } else if value == 1 {
            RecordType::First
        } else if value == 2 {
            RecordType::Middle
        } else {
            RecordType::Last
        }
    }

    /// The type that `value` stands for, if it stands for one.
    pub fn try_from_byte(value: u8) -> (r: Option<Self>)
        ensures
            r == RecordType::of_byte(value),
    {
        if value <= 3 {
            Some(RecordType::from(value))
        } else {
            None
        }
    }
}

/// One edit of the log: a key, the timestamp of the version written, and the
/// value written or nothing for a tombstone.
#[derive(Debug)]
pub struct Record<K, V> {
    pub record_type: RecordType,
    pub key: K,
    pub ts: u64,
    pub value: Option<V>,
}

/// A record as a plain value.
pub struct RecordView {
    pub record_type: RecordType,
    pub key: Seq<u8>,
    pub ts: u64,
    pub value: Option<Seq<u8>>,
}

impl<K, V> Record<K, V> {
    /// A record of the given parts.
    pub fn new(record_type: RecordType, key: K, ts: u64, value: Option<V>) -> (r: Self)
        ensures
            r.record_type == record_type,
            r.key == key,
            r.ts == ts,
            r.value == value,
    {
        Self { record_type, key, ts, value }
    }

    /// The same record, borrowing its key and value.
    pub fn as_ref(&self) -> (r: Record<&K, &V>)
        ensures
            r.record_type == self.record_type,
            *r.key == self.key,
            r.ts == self.ts,
            match (r.value, self.value) {
                (Some(a), Some(b)) => *a == b,
                (None, None) => true,
                _ => false,
            },
    {
        Record::new(self.record_type, &self.key, self.ts, self.value.as_ref())
    }
}

/// What went wrong while a record was encoded, and in which part.
#[derive(Debug, Clone, Copy, PartialEq, Eq, Structural)]
pub enum EncodeError {
    Io(CodecError),
    Key(CodecError),
    Timsetamp(CodecError),
    Value(CodecError),
}

/// What went wrong while a record was decoded, and in which part.
#[derive(Debug, Clone, Copy, PartialEq, Eq, Structural)]
pub enum DecodeError {
    Io(CodecError),
    Key(CodecError),
    Timetamp(CodecError),
    Value(CodecError),
}

/// The bytes of a record.
pub open spec fn record_encoding(r: RecordView) -> Seq<u8> {
    seq![r.record_type.byte()] + bytes_encoding(r.key) + u64_encoding(r.ts) + option_encoding(
        r.value,
    )
}

/// Key and value of the record are short enough to encode.
pub open spec fn record_encodable(r: RecordView) -> bool {
    encodable(r.key) && option_encodable(r.value)
}

/// Reads a record from the start of `s`; gives the record and the number of
/// bytes it took, or the part that failed.
pub open spec fn parse_record(s: Seq<u8>) -> Result<(RecordView, int), DecodeError> {
    if s.len() < 1 {
        Err(DecodeError::Io(CodecError::UnexpectedEnd))
    } else if s[0] > 3 {
        Err(DecodeError::Io(CodecError::InvalidTag))
    } else {
        match parse_bytes(s.skip(1)) {
            Err(e) => Err(DecodeError::Key(e)),
            Ok((key, n1)) => match parse_u64(s.skip(1 + n1)) {
                Err(e) => Err(DecodeError::Timetamp(e)),
                Ok((ts, n2)) => match parse_option(s.skip(1 + n1 + n2)) {
                    Err(e) => Err(DecodeError::Value(e)),
                    Ok((value, n3)) => Ok(
                        (
                            RecordView {
                                record_type: RecordType::of_byte(s[0]).unwrap(),
                                key,
                                ts,
                                value,
                            },
                            1 + n1 + n2 + n3,
                        ),
                    ),
                },
            },
        }
    }
}

/// The number of bytes of a record: one for the type, four and the key, eight
/// for the timestamp, and one for the tag of the value with, where there is a
/// value, four and the value.
pub proof fn lemma_record_len(r: RecordView)
    ensures
        record_encoding(r).len() == 13 + r.key.len() + match r.value {
            Some(v) => 5 + v.len(),
            None => 1,
        },
{
    lemma_auto_spec_u32_to_from_le_bytes();
    lemma_auto_spec_u64_to_from_le_bytes();
}

/// A record is read back from its bytes, whatever follows them.
pub proof fn lemma_record_roundtrip(r: RecordView, tail: Seq<u8>)
    requires
        record_encodable(r),
    ensures
        parse_record(record_encoding(r) + tail) == Ok::<(RecordView, int), DecodeError>(
            (r, record_encoding(r).len() as int),
        ),
        record_encoding(r).len() >= 14,
{
    let s = record_encoding(r) + tail;
    let k = bytes_encoding(r.key);
    let t = u64_encoding(r.ts);
    let v = option_encoding(r.value);
    lemma_bytes_roundtrip(r.key, t + v + tail);
    lemma_u64_roundtrip(r.ts, v + tail);
    lemma_option_roundtrip(r.value, tail);
    assert(s.skip(1) =~= k + (t + v + tail));
    assert(s.skip(1 + k.len() as int) =~= t + (v + tail));
    assert(s.skip(1 + k.len() as int + 8) =~= v + tail);
    assert(s[0] == r.record_type.byte());
    assert(RecordType::of_byte(r.record_type.byte()) == Some(r.record_type));
}

impl<'a> View for Record<&'a Vec<u8>, &'a Vec<u8>> {
    type V = RecordView;

    open spec fn view(&self) -> RecordView {
        RecordView {
            record_type: self.record_type,
            key: self.key@,
            ts: self.ts,
            value: value_ref_view(self.value),
        }
    }
}

impl View for Record<Vec<u8>, Vec<u8>> {
    type V = RecordView;

    open spec fn view(&self) -> RecordView {
        RecordView {
            record_type: self.record_type,
            key: self.key@,
            ts: self.ts,
            value: value_view(self.value),
        }
    }
}

impl<'a> Record<&'a Vec<u8>, &'a Vec<u8>> {
    /// Appends the bytes of the record to `sink`. Where the key, or else the
    /// value, is too long to encode, says so and leaves `sink` as it is.
    pub fn encode(&self, sink: &mut Vec<u8>) -> (r: Result<(), EncodeError>)
        ensures
            match r {
                Ok(_) => record_encodable(self@) && final(sink)@ == old(sink)@ + record_encoding(
                    self@,
                ),
                Err(e) => final(sink)@ == old(sink)@ && e == if !encodable(self@.key) {
                    EncodeError::Key(CodecError::TooLong)
                } else {
                    EncodeError::Value(CodecError::TooLong)
                } && !record_encodable(self@),
            },
    {
        if self.key.len() > 0xffff_ffff {
            return Err(EncodeError::Key(CodecError::TooLong));
        }
        if let Some(v) = self.value {
            if v.len() > 0xffff_ffff {
                return Err(EncodeError::Value(CodecError::TooLong));
            }
        }
        sink.push(self.record_type.to_byte());
        let k = encode_bytes(self.key, sink);
        encode_u64(self.ts, sink);
        let v = encode_option(self.value, sink);
        proof {
            assert(sink@ =~= old(sink)@ + record_encoding(self@));
        }
        Ok(())
    }

    /// The number of bytes that the record takes, or the largest number that
    /// fits where that would be more.
    pub fn size(&self) -> (n: usize)
        ensures
            n == if record_encoding(self@).len() <= usize::MAX {
                record_encoding(self@).len()
            } else {
                usize::MAX as nat
            },
    {
        proof {
            lemma_record_len(self@);
        }
        let one: usize = 1;
        one.saturating_add(bytes_size(self.key)).saturating_add(8).saturating_add(
            option_size(self.value),
        )
    }
}

impl Record<Vec<u8>, Vec<u8>> {
    /// Appends the bytes of the record to `sink`. Where the key, or else the
    /// value, is too long to encode, says so and leaves `sink` as it is.
    pub fn encode(&self, sink: &mut Vec<u8>) -> (r: Result<(), EncodeError>)
        ensures
            match r {
                Ok(_) => record_encodable(self@) && final(sink)@ == old(sink)@ + record_encoding(
                    self@,
                ),
                Err(e) => final(sink)@ == old(sink)@ && e == if !encodable(self@.key) {
                    EncodeError::Key(CodecError::TooLong)
                } else {
                    EncodeError::Value(CodecError::TooLong)
                } && !record_encodable(self@),
            },
    {
        let borrowed = Record::new(self.record_type, &self.key, self.ts, self.value.as_ref());
        borrowed.encode(sink)
    }

    /// The number of bytes that the record takes, or the largest number that
    /// fits where that would be more.
    pub fn size(&self) -> (n: usize)
        ensures
            n == if record_encoding(self@).len() <= usize::MAX {
                record_encoding(self@).len()
            } else {
                usize::MAX as nat
            },
    {
        let borrowed = Record::new(self.record_type, &self.key, self.ts, self.value.as_ref());
        borrowed.size()
    }

    /// Reads a record at `pos`; returns it with the position after it, or the
    /// part that failed.
    pub fn decode(src: &[u8], pos: usize) -> (r: Result<(Self, usize), DecodeError>)
        requires
            pos <= src@.len(),
        ensures
            match (r, parse_record(src@.skip(pos as int))) {
                (Ok((rec, next)), Ok((v, n))) => rec@ == v && next == pos + n && next <= src@.len(),
                (Err(e), Err(f)) => e == f,
                _ => false,
            },
    {
        let ghost s = src@.skip(pos as int);
        if src.len() - pos < 1 {
            return Err(DecodeError::Io(CodecError::UnexpectedEnd));
        }
        let tag = src[pos];
        let record_type = match RecordType::try_from_byte(tag) {
            Some(t) => t,
            None => {
                return Err(DecodeError::Io(CodecError::InvalidTag));
            },
        };
        proof {
            assert(s.skip(1) =~= src@.skip(pos + 1));
        }
        let (key, after_key) = match decode_bytes(src, pos + 1) {
            Ok(x) => x,
            Err(e) => {
                return Err(DecodeError::Key(e));
            },
        };
        proof {
            assert(s.skip(after_key - pos) =~= src@.skip(after_key as int));
        }
        let (ts, after_ts) = match decode_u64(src, after_key) {
            Ok(x) => x,
            Err(e) => {
                return Err(DecodeError::Timetamp(e));
            },
        };
        proof {
            assert(s.skip(after_ts - pos) =~= src@.skip(after_ts as int));
        }
        let (value, after_value) = match decode_option(src, after_ts) {
            Ok(x) => x,
            Err(e) => {
                return Err(DecodeError::Value(e));
            },
        };
        Ok((Record { record_type, key, ts, value }, after_value))
    }
}

} // verus!
