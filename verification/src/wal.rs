//! The write-ahead log: framed records in an append-only byte buffer.
//!
//! A frame is the bytes of a record followed by their 32-bit checksum, four
//! bytes little-endian. A log is a run of frames. Reading a log stops at its
//! end or at the first frame that does not parse or whose checksum does not
//! match, and what came before stands.
use vstd::prelude::*;
use vstd::bytes::{
    lemma_auto_spec_u32_to_from_le_bytes, spec_u32_from_le_bytes, spec_u32_to_le_bytes,
    u32_from_le_bytes, u32_to_le_bytes,
};
use vstd::slice::slice_subrange;
use crate::serdes::{encodable, CodecError};
use crate::record::{
    lemma_record_roundtrip, parse_record, record_encodable, record_encoding, EncodeError, Record,
    RecordView,
};

verus! {

/// The CRC-32 (IEEE) checksum of a byte string.
pub uninterp spec fn crc32(bytes: Seq<u8>) -> u32;

/// Computes the checksum of `bytes` with `crc32fast::hash`, which returns the
/// CRC-32 (IEEE) of the slice it is given. The contract only gives that
/// number its name.
#[verifier::external_body]
fn checksum(bytes: &[u8]) -> (r: u32)
    ensures
        r == crc32(bytes@),
{
    crc32fast::hash(bytes)
}

/// The bytes of a record followed by their checksum.
pub open spec fn frame(r: RecordView) -> Seq<u8> {
    record_encoding(r) + spec_u32_to_le_bytes(crc32(record_encoding(r)))
}

/// Reads one frame from the start of `s`: the record and the number of bytes
/// of the frame, or nothing where the record does not parse, the checksum is
/// cut short, or it does not match.
pub open spec fn parse_frame(s: Seq<u8>) -> Option<(RecordView, int)> {
    match parse_record(s) {
        Ok((r, n)) => if 0 < n && n + 4 <= s.len() && spec_u32_from_le_bytes(s.subrange(n, n + 4))
            == crc32(s.subrange(0, n)) {
            Some((r, n + 4))
        } else {
            None
        },
        Err(_) => None,
    }
}

/// The records of a log: those of its frames, up to the first that fails.
pub open spec fn parse_log(s: Seq<u8>) -> Seq<RecordView>
    decreases s.len(),
{
    match parse_frame(s) {
        Some((r, n)) => if 0 < n <= s.len() {
            seq![r] + parse_log(s.skip(n))
        } else {
            Seq::empty()
        },
        None => Seq::empty(),
    }
}

/// The log that holds the frames of `rs`, in order.
pub open spec fn frames(rs: Seq<RecordView>) -> Seq<u8>
    decreases rs.len(),
{
    if rs.len() == 0 {
        Seq::empty()
    } else {
        frame(rs[0]) + frames(rs.skip(1))
    }
}

/// Every record of `rs` is short enough to encode.
pub open spec fn records_encodable(rs: Seq<RecordView>) -> bool {
    forall|i: int| 0 <= i < rs.len() ==> record_encodable(#[trigger] rs[i])
}

/// A frame is read back from its bytes, whatever follows them.
pub proof fn lemma_frame_roundtrip(r: RecordView, tail: Seq<u8>)
    requires
        record_encodable(r),
    ensures
        parse_frame(frame(r) + tail) == Some((r, frame(r).len() as int)),
        frame(r).len() == record_encoding(r).len() + 4,
        frame(r).len() >= 18,
{
    lemma_auto_spec_u32_to_from_le_bytes();
    let e = record_encoding(r);
    let c = spec_u32_to_le_bytes(crc32(e));
    let s = frame(r) + tail;
    lemma_record_roundtrip(r, c + tail);
    assert(s =~= e + (c + tail));
    let n = e.len() as int;
    assert(s.subrange(n, n + 4) =~= c);
    assert(s.subrange(0, n) =~= e);
}

/// Adding a record at the end of a log adds its frame at the end.
pub proof fn lemma_frames_push(rs: Seq<RecordView>, r: RecordView)
    ensures
        frames(rs.push(r)) == frames(rs) + frame(r),
    decreases rs.len(),
{
    if rs.len() == 0 {
        assert(rs.push(r).skip(1) =~= Seq::<RecordView>::empty());
        assert(frames(rs.push(r)) =~= frame(r) + frames(Seq::empty()));
        assert(frames(rs.push(r)) =~= frames(rs) + frame(r));
    } else {
        lemma_frames_push(rs.skip(1), r);
        assert(rs.push(r).skip(1) =~= rs.skip(1).push(r));
        assert(rs.push(r)[0] == rs[0]);
        assert(frames(rs.push(r)) =~= frames(rs) + frame(r));
    }
}

/// Reading a log of frames gives back the records, followed by what the rest
/// of the bytes hold.
pub proof fn lemma_parse_frames(rs: Seq<RecordView>, tail: Seq<u8>)
    requires
        records_encodable(rs),
    ensures
        parse_log(frames(rs) + tail) == rs + parse_log(tail),
    decreases rs.len(),
{
    if rs.len() == 0 {
        assert(frames(rs) + tail =~= tail);
        assert(rs + parse_log(tail) =~= parse_log(tail));
    } else {
        let rest = rs.skip(1);
        let s = frames(rs) + tail;
        assert(record_encodable(rs[0]));
        assert forall|i: int| 0 <= i < rest.len() implies record_encodable(#[trigger] rest[i]) by {
            assert(rest[i] == rs[i + 1]);
        }
        lemma_frame_roundtrip(rs[0], frames(rest) + tail);
        assert(s =~= frame(rs[0]) + (frames(rest) + tail));
        assert(s.skip(frame(rs[0]).len() as int) =~= frames(rest) + tail);
        lemma_parse_frames(rest, tail);
        assert(seq![rs[0]] + (rest + parse_log(tail)) =~= rs + parse_log(tail));
    }
}

/// A log written frame by frame is read back whole.
pub proof fn lemma_log_roundtrip(rs: Seq<RecordView>)
    requires
        records_encodable(rs),
    ensures
        parse_log(frames(rs)) == rs,
{
    lemma_parse_frames(rs, Seq::empty());
    assert(frames(rs) + Seq::<u8>::empty() =~= frames(rs));
    assert(parse_log(Seq::<u8>::empty()) =~= Seq::<RecordView>::empty());
    assert(rs + Seq::<RecordView>::empty() =~= rs);
}

/// The records of a vector as plain values.
pub open spec fn records_view(rs: Seq<Record<Vec<u8>, Vec<u8>>>) -> Seq<RecordView> {
    Seq::new(rs.len(), |i: int| rs[i]@)
}

/// Reads one frame at `pos`; returns the record with the position after the
/// frame, or nothing where no frame stands there.
pub fn decode_frame(src: &[u8], pos: usize) -> (r: Option<(Record<Vec<u8>, Vec<u8>>, usize)>)
    requires
        pos <= src@.len(),
    ensures
        match (r, parse_frame(src@.skip(pos as int))) {
            (Some((rec, next)), Some((v, n))) => rec@ == v && next == pos + n && pos < next
                <= src@.len(),
            (None, None) => true,
            _ => false,
        },
{
    let ghost s = src@.skip(pos as int);
    match Record::decode(src, pos) {
        Ok((rec, p)) => {
            if p <= pos || src.len() - p < 4 {
                return None;
            }
            let stored = u32_from_le_bytes(slice_subrange(src, p, p + 4));
            let actual = checksum(slice_subrange(src, pos, p));
            proof {
                assert(s.subrange(p - pos, p - pos + 4) =~= src@.subrange(p as int, p + 4));
                assert(s.subrange(0, p - pos) =~= src@.subrange(pos as int, p as int));
            }
            if stored == actual {
                Some((rec, p + 4))
            } else {
                None
            }
        },
        Err(_) => None,
    }
}

/// Reads the records of a log, up to the first frame that fails.
pub fn recover(src: &[u8]) -> (out: Vec<Record<Vec<u8>, Vec<u8>>>)
    ensures
        records_view(out@) == parse_log(src@),
{
    let mut out: Vec<Record<Vec<u8>, Vec<u8>>> = Vec::new();
    let mut pos: usize = 0;
    let mut done = false;
    proof {
        assert(src@.skip(0) =~= src@);
        assert(records_view(out@) + parse_log(src@) =~= parse_log(src@));
    }
    while !done
        invariant
            pos <= src@.len(),
            !done ==> parse_log(src@) == records_view(out@) + parse_log(src@.skip(pos as int)),
            done ==> parse_log(src@) == records_view(out@),
        decreases src@.len() - pos, (if done { 0int } else { 1int }),
    {
        let ghost before = records_view(out@);
        let ghost s = src@.skip(pos as int);
        match decode_frame(src, pos) {
            Some((rec, next)) => {
                out.push(rec);
                proof {
                    assert(s.skip(next - pos) =~= src@.skip(next as int));
                    assert(records_view(out@) =~= before + seq![rec@]);
                    assert(before + (seq![rec@] + parse_log(s.skip(next - pos))) =~= records_view(
                        out@,
                    ) + parse_log(src@.skip(next as int)));
                }
                pos = next;
            },
            None => {
                proof {
                    assert(before + Seq::<RecordView>::empty() =~= before);
                }
                done = true;
            },
        }
    }
    out
}

/// The part of a record that is too long to encode: the key, or else the value.
pub open spec fn encode_failure(r: RecordView) -> EncodeError {
    if !encodable(r.key) {
        EncodeError::Key(CodecError::TooLong)
    } else {
        EncodeError::Value(CodecError::TooLong)
    }
}

/// Why an append to the log, or a write that leads to one, failed.
#[derive(Debug, Clone, Copy, PartialEq, Eq, Structural)]
pub enum WriteError {
    /// The append would take the log beyond its size bound.
    MaxSizeExceeded,
    /// The record could not be encoded.
    Encode(EncodeError),
    /// The columns of a frozen table were refused.
    Arrow,
    /// The store is not in a state in which the operation can be done.
    Internal,
}

/// An append-only log with a bound on its size.
#[derive(Debug)]
pub struct WalFile {
    buf: Vec<u8>,
    max_size: usize,
}

impl WalFile {
    /// The bytes written so far.
    pub closed spec fn bytes(&self) -> Seq<u8> {
        self.buf@
    }

    /// The size bound.
    pub closed spec fn max_size(&self) -> usize {
        self.max_size
    }

    /// The log is a run of whole frames.
    pub closed spec fn wf(&self) -> bool {
        exists|rs: Seq<RecordView>| records_encodable(rs) && #[trigger] frames(rs) == self.buf@
    }

    /// The records that reading the log gives.
    pub open spec fn records(&self) -> Seq<RecordView> {
        parse_log(self.bytes())
    }

    /// The log holds exactly the frames of the records that reading it gives.
    pub proof fn lemma_whole(&self)
        requires
            self.wf(),
        ensures
            self.bytes() == frames(self.records()),
            records_encodable(self.records()),
    {
        let rs = choose|rs: Seq<RecordView>| records_encodable(rs) && #[trigger] frames(rs) == self.buf@;
        lemma_log_roundtrip(rs);
    }

    /// An empty log that takes at most `max_size` bytes.
    pub fn new(max_size: usize) -> (r: Self)
        ensures
            r.wf(),
            r.bytes() == Seq::<u8>::empty(),
            r.records() == Seq::<RecordView>::empty(),
            r.max_size() == max_size,
    {
        let r = WalFile { buf: Vec::new(), max_size };
        proof {
            assert(frames(Seq::<RecordView>::empty()) =~= r.buf@);
            assert(records_encodable(Seq::<RecordView>::empty()));
            lemma_log_roundtrip(Seq::<RecordView>::empty());
        }
        r
    }

    /// The number of bytes written so far.
    pub fn len(&self) -> (n: usize)
        ensures
            n == self.bytes().len(),
    {
        self.buf.len()
    }

    /// Appends the frame of `record`. Refuses, and writes nothing, where the
    /// record cannot be encoded or where the log would then be longer than its
    /// bound.
    pub fn write(&mut self, record: Record<&Vec<u8>, &Vec<u8>>) -> (r: Result<(), WriteError>)
        requires
            old(self).wf(),
        ensures
            final(self).wf(),
            final(self).max_size() == old(self).max_size(),
            match r {
                Ok(_) => {
                    &&& record_encodable(record@)
                    &&& old(self).bytes().len() + frame(record@).len() <= old(self).max_size()
                    &&& final(self).bytes() == old(self).bytes() + frame(record@)
                    &&& final(self).records() == old(self).records().push(record@)
                },
                Err(e) => {
                    &&& final(self).bytes() == old(self).bytes()
                    &&& match e {
                        WriteError::Encode(c) => !record_encodable(record@) && c == encode_failure(
                            record@,
                        ),
                        WriteError::MaxSizeExceeded => record_encodable(record@) && old(
                            self,
                        ).bytes().len() + frame(record@).len() > old(self).max_size(),
                        _ => false,
                    }
                },
            },
    {
        let mut scratch: Vec<u8> = Vec::new();
        match record.encode(&mut scratch) {
            Err(e) => {
                return Err(WriteError::Encode(e));
            },
            Ok(_) => {},
        }
        let sum = checksum(scratch.as_slice());
        let mut tail = u32_to_le_bytes(sum);
        scratch.append(&mut tail);
        proof {
            lemma_auto_spec_u32_to_from_le_bytes();
            assert(scratch@ =~= frame(record@));
        }
        if scratch.len() > self.max_size || self.buf.len() > self.max_size - scratch.len() {
            return Err(WriteError::MaxSizeExceeded);
        }
        proof {
            old(self).lemma_whole();
            let rs = old(self).records();
            lemma_frames_push(rs, record@);
            assert forall|i: int| 0 <= i < rs.push(record@).len() implies record_encodable(
                #[trigger] rs.push(record@)[i],
            ) by {
                if i < rs.len() {
                    assert(rs.push(record@)[i] == rs[i]);
                }
            }
            lemma_log_roundtrip(rs.push(record@));
        }
        self.buf.append(&mut scratch);
        Ok(())
    }

    /// The records of the log, in the order written.
    pub fn recover(&self) -> (out: Vec<Record<Vec<u8>, Vec<u8>>>)
        ensures
            records_view(out@) == self.records(),
    {
        recover(self.buf.as_slice())
    }

    /// The bytes written so far.
    pub fn as_bytes(&self) -> (bytes: &Vec<u8>)
        ensures
            bytes@ == self.bytes(),
    {
        &self.buf
    }

    /// Ends writing and hands over the bytes of the log.
    pub fn close(self) -> (bytes: Vec<u8>)
        ensures
            bytes@ == self.bytes(),
    {
        self.buf
    }
}

/// The logs of a vector of files, as plain values.
pub open spec fn files_view(files: Seq<Vec<u8>>) -> Seq<Seq<u8>> {
    Seq::new(files.len(), |i: int| files[i]@)
}

/// The keeper of the log files: those that were closed, oldest first, and the
/// size bound that every new log gets. The place of a file in that order is
/// its generation.
#[derive(Debug)]
pub struct WalManager {
    max_wal_size: usize,
    closed: Vec<Vec<u8>>,
}

impl WalManager {
    /// The closed files, oldest first.
    pub closed spec fn files(&self) -> Seq<Seq<u8>> {
        files_view(self.closed@)
    }

    /// The size bound of every log that this manager creates.
    pub closed spec fn max_wal_size(&self) -> usize {
        self.max_wal_size
    }

    /// A manager over the files that exist already, oldest first.
    pub fn new(files: Vec<Vec<u8>>, max_wal_size: usize) -> (r: Self)
        ensures
            r.files() == files_view(files@),
            r.max_wal_size() == max_wal_size,
    {
        WalManager { max_wal_size, closed: files }
    }

    /// Opens a new, empty log with the manager's size bound.
    pub fn create_wal_file(&self) -> (r: WalFile)
        ensures
            r.wf(),
            r.bytes() == Seq::<u8>::empty(),
            r.records() == Seq::<RecordView>::empty(),
            r.max_size() == self.max_wal_size(),
    {
        WalFile::new(self.max_wal_size)
    }

    /// The closed files, oldest first.
    pub fn list(&self) -> (r: &Vec<Vec<u8>>)
        ensures
            files_view(r@) == self.files(),
    {
        &self.closed
    }

    /// Reads the records of a file, up to the first frame that fails.
    pub fn pack_wal_file(&self, file: &Vec<u8>) -> (out: Vec<Record<Vec<u8>, Vec<u8>>>)
        ensures
            records_view(out@) == parse_log(file@),
    {
        recover(file.as_slice())
    }

    /// Closes `file` and keeps its bytes as the newest closed file.
    pub fn seal(&mut self, file: WalFile)
        ensures
            final(self).files() == old(self).files().push(file.bytes()),
            final(self).max_wal_size() == old(self).max_wal_size(),
    {
        let bytes = file.close();
        self.closed.push(bytes);
        proof {
            assert(final(self).files() =~= old(self).files().push(file.bytes()));
        }
    }
}

} // verus!
