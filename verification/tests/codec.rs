use elsm::record::{DecodeError, Record, RecordType};
use elsm::serdes::{
    bytes_size, decode_bytes, decode_option, decode_u64, encode_bytes, encode_option, encode_u64,
    option_size, CodecError,
};
use elsm::user::User;
use elsm::wal::{decode_frame, recover, WalFile, WalManager, WriteError};

fn bytes(s: &str) -> Vec<u8> {
    s.as_bytes().to_vec()
}

const PAYLOAD: [u8; 26] = [
    0, 3, 0, 0, 0, 107, 101, 121, 0, 0, 0, 0, 0, 0, 0, 0, 1, 5, 0, 0, 0, 118, 97, 108, 117, 101,
];

#[test]
fn timestamp_is_eight_bytes_little_endian() {
    let mut sink = vec![9];
    encode_u64(0x0102030405060708, &mut sink);
    assert_eq!(sink, vec![9, 8, 7, 6, 5, 4, 3, 2, 1]);
    assert_eq!(decode_u64(&sink, 1), Ok((0x0102030405060708, 9)));
    assert_eq!(decode_u64(&sink, 2), Err(CodecError::UnexpectedEnd));
    assert_eq!(decode_u64(&sink, 9), Err(CodecError::UnexpectedEnd));
}

#[test]
fn byte_string_is_length_prefixed() {
    let mut sink = Vec::new();
    encode_bytes(&bytes("ab"), &mut sink).unwrap();
    assert_eq!(sink, vec![2, 0, 0, 0, 97, 98]);
    assert_eq!(bytes_size(&bytes("ab")), 6);
    assert_eq!(decode_bytes(&sink, 0), Ok((bytes("ab"), 6)));
    assert_eq!(decode_bytes(&sink[..5], 0), Err(CodecError::UnexpectedEnd));
    assert_eq!(decode_bytes(&sink[..3], 0), Err(CodecError::UnexpectedEnd));
    let mut empty = Vec::new();
    encode_bytes(&Vec::new(), &mut empty).unwrap();
    assert_eq!(empty, vec![0, 0, 0, 0]);
    assert_eq!(decode_bytes(&empty, 0), Ok((Vec::new(), 4)));
}

#[test]
fn option_is_tagged() {
    let mut sink = Vec::new();
    encode_option(None, &mut sink).unwrap();
    encode_option(Some(&bytes("x")), &mut sink).unwrap();
    assert_eq!(sink, vec![0, 1, 1, 0, 0, 0, 120]);
    assert_eq!(option_size(None), 1);
    assert_eq!(option_size(Some(&bytes("x"))), 6);
    assert_eq!(decode_option(&sink, 0), Ok((None, 1)));
    assert_eq!(decode_option(&sink, 1), Ok((Some(bytes("x")), 7)));
    assert_eq!(decode_option(&sink, 7), Err(CodecError::UnexpectedEnd));
    assert_eq!(decode_option(&[2u8], 0), Err(CodecError::InvalidTag));
    assert_eq!(decode_option(&[1u8, 9], 0), Err(CodecError::UnexpectedEnd));
}

#[test]
fn record_layout_is_type_key_timestamp_value() {
    let record = Record::new(RecordType::Full, bytes("key"), 0, Some(bytes("value")));
    let mut sink = Vec::new();
    record.encode(&mut sink).unwrap();
    assert_eq!(sink, PAYLOAD.to_vec());
    assert_eq!(record.size(), 26);
    assert_eq!(record.as_ref().size(), 26);

    let (back, next) = Record::decode(&sink, 0).unwrap();
    assert_eq!(next, 26);
    assert_eq!(back.record_type, RecordType::Full);
    assert_eq!(back.key, bytes("key"));
    assert_eq!(back.ts, 0);
    assert_eq!(back.value, Some(bytes("value")));

    let tombstone = Record::new(RecordType::Last, bytes("k"), 258, None);
    let mut sink = Vec::new();
    tombstone.as_ref().encode(&mut sink).unwrap();
    assert_eq!(sink, vec![3, 1, 0, 0, 0, 107, 2, 1, 0, 0, 0, 0, 0, 0, 0]);
}

#[test]
fn record_decode_names_the_part_that_failed() {
    let err = |src: &[u8]| Record::decode(src, 0).err();
    assert_eq!(err(&[]), Some(DecodeError::Io(CodecError::UnexpectedEnd)));
    assert_eq!(err(&[4]), Some(DecodeError::Io(CodecError::InvalidTag)));
    assert_eq!(
        err(&PAYLOAD[..4]),
        Some(DecodeError::Key(CodecError::UnexpectedEnd))
    );
    assert_eq!(
        err(&PAYLOAD[..10]),
        Some(DecodeError::Timetamp(CodecError::UnexpectedEnd))
    );
    assert_eq!(
        err(&PAYLOAD[..20]),
        Some(DecodeError::Value(CodecError::UnexpectedEnd))
    );
    let mut bad = PAYLOAD.to_vec();
    bad[16] = 7;
    assert_eq!(err(&bad), Some(DecodeError::Value(CodecError::InvalidTag)));
}

#[test]
fn record_type_bytes() {
    for (b, t) in [
        (0u8, RecordType::Full),
        (1, RecordType::First),
        (2, RecordType::Middle),
        (3, RecordType::Last),
    ] {
        assert_eq!(RecordType::from(b), t);
        assert_eq!(t.to_byte(), b);
        assert_eq!(RecordType::try_from_byte(b), Some(t));
    }
    assert_eq!(RecordType::try_from_byte(4), None);
    assert_eq!(RecordType::try_from_byte(255), None);
}

#[test]
fn frame_ends_with_checksum_of_payload() {
    let mut wal = WalFile::new(1024);
    let key = bytes("key");
    let value = bytes("value");
    wal.write(Record::new(RecordType::Full, &key, 0, Some(&value)))
        .unwrap();
    let file = wal.close();
    assert_eq!(file.len(), 30);
    assert_eq!(&file[..26], &PAYLOAD[..]);
    assert_eq!(&file[26..], &[108, 118, 199, 123]);
    assert_eq!(&file[26..], &crc32fast::hash(&PAYLOAD).to_le_bytes());
}

#[test]
fn log_refuses_append_beyond_bound_and_writes_nothing() {
    let key = bytes("key");
    let value = bytes("value");
    let mut wal = WalFile::new(59);
    assert_eq!(
        wal.write(Record::new(RecordType::Full, &key, 0, Some(&value))),
        Ok(())
    );
    assert_eq!(wal.len(), 30);
    assert_eq!(
        wal.write(Record::new(RecordType::Full, &key, 1, Some(&value))),
        Err(WriteError::MaxSizeExceeded)
    );
    assert_eq!(wal.len(), 30);
    assert_eq!(wal.recover().len(), 1);

    let mut exact = WalFile::new(60);
    exact
        .write(Record::new(RecordType::Full, &key, 0, Some(&value)))
        .unwrap();
    exact
        .write(Record::new(RecordType::Full, &key, 1, Some(&value)))
        .unwrap();
    assert_eq!(exact.len(), 60);
    let records = exact.recover();
    assert_eq!(records.len(), 2);
    assert_eq!(records[1].ts, 1);
}

#[test]
fn recovery_stops_at_first_bad_frame() {
    let mut wal = WalFile::new(usize::MAX);
    for i in 0..3u64 {
        let key = format!("k{i}").into_bytes();
        wal.write(Record::new(RecordType::Full, &key, i, None))
            .unwrap();
    }
    let file = wal.close();
    let one = file.len() / 3;
    assert_eq!(recover(&file).len(), 3);

    let mut flipped = file.clone();
    flipped[one + 6] ^= 0x01;
    let records = recover(&flipped);
    assert_eq!(records.len(), 1);
    assert_eq!(records[0].key, b"k0".to_vec());

    let mut bad_sum = file.clone();
    let last = bad_sum.len() - 1;
    bad_sum[last] ^= 0x80;
    assert_eq!(recover(&bad_sum).len(), 2);

    assert_eq!(recover(&file[..file.len() - 1]).len(), 2);
    assert_eq!(recover(&file[..one]).len(), 1);
    assert_eq!(recover(&[]).len(), 0);
    assert!(decode_frame(&file, one).is_some());
    assert_eq!(decode_frame(&file, one).unwrap().1, 2 * one);
    assert!(decode_frame(&file, 1).is_none());
}

#[test]
fn manager_keeps_closed_files_in_order() {
    let mut manager = WalManager::new(vec![vec![1, 2, 3]], 64);
    let mut wal = manager.create_wal_file();
    assert_eq!(wal.len(), 0);
    let key = bytes("k");
    wal.write(Record::new(RecordType::Full, &key, 5, None)).unwrap();
    let written = wal.as_bytes().clone();
    manager.seal(wal);
    assert_eq!(manager.list(), &vec![vec![1, 2, 3], written.clone()]);
    assert_eq!(manager.pack_wal_file(&written).len(), 1);
    assert_eq!(manager.pack_wal_file(&vec![1, 2, 3]).len(), 0);
    let mut small = manager.create_wal_file();
    let long = vec![0u8; 64];
    assert_eq!(
        small.write(Record::new(RecordType::Full, &long, 5, None)),
        Err(WriteError::MaxSizeExceeded)
    );
}

#[test]
fn user_round_trip() {
    let user = User::new(7, "grüße".to_string());
    assert_eq!(user.primary_key(), 7);
    let mut sink = Vec::new();
    user.encode(&mut sink).unwrap();
    assert_eq!(&sink[..8], &7u64.to_le_bytes());
    assert_eq!(&sink[8..12], &7u32.to_le_bytes());
    assert_eq!(&sink[12..], "grüße".as_bytes());
    let (back, next) = User::decode(&sink, 0).unwrap();
    assert_eq!(next, sink.len());
    assert_eq!(back.inner.id, 7);
    assert_eq!(back.inner.name, "grüße");
    let shared = back.clone();
    assert_eq!(shared.inner.name, "grüße");

    let mut broken = sink.clone();
    broken[13] = 0xff;
    assert_eq!(User::decode(&broken, 0).err(), Some(CodecError::InvalidText));
    assert_eq!(
        User::decode(&sink[..sink.len() - 1], 0).err(),
        Some(CodecError::UnexpectedEnd)
    );
    assert_eq!(
        User::decode(&sink[..5], 0).err(),
        Some(CodecError::UnexpectedEnd)
    );
}
