use bsm_trail::error::FramingError;
use bsm_trail::framer::next_record;
use bsm_trail::framer::resync;
use bsm_trail::framer::Framed;
use bsm_trail::framer::RawRecord;
use bsm_trail::reader::TrailReader;
use bsm_trail::framer::MAX_RECORD_SIZE;
use byteorder::BigEndian;
use byteorder::WriteBytesExt;

fn header32(byte_count: u32, version: u8, event: u16, modifier: u16, s: u32, ms: u32) -> Vec<u8> {
    let mut bytes = vec![0x14];
    bytes.write_u32::<BigEndian>(byte_count).unwrap();
    bytes.push(version);
    bytes.write_u16::<BigEndian>(event).unwrap();
    bytes.write_u16::<BigEndian>(modifier).unwrap();
    bytes.write_u32::<BigEndian>(s).unwrap();
    bytes.write_u32::<BigEndian>(ms).unwrap();
    bytes
}

fn trailer(byte_count: u32) -> Vec<u8> {
    let mut bytes = vec![0x13, 0xb1, 0x05];
    bytes.write_u32::<BigEndian>(byte_count).unwrap();
    bytes
}

fn small_record(event: u16) -> Vec<u8> {
    let mut bytes = header32(25, 1, event, 0, 100, 200);
    bytes.extend(trailer(25));
    bytes
}

fn expect_record(outcome: Result<Framed, FramingError>) -> RawRecord {
    match outcome {
        Ok(Framed::Record(raw)) => raw,
        Ok(Framed::EndOfTrail) => panic!("end of trail"),
        Err(error) => panic!("{:?}", error),
    }
}

#[test]
fn empty_trail_ends_at_once() {
    let mut reader = TrailReader::new(Vec::new());
    assert!(reader.is_at_end());
    assert!(matches!(next_record(&mut reader), Ok(Framed::EndOfTrail)));
    assert_eq!(reader.offset(), 0);
}

#[test]
fn frames_one_record_then_ends() {
    let bytes = small_record(7);
    let mut reader = TrailReader::new(bytes.clone());
    assert_eq!(reader.remaining(), 25);
    let raw = expect_record(next_record(&mut reader));
    assert_eq!(raw.as_bytes(), &bytes[..]);
    assert_eq!(raw.byte_count(), 25);
    assert_eq!(raw.tag(), 0x14);
    assert_eq!(reader.offset(), 25);
    assert_eq!(reader.remaining(), 0);
    assert!(reader.is_at_end());
    assert!(matches!(next_record(&mut reader), Ok(Framed::EndOfTrail)));
    assert_eq!(reader.offset(), 25);
}

#[test]
fn frames_records_back_to_back() {
    let mut bytes = small_record(1);
    bytes.extend(small_record(2));
    bytes.extend(small_record(3));
    let mut reader = TrailReader::new(bytes.clone());
    for k in 0..3 {
        assert_eq!(reader.offset(), 25 * k);
        let raw = expect_record(next_record(&mut reader));
        assert_eq!(raw.as_bytes(), &bytes[25 * k..25 * (k + 1)]);
    }
    assert!(matches!(next_record(&mut reader), Ok(Framed::EndOfTrail)));
}

#[test]
fn every_record_start_tag_frames() {
    for (tag, least) in [(0x14u8, 18u32), (0x15, 26), (0x74, 26), (0x79, 34)] {
        let mut bytes = vec![tag];
        bytes.write_u32::<BigEndian>(least).unwrap();
        bytes.resize(least as usize, 0);
        let mut reader = TrailReader::new(bytes.clone());
        let raw = expect_record(next_record(&mut reader));
        assert_eq!(raw.as_bytes(), &bytes[..]);
        assert_eq!(raw.tag(), tag);
    }
}

#[test]
fn unknown_leading_tag_is_refused() {
    let mut bytes = vec![0xff];
    bytes.extend(small_record(1));
    let mut reader = TrailReader::new(bytes);
    assert_eq!(next_record(&mut reader).err(), Some(FramingError::UnknownRecordTag));
    assert_eq!(reader.offset(), 0);
}

#[test]
fn token_tag_does_not_start_a_record() {
    for tag in [0x13u8, 0x21, 0x23, 0x24, 0x27, 0x28, 0x72, 0x75, 0x00] {
        let mut bytes = vec![tag];
        bytes.extend(small_record(1));
        let mut reader = TrailReader::new(bytes);
        assert_eq!(next_record(&mut reader).err(), Some(FramingError::UnknownRecordTag));
    }
}

#[test]
fn declared_forty_with_ten_available_is_truncated() {
    let mut bytes = vec![0x14];
    bytes.write_u32::<BigEndian>(40).unwrap();
    bytes.extend([1, 0, 0, 0, 0]);
    assert_eq!(bytes.len(), 10);
    let mut reader = TrailReader::new(bytes);
    assert_eq!(next_record(&mut reader).err(), Some(FramingError::TruncatedRecordError));
    assert_eq!(reader.offset(), 0);
}

#[test]
fn one_byte_short_is_truncated() {
    let mut bytes = small_record(1);
    bytes.pop();
    let mut reader = TrailReader::new(bytes);
    assert_eq!(next_record(&mut reader).err(), Some(FramingError::TruncatedRecordError));
}

#[test]
fn tag_without_length_is_truncated() {
    for available in 1..5 {
        let bytes = vec![0x14, 0, 0, 0][..available].to_vec();
        let mut reader = TrailReader::new(bytes);
        assert_eq!(next_record(&mut reader).err(), Some(FramingError::TruncatedRecordError));
    }
}

#[test]
fn length_below_the_header_is_invalid() {
    for (tag, least) in [(0x14u8, 18u32), (0x15, 26), (0x74, 26), (0x79, 34)] {
        let mut bytes = vec![tag];
        bytes.write_u32::<BigEndian>(least - 1).unwrap();
        bytes.resize(64, 0);
        let mut reader = TrailReader::new(bytes);
        assert_eq!(next_record(&mut reader).err(), Some(FramingError::InvalidRecordLength));
        assert_eq!(reader.offset(), 0);
    }
}

#[test]
fn length_above_the_limit_is_invalid() {
    assert_eq!(MAX_RECORD_SIZE, 32767);
    let mut bytes = vec![0x14];
    bytes.write_u32::<BigEndian>(MAX_RECORD_SIZE + 1).unwrap();
    bytes.resize(40000, 0);
    let mut reader = TrailReader::new(bytes);
    assert_eq!(next_record(&mut reader).err(), Some(FramingError::InvalidRecordLength));
    let mut huge = vec![0x14, 0xff, 0xff, 0xff, 0xff];
    huge.resize(32, 0);
    let mut reader = TrailReader::new(huge);
    assert_eq!(next_record(&mut reader).err(), Some(FramingError::InvalidRecordLength));
}

#[test]
fn longest_record_frames() {
    let mut bytes = vec![0x14];
    bytes.write_u32::<BigEndian>(MAX_RECORD_SIZE).unwrap();
    bytes.resize(MAX_RECORD_SIZE as usize, 0);
    let mut reader = TrailReader::new(bytes);
    let raw = expect_record(next_record(&mut reader));
    assert_eq!(raw.byte_count(), MAX_RECORD_SIZE);
    assert!(reader.is_at_end());
}

#[test]
fn invalid_length_is_reported_before_truncation() {
    let mut bytes = vec![0x14];
    bytes.write_u32::<BigEndian>(5).unwrap();
    let mut reader = TrailReader::new(bytes);
    assert_eq!(next_record(&mut reader).err(), Some(FramingError::InvalidRecordLength));
}

#[test]
fn resync_finds_the_next_record_start() {
    let mut bytes = vec![0xff, 0x00, 0x13, 0x01];
    bytes.extend(small_record(9));
    let mut reader = TrailReader::new(bytes.clone());
    assert_eq!(next_record(&mut reader).err(), Some(FramingError::UnknownRecordTag));
    assert_eq!(resync(&mut reader, 16), Some(4));
    assert_eq!(reader.offset(), 4);
    let raw = expect_record(next_record(&mut reader));
    assert_eq!(raw.as_bytes(), &bytes[4..]);
}

#[test]
fn resync_never_stays_in_place() {
    let mut bytes = small_record(1);
    bytes.extend(small_record(2));
    let mut reader = TrailReader::new(bytes);
    assert_eq!(resync(&mut reader, 100), Some(25));
    assert_eq!(reader.offset(), 25);
}

#[test]
fn resync_stops_at_the_first_tag_even_inside_a_record() {
    let bytes = vec![0xff, 0x01, 0x74, 0x14, 0x15];
    let mut reader = TrailReader::new(bytes);
    assert_eq!(resync(&mut reader, 10), Some(2));
    assert_eq!(resync(&mut reader, 10), Some(1));
    assert_eq!(resync(&mut reader, 10), Some(1));
    assert_eq!(reader.offset(), 4);
    assert_eq!(resync(&mut reader, 10), None);
    assert_eq!(reader.offset(), 4);
}

#[test]
fn resync_respects_its_window() {
    let mut bytes = vec![0xff; 10];
    bytes.extend(small_record(1));
    let mut reader = TrailReader::new(bytes.clone());
    assert_eq!(resync(&mut reader, 9), None);
    assert_eq!(reader.offset(), 0);
    assert_eq!(resync(&mut reader, 0), None);
    assert_eq!(resync(&mut reader, 10), Some(10));
    assert_eq!(reader.offset(), 10);
    let mut reader = TrailReader::new(bytes);
    assert_eq!(resync(&mut reader, usize::MAX), Some(10));
}

#[test]
fn resync_at_the_end_finds_nothing() {
    let mut reader = TrailReader::new(Vec::new());
    assert_eq!(resync(&mut reader, 100), None);
    let mut reader = TrailReader::new(vec![0xff]);
    assert_eq!(resync(&mut reader, 100), None);
    assert_eq!(reader.offset(), 0);
}

#[test]
fn abandon_moves_to_the_end() {
    let mut reader = TrailReader::new(vec![0xff, 1, 2, 3]);
    reader.abandon();
    assert_eq!(reader.offset(), 4);
    assert!(reader.is_at_end());
    assert!(matches!(next_record(&mut reader), Ok(Framed::EndOfTrail)));
}

#[test]
fn peek_looks_ahead_without_consuming() {
    let mut reader = TrailReader::new(vec![10, 11, 12, 13, 14, 15]);
    assert_eq!(reader.peek(0), Some(10));
    assert_eq!(reader.peek(5), Some(15));
    assert_eq!(reader.peek(6), None);
    assert_eq!(reader.peek(usize::MAX), None);
    assert_eq!(reader.peek_u32(0), Some(0x0a0b_0c0d));
    assert_eq!(reader.peek_u32(2), Some(0x0c0d_0e0f));
    assert_eq!(reader.peek_u32(3), None);
    assert_eq!(reader.peek_u32(usize::MAX), None);
    assert_eq!(reader.offset(), 0);
    assert!(reader.advance(2));
    assert_eq!(reader.peek(0), Some(12));
    assert_eq!(reader.peek(3), Some(15));
    assert_eq!(reader.peek(4), None);
    assert_eq!(reader.peek_u32(0), Some(0x0c0d_0e0f));
    assert_eq!(reader.peek_u32(1), None);
    assert_eq!(reader.offset(), 2);
}

#[test]
fn take_consumes_exactly_what_it_hands_out() {
    let mut reader = TrailReader::new(vec![1, 2, 3, 4, 5]);
    assert_eq!(reader.take(2), Some(vec![1, 2]));
    assert_eq!(reader.offset(), 2);
    assert_eq!(reader.take(4), None);
    assert_eq!(reader.offset(), 2);
    assert_eq!(reader.take(0), Some(Vec::new()));
    assert_eq!(reader.take(3), Some(vec![3, 4, 5]));
    assert!(reader.is_at_end());
    assert_eq!(reader.take(1), None);
    assert_eq!(reader.take(0), Some(Vec::new()));
}

#[test]
fn advance_moves_only_inside_the_trail() {
    let mut reader = TrailReader::new(vec![1, 2, 3]);
    assert!(!reader.advance(4));
    assert!(!reader.advance(usize::MAX));
    assert_eq!(reader.offset(), 0);
    assert!(reader.advance(3));
    assert_eq!(reader.offset(), 3);
    assert!(reader.advance(0));
    assert!(!reader.advance(1));
    assert_eq!(reader.remaining(), 0);
}
