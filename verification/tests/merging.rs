use bsm_trail::header::Header;
use bsm_trail::merge::is_earlier;
use bsm_trail::merge::merge_by_timestamp;
use bsm_trail::record::AuditRecord;
use bsm_trail::record::RecordStatus;
use bsm_trail::tags::TimestampWidth;
use bsm_trail::token::Token;

fn header(seconds: u64, millis: u64, event: u16) -> Header {
    Header {
        byte_count: 18,
        version: 1,
        event_type: event,
        event_modifier: 0,
        terminal: None,
        timestamp_seconds: seconds,
        timestamp_millis: millis,
        width: TimestampWidth::Bits64,
    }
}

fn record(seconds: u64, millis: u64, event: u16) -> AuditRecord {
    AuditRecord {
        header: header(seconds, millis, event),
        tokens: vec![Token::Text { tag: 0x28, text: vec![event as u8] }],
        status: RecordStatus::TrailerMismatchError,
    }
}

fn events(records: &[AuditRecord]) -> Vec<u16> {
    records.iter().map(|record| record.event_type()).collect()
}

#[test]
fn earlier_compares_seconds_then_millis() {
    assert!(is_earlier(&header(1, 999, 0), &header(2, 0, 0)));
    assert!(!is_earlier(&header(2, 0, 0), &header(1, 999, 0)));
    assert!(is_earlier(&header(5, 1, 0), &header(5, 2, 0)));
    assert!(!is_earlier(&header(5, 2, 0), &header(5, 1, 0)));
    assert!(!is_earlier(&header(5, 2, 0), &header(5, 2, 1)));
    assert!(is_earlier(&header(0, u64::MAX, 0), &header(1, 0, 0)));
}

#[test]
fn merge_follows_the_timestamps() {
    let a = vec![record(10, 0, 1), record(10, 500, 2), record(30, 0, 3)];
    let b = vec![record(5, 0, 4), record(10, 250, 5), record(20, 0, 6), record(40, 0, 7)];
    let out = merge_by_timestamp(a, b);
    assert_eq!(events(&out), vec![4, 1, 5, 2, 6, 3, 7]);
    for pair in out.windows(2) {
        assert!(!is_earlier(&pair[1].header, &pair[0].header));
    }
}

#[test]
fn merge_keeps_every_record_whole() {
    let a = vec![record(1, 0, 1), record(3, 0, 3)];
    let b = vec![record(2, 0, 2)];
    let out = merge_by_timestamp(a.clone(), b.clone());
    assert_eq!(out, vec![a[0].clone(), b[0].clone(), a[1].clone()]);
}

#[test]
fn merge_with_an_empty_list_is_the_other_list() {
    let a = vec![record(3, 0, 1), record(1, 0, 2)];
    assert_eq!(merge_by_timestamp(a.clone(), Vec::new()), a);
    assert_eq!(merge_by_timestamp(Vec::new(), a.clone()), a);
    assert!(merge_by_timestamp(Vec::new(), Vec::new()).is_empty());
}

#[test]
fn equal_timestamps_take_the_first_list_first() {
    let a = vec![record(7, 7, 1), record(7, 7, 2)];
    let b = vec![record(7, 7, 3), record(7, 7, 4)];
    assert_eq!(events(&merge_by_timestamp(a.clone(), b.clone())), vec![1, 2, 3, 4]);
    assert_eq!(events(&merge_by_timestamp(b, a)), vec![3, 4, 1, 2]);
}

#[test]
fn each_list_keeps_its_own_order() {
    let a = vec![record(9, 0, 1), record(1, 0, 2)];
    let b = vec![record(5, 0, 3)];
    assert_eq!(events(&merge_by_timestamp(a, b)), vec![3, 1, 2]);
}

#[test]
fn record_accessors_read_the_header() {
    let r = AuditRecord {
        header: Header {
            byte_count: 99,
            version: 2,
            event_type: 3,
            event_modifier: 4,
            terminal: None,
            timestamp_seconds: 5,
            timestamp_millis: 6,
            width: TimestampWidth::Bits32,
        },
        tokens: Vec::new(),
        status: RecordStatus::Complete,
    };
    assert_eq!(r.byte_count(), 99);
    assert_eq!(r.version(), 2);
    assert_eq!(r.event_type(), 3);
    assert_eq!(r.event_modifier(), 4);
    assert_eq!(r.timestamp_seconds(), 5);
    assert_eq!(r.timestamp_millis(), 6);
    assert!(!r.is_corrupt());
    assert!(record(1, 1, 1).is_corrupt());
    let corrupt = AuditRecord {
        status: RecordStatus::TokenError {
            error: bsm_trail::error::TokenDecodeError::UnknownTokenTag,
            at: 18,
        },
        ..r
    };
    assert!(corrupt.is_corrupt());
    assert_eq!(Token::Trailer { tag: 0x13, magic: 0xb105, byte_count: 7 }.tag(), 0x13);
    assert_eq!(Token::Text { tag: 0x28, text: Vec::new() }.tag(), 0x28);
}
