use bsm_trail::error::FramingError;
use bsm_trail::framer::next_record;
use bsm_trail::framer::Framed;
use bsm_trail::record::decode_record;
use bsm_trail::error::HeaderError;
use bsm_trail::error::TokenDecodeError;
use bsm_trail::reader::TrailReader;
use bsm_trail::identity::IdentityTable;
use bsm_trail::log::LogLevel;
use bsm_trail::record::AuditRecord;
use bsm_trail::record::RecordStatus;
use bsm_trail::token::SubjectIds;
use bsm_trail::token::SubjectNames;
use bsm_trail::token::Token;
use bsm_trail::trail::decode_trail;
use bsm_trail::trail::next_event;
use bsm_trail::trail::TrailEvent;
use bsm_trail::trail::DEFAULT_RESCAN_WINDOW;
use byteorder::BigEndian;
use byteorder::WriteBytesExt;

fn record(version: u8, event: u16, tokens: &[Vec<u8>]) -> Vec<u8> {
    let body: usize = tokens.iter().map(|token| token.len()).sum();
    let total = (18 + body + 7) as u32;
    let mut bytes = vec![0x14];
    bytes.write_u32::<BigEndian>(total).unwrap();
    bytes.push(version);
    bytes.write_u16::<BigEndian>(event).unwrap();
    bytes.write_u16::<BigEndian>(0).unwrap();
    bytes.write_u32::<BigEndian>(1_700_000_000).unwrap();
    bytes.write_u32::<BigEndian>(5).unwrap();
    for token in tokens {
        bytes.extend_from_slice(token);
    }
    bytes.extend([0x13, 0xb1, 0x05]);
    bytes.write_u32::<BigEndian>(total).unwrap();
    bytes
}

fn subject(ids: &SubjectIds) -> Vec<u8> {
    let mut bytes = vec![0x24];
    for id in [
        ids.audit_uid,
        ids.effective_uid,
        ids.effective_gid,
        ids.real_uid,
        ids.real_gid,
        ids.pid,
        ids.session_id,
        ids.terminal_port as u32,
        ids.terminal_address,
    ] {
        bytes.write_u32::<BigEndian>(id).unwrap();
    }
    bytes
}

fn ids() -> SubjectIds {
    SubjectIds {
        audit_uid: 501,
        effective_uid: 0,
        effective_gid: 20,
        real_uid: 9999,
        real_gid: 80,
        pid: 77,
        session_id: 88,
        terminal_port: 99,
        terminal_address: 0x7f00_0001,
    }
}

fn table() -> IdentityTable {
    let passwd = vec![
        "root:*:0:0:System Administrator:/var/root:/bin/sh".to_string(),
        "alice:x:501:20:Alice:/home/alice:/bin/sh".to_string(),
    ];
    let group = vec!["wheel:*:0:root".to_string(), "staff:*:20:root".to_string()];
    IdentityTable::load(&passwd, &group)
}

fn records_of(events: &[TrailEvent]) -> Vec<&AuditRecord> {
    events
        .iter()
        .filter_map(|event| match event {
            TrailEvent::Record { record, .. } => Some(record),
            _ => None,
        })
        .collect()
}

#[test]
fn empty_trail_gives_no_event() {
    assert!(decode_trail(Vec::new(), &IdentityTable::empty(), DEFAULT_RESCAN_WINDOW).is_empty());
}

#[test]
fn records_come_out_in_trail_order_with_their_offsets() {
    let mut data = record(1, 10, &[]);
    data.extend(record(2, 11, &[vec![0x27, 0, 0, 0, 0, 1]]));
    data.extend(record(1, 12, &[]));
    let events = decode_trail(data, &IdentityTable::empty(), DEFAULT_RESCAN_WINDOW);
    assert_eq!(events.len(), 3);
    let mut seen = Vec::new();
    for event in &events {
        match event {
            TrailEvent::Record { offset, record } => {
                assert_eq!(record.status, RecordStatus::Complete);
                assert_eq!(record.consumed_len(), record.header.byte_count);
                seen.push((*offset, record.header.event_type, record.header.byte_count));
            },
            other => panic!("{:?}", other),
        }
    }
    assert_eq!(seen, vec![(0, 10, 25), (25, 11, 31), (56, 12, 25)]);
}

#[test]
fn unknown_leading_tag_is_skipped_and_decoding_resumes() {
    let mut data = vec![0xff];
    data.extend(record(1, 10, &[]));
    let events = decode_trail(data, &IdentityTable::empty(), DEFAULT_RESCAN_WINDOW);
    assert_eq!(events.len(), 2);
    assert_eq!(
        events[0],
        TrailEvent::Skipped { offset: 0, error: FramingError::UnknownRecordTag, skipped: 1 }
    );
    match &events[1] {
        TrailEvent::Record { offset, record } => {
            assert_eq!(*offset, 1);
            assert_eq!(record.header.event_type, 10);
            assert_eq!(record.status, RecordStatus::Complete);
        },
        other => panic!("{:?}", other),
    }
}

#[test]
fn garbage_between_records_is_skipped() {
    let mut data = record(1, 10, &[]);
    data.extend([0x00, 0x01, 0x02, 0x13, 0x28]);
    data.extend(record(1, 11, &[]));
    let events = decode_trail(data, &IdentityTable::empty(), DEFAULT_RESCAN_WINDOW);
    assert_eq!(events.len(), 3);
    assert_eq!(
        events[1],
        TrailEvent::Skipped { offset: 25, error: FramingError::UnknownRecordTag, skipped: 5 }
    );
    let records = records_of(&events);
    assert_eq!(records.len(), 2);
    assert_eq!(records[1].header.event_type, 11);
}

#[test]
fn unknown_token_tag_costs_one_record_only() {
    let mut data = record(1, 10, &[vec![0x28, 0, 1, b'a'], vec![0xff; 9]]);
    data.extend(record(1, 11, &[]));
    let events = decode_trail(data, &IdentityTable::empty(), DEFAULT_RESCAN_WINDOW);
    let records = records_of(&events);
    assert_eq!(events.len(), 2);
    assert_eq!(records.len(), 2);
    assert_eq!(
        records[0].status,
        RecordStatus::TokenError { error: TokenDecodeError::UnknownTokenTag, at: 22 }
    );
    assert_eq!(records[0].tokens, vec![Token::Text { tag: 0x28, text: vec![b'a'] }]);
    assert_eq!(records[1].status, RecordStatus::Complete);
    assert_eq!(records[1].header.event_type, 11);
}

#[test]
fn truncated_record_yields_no_record() {
    let mut data = vec![0x14];
    data.write_u32::<BigEndian>(40).unwrap();
    data.extend([1, 0, 0, 0, 0]);
    let events = decode_trail(data, &IdentityTable::empty(), DEFAULT_RESCAN_WINDOW);
    assert_eq!(
        events,
        vec![TrailEvent::Abandoned { offset: 0, error: FramingError::TruncatedRecordError }]
    );
    assert!(records_of(&events).is_empty());
}

#[test]
fn truncated_tail_after_sound_records() {
    let mut data = record(1, 10, &[]);
    let mut cut = record(1, 11, &[vec![0x28, 0, 2, b'h', b'i']]);
    cut.truncate(20);
    data.extend(cut);
    let events = decode_trail(data, &IdentityTable::empty(), DEFAULT_RESCAN_WINDOW);
    assert_eq!(events.len(), 2);
    assert_eq!(records_of(&events).len(), 1);
    assert_eq!(
        events[1],
        TrailEvent::Abandoned { offset: 25, error: FramingError::TruncatedRecordError }
    );
}

#[test]
fn invalid_length_resumes_at_the_next_tag() {
    let mut data = vec![0x14, 0, 0, 0, 3, 9, 9];
    data.extend(record(2, 12, &[]));
    let events = decode_trail(data, &IdentityTable::empty(), DEFAULT_RESCAN_WINDOW);
    assert_eq!(events.len(), 2);
    assert_eq!(
        events[0],
        TrailEvent::Skipped { offset: 0, error: FramingError::InvalidRecordLength, skipped: 7 }
    );
    assert_eq!(records_of(&events)[0].header.event_type, 12);
}

#[test]
fn window_bounds_the_search() {
    let mut data = vec![0xff; 9];
    data.extend(record(1, 10, &[]));
    let found = decode_trail(data.clone(), &IdentityTable::empty(), 9);
    assert_eq!(found.len(), 2);
    assert_eq!(
        found[0],
        TrailEvent::Skipped { offset: 0, error: FramingError::UnknownRecordTag, skipped: 9 }
    );
    let lost = decode_trail(data, &IdentityTable::empty(), 8);
    assert_eq!(
        lost,
        vec![TrailEvent::Abandoned { offset: 0, error: FramingError::UnknownRecordTag }]
    );
}

#[test]
fn refused_header_drops_the_record_and_goes_on() {
    let mut data = record(3, 10, &[]);
    data.extend(record(1, 11, &[]));
    let events = decode_trail(data, &IdentityTable::empty(), DEFAULT_RESCAN_WINDOW);
    assert_eq!(events.len(), 2);
    assert_eq!(
        events[0],
        TrailEvent::Rejected { offset: 0, reason: HeaderError::UnsupportedVersion }
    );
    match &events[1] {
        TrailEvent::Record { offset, record } => {
            assert_eq!(*offset, 25);
            assert_eq!(record.header.event_type, 11);
        },
        other => panic!("{:?}", other),
    }
}

#[test]
fn subjects_get_the_names_the_tables_know() {
    let who = ids();
    let data = record(1, 10, &[subject(&who), vec![0x27, 0, 0, 0, 0, 0]]);
    let events = decode_trail(data, &table(), DEFAULT_RESCAN_WINDOW);
    let records = records_of(&events);
    assert_eq!(records.len(), 1);
    assert_eq!(records[0].status, RecordStatus::Complete);
    assert_eq!(
        records[0].tokens[0],
        Token::Subject {
            tag: 0x24,
            ids: who,
            names: SubjectNames {
                audit_user: Some("alice".to_string()),
                effective_user: Some("root".to_string()),
                effective_group: Some("staff".to_string()),
                real_user: None,
                real_group: None,
            },
        }
    );
    assert_eq!(records[0].tokens[1], Token::Return { tag: 0x27, status: 0, value: 0 });
    assert_eq!(records[0].consumed_len(), records[0].header.byte_count);
}

#[test]
fn enrichment_with_an_empty_table_changes_nothing() {
    let who = ids();
    let data = record(1, 10, &[subject(&who)]);
    let events = decode_trail(data.clone(), &IdentityTable::empty(), DEFAULT_RESCAN_WINDOW);
    let mut reader = TrailReader::new(data);
    let raw = match next_record(&mut reader) {
        Ok(Framed::Record(raw)) => raw,
        _ => panic!("no record"),
    };
    let plain = decode_record(&raw).unwrap();
    assert_eq!(records_of(&events), vec![&plain]);
}

#[test]
fn enrich_replaces_names_and_keeps_ids() {
    let who = ids();
    let data = record(1, 10, &[subject(&who), vec![0x28, 0, 1, b'x']]);
    let mut reader = TrailReader::new(data);
    let raw = match next_record(&mut reader) {
        Ok(Framed::Record(raw)) => raw,
        _ => panic!("no record"),
    };
    let mut record = decode_record(&raw).unwrap();
    let before = record.clone();
    record.enrich(&table());
    let once = record.clone();
    record.enrich(&table());
    assert_eq!(record, once);
    assert_eq!(record.header, before.header);
    assert_eq!(record.status, before.status);
    assert_eq!(record.tokens.len(), before.tokens.len());
    assert_eq!(record.tokens[1], before.tokens[1]);
    match (&record.tokens[0], &before.tokens[0]) {
        (Token::Subject { ids: after, names, .. }, Token::Subject { ids: earlier, .. }) => {
            assert_eq!(after, earlier);
            assert_eq!(names.audit_user.as_deref(), Some("alice"));
        },
        other => panic!("{:?}", other),
    }
    record.enrich(&IdentityTable::empty());
    assert_eq!(record, before);
}

#[test]
fn next_event_steps_through_a_trail() {
    let mut data = record(1, 10, &[]);
    data.push(0xff);
    let table = IdentityTable::empty();
    let mut reader = TrailReader::new(data);
    assert!(matches!(next_event(&mut reader, &table, 4), Some(TrailEvent::Record { offset: 0, .. })));
    assert_eq!(reader.offset(), 25);
    assert_eq!(
        next_event(&mut reader, &table, 4),
        Some(TrailEvent::Abandoned { offset: 25, error: FramingError::UnknownRecordTag })
    );
    assert_eq!(reader.offset(), 26);
    assert_eq!(next_event(&mut reader, &table, 4), None);
    assert_eq!(next_event(&mut reader, &table, 4), None);
}

#[test]
fn events_carry_their_level() {
    let mut data = record(1, 10, &[]);
    data.extend(record(1, 11, &[vec![0xff]]));
    data.extend(record(7, 12, &[]));
    let mut mismatched = record(1, 13, &[]);
    let last = mismatched.len() - 1;
    mismatched[last] = 0;
    data.extend(mismatched);
    data.push(0x00);
    data.extend(record(1, 14, &[]));
    data.extend([0x14, 0, 0]);
    let events = decode_trail(data, &IdentityTable::empty(), DEFAULT_RESCAN_WINDOW);
    let levels: Vec<LogLevel> = events.iter().map(|event| event.level()).collect();
    assert_eq!(
        levels,
        vec![
            LogLevel::Debug,
            LogLevel::Error,
            LogLevel::Error,
            LogLevel::Warning,
            LogLevel::Error,
            LogLevel::Debug,
            LogLevel::Critical,
        ]
    );
    assert!(matches!(events[2], TrailEvent::Rejected { .. }));
    assert!(matches!(events[4], TrailEvent::Skipped { .. }));
    assert!(matches!(events[6], TrailEvent::Abandoned { .. }));
}

#[test]
fn levels_are_ordered_from_debug_to_critical() {
    let levels = [
        LogLevel::Debug,
        LogLevel::Info,
        LogLevel::Warning,
        LogLevel::Error,
        LogLevel::Critical,
    ];
    for (i, a) in levels.iter().enumerate() {
        assert_eq!(a.rank() as usize, i);
        for (j, b) in levels.iter().enumerate() {
            assert_eq!(a.admits(*b), i <= j);
            assert_eq!(a < b, i < j);
        }
    }
    assert!(LogLevel::Error.admits(LogLevel::Critical));
    assert!(LogLevel::Error.admits(LogLevel::Error));
    assert!(!LogLevel::Error.admits(LogLevel::Warning));
}
