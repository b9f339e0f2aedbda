//! Decoding a whole trail.
//!
//! A trail is decoded front to back, one record after the other. A record
//! that frames is decoded and enriched. A framed record whose header does not
//! decode is dropped, and decoding goes on behind it. Where no record can be
//! framed, the decoder looks ahead for the next record-start tag and resumes
//! there; where it finds none within its window, it gives up on what is left.
//! No defect of the trail makes the decoder fail: each one becomes an event in
//! the result.

use crate::enrich::enrich_record;
use crate::enrich::lemma_enrich_preserves;
use crate::error::FramingError;
use crate::error::HeaderError;
use crate::framer::frame_at;
use crate::framer::lemma_first_record_start;
use crate::framer::lemma_frame_is_framed;
use crate::framer::rescan;
use crate::tags::spec_is_record_start;
use crate::framer::Frame;
use crate::framer::Framed;
use crate::framer::next_record;
use crate::framer::resync;
use crate::reader::TrailReader;
use crate::identity::IdentityTable;
use crate::log::LogLevel;
use crate::record::decode_record;
use crate::record::lemma_parsed_record;
use crate::record::parse_record;
use crate::record::AuditRecord;
use crate::record::AuditRecordModel;
use crate::record::RecordStatus;
use vstd::prelude::*;

verus! {

/// The window that callers use when they have no reason for another: as many
/// bytes as the longest record.
pub const DEFAULT_RESCAN_WINDOW: usize = 0x7fff;

/// One step of decoding a trail. `offset` is the absolute offset in the
/// trail at which the step began.
#[derive(Clone, Debug, PartialEq, Eq)]
pub enum TrailEvent {
    /// A record was framed, decoded and enriched. Its status tells whether
    /// it is sound.
    Record { offset: usize, record: AuditRecord },
    /// A record was framed, but its header did not decode. The record was
    /// dropped.
    Rejected { offset: usize, reason: HeaderError },
    /// No record could be framed at `offset`. Decoding resumed `skipped`
    /// bytes further on, at the next record-start tag.
    Skipped { offset: usize, error: FramingError, skipped: usize },
    /// No record could be framed at `offset`, and no record-start tag was
    /// found in the window behind it. The rest of the trail was given up.
    Abandoned { offset: usize, error: FramingError },
}

/// Model of a [`TrailEvent`].
pub enum TrailEventModel {
    Record { offset: usize, record: AuditRecordModel },
    Rejected { offset: usize, reason: HeaderError },
    Skipped { offset: usize, error: FramingError, skipped: usize },
    Abandoned { offset: usize, error: FramingError },
}

impl View for TrailEvent {
    type V = TrailEventModel;

    open spec fn view(&self) -> TrailEventModel {
        match *self {
            TrailEvent::Record { offset, record } => TrailEventModel::Record {
                offset,
                record: record@,
            },
            TrailEvent::Rejected { offset, reason } => TrailEventModel::Rejected { offset, reason },
            TrailEvent::Skipped { offset, error, skipped } => TrailEventModel::Skipped {
                offset,
                error,
                skipped,
            },
            TrailEvent::Abandoned { offset, error } => TrailEventModel::Abandoned {
                offset,
                error,
            },
        }
    }
}

/// The models of a sequence of events.
pub open spec fn event_models(events: Seq<TrailEvent>) -> Seq<TrailEventModel> {
    Seq::new(events.len(), |i: int| events[i]@)
}

impl TrailEventModel {
    /// What holds of every event of a decoded trail: the record it carries,
    /// if it carries one, is well formed.
    pub open spec fn wf(self) -> bool {
        self matches TrailEventModel::Record { record, .. } ==> record.wf()
    }

    /// How serious the event is.
    ///
    /// A sound record is routine. A trailer that does not match leaves the
    /// record usable and is a warning. A record cut short by a token that
    /// does not decode, a record dropped for its header, and a stretch of the
    /// trail that had to be skipped are errors. Giving up on the rest of the
    /// trail is critical.
    pub open spec fn level(self) -> LogLevel {
        match self {
            TrailEventModel::Record { record, .. } => match record.status {
                RecordStatus::Complete => LogLevel::Debug,
                RecordStatus::TrailerMismatchError => LogLevel::Warning,
                RecordStatus::TokenError { .. } => LogLevel::Error,
            },
            TrailEventModel::Rejected { .. } => LogLevel::Error,
            TrailEventModel::Skipped { .. } => LogLevel::Error,
            TrailEventModel::Abandoned { .. } => LogLevel::Critical,
        }
    }
}

impl TrailEvent {
    /// How serious the event is.
    pub fn level(&self) -> (level: LogLevel)
        ensures
            level == self@.level(),
    {
        match self {
            TrailEvent::Record { record, .. } => match record.status {
                RecordStatus::Complete => LogLevel::Debug,
                RecordStatus::TrailerMismatchError => LogLevel::Warning,
                RecordStatus::TokenError { .. } => LogLevel::Error,
            },
            TrailEvent::Rejected { .. } => LogLevel::Error,
            TrailEvent::Skipped { .. } => LogLevel::Error,
            TrailEvent::Abandoned { .. } => LogLevel::Critical,
        }
    }
}

/// One step of decoding the trail `data` at offset `at`: the event that the
/// step gives and the offset at which the next step begins, or `None` where
/// the trail ends at `at`.
///
/// After a record, framed and decoded or framed and dropped, the next step
/// begins behind the record. After a framing error it begins at the next
/// record-start tag within the window, and at the end of the trail where the
/// window holds none.
pub open spec fn step(
    data: Seq<u8>,
    at: int,
    window: int,
    users: Map<u32, Seq<char>>,
    groups: Map<u32, Seq<char>>,
) -> Option<(TrailEventModel, int)> {
    match frame_at(data, at) {
        Ok(Frame::EndOfTrail) => None,
        Ok(Frame::Record(n)) => match parse_record(data.subrange(at, at + n)) {
            Ok(record) => Some(
                (
                    TrailEventModel::Record {
                        offset: at as usize,
                        record: enrich_record(record, users, groups),
                    },
                    at + n,
                ),
            ),
            Err(reason) => Some((TrailEventModel::Rejected { offset: at as usize, reason }, at + n)),
        },
        Err(error) => match rescan(data, at, window) {
            Some(distance) => Some(
                (
                    TrailEventModel::Skipped {
                        offset: at as usize,
                        error,
                        skipped: distance as usize,
                    },
                    at + distance,
                ),
            ),
            None => Some(
                (TrailEventModel::Abandoned { offset: at as usize, error }, data.len() as int),
            ),
        },
    }
}

/// Every step moves forward, and none moves past the end of the trail.
pub proof fn lemma_step_advances(
    data: Seq<u8>,
    at: int,
    window: int,
    users: Map<u32, Seq<char>>,
    groups: Map<u32, Seq<char>>,
)
    requires
        0 <= at,
    ensures
        step(data, at, window, users, groups) matches Some((_, next)) ==> at < next <= data.len(),
{
    lemma_first_record_start(data, at + 1, at + 1 + window);
}

/// A framing error never yields a record, and never ends the decoding of
/// the trail by itself.
///
/// Where no record can be framed at `at`, the step reports the error with
/// the offset and builds no record, not even a partial one. Either it skips
/// to the nearest record-start tag behind `at`, which lies within the window,
/// and the next step begins there; or the window holds no such tag, and the
/// step gives up what is left of the trail.
pub proof fn lemma_framing_error_resumes(
    data: Seq<u8>,
    at: int,
    window: int,
    users: Map<u32, Seq<char>>,
    groups: Map<u32, Seq<char>>,
)
    requires
        0 <= at,
        data.len() <= usize::MAX,
        frame_at(data, at) is Err,
    ensures
        step(data, at, window, users, groups) matches Some((event, next)) && match event {
            TrailEventModel::Skipped { offset, error, skipped } => {
                &&& offset == at
                &&& Err::<Frame, FramingError>(error) == frame_at(data, at)
                &&& next == at + skipped
                &&& 1 <= skipped <= window
                &&& next < data.len()
                &&& spec_is_record_start(data[next])
                &&& forall|i: int| at < i < next ==> !spec_is_record_start(#[trigger] data[i])
            },
            TrailEventModel::Abandoned { offset, error } => {
                &&& offset == at
                &&& Err::<Frame, FramingError>(error) == frame_at(data, at)
                &&& next == data.len()
                &&& forall|i: int|
                    at < i <= at + window && i < data.len() ==> !spec_is_record_start(
                        #[trigger] data[i],
                    )
            },
            _ => false,
        },
{
    lemma_first_record_start(data, at + 1, at + 1 + window);
}

/// A record that frames is consumed whole, whatever its content: the step
/// gives the record, or the reason why its header was refused, and the next
/// step begins right behind it.
pub proof fn lemma_framed_record_is_consumed(
    data: Seq<u8>,
    at: int,
    window: int,
    users: Map<u32, Seq<char>>,
    groups: Map<u32, Seq<char>>,
)
    requires
        0 <= at,
        data.len() <= usize::MAX,
        frame_at(data, at) matches Ok(Frame::Record(_)),
    ensures
        ({
            let n = frame_at(data, at)->Ok_0->Record_0;
            let raw = data.subrange(at, at + n);
            &&& step(data, at, window, users, groups) matches Some((event, next))
            &&& next == at + n
            &&& match parse_record(raw) {
                Ok(record) => event == TrailEventModel::Record {
                    offset: at as usize,
                    record: enrich_record(record, users, groups),
                },
                Err(reason) => event == TrailEventModel::Rejected { offset: at as usize, reason },
            }
        }),
{
}

/// The record that a step hands out is well formed: it accounts for every
/// byte of the record it was decoded from, or says where it stopped.
pub proof fn lemma_step_is_sound(
    data: Seq<u8>,
    at: int,
    window: int,
    users: Map<u32, Seq<char>>,
    groups: Map<u32, Seq<char>>,
)
    requires
        0 <= at,
    ensures
        step(data, at, window, users, groups) matches Some((event, _)) ==> event.wf(),
{
    if let Ok(Frame::Record(n)) = frame_at(data, at) {
        let raw = data.subrange(at, at + n);
        lemma_frame_is_framed(data, at);
        lemma_parsed_record(raw);
        if let Ok(record) = parse_record(raw) {
            lemma_enrich_preserves(record, users, groups);
        }
    }
}

/// The events that decoding the trail `data` from offset `at` on gives, step
/// after step until the trail ends.
///
/// The definition is opaque; [`lemma_events_step`] unfolds it by one step.
#[verifier::opaque]
pub open spec fn trail_events(
    data: Seq<u8>,
    at: int,
    window: int,
    users: Map<u32, Seq<char>>,
    groups: Map<u32, Seq<char>>,
) -> Seq<TrailEventModel>
    decreases data.len() - at,
{
    if at < 0 {
        Seq::empty()
    } else {
        match step(data, at, window, users, groups) {
            None => Seq::empty(),
            Some((event, next)) => {
                proof {
                    lemma_step_advances(data, at, window, users, groups);
                }
                seq![event] + trail_events(data, next, window, users, groups)
            },
        }
    }
}

/// Where a step gives an event, the events from `at` on are that event and
/// then the events from where the next step begins; where it gives none,
/// there are no events.
pub proof fn lemma_events_step(
    data: Seq<u8>,
    at: int,
    window: int,
    users: Map<u32, Seq<char>>,
    groups: Map<u32, Seq<char>>,
)
    requires
        0 <= at,
    ensures
        trail_events(data, at, window, users, groups) == match step(
            data,
            at,
            window,
            users,
            groups,
        ) {
            Some((event, next)) => seq![event] + trail_events(data, next, window, users, groups),
            None => Seq::<TrailEventModel>::empty(),
        },
{
    reveal(trail_events);
}

/// Whether the record that frames at offset `at` of the trail decodes to
/// `record`.
#[verifier::opaque]
pub open spec fn decodes_at(data: Seq<u8>, at: int, record: AuditRecordModel) -> bool {
    frame_at(data, at) matches Ok(Frame::Record(n)) && parse_record(data.subrange(at, at + n))
        == Ok::<AuditRecordModel, HeaderError>(record)
}

/// Behind a record that frames and decodes, the events go on: the events
/// from `at` on are the record, enriched, and then the events from behind
/// it.
pub proof fn lemma_events_after_record(
    data: Seq<u8>,
    at: int,
    record: AuditRecordModel,
    window: int,
    users: Map<u32, Seq<char>>,
    groups: Map<u32, Seq<char>>,
)
    requires
        0 <= at,
        data.len() <= usize::MAX,
        decodes_at(data, at, record),
    ensures
        trail_events(data, at, window, users, groups) == seq![
            TrailEventModel::Record {
                offset: at as usize,
                record: enrich_record(record, users, groups),
            },
        ] + trail_events(data, at + record.header.byte_count, window, users, groups),
{
    reveal(decodes_at);
    lemma_events_step(data, at, window, users, groups);
    lemma_frame_is_framed(data, at);
    let n = frame_at(data, at)->Ok_0->Record_0;
    lemma_parsed_record(data.subrange(at, at + n));
}

/// Takes one step of decoding a trail at the reader's position.
///
/// The result is `None` at the end of the trail. Otherwise it is the event
/// of the step, and the reader stands where the next step begins, which is
/// further on.
pub fn next_event(reader: &mut TrailReader, table: &IdentityTable, window: usize) -> (event:
    Option<TrailEvent>)
    ensures
        final(reader).data() == old(reader).data(),
        match step(
            old(reader).data(),
            old(reader).position() as int,
            window as int,
            table.users(),
            table.groups(),
        ) {
            Some((model, next)) => {
                &&& event matches Some(e)
                &&& e@ == model
                &&& model.wf()
                &&& final(reader).position() == next
                &&& old(reader).position() < next <= old(reader).data().len()
            },
            None => {
                &&& event is None
                &&& final(reader).position() == old(reader).position()
            },
        },
{
    proof {
        lemma_step_advances(
            reader.data(),
            reader.position() as int,
            window as int,
            table.users(),
            table.groups(),
        );
    }
    proof {
        lemma_step_is_sound(
            reader.data(),
            reader.position() as int,
            window as int,
            table.users(),
            table.groups(),
        );
    }
    let offset: usize = reader.offset();
    match next_record(reader) {
        Ok(Framed::EndOfTrail) => None,
        Ok(Framed::Record(raw)) => match decode_record(&raw) {
            Ok(record) => {
                let mut record = record;
                record.enrich(table);
                Some(TrailEvent::Record { offset, record })
            },
            Err(reason) => Some(TrailEvent::Rejected { offset, reason }),
        },
        Err(error) => match resync(reader, window) {
            Some(skipped) => Some(TrailEvent::Skipped { offset, error, skipped }),
            None => {
                reader.abandon();
                Some(TrailEvent::Abandoned { offset, error })
            },
        },
    }
}

/// Decodes a whole trail.
///
/// `window` bounds the search for a place to resume after a framing error.
/// The result lists, in the order of the trail, every record decoded and
/// every defect met.
pub fn decode_trail(data: Vec<u8>, table: &IdentityTable, window: usize) -> (events: Vec<
    TrailEvent,
>)
    ensures
        event_models(events@) == trail_events(
            data@,
            0,
            window as int,
            table.users(),
            table.groups(),
        ),
        forall|i: int| 0 <= i < events@.len() ==> (#[trigger] events@[i])@.wf(),
{
    let ghost trail = data@;
    let ghost users = table.users();
    let ghost groups = table.groups();
    let mut reader = TrailReader::new(data);
    let mut events: Vec<TrailEvent> = Vec::new();
    let mut done: bool = false;
    assert(event_models(events@) =~= Seq::empty());
    assert(Seq::<TrailEventModel>::empty() + trail_events(trail, 0, window as int, users, groups)
        =~= trail_events(trail, 0, window as int, users, groups));
    while !done
        invariant
            reader.data() == trail,
            reader.position() <= trail.len(),
            users == table.users(),
            groups == table.groups(),
            forall|i: int| 0 <= i < events@.len() ==> (#[trigger] events@[i])@.wf(),
            trail_events(trail, 0, window as int, users, groups) == event_models(events@) + (
            if done {
                Seq::empty()
            } else {
                trail_events(trail, reader.position() as int, window as int, users, groups)
            }),
        decreases
                trail.len() - reader.position(),
                (if done {
                    0int
                } else {
                    1int
                }),
    {
        let ghost before = event_models(events@);
        let ghost rest = trail_events(trail, reader.position() as int, window as int, users, groups);
        proof {
            lemma_events_step(trail, reader.position() as int, window as int, users, groups);
        }
        match next_event(&mut reader, table, window) {
            Some(event) => {
                let ghost model = event@;
                events.push(event);
                proof {
                    let next = trail_events(
                        trail,
                        reader.position() as int,
                        window as int,
                        users,
                        groups,
                    );
                    assert(rest == seq![model] + next);
                    assert(event_models(events@) =~= before.push(model));
                    assert(before.push(model) + next =~= before + (seq![model] + next));
                }
            },
            None => {
                done = true;
            },
        }
    }
    assert(event_models(events@) + Seq::<TrailEventModel>::empty() =~= event_models(events@));
    events
}

} // verus!
