//! Cutting records out of a trail.
//!
//! A trail is a run of records laid end to end. Each record begins with a
//! record-start tag and a four-byte count of its own length, tag and count
//! included. The framer reads that much and no more, so that a damaged length
//! can neither make it allocate without bound nor hand out half a record.

use crate::error::FramingError;
use crate::reader::TrailReader;
use crate::tags::header_layout;
use crate::tags::is_record_start;
use crate::tags::min_header_size;
use crate::tags::spec_header_layout;
use crate::tags::spec_is_record_start;
use crate::tags::spec_min_header_size;
use crate::wire::be_u32;
use vstd::prelude::*;

verus! {

/// The longest record that the framer accepts.
pub const MAX_RECORD_SIZE: u32 = 0x7fff;

/// Whether `bytes` is one whole record as the framer hands it out: it starts
/// with a record-start tag, declares its own length, and that length lies
/// between the shortest header of its variant and [`MAX_RECORD_SIZE`].
pub open spec fn framed(bytes: Seq<u8>) -> bool {
    &&& bytes.len() >= 5
    &&& spec_header_layout(bytes[0]) matches Some(layout)
    &&& be_u32(bytes, 1) == bytes.len()
    &&& spec_min_header_size(layout) <= bytes.len() <= MAX_RECORD_SIZE
}

/// The bytes of one framed record.
#[derive(Debug)]
pub struct RawRecord {
    bytes: Vec<u8>,
}

impl View for RawRecord {
    type V = Seq<u8>;

    closed spec fn view(&self) -> Seq<u8> {
        self.bytes@
    }
}

impl RawRecord {
    #[verifier::type_invariant]
    spec fn well_framed(self) -> bool {
        framed(self.bytes@)
    }

    /// The record's bytes, from its tag to its last byte.
    pub fn as_bytes(&self) -> (bytes: &[u8])
        ensures
            bytes@ == self@,
            framed(self@),
    {
        proof {
            use_type_invariant(self);
        }
        self.bytes.as_slice()
    }

    /// The record's tag.
    pub fn tag(&self) -> (tag: u8)
        ensures
            framed(self@),
            tag == self@[0],
    {
        proof {
            use_type_invariant(self);
        }
        self.bytes[0]
    }

    /// The length that the record declares, which is the length it has.
    pub fn byte_count(&self) -> (n: u32)
        ensures
            framed(self@),
            n == self@.len(),
            n == be_u32(self@, 1),
    {
        proof {
            use_type_invariant(self);
        }
        self.bytes.len() as u32
    }
}

/// What lies at a position of a trail, when it is no framing error.
pub enum Frame {
    /// A whole record of this many bytes.
    Record(nat),
    /// Nothing: the trail ends exactly here.
    EndOfTrail,
}

/// What the framer finds at position `at` of the trail `data`.
///
/// The checks come in the order in which the bytes are read: the tag, the
/// declared length, then the rest of the record.
pub open spec fn frame_at(data: Seq<u8>, at: int) -> Result<Frame, FramingError> {
    if at >= data.len() {
        Ok(Frame::EndOfTrail)
    } else if spec_header_layout(data[at]) is None {
        Err(FramingError::UnknownRecordTag)
    } else if data.len() - at < 5 {
        Err(FramingError::TruncatedRecordError)
    } else {
        let declared = be_u32(data, at + 1);
        if declared < spec_min_header_size(spec_header_layout(data[at]).unwrap()) || declared
            > MAX_RECORD_SIZE {
            Err(FramingError::InvalidRecordLength)
        } else if data.len() - at < declared {
            Err(FramingError::TruncatedRecordError)
        } else {
            Ok(Frame::Record(declared as nat))
        }
    }
}

/// The first position in `from..until` of `data` that holds a record-start
/// tag, if there is one.
pub open spec fn first_record_start(data: Seq<u8>, from: int, until: int) -> Option<int>
    decreases until - from,
{
    if from >= until || from >= data.len() {
        None
    } else if from >= 0 && spec_is_record_start(data[from]) {
        Some(from)
    } else {
        first_record_start(data, from + 1, until)
    }
}

/// How far past position `at` the next record-start tag lies, looking at the
/// `window` bytes that follow the byte at `at`.
pub open spec fn rescan(data: Seq<u8>, at: int, window: int) -> Option<nat> {
    match first_record_start(data, at + 1, at + 1 + window) {
        Some(found) => Some((found - at) as nat),
        None => None,
    }
}

/// What [`first_record_start`] finds is a record-start tag inside the range,
/// and no position before it in the range holds one; where it finds nothing,
/// the range holds none.
pub proof fn lemma_first_record_start(data: Seq<u8>, from: int, until: int)
    requires
        0 <= from,
    ensures
        match first_record_start(data, from, until) {
            Some(found) => {
                &&& from <= found < until
                &&& found < data.len()
                &&& spec_is_record_start(data[found])
                &&& forall|i: int| from <= i < found ==> !spec_is_record_start(#[trigger] data[i])
            },
            None => forall|i: int|
                from <= i < until && i < data.len() ==> !spec_is_record_start(#[trigger] data[i]),
        },
    decreases until - from,
{
    if from >= until || from >= data.len() {
    } else if spec_is_record_start(data[from]) {
    } else {
        lemma_first_record_start(data, from + 1, until);
    }
}

/// A byte that is no record-start tag is refused where a record should
/// begin.
pub proof fn lemma_unknown_tag_is_refused(data: Seq<u8>, at: int)
    requires
        0 <= at < data.len(),
        !spec_is_record_start(data[at]),
    ensures
        frame_at(data, at) == Err::<Frame, FramingError>(FramingError::UnknownRecordTag),
{
}

/// A record that declares an acceptable length, but of which the trail holds
/// fewer bytes than it declares, is truncated.
pub proof fn lemma_short_record_is_truncated(data: Seq<u8>, at: int)
    requires
        0 <= at,
        at + 5 <= data.len(),
        spec_header_layout(data[at]) matches Some(layout) && spec_min_header_size(layout)
            <= be_u32(data, at + 1) <= MAX_RECORD_SIZE,
        data.len() - at < be_u32(data, at + 1),
    ensures
        frame_at(data, at) == Err::<Frame, FramingError>(FramingError::TruncatedRecordError),
{
}

/// What the framer cuts out is a whole record and nothing else: where it
/// finds a record of `n` bytes, those bytes are framed, and `n` is the length
/// they declare.
pub proof fn lemma_frame_is_framed(data: Seq<u8>, at: int)
    requires
        0 <= at,
    ensures
        frame_at(data, at) matches Ok(Frame::Record(n)) ==> {
            &&& 18 <= n <= MAX_RECORD_SIZE
            &&& at + n <= data.len()
            &&& n == be_u32(data, at + 1)
            &&& framed(data.subrange(at, at + n))
        },
{
}

/// A record frames wherever it lies: between any bytes before it and any
/// bytes behind it, the framer finds at its first byte exactly the record.
pub proof fn lemma_record_frames(before: Seq<u8>, record: Seq<u8>, after: Seq<u8>)
    requires
        framed(record),
    ensures
        frame_at(before + record + after, before.len() as int) == Ok::<Frame, FramingError>(
            Frame::Record(record.len()),
        ),
        (before + record + after).subrange(
            before.len() as int,
            (before.len() + record.len()) as int,
        )
            == record,
{
    let data = before + record + after;
    let at = before.len() as int;
    assert(data.subrange(at, at + record.len() as int) =~= record);
    assert(data[at] == record[0]);
    assert(data[at + 1] == record[1]);
    assert(data[at + 2] == record[2]);
    assert(data[at + 3] == record[3]);
    assert(data[at + 4] == record[4]);
}

/// What [`next_record`] hands out when the trail is in order at the reader's
/// position.
#[derive(Debug)]
pub enum Framed {
    /// The next record.
    Record(RawRecord),
    /// The trail ends at a record boundary.
    EndOfTrail,
}

/// Cuts the next record out of the trail.
///
/// The framer reads the tag, then the declared length, then the rest of the
/// record, and checks each before it reads on. On success the reader stands
/// behind the record. At the end of the trail, and on every error, it stays
/// where it was: no byte of a record that cannot be framed is consumed, and
/// no part of it is handed out.
pub fn next_record(reader: &mut TrailReader) -> (outcome: Result<Framed, FramingError>)
    ensures
        final(reader).data() == old(reader).data(),
        match frame_at(old(reader).data(), old(reader).position() as int) {
            Ok(Frame::Record(n)) => {
                &&& outcome matches Ok(Framed::Record(raw))
                &&& raw@ == old(reader).data().subrange(
                    old(reader).position() as int,
                    (old(reader).position() + n) as int,
                )
                &&& final(reader).position() == old(reader).position() + n
            },
            Ok(Frame::EndOfTrail) => {
                &&& outcome matches Ok(Framed::EndOfTrail)
                &&& final(reader).position() == old(reader).position()
            },
            Err(error) => {
                &&& outcome matches Err(e)
                &&& e == error
                &&& final(reader).position() == old(reader).position()
            },
        },
{
    let tag: u8 = match reader.peek(0) {
        Some(tag) => tag,
        None => {
            return Ok(Framed::EndOfTrail);
        },
    };
    let layout = match header_layout(tag) {
        Some(layout) => layout,
        None => {
            return Err(FramingError::UnknownRecordTag);
        },
    };
    let declared: u32 = match reader.peek_u32(1) {
        Some(declared) => declared,
        None => {
            return Err(FramingError::TruncatedRecordError);
        },
    };
    if declared < min_header_size(layout) || declared > MAX_RECORD_SIZE {
        return Err(FramingError::InvalidRecordLength);
    }
    match reader.take(declared as usize) {
        Some(bytes) => Ok(Framed::Record(RawRecord { bytes })),
        None => Err(FramingError::TruncatedRecordError),
    }
}

/// Looks for the place to resume after a framing error: the nearest
/// record-start tag among the `window` bytes that follow the byte at the
/// reader's position.
///
/// Where one is found the reader moves there, and the result is the number
/// of bytes skipped. Where none is found the reader stays, and what is left
/// of the trail is unusable.
pub fn resync(reader: &mut TrailReader, window: usize) -> (skipped: Option<usize>)
    ensures
        final(reader).data() == old(reader).data(),
        match rescan(old(reader).data(), old(reader).position() as int, window as int) {
            Some(distance) => {
                &&& skipped matches Some(k)
                &&& k == distance
                &&& 1 <= distance <= window
                &&& final(reader).position() == old(reader).position() + distance
            },
            None => {
                &&& skipped is None
                &&& final(reader).position() == old(reader).position()
            },
        },
{
    let ghost data = reader.data();
    let ghost start = reader.position() as int;
    let left: usize = reader.remaining();
    let mut ahead: usize = 1;
    while ahead <= window && ahead < left
        invariant
            1 <= ahead,
            reader.data() == data,
            reader.position() == start,
            *reader == *old(reader),
            left == data.len() - start,
            first_record_start(data, start + 1, start + 1 + window) == first_record_start(
                data,
                start + ahead,
                start + 1 + window,
            ),
        decreases left - ahead,
    {
        match reader.peek(ahead) {
            Some(byte) => {
                if is_record_start(byte) {
                    reader.advance(ahead);
                    return Some(ahead);
                }
            },
            None => {},
        }
        ahead = ahead + 1;
    }
    None
}

} // verus!
