//! The encoding that decoding inverts.
//!
//! Nothing here runs: the functions say, as mathematics, which bytes a token
//! and a record are written as. The lemmas then state what the decoder owes
//! to them: whatever is encoded decodes to itself, and accounts for every
//! byte of its encoding.

use crate::enrich::enrich_record;
use crate::error::FramingError;
use crate::error::HeaderError;
use crate::framer::frame_at;
use crate::framer::framed;
use crate::framer::lemma_record_frames;
use crate::framer::Frame;
use crate::framer::MAX_RECORD_SIZE;
use crate::error::TokenDecodeError;
use crate::header::header_bytes;
use crate::header::lemma_header_round_trip;
use crate::header::lemma_header_tag_first;
use crate::record::lemma_tokens_len_first;
use crate::record::lemma_walk_end;
use crate::record::lemma_walk_step;
use crate::record::parse_record;
use crate::record::parse_tokens;
use crate::record::tokens_len;
use crate::record::AuditRecordModel;
use crate::tags::RETURN64;
use crate::tags::SUBJECT64;
use crate::token::parse_subject;
use crate::trail::decodes_at;
use crate::trail::lemma_events_after_record;
use crate::trail::lemma_events_step;
use crate::trail::trail_events;
use crate::trail::TrailEventModel;
use crate::token::parse_token;
use crate::token::SubjectIds;
use crate::token::SubjectNamesModel;
use crate::token::TokenModel;
use crate::wire::lemma_encoded_len;
use crate::wire::lemma_u16_round_trip;
use crate::wire::lemma_u32_round_trip;
use crate::wire::lemma_u64_round_trip;
use crate::wire::u16_bytes;
use crate::wire::u32_bytes;
use crate::wire::u64_bytes;
use vstd::prelude::*;

verus! {

/// The encoding of the terminal port of a subject, in 32 or in 64 bits.
pub open spec fn port_bytes(port: u64, wide: bool) -> Seq<u8> {
    if wide {
        u64_bytes(port)
    } else {
        u32_bytes(port as u32)
    }
}

/// The encoding of the fields of a subject, which follow its tag.
pub open spec fn subject_bytes(ids: SubjectIds, wide: bool) -> Seq<u8> {
    u32_bytes(ids.audit_uid) + u32_bytes(ids.effective_uid) + u32_bytes(ids.effective_gid)
        + u32_bytes(ids.real_uid) + u32_bytes(ids.real_gid) + u32_bytes(ids.pid) + u32_bytes(
        ids.session_id,
    ) + port_bytes(ids.terminal_port, wide) + u32_bytes(ids.terminal_address)
}

/// The encoding of a token.
#[verifier::opaque]
pub open spec fn token_bytes(token: TokenModel) -> Seq<u8> {
    match token {
        TokenModel::Subject { tag, ids, .. } => seq![tag] + subject_bytes(ids, tag == SUBJECT64),
        TokenModel::Return { tag, status, value } => seq![tag, status] + (if tag == RETURN64 {
            u64_bytes(value)
        } else {
            u32_bytes(value as u32)
        }),
        TokenModel::Path { tag, path } => seq![tag] + u16_bytes(path.len() as u16) + path,
        TokenModel::Text { tag, text } => seq![tag] + u16_bytes(text.len() as u16) + text,
        TokenModel::ArbitraryData { tag, print_format, unit_type, unit_count, data } => seq![
            tag,
            print_format,
            unit_type,
            unit_count,
        ] + data,
        TokenModel::Trailer { tag, magic, byte_count } => seq![tag] + u16_bytes(magic) + u32_bytes(
            byte_count,
        ),
    }
}

/// The encoding of a sequence of tokens: one token after the other.
pub open spec fn tokens_bytes(tokens: Seq<TokenModel>) -> Seq<u8>
    decreases tokens.len(),
{
    if tokens.len() == 0 {
        Seq::empty()
    } else {
        token_bytes(tokens.first()) + tokens_bytes(tokens.drop_first())
    }
}

/// The encoding of a record: its header, then its tokens.
pub open spec fn record_bytes(record: AuditRecordModel) -> Seq<u8> {
    header_bytes(record.header) + tokens_bytes(record.tokens)
}

/// Whether a token is as the decoder hands it out: well formed, and with no
/// name resolved.
pub open spec fn as_decoded(token: TokenModel) -> bool {
    &&& token.wf()
    &&& token matches TokenModel::Subject { names, .. } ==> names
        == SubjectNamesModel::unresolved()
}

/// Where each field lies in a buffer put together from a tag, the fields of
/// a subject in their order, and whatever follows.
proof fn lemma_subject_fields(
    tag: u8,
    f: Seq<Seq<u8>>,
    port: Seq<u8>,
    address: Seq<u8>,
    rest: Seq<u8>,
)
    requires
        f.len() == 7,
        forall|i: int| 0 <= i < 7 ==> (#[trigger] f[i]).len() == 4,
        address.len() == 4,
    ensures
        ({
            let bytes = seq![tag] + (f[0] + f[1] + f[2] + f[3] + f[4] + f[5] + f[6] + port
                + address) + rest;
            let width = port.len() as int;
            &&& bytes.len() == 33 + width + rest.len()
            &&& bytes[0] == tag
            &&& forall|i: int| 0 <= i < 7 ==> bytes.subrange(1 + 4 * i, 5 + 4 * i) == #[trigger] f[i]
            &&& bytes.subrange(29, 29 + width) == port
            &&& bytes.subrange(29 + width, 33 + width) == address
        }),
{
    let bytes = seq![tag] + (f[0] + f[1] + f[2] + f[3] + f[4] + f[5] + f[6] + port + address)
        + rest;
    let width = port.len() as int;
    assert(f[0].len() == 4 && f[1].len() == 4 && f[2].len() == 4 && f[3].len() == 4);
    assert(f[4].len() == 4 && f[5].len() == 4 && f[6].len() == 4);
    assert forall|i: int| 0 <= i < 7 implies bytes.subrange(1 + 4 * i, 5 + 4 * i) == #[trigger] f[i] by {
        assert(bytes.subrange(1 + 4 * i, 5 + 4 * i) =~= f[i]);
    }
    assert(bytes.subrange(29, 29 + width) =~= port);
    assert(bytes.subrange(29 + width, 33 + width) =~= address);
}

/// An encoded subject reads back, whatever follows it.
proof fn lemma_subject_round_trip(tag: u8, ids: SubjectIds, rest: Seq<u8>)
    requires
        tag != SUBJECT64 ==> ids.terminal_port <= u32::MAX,
    ensures
        ({
            let wide = tag == SUBJECT64;
            let bytes = seq![tag] + subject_bytes(ids, wide) + rest;
            &&& subject_bytes(ids, wide).len() == (if wide {
                40int
            } else {
                36int
            })
            &&& bytes[0] == tag
            &&& parse_subject(bytes, wide) == ids
        }),
{
    let wide = tag == SUBJECT64;
    let f = seq![
        u32_bytes(ids.audit_uid),
        u32_bytes(ids.effective_uid),
        u32_bytes(ids.effective_gid),
        u32_bytes(ids.real_uid),
        u32_bytes(ids.real_gid),
        u32_bytes(ids.pid),
        u32_bytes(ids.session_id),
    ];
    let port = port_bytes(ids.terminal_port, wide);
    let address = u32_bytes(ids.terminal_address);
    let bytes = seq![tag] + subject_bytes(ids, wide) + rest;
    lemma_encoded_len(ids.audit_uid as u128);
    lemma_encoded_len(ids.effective_uid as u128);
    lemma_encoded_len(ids.effective_gid as u128);
    lemma_encoded_len(ids.real_uid as u128);
    lemma_encoded_len(ids.real_gid as u128);
    lemma_encoded_len(ids.pid as u128);
    lemma_encoded_len(ids.session_id as u128);
    lemma_encoded_len(ids.terminal_port as u128);
    lemma_encoded_len(ids.terminal_address as u128);
    lemma_subject_fields(tag, f, port, address, rest);
    lemma_subject_fields(tag, f, port, address, Seq::empty());
    assert(subject_bytes(ids, wide) == f[0] + f[1] + f[2] + f[3] + f[4] + f[5] + f[6] + port
        + address);
    assert(seq![tag] + subject_bytes(ids, wide) + Seq::<u8>::empty() =~= seq![tag] + subject_bytes(
        ids,
        wide,
    ));
    assert(bytes.subrange(1, 5) == f[0]) by {
        assert(bytes.subrange(1 + 4 * 0int, 5 + 4 * 0int) == f[0]);
    }
    assert(bytes.subrange(5, 9) == f[1]) by {
        assert(bytes.subrange(1 + 4 * 1int, 5 + 4 * 1int) == f[1]);
    }
    assert(bytes.subrange(9, 13) == f[2]) by {
        assert(bytes.subrange(1 + 4 * 2int, 5 + 4 * 2int) == f[2]);
    }
    assert(bytes.subrange(13, 17) == f[3]) by {
        assert(bytes.subrange(1 + 4 * 3int, 5 + 4 * 3int) == f[3]);
    }
    assert(bytes.subrange(17, 21) == f[4]) by {
        assert(bytes.subrange(1 + 4 * 4int, 5 + 4 * 4int) == f[4]);
    }
    assert(bytes.subrange(21, 25) == f[5]) by {
        assert(bytes.subrange(1 + 4 * 5int, 5 + 4 * 5int) == f[5]);
    }
    assert(bytes.subrange(25, 29) == f[6]) by {
        assert(bytes.subrange(1 + 4 * 6int, 5 + 4 * 6int) == f[6]);
    }
    lemma_u32_round_trip(bytes, 1, ids.audit_uid);
    lemma_u32_round_trip(bytes, 5, ids.effective_uid);
    lemma_u32_round_trip(bytes, 9, ids.effective_gid);
    lemma_u32_round_trip(bytes, 13, ids.real_uid);
    lemma_u32_round_trip(bytes, 17, ids.real_gid);
    lemma_u32_round_trip(bytes, 21, ids.pid);
    lemma_u32_round_trip(bytes, 25, ids.session_id);
    if wide {
        lemma_u64_round_trip(bytes, 29, ids.terminal_port);
        lemma_u32_round_trip(bytes, 37, ids.terminal_address);
    } else {
        lemma_u32_round_trip(bytes, 29, ids.terminal_port as u32);
        lemma_u32_round_trip(bytes, 33, ids.terminal_address);
    }
}

/// Decoding inverts encoding, token by token: a token as the decoder hands
/// it out, encoded and followed by any bytes at all, decodes to itself, and
/// its encoding has the length that the token reports.
pub proof fn lemma_token_round_trip(token: TokenModel, rest: Seq<u8>)
    requires
        as_decoded(token),
    ensures
        token_bytes(token).len() == token.encoded_len(),
        parse_token(token_bytes(token) + rest) == Ok::<TokenModel, TokenDecodeError>(token),
{
    reveal(token_bytes);
    let bytes = token_bytes(token) + rest;
    match token {
        TokenModel::Subject { tag, ids, names } => {
            lemma_subject_round_trip(tag, ids, rest);
        },
        TokenModel::Return { tag, status, value } => {
            lemma_encoded_len(value as u128);
            if tag == RETURN64 {
                assert(bytes.subrange(2, 10) =~= u64_bytes(value));
                lemma_u64_round_trip(bytes, 2, value);
            } else {
                assert(bytes.subrange(2, 6) =~= u32_bytes(value as u32));
                lemma_u32_round_trip(bytes, 2, value as u32);
            }
            assert(bytes[0] == tag && bytes[1] == status);
        },
        TokenModel::Path { tag, path } => {
            lemma_encoded_len(path.len() as u128);
            assert(bytes.subrange(1, 3) =~= u16_bytes(path.len() as u16));
            lemma_u16_round_trip(bytes, 1, path.len() as u16);
            assert(bytes.subrange(3, 3 + path.len() as int) =~= path);
            assert(bytes[0] == tag);
        },
        TokenModel::Text { tag, text } => {
            lemma_encoded_len(text.len() as u128);
            assert(bytes.subrange(1, 3) =~= u16_bytes(text.len() as u16));
            lemma_u16_round_trip(bytes, 1, text.len() as u16);
            assert(bytes.subrange(3, 3 + text.len() as int) =~= text);
            assert(bytes[0] == tag);
        },
        TokenModel::ArbitraryData { tag, print_format, unit_type, unit_count, data } => {
            assert(bytes[0] == tag && bytes[1] == print_format);
            assert(bytes[2] == unit_type && bytes[3] == unit_count);
            assert(bytes.subrange(4, 4 + data.len() as int) =~= data);
        },
        TokenModel::Trailer { tag, magic, byte_count } => {
            lemma_encoded_len(magic as u128);
            lemma_encoded_len(byte_count as u128);
            assert(bytes.subrange(1, 3) =~= u16_bytes(magic));
            lemma_u16_round_trip(bytes, 1, magic);
            assert(bytes.subrange(3, 7) =~= u32_bytes(byte_count));
            lemma_u32_round_trip(bytes, 3, byte_count);
            assert(bytes[0] == tag);
        },
    }
}

/// Decoding inverts encoding along a whole run of tokens: encoded one after
/// the other behind any `head`, tokens as the decoder hands them out decode
/// to themselves, the walk ends without error, and their encoding is as long
/// as the lengths they report.
#[verifier::rlimit(30)]
pub proof fn lemma_tokens_round_trip(head: Seq<u8>, tokens: Seq<TokenModel>)
    requires
        forall|i: int| 0 <= i < tokens.len() ==> as_decoded(#[trigger] tokens[i]),
    ensures
        tokens_bytes(tokens).len() == tokens_len(tokens),
        parse_tokens(head + tokens_bytes(tokens), head.len() as int) == (
            tokens,
            None::<TokenDecodeError>,
        ),
    decreases tokens.len(),
{
    let bytes = head + tokens_bytes(tokens);
    let at = head.len() as int;
    if tokens.len() == 0 {
        assert(tokens =~= Seq::empty());
        assert(tokens_len(tokens) == 0);
        lemma_walk_end(bytes, at);
    } else {
        let first = tokens.first();
        let others = tokens.drop_first();
        let encoded = token_bytes(first);
        let tail = tokens_bytes(others);
        assert(as_decoded(tokens[0]));
        assert forall|i: int| 0 <= i < others.len() implies as_decoded(#[trigger] others[i]) by {
            assert(others[i] == tokens[i + 1]);
        }
        lemma_token_round_trip(first, tail);
        lemma_tokens_len_first(tokens);
        lemma_tokens_round_trip(head + encoded, others);
        assert(tokens_bytes(tokens) == encoded + tail);
        assert(head + encoded + tail =~= bytes);
        assert(bytes.subrange(at, bytes.len() as int) =~= encoded + tail);
        lemma_walk_step(bytes, at, first);
        assert((head + encoded).len() == at + first.encoded_len());
        assert(seq![first] + others =~= tokens);
    }
}

/// Decoding inverts encoding, record by record.
///
/// Take any record as the decoder hands out a record that it decoded to the
/// end: well formed, not cut short, no name resolved yet. Its encoding is
/// exactly as long as its header declares, and decoding that encoding gives
/// the record back: the same header, the same tokens in the same order, the
/// same status. So the lengths of the header and of the tokens that are
/// decoded add up to the declared byte count.
pub proof fn lemma_record_round_trip(record: AuditRecordModel)
    requires
        record.wf(),
        record.status !is TokenError,
        forall|i: int| 0 <= i < record.tokens.len() ==> as_decoded(#[trigger] record.tokens[i]),
    ensures
        record_bytes(record).len() == record.header.byte_count,
        parse_record(record_bytes(record)) == Ok::<AuditRecordModel, HeaderError>(record),
        parse_record(record_bytes(record)) matches Ok(decoded) && decoded.consumed()
            == record.header.byte_count,
{
    let head = header_bytes(record.header);
    lemma_header_round_trip(record.header, tokens_bytes(record.tokens));
    lemma_tokens_round_trip(head, record.tokens);
}

/// The encoding of a trail: its records, one after the other.
pub open spec fn trail_bytes(records: Seq<AuditRecordModel>) -> Seq<u8>
    decreases records.len(),
{
    if records.len() == 0 {
        Seq::empty()
    } else {
        record_bytes(records.first()) + trail_bytes(records.drop_first())
    }
}

/// Whether a record is one that a trail can hold and that the decoder hands
/// out after decoding it to the end: well formed, not cut short, no name
/// resolved yet, and no longer than the framer accepts.
pub open spec fn encodable(record: AuditRecordModel) -> bool {
    &&& record.wf()
    &&& record.status !is TokenError
    &&& forall|i: int| 0 <= i < record.tokens.len() ==> as_decoded(#[trigger] record.tokens[i])
    &&& record.header.byte_count <= MAX_RECORD_SIZE
}

/// The events that a trail of sound records gives when it starts at offset
/// `at`: one for each record, in order, with the record enriched and the
/// offset at which the record begins.
pub open spec fn record_events(
    records: Seq<AuditRecordModel>,
    at: int,
    users: Map<u32, Seq<char>>,
    groups: Map<u32, Seq<char>>,
) -> Seq<TrailEventModel>
    decreases records.len(),
{
    if records.len() == 0 {
        Seq::empty()
    } else {
        seq![
            TrailEventModel::Record {
                offset: at as usize,
                record: enrich_record(records.first(), users, groups),
            },
        ] + record_events(
            records.drop_first(),
            at + records.first().header.byte_count,
            users,
            groups,
        )
    }
}

/// The encoding of such a record is a framed record.
pub proof fn lemma_encoded_record_is_framed(record: AuditRecordModel)
    requires
        encodable(record),
    ensures
        framed(record_bytes(record)),
        record_bytes(record).len() == record.header.byte_count,
{
    let bytes = record_bytes(record);
    let header = record.header;
    lemma_record_round_trip(record);
    lemma_header_round_trip(header, tokens_bytes(record.tokens));
    lemma_header_tag_first(header, tokens_bytes(record.tokens));
}

/// A sound record that is written into a trail frames and decodes where it
/// was written, whatever lies before it and behind it.
pub proof fn lemma_record_in_trail(head: Seq<u8>, record: AuditRecordModel, rest: Seq<u8>)
    requires
        encodable(record),
    ensures
        decodes_at(head + record_bytes(record) + rest, head.len() as int, record),
        record_bytes(record).len() == record.header.byte_count,
{
    reveal(decodes_at);
    let encoded = record_bytes(record);
    lemma_encoded_record_is_framed(record);
    lemma_record_round_trip(record);
    lemma_record_frames(head, encoded, rest);
}

/// Decoding inverts encoding, trail by trail.
///
/// A trail that is written as sound records one after the other, behind any
/// bytes `head` that the decoder has already passed, decodes to exactly
/// those records: no error, no record lost, none added, each at the offset
/// where it was written and with the names that the tables have for it.
pub proof fn lemma_trail_round_trip(
    head: Seq<u8>,
    records: Seq<AuditRecordModel>,
    window: int,
    users: Map<u32, Seq<char>>,
    groups: Map<u32, Seq<char>>,
)
    requires
        forall|i: int| 0 <= i < records.len() ==> encodable(#[trigger] records[i]),
        head.len() + trail_bytes(records).len() <= usize::MAX,
    ensures
        trail_events(head + trail_bytes(records), head.len() as int, window, users, groups)
            == record_events(records, head.len() as int, users, groups),
    decreases records.len(),
{
    let data = head + trail_bytes(records);
    let at = head.len() as int;
    if records.len() == 0 {
        lemma_events_step(data, at, window, users, groups);
        assert(frame_at(data, at) == Ok::<Frame, FramingError>(Frame::EndOfTrail));
    } else {
        let first = records.first();
        let others = records.drop_first();
        let encoded = record_bytes(first);
        let rest = trail_bytes(others);
        assert(encodable(records[0]));
        assert forall|i: int| 0 <= i < others.len() implies encodable(#[trigger] others[i]) by {
            assert(others[i] == records[i + 1]);
        }
        lemma_record_in_trail(head, first, rest);
        assert(trail_bytes(records) == encoded + rest);
        assert(head + encoded + rest =~= data);
        assert((head + encoded).len() == at + first.header.byte_count);
        lemma_trail_round_trip(head + encoded, others, window, users, groups);
        lemma_events_after_record(data, at, first, window, users, groups);
    }
}

} // verus!
