//! The header token: the first token of every record.
//!
//! Four tags start a record. They select between 32-bit and 64-bit timestamps
//! and say whether the address of the originating terminal is present. All
//! four decode into the same [`Header`].

use crate::error::HeaderError;
use crate::framer::framed;
use crate::framer::RawRecord;
use crate::tags::header_layout;
use crate::tags::header_tag;
use crate::tags::spec_header_layout;
use crate::tags::spec_header_tag;
use crate::tags::HeaderLayout;
use crate::tags::TimestampWidth;
use crate::wire::be_u128;
use crate::wire::be_u16;
use crate::wire::be_u32;
use crate::wire::be_u64;
use crate::wire::lemma_encoded_len;
use crate::wire::lemma_u128_round_trip;
use crate::wire::lemma_u16_round_trip;
use crate::wire::lemma_u32_round_trip;
use crate::wire::lemma_u64_round_trip;
use crate::wire::u128_at;
use crate::wire::u128_bytes;
use crate::wire::u16_at;
use crate::wire::u16_bytes;
use crate::wire::u32_at;
use crate::wire::u32_bytes;
use crate::wire::u64_at;
use crate::wire::u64_bytes;
use vstd::prelude::*;

verus! {

/// Address type of a four-byte terminal address.
pub const ADDRESS_IPV4: u32 = 4;

/// Address type of a sixteen-byte terminal address.
pub const ADDRESS_IPV6: u32 = 16;

/// The terminal address of an extended header, its bytes read as one
/// big-endian integer.
#[derive(Clone, Copy, Debug, PartialEq, Eq)]
pub enum TerminalAddress {
    Ipv4(u32),
    Ipv6(u128),
}

/// The header of a record, whichever of the four tags it was read under.
#[derive(Clone, Copy, Debug, PartialEq, Eq)]
pub struct Header {
    /// Length of the whole record, header and trailer included.
    pub byte_count: u32,
    /// Format version: 1 or 2.
    pub version: u8,
    /// The audited event.
    pub event_type: u16,
    /// Bit flags that qualify the event.
    pub event_modifier: u16,
    /// Address of the originating terminal, in the extended variants.
    pub terminal: Option<TerminalAddress>,
    /// Time of the event: whole seconds.
    pub timestamp_seconds: u64,
    /// Time of the event: the milliseconds field.
    pub timestamp_millis: u64,
    /// Width that the two timestamp fields have in the record.
    pub width: TimestampWidth,
}

/// Number of bytes that the terminal part of a header takes: nothing, or the
/// address type and the address.
pub open spec fn spec_terminal_len(terminal: Option<TerminalAddress>) -> nat {
    match terminal {
        None => 0,
        Some(TerminalAddress::Ipv4(_)) => 8,
        Some(TerminalAddress::Ipv6(_)) => 20,
    }
}

impl Header {
    /// The layout under which the header is encoded.
    pub open spec fn spec_layout(self) -> HeaderLayout {
        HeaderLayout { width: self.width, extended: self.terminal is Some }
    }

    /// The layout under which the header is encoded.
    #[verifier::when_used_as_spec(spec_layout)]
    pub fn layout(self) -> (layout: HeaderLayout)
        ensures
            layout == self.spec_layout(),
    {
        HeaderLayout { width: self.width, extended: self.terminal.is_some() }
    }

    /// The tag under which the header is encoded.
    pub open spec fn spec_tag(self) -> u8 {
        spec_header_tag(self.spec_layout())
    }

    /// The tag under which the header is encoded.
    #[verifier::when_used_as_spec(spec_tag)]
    pub fn tag(self) -> (tag: u8)
        ensures
            tag == self.spec_tag(),
    {
        header_tag(self.layout())
    }

    /// Number of bytes that the encoded header takes.
    pub open spec fn spec_encoded_len(self) -> nat {
        10 + spec_terminal_len(self.terminal) + 2 * self.width.spec_bytes()
    }

    /// Number of bytes that the encoded header takes.
    pub fn encoded_len(self) -> (n: u32)
        ensures
            n == self.spec_encoded_len(),
            18 <= n <= 46,
    {
        let terminal: u32 = match self.terminal {
            None => 0,
            Some(TerminalAddress::Ipv4(_)) => 8,
            Some(TerminalAddress::Ipv6(_)) => 20,
        };
        match self.width {
            TimestampWidth::Bits32 => 18 + terminal,
            TimestampWidth::Bits64 => 26 + terminal,
        }
    }

    /// What holds of every decoded header: the version is 1 or 2, and
    /// timestamps read from 32-bit fields fit in 32 bits.
    pub open spec fn wf(self) -> bool {
        &&& self.version == 1 || self.version == 2
        &&& self.width == TimestampWidth::Bits32 ==> self.timestamp_seconds <= u32::MAX
            && self.timestamp_millis <= u32::MAX
    }
}

/// The timestamp field of the given width that starts at `at`.
pub open spec fn parse_timestamp(bytes: Seq<u8>, at: int, width: TimestampWidth) -> u64 {
    match width {
        TimestampWidth::Bits32 => be_u32(bytes, at) as u64,
        TimestampWidth::Bits64 => be_u64(bytes, at),
    }
}

/// The terminal part of a header, which in an extended header starts at byte
/// 10 with the address type.
pub open spec fn parse_terminal(bytes: Seq<u8>, extended: bool) -> Result<
    Option<TerminalAddress>,
    HeaderError,
> {
    if !extended {
        Ok(None)
    } else if bytes.len() < 14 {
        Err(HeaderError::HeaderOverrun)
    } else if be_u32(bytes, 10) == ADDRESS_IPV4 {
        if bytes.len() < 18 {
            Err(HeaderError::HeaderOverrun)
        } else {
            Ok(Some(TerminalAddress::Ipv4(be_u32(bytes, 14))))
        }
    } else if be_u32(bytes, 10) == ADDRESS_IPV6 {
        if bytes.len() < 30 {
            Err(HeaderError::HeaderOverrun)
        } else {
            Ok(Some(TerminalAddress::Ipv6(be_u128(bytes, 14))))
        }
    } else {
        Err(HeaderError::UnsupportedAddressType)
    }
}

/// The header that the bytes of a framed record start with.
///
/// The fields lie in this order: tag, byte count (4 bytes), version (1),
/// event type (2), event modifier (2), in an extended header the address type
/// (4) and the address (4 or 16), then seconds and milliseconds (4 or 8 each).
pub open spec fn parse_header(bytes: Seq<u8>) -> Result<Header, HeaderError>
    recommends
        framed(bytes),
{
    let layout = spec_header_layout(bytes[0]).unwrap();
    if bytes[5] != 1 && bytes[5] != 2 {
        Err(HeaderError::UnsupportedVersion)
    } else {
        match parse_terminal(bytes, layout.extended) {
            Err(error) => Err(error),
            Ok(terminal) => {
                let at = 10 + spec_terminal_len(terminal);
                let width = layout.width.spec_bytes();
                if bytes.len() < at + 2 * width {
                    Err(HeaderError::HeaderOverrun)
                } else {
                    Ok(
                        Header {
                            byte_count: be_u32(bytes, 1),
                            version: bytes[5],
                            event_type: be_u16(bytes, 6),
                            event_modifier: be_u16(bytes, 8),
                            terminal,
                            timestamp_seconds: parse_timestamp(bytes, at as int, layout.width),
                            timestamp_millis: parse_timestamp(
                                bytes,
                                (at + width) as int,
                                layout.width,
                            ),
                            width: layout.width,
                        },
                    )
                }
            },
        }
    }
}

/// Reads the timestamp field of the given width that starts at `at`.
fn timestamp_at(bytes: &[u8], at: usize, width: TimestampWidth) -> (value: u64)
    requires
        at + width.spec_bytes() <= bytes.len(),
    ensures
        value == parse_timestamp(bytes@, at as int, width),
        width == TimestampWidth::Bits32 ==> value <= u32::MAX,
{
    match width {
        TimestampWidth::Bits32 => u32_at(bytes, at) as u64,
        TimestampWidth::Bits64 => u64_at(bytes, at),
    }
}

/// Decodes the header of a framed record.
///
/// A header that decodes has the byte count and the tag of the record it came
/// from, and lies wholly inside it.
pub fn decode_header(raw: &RawRecord) -> (outcome: Result<Header, HeaderError>)
    ensures
        outcome == parse_header(raw@),
        outcome matches Ok(header) ==> {
            &&& header.wf()
            &&& header.byte_count == raw@.len()
            &&& header.spec_tag() == raw@[0]
            &&& header.spec_encoded_len() <= raw@.len()
        },
{
    let bytes = raw.as_bytes();
    let len: usize = bytes.len();
    let layout = header_layout(bytes[0]).unwrap();
    let version: u8 = bytes[5];
    if version != 1 && version != 2 {
        return Err(HeaderError::UnsupportedVersion);
    }
    let mut terminal: Option<TerminalAddress> = None;
    let mut at: usize = 10;
    if layout.extended {
        let kind: u32 = u32_at(bytes, 10);
        if kind == ADDRESS_IPV4 {
            terminal = Some(TerminalAddress::Ipv4(u32_at(bytes, 14)));
            at = 18;
        } else if kind == ADDRESS_IPV6 {
            if len < 30 {
                return Err(HeaderError::HeaderOverrun);
            }
            terminal = Some(TerminalAddress::Ipv6(u128_at(bytes, 14)));
            at = 30;
        } else {
            return Err(HeaderError::UnsupportedAddressType);
        }
    }
    let width: usize = layout.width.bytes();
    if len < at + 2 * width {
        return Err(HeaderError::HeaderOverrun);
    }
    Ok(
        Header {
            byte_count: u32_at(bytes, 1),
            version,
            event_type: u16_at(bytes, 6),
            event_modifier: u16_at(bytes, 8),
            terminal,
            timestamp_seconds: timestamp_at(bytes, at, layout.width),
            timestamp_millis: timestamp_at(bytes, at + width, layout.width),
            width: layout.width,
        },
    )
}

/// The encoding of the terminal part of a header.
pub open spec fn terminal_bytes(terminal: Option<TerminalAddress>) -> Seq<u8> {
    match terminal {
        None => Seq::empty(),
        Some(TerminalAddress::Ipv4(address)) => u32_bytes(ADDRESS_IPV4) + u32_bytes(address),
        Some(TerminalAddress::Ipv6(address)) => u32_bytes(ADDRESS_IPV6) + u128_bytes(address),
    }
}

/// The encoding of a timestamp in a field of the given width.
pub open spec fn timestamp_bytes(value: u64, width: TimestampWidth) -> Seq<u8> {
    match width {
        TimestampWidth::Bits32 => u32_bytes(value as u32),
        TimestampWidth::Bits64 => u64_bytes(value),
    }
}

/// The encoding of a header.
#[verifier::opaque]
pub open spec fn header_bytes(header: Header) -> Seq<u8> {
    seq![header.spec_tag()] + u32_bytes(header.byte_count) + seq![header.version] + u16_bytes(
        header.event_type,
    ) + u16_bytes(header.event_modifier) + terminal_bytes(header.terminal) + timestamp_bytes(
        header.timestamp_seconds,
        header.width,
    ) + timestamp_bytes(header.timestamp_millis, header.width)
}

/// A timestamp that fits its field reads back from its encoding.
proof fn lemma_timestamp_round_trip(s: Seq<u8>, at: int, value: u64, width: TimestampWidth)
    requires
        0 <= at,
        at + width.spec_bytes() <= s.len(),
        s.subrange(at, at + width.spec_bytes()) == timestamp_bytes(value, width),
        width == TimestampWidth::Bits32 ==> value <= u32::MAX,
    ensures
        parse_timestamp(s, at, width) == value,
{
    match width {
        TimestampWidth::Bits32 => {
            lemma_u32_round_trip(s, at, value as u32);
        },
        TimestampWidth::Bits64 => {
            lemma_u64_round_trip(s, at, value);
        },
    }
}

/// Where each field lies in a buffer put together from a tag, the fields of
/// a header in their order, and whatever follows.
proof fn lemma_header_fields(
    tag: u8,
    count: Seq<u8>,
    version: u8,
    event: Seq<u8>,
    modifier: Seq<u8>,
    terminal: Seq<u8>,
    seconds: Seq<u8>,
    millis: Seq<u8>,
    rest: Seq<u8>,
)
    requires
        count.len() == 4,
        event.len() == 2,
        modifier.len() == 2,
        seconds.len() == millis.len(),
    ensures
        ({
            let bytes = seq![tag] + count + seq![version] + event + modifier + terminal + seconds
                + millis + rest;
            let at = 10 + terminal.len() as int;
            let width = seconds.len() as int;
            &&& bytes.len() == at + 2 * width + rest.len()
            &&& bytes[0] == tag
            &&& bytes.subrange(1, 5) == count
            &&& bytes[5] == version
            &&& bytes.subrange(6, 8) == event
            &&& bytes.subrange(8, 10) == modifier
            &&& bytes.subrange(10, at) == terminal
            &&& bytes.subrange(at, at + width) == seconds
            &&& bytes.subrange(at + width, at + 2 * width) == millis
        }),
{
    let bytes = seq![tag] + count + seq![version] + event + modifier + terminal + seconds + millis
        + rest;
    let at = 10 + terminal.len() as int;
    let width = seconds.len() as int;
    assert(bytes.subrange(1, 5) =~= count);
    assert(bytes.subrange(6, 8) =~= event);
    assert(bytes.subrange(8, 10) =~= modifier);
    assert(bytes.subrange(10, at) =~= terminal);
    assert(bytes.subrange(at, at + width) =~= seconds);
    assert(bytes.subrange(at + width, at + 2 * width) =~= millis);
}

/// The encoded terminal part has the length that [`spec_terminal_len`] gives,
/// and reads back from wherever it lies from byte 10 of a buffer.
proof fn lemma_terminal_round_trip(bytes: Seq<u8>, terminal: Option<TerminalAddress>)
    requires
        10 + terminal_bytes(terminal).len() <= bytes.len(),
        bytes.subrange(10, 10 + terminal_bytes(terminal).len() as int) == terminal_bytes(terminal),
    ensures
        terminal_bytes(terminal).len() == spec_terminal_len(terminal),
        parse_terminal(bytes, terminal is Some) == Ok::<Option<TerminalAddress>, HeaderError>(
            terminal,
        ),
{
    let encoded = terminal_bytes(terminal);
    match terminal {
        None => {},
        Some(TerminalAddress::Ipv4(address)) => {
            lemma_encoded_len(ADDRESS_IPV4 as u128);
            lemma_encoded_len(address as u128);
            assert(bytes.subrange(10, 14) =~= encoded.subrange(0, 4));
            assert(encoded.subrange(0, 4) =~= u32_bytes(ADDRESS_IPV4));
            lemma_u32_round_trip(bytes, 10, ADDRESS_IPV4);
            assert(bytes.subrange(14, 18) =~= encoded.subrange(4, 8));
            assert(encoded.subrange(4, 8) =~= u32_bytes(address));
            lemma_u32_round_trip(bytes, 14, address);
        },
        Some(TerminalAddress::Ipv6(address)) => {
            lemma_encoded_len(ADDRESS_IPV6 as u128);
            lemma_encoded_len(address);
            assert(bytes.subrange(10, 14) =~= encoded.subrange(0, 4));
            assert(encoded.subrange(0, 4) =~= u32_bytes(ADDRESS_IPV6));
            lemma_u32_round_trip(bytes, 10, ADDRESS_IPV6);
            assert(bytes.subrange(14, 30) =~= encoded.subrange(4, 20));
            assert(encoded.subrange(4, 20) =~= u128_bytes(address));
            lemma_u128_round_trip(bytes, 14, address);
        },
    }
}

/// Decoding inverts encoding: a well-formed header that is encoded, and
/// followed by any bytes at all, decodes to itself, and its encoding has the
/// length that the header reports.
pub proof fn lemma_header_round_trip(header: Header, rest: Seq<u8>)
    requires
        header.wf(),
    ensures
        header_bytes(header).len() == header.spec_encoded_len(),
        parse_header(header_bytes(header) + rest) == Ok::<Header, HeaderError>(header),
{
    reveal(header_bytes);
    let bytes = header_bytes(header) + rest;
    let count = u32_bytes(header.byte_count);
    let event = u16_bytes(header.event_type);
    let modifier = u16_bytes(header.event_modifier);
    let terminal = terminal_bytes(header.terminal);
    let seconds = timestamp_bytes(header.timestamp_seconds, header.width);
    let millis = timestamp_bytes(header.timestamp_millis, header.width);
    let width = header.width.spec_bytes() as int;
    lemma_encoded_len(header.byte_count as u128);
    lemma_encoded_len(header.event_type as u128);
    lemma_encoded_len(header.event_modifier as u128);
    lemma_encoded_len(header.timestamp_seconds as u128);
    lemma_encoded_len(header.timestamp_millis as u128);
    lemma_header_fields(
        header.spec_tag(),
        count,
        header.version,
        event,
        modifier,
        terminal,
        seconds,
        millis,
        rest,
    );
    lemma_header_fields(
        header.spec_tag(),
        count,
        header.version,
        event,
        modifier,
        terminal,
        seconds,
        millis,
        Seq::empty(),
    );
    assert(header_bytes(header) + Seq::<u8>::empty() =~= header_bytes(header));
    let at = 10 + terminal.len() as int;
    assert(spec_header_layout(header.spec_tag()) == Some(header.spec_layout()));
    lemma_u32_round_trip(bytes, 1, header.byte_count);
    lemma_u16_round_trip(bytes, 6, header.event_type);
    lemma_u16_round_trip(bytes, 8, header.event_modifier);
    lemma_terminal_round_trip(bytes, header.terminal);
    lemma_timestamp_round_trip(bytes, at, header.timestamp_seconds, header.width);
    lemma_timestamp_round_trip(bytes, at + width, header.timestamp_millis, header.width);
}

/// An encoded header begins with its tag, and its tag selects its layout.
pub proof fn lemma_header_tag_first(header: Header, rest: Seq<u8>)
    ensures
        (header_bytes(header) + rest)[0] == header.spec_tag(),
        spec_header_layout(header.spec_tag()) == Some(header.spec_layout()),
        header_bytes(header).len() >= 1,
{
    reveal(header_bytes);
    let bytes = header_bytes(header);
    assert(bytes[0] == header.spec_tag());
}

/// The two timestamp widths carry the same header. Encoded once with 32-bit
/// and once with 64-bit timestamps, the same field values decode to headers
/// that differ in nothing but the recorded width, and the wider encoding is
/// longer by the eight bytes that the two wider fields take.
pub proof fn lemma_header_widths_agree(header: Header, rest: Seq<u8>)
    requires
        header.version == 1 || header.version == 2,
        header.timestamp_seconds <= u32::MAX,
        header.timestamp_millis <= u32::MAX,
    ensures
        ({
            let narrow = Header { width: TimestampWidth::Bits32, ..header };
            let wide = Header { width: TimestampWidth::Bits64, ..header };
            &&& parse_header(header_bytes(narrow) + rest) matches Ok(from_narrow)
            &&& parse_header(header_bytes(wide) + rest) matches Ok(from_wide)
            &&& from_narrow == narrow
            &&& from_wide == wide
            &&& Header { width: TimestampWidth::Bits64, ..from_narrow } == from_wide
            &&& header_bytes(narrow).len() == narrow.spec_encoded_len()
            &&& header_bytes(wide).len() == wide.spec_encoded_len()
            &&& wide.spec_encoded_len() == narrow.spec_encoded_len() + 8
        }),
{
    lemma_header_round_trip(Header { width: TimestampWidth::Bits32, ..header }, rest);
    lemma_header_round_trip(Header { width: TimestampWidth::Bits64, ..header }, rest);
}

} // verus!
