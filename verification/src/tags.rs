//! Tag bytes and the layouts they select.
//!
//! The first byte of a record, and of every token inside it, names the layout
//! of what follows. The two tables here map a tag to that layout: one for the
//! header variants that may start a record, one for the tokens in its body.

use vstd::prelude::*;

verus! {

/// Header with 32-bit timestamps.
pub const HEADER32: u8 = 0x14;

/// Header with 32-bit timestamps and a terminal address.
pub const HEADER32_EX: u8 = 0x15;

/// Header with 64-bit timestamps.
pub const HEADER64: u8 = 0x74;

/// Header with 64-bit timestamps and a terminal address.
pub const HEADER64_EX: u8 = 0x79;

/// Trailer: closes a record and repeats its length.
pub const TRAILER: u8 = 0x13;

/// Arbitrary data: a counted array of fixed-size units.
pub const ARBITRARY_DATA: u8 = 0x21;

/// Path: a length-prefixed file system path.
pub const PATH: u8 = 0x23;

/// Subject with a 32-bit terminal port.
pub const SUBJECT32: u8 = 0x24;

/// Return value of 32 bits.
pub const RETURN32: u8 = 0x27;

/// Text: a length-prefixed string.
pub const TEXT: u8 = 0x28;

/// Return value of 64 bits.
pub const RETURN64: u8 = 0x72;

/// Subject with a 64-bit terminal port.
pub const SUBJECT64: u8 = 0x75;

/// The magic number that a trailer carries before its length.
pub const TRAILER_MAGIC: u16 = 0xb105;

/// Width of the two timestamp fields of a header.
#[derive(Clone, Copy, Debug, PartialEq, Eq, Structural)]
pub enum TimestampWidth {
    Bits32,
    Bits64,
}

impl TimestampWidth {
    /// Number of bytes that one timestamp field takes.
    pub open spec fn spec_bytes(self) -> nat {
        match self {
            TimestampWidth::Bits32 => 4,
            TimestampWidth::Bits64 => 8,
        }
    }

    /// Number of bytes that one timestamp field takes.
    pub fn bytes(self) -> (n: usize)
        ensures
            n == self.spec_bytes(),
    {
        match self {
            TimestampWidth::Bits32 => 4,
            TimestampWidth::Bits64 => 8,
        }
    }
}

/// What a header tag fixes of the header's layout.
#[derive(Clone, Copy, Debug, PartialEq, Eq, Structural)]
pub struct HeaderLayout {
    /// Width of the timestamp fields.
    pub width: TimestampWidth,
    /// Whether a terminal address precedes the timestamps.
    pub extended: bool,
}

/// The layout that a record-start tag selects; `None` for any other byte.
pub open spec fn spec_header_layout(tag: u8) -> Option<HeaderLayout> {
    if tag == HEADER32 {
        Some(HeaderLayout { width: TimestampWidth::Bits32, extended: false })
    } else if tag == HEADER32_EX {
        Some(HeaderLayout { width: TimestampWidth::Bits32, extended: true })
    } else if tag == HEADER64 {
        Some(HeaderLayout { width: TimestampWidth::Bits64, extended: false })
    } else if tag == HEADER64_EX {
        Some(HeaderLayout { width: TimestampWidth::Bits64, extended: true })
    } else {
        None
    }
}

/// Looks a byte up in the table of record-start tags.
#[verifier::when_used_as_spec(spec_header_layout)]
pub fn header_layout(tag: u8) -> (layout: Option<HeaderLayout>)
    ensures
        layout == spec_header_layout(tag),
{
    if tag == HEADER32 {
        Some(HeaderLayout { width: TimestampWidth::Bits32, extended: false })
    } else if tag == HEADER32_EX {
        Some(HeaderLayout { width: TimestampWidth::Bits32, extended: true })
    } else if tag == HEADER64 {
        Some(HeaderLayout { width: TimestampWidth::Bits64, extended: false })
    } else if tag == HEADER64_EX {
        Some(HeaderLayout { width: TimestampWidth::Bits64, extended: true })
    } else {
        None
    }
}

/// The tag that selects a given header layout.
pub open spec fn spec_header_tag(layout: HeaderLayout) -> u8 {
    match (layout.width, layout.extended) {
        (TimestampWidth::Bits32, false) => HEADER32,
        (TimestampWidth::Bits32, true) => HEADER32_EX,
        (TimestampWidth::Bits64, false) => HEADER64,
        (TimestampWidth::Bits64, true) => HEADER64_EX,
    }
}

/// The tag that selects a given header layout.
#[verifier::when_used_as_spec(spec_header_tag)]
pub fn header_tag(layout: HeaderLayout) -> (tag: u8)
    ensures
        tag == spec_header_tag(layout),
        spec_header_layout(tag) == Some(layout),
{
    match (layout.width, layout.extended) {
        (TimestampWidth::Bits32, false) => HEADER32,
        (TimestampWidth::Bits32, true) => HEADER32_EX,
        (TimestampWidth::Bits64, false) => HEADER64,
        (TimestampWidth::Bits64, true) => HEADER64_EX,
    }
}

/// Whether a byte is one of the tags that may start a record.
pub open spec fn spec_is_record_start(tag: u8) -> bool {
    spec_header_layout(tag) is Some
}

/// Whether a byte is one of the tags that may start a record.
#[verifier::when_used_as_spec(spec_is_record_start)]
pub fn is_record_start(tag: u8) -> (known: bool)
    ensures
        known == spec_is_record_start(tag),
{
    header_layout(tag).is_some()
}

/// Length of the shortest header that a layout admits: tag, byte count,
/// version, event type, event modifier and the two timestamps, and for an
/// extended header the address type with a four-byte address.
pub open spec fn spec_min_header_size(layout: HeaderLayout) -> nat {
    10 + (if layout.extended {
        8nat
    } else {
        0nat
    }) + 2 * layout.width.spec_bytes()
}

/// Length of the shortest header that a layout admits.
pub fn min_header_size(layout: HeaderLayout) -> (n: u32)
    ensures
        n == spec_min_header_size(layout),
        18 <= n <= 34,
{
    let fixed: u32 = if layout.extended {
        18
    } else {
        10
    };
    match layout.width {
        TimestampWidth::Bits32 => fixed + 8,
        TimestampWidth::Bits64 => fixed + 16,
    }
}

/// The kinds of token that may follow the header of a record.
#[derive(Clone, Copy, Debug, PartialEq, Eq, Structural)]
pub enum TokenKind {
    Subject32,
    Subject64,
    Return32,
    Return64,
    Path,
    Text,
    ArbitraryData,
    Trailer,
}

/// The kind of token that a tag selects; `None` for an unknown tag.
pub open spec fn spec_token_kind(tag: u8) -> Option<TokenKind> {
    if tag == SUBJECT32 {
        Some(TokenKind::Subject32)
    } else if tag == SUBJECT64 {
        Some(TokenKind::Subject64)
    } else if tag == RETURN32 {
        Some(TokenKind::Return32)
    } else if tag == RETURN64 {
        Some(TokenKind::Return64)
    } else if tag == PATH {
        Some(TokenKind::Path)
    } else if tag == TEXT {
        Some(TokenKind::Text)
    } else if tag == ARBITRARY_DATA {
        Some(TokenKind::ArbitraryData)
    } else if tag == TRAILER {
        Some(TokenKind::Trailer)
    } else {
        None
    }
}

/// Looks a byte up in the table of token tags.
#[verifier::when_used_as_spec(spec_token_kind)]
pub fn token_kind(tag: u8) -> (kind: Option<TokenKind>)
    ensures
        kind == spec_token_kind(tag),
{
    if tag == SUBJECT32 {
        Some(TokenKind::Subject32)
    } else if tag == SUBJECT64 {
        Some(TokenKind::Subject64)
    } else if tag == RETURN32 {
        Some(TokenKind::Return32)
    } else if tag == RETURN64 {
        Some(TokenKind::Return64)
    } else if tag == PATH {
        Some(TokenKind::Path)
    } else if tag == TEXT {
        Some(TokenKind::Text)
    } else if tag == ARBITRARY_DATA {
        Some(TokenKind::ArbitraryData)
    } else if tag == TRAILER {
        Some(TokenKind::Trailer)
    } else {
        None
    }
}

/// The tag that selects a given kind of token.
pub open spec fn spec_token_tag(kind: TokenKind) -> u8 {
    match kind {
        TokenKind::Subject32 => SUBJECT32,
        TokenKind::Subject64 => SUBJECT64,
        TokenKind::Return32 => RETURN32,
        TokenKind::Return64 => RETURN64,
        TokenKind::Path => PATH,
        TokenKind::Text => TEXT,
        TokenKind::ArbitraryData => ARBITRARY_DATA,
        TokenKind::Trailer => TRAILER,
    }
}

/// The tag that selects a given kind of token.
#[verifier::when_used_as_spec(spec_token_tag)]
pub fn token_tag(kind: TokenKind) -> (tag: u8)
    ensures
        tag == spec_token_tag(kind),
        spec_token_kind(tag) == Some(kind),
{
    match kind {
        TokenKind::Subject32 => SUBJECT32,
        TokenKind::Subject64 => SUBJECT64,
        TokenKind::Return32 => RETURN32,
        TokenKind::Return64 => RETURN64,
        TokenKind::Path => PATH,
        TokenKind::Text => TEXT,
        TokenKind::ArbitraryData => ARBITRARY_DATA,
        TokenKind::Trailer => TRAILER,
    }
}

/// No tag is both a record start and a body token, and the two tables invert
/// the functions that give a layout or a kind its tag.
pub proof fn lemma_tag_tables(tag: u8)
    ensures
        !(spec_header_layout(tag) is Some && spec_token_kind(tag) is Some),
        spec_header_layout(tag) matches Some(layout) ==> spec_header_tag(layout) == tag,
        spec_token_kind(tag) matches Some(kind) ==> spec_token_tag(kind) == tag,
{
}

} // verus!
