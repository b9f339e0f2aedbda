//! The tokens of a record's body.
//!
//! A token starts with its tag. The tag fixes the layout, and the layout says
//! how long the token is: either it is of fixed length, or it holds its own
//! length in a field at a fixed place. Nothing about a token's length is ever
//! taken from what surrounds it.

use crate::error::TokenDecodeError;
use crate::tags::spec_token_kind;
use crate::tags::token_kind;
use crate::tags::TokenKind;
use crate::tags::RETURN64;
use crate::tags::SUBJECT64;
use crate::wire::be_u16;
use crate::wire::be_u32;
use crate::wire::be_u64;
use crate::wire::u16_at;
use crate::wire::u32_at;
use crate::wire::u64_at;
use vstd::prelude::*;
use vstd::slice::slice_subrange;
use vstd::slice::slice_to_vec;

verus! {

/// The identity that a subject token records, as the numbers the kernel wrote.
#[derive(Clone, Copy, Debug, PartialEq, Eq)]
pub struct SubjectIds {
    pub audit_uid: u32,
    pub effective_uid: u32,
    pub effective_gid: u32,
    pub real_uid: u32,
    pub real_gid: u32,
    pub pid: u32,
    pub session_id: u32,
    pub terminal_port: u64,
    pub terminal_address: u32,
}

/// The names that the ids of a subject resolve to. A name is absent until the
/// record is enriched, and stays absent where the tables know no such id.
#[derive(Clone, Debug, PartialEq, Eq)]
pub struct SubjectNames {
    pub audit_user: Option<String>,
    pub effective_user: Option<String>,
    pub effective_group: Option<String>,
    pub real_user: Option<String>,
    pub real_group: Option<String>,
}

/// Model of [`SubjectNames`].
pub struct SubjectNamesModel {
    pub audit_user: Option<Seq<char>>,
    pub effective_user: Option<Seq<char>>,
    pub effective_group: Option<Seq<char>>,
    pub real_user: Option<Seq<char>>,
    pub real_group: Option<Seq<char>>,
}

/// Model of an optional name.
pub open spec fn name_model(name: Option<String>) -> Option<Seq<char>> {
    match name {
        Some(name) => Some(name@),
        None => None,
    }
}

impl View for SubjectNames {
    type V = SubjectNamesModel;

    open spec fn view(&self) -> SubjectNamesModel {
        SubjectNamesModel {
            audit_user: name_model(self.audit_user),
            effective_user: name_model(self.effective_user),
            effective_group: name_model(self.effective_group),
            real_user: name_model(self.real_user),
            real_group: name_model(self.real_group),
        }
    }
}

impl SubjectNamesModel {
    /// No name resolved.
    pub open spec fn unresolved() -> SubjectNamesModel {
        SubjectNamesModel {
            audit_user: None,
            effective_user: None,
            effective_group: None,
            real_user: None,
            real_group: None,
        }
    }
}

impl SubjectNames {
    /// No name resolved.
    pub fn unresolved() -> (names: SubjectNames)
        ensures
            names@ == SubjectNamesModel::unresolved(),
    {
        SubjectNames {
            audit_user: None,
            effective_user: None,
            effective_group: None,
            real_user: None,
            real_group: None,
        }
    }
}

/// One token of a record's body.
#[derive(Clone, Debug, PartialEq, Eq)]
pub enum Token {
    /// Who caused the event.
    Subject { tag: u8, ids: SubjectIds, names: SubjectNames },
    /// How the audited call ended: an error status and the value returned.
    Return { tag: u8, status: u8, value: u64 },
    /// A file system path, as the bytes the record holds.
    Path { tag: u8, path: Vec<u8> },
    /// A text string, as the bytes the record holds.
    Text { tag: u8, text: Vec<u8> },
    /// An array of `unit_count` items whose size `unit_type` selects.
    ArbitraryData { tag: u8, print_format: u8, unit_type: u8, unit_count: u8, data: Vec<u8> },
    /// The end of the record, with the record's length repeated.
    Trailer { tag: u8, magic: u16, byte_count: u32 },
}

/// Model of a [`Token`]: the same value with its byte strings and names as
/// sequences.
pub enum TokenModel {
    Subject { tag: u8, ids: SubjectIds, names: SubjectNamesModel },
    Return { tag: u8, status: u8, value: u64 },
    Path { tag: u8, path: Seq<u8> },
    Text { tag: u8, text: Seq<u8> },
    ArbitraryData { tag: u8, print_format: u8, unit_type: u8, unit_count: u8, data: Seq<u8> },
    Trailer { tag: u8, magic: u16, byte_count: u32 },
}

impl View for Token {
    type V = TokenModel;

    open spec fn view(&self) -> TokenModel {
        match *self {
            Token::Subject { tag, ids, names } => TokenModel::Subject { tag, ids, names: names@ },
            Token::Return { tag, status, value } => TokenModel::Return { tag, status, value },
            Token::Path { tag, path } => TokenModel::Path { tag, path: path@ },
            Token::Text { tag, text } => TokenModel::Text { tag, text: text@ },
            Token::ArbitraryData { tag, print_format, unit_type, unit_count, data } => {
                TokenModel::ArbitraryData { tag, print_format, unit_type, unit_count, data: data@ }
            },
            Token::Trailer { tag, magic, byte_count } => TokenModel::Trailer {
                tag,
                magic,
                byte_count,
            },
        }
    }
}

/// Size in bytes of one item of an arbitrary-data token: a byte, a short, a
/// 32-bit or a 64-bit integer. Other unit types are unknown.
pub open spec fn spec_unit_size(unit_type: u8) -> Option<nat> {
    if unit_type == 0 {
        Some(1)
    } else if unit_type == 1 {
        Some(2)
    } else if unit_type == 2 {
        Some(4)
    } else if unit_type == 3 {
        Some(8)
    } else {
        None
    }
}

/// Size in bytes of one item of an arbitrary-data token.
pub fn unit_size(unit_type: u8) -> (size: Option<usize>)
    ensures
        match spec_unit_size(unit_type) {
            Some(n) => size == Some(n as usize) && n <= 8,
            None => size is None,
        },
{
    if unit_type == 0 {
        Some(1)
    } else if unit_type == 1 {
        Some(2)
    } else if unit_type == 2 {
        Some(4)
    } else if unit_type == 3 {
        Some(8)
    } else {
        None
    }
}

/// Number of bytes from the tag through the last field whose place the tag
/// alone fixes. For a token of fixed length this is the whole token; for the
/// others it reaches through the fields that give the length of the rest.
pub open spec fn spec_fixed_len(kind: TokenKind) -> nat {
    match kind {
        TokenKind::Subject32 => 37,
        TokenKind::Subject64 => 41,
        TokenKind::Return32 => 6,
        TokenKind::Return64 => 10,
        TokenKind::Path => 3,
        TokenKind::Text => 3,
        TokenKind::ArbitraryData => 4,
        TokenKind::Trailer => 7,
    }
}

/// Number of bytes from the tag through the last field of fixed place.
pub fn fixed_len(kind: TokenKind) -> (n: usize)
    ensures
        n == spec_fixed_len(kind),
{
    match kind {
        TokenKind::Subject32 => 37,
        TokenKind::Subject64 => 41,
        TokenKind::Return32 => 6,
        TokenKind::Return64 => 10,
        TokenKind::Path => 3,
        TokenKind::Text => 3,
        TokenKind::ArbitraryData => 4,
        TokenKind::Trailer => 7,
    }
}

impl TokenModel {
    /// The token's tag.
    pub open spec fn tag(self) -> u8 {
        match self {
            TokenModel::Subject { tag, .. } => tag,
            TokenModel::Return { tag, .. } => tag,
            TokenModel::Path { tag, .. } => tag,
            TokenModel::Text { tag, .. } => tag,
            TokenModel::ArbitraryData { tag, .. } => tag,
            TokenModel::Trailer { tag, .. } => tag,
        }
    }

    /// Number of bytes that the encoded token takes, its tag included.
    pub open spec fn encoded_len(self) -> nat {
        match self {
            TokenModel::Subject { tag, .. } => if tag == SUBJECT64 {
                41
            } else {
                37
            },
            TokenModel::Return { tag, .. } => if tag == RETURN64 {
                10
            } else {
                6
            },
            TokenModel::Path { path, .. } => 3 + path.len(),
            TokenModel::Text { text, .. } => 3 + text.len(),
            TokenModel::ArbitraryData { data, .. } => 4 + data.len(),
            TokenModel::Trailer { .. } => 7,
        }
    }

    /// What holds of every decoded token: the tag is one of its kind, values
    /// read from 32-bit fields fit in 32 bits, and a counted payload has the
    /// length that its count gives.
    pub open spec fn wf(self) -> bool {
        match self {
            TokenModel::Subject { tag, ids, .. } => {
                &&& spec_token_kind(tag) == Some(TokenKind::Subject32) || spec_token_kind(tag)
                    == Some(TokenKind::Subject64)
                &&& tag != SUBJECT64 ==> ids.terminal_port <= u32::MAX
            },
            TokenModel::Return { tag, value, .. } => {
                &&& spec_token_kind(tag) == Some(TokenKind::Return32) || spec_token_kind(tag)
                    == Some(TokenKind::Return64)
                &&& tag != RETURN64 ==> value <= u32::MAX
            },
            TokenModel::Path { tag, path } => {
                &&& spec_token_kind(tag) == Some(TokenKind::Path)
                &&& path.len() <= u16::MAX
            },
            TokenModel::Text { tag, text } => {
                &&& spec_token_kind(tag) == Some(TokenKind::Text)
                &&& text.len() <= u16::MAX
            },
            TokenModel::ArbitraryData { tag, unit_type, unit_count, data, .. } => {
                &&& spec_token_kind(tag) == Some(TokenKind::ArbitraryData)
                &&& spec_unit_size(unit_type) matches Some(size)
                &&& data.len() == size * unit_count
            },
            TokenModel::Trailer { tag, .. } => spec_token_kind(tag) == Some(TokenKind::Trailer),
        }
    }

    /// Whether the token is a subject.
    pub open spec fn is_subject(self) -> bool {
        self is Subject
    }
}

/// The subject whose fields start behind the tag of `bytes`, with a terminal
/// port of 32 or of 64 bits.
pub open spec fn parse_subject(bytes: Seq<u8>, wide: bool) -> SubjectIds {
    SubjectIds {
        audit_uid: be_u32(bytes, 1),
        effective_uid: be_u32(bytes, 5),
        effective_gid: be_u32(bytes, 9),
        real_uid: be_u32(bytes, 13),
        real_gid: be_u32(bytes, 17),
        pid: be_u32(bytes, 21),
        session_id: be_u32(bytes, 25),
        terminal_port: if wide {
            be_u64(bytes, 29)
        } else {
            be_u32(bytes, 29) as u64
        },
        terminal_address: if wide {
            be_u32(bytes, 37)
        } else {
            be_u32(bytes, 33)
        },
    }
}

/// The payload of a path or text token: the bytes that the 16-bit length
/// behind the tag counts.
pub open spec fn parse_counted(bytes: Seq<u8>) -> Result<Seq<u8>, TokenDecodeError> {
    let n = be_u16(bytes, 1) as int;
    if bytes.len() < 3 + n {
        Err(TokenDecodeError::TokenOverrunError)
    } else {
        Ok(bytes.subrange(3, 3 + n))
    }
}

/// The arbitrary-data token that `bytes` starts with.
pub open spec fn parse_data(bytes: Seq<u8>) -> Result<TokenModel, TokenDecodeError> {
    match spec_unit_size(bytes[2]) {
        None => Err(TokenDecodeError::UnknownDataUnit),
        Some(size) => {
            let n = size * bytes[3] as int;
            if bytes.len() < 4 + n {
                Err(TokenDecodeError::TokenOverrunError)
            } else {
                Ok(
                    TokenModel::ArbitraryData {
                        tag: bytes[0],
                        print_format: bytes[1],
                        unit_type: bytes[2],
                        unit_count: bytes[3],
                        data: bytes.subrange(4, 4 + n),
                    },
                )
            }
        },
    }
}

/// The token of the given kind that `bytes` starts with, where `bytes` holds
/// at least the fields of fixed place.
pub open spec fn parse_kind(kind: TokenKind, bytes: Seq<u8>) -> Result<
    TokenModel,
    TokenDecodeError,
> {
    let tag = bytes[0];
    match kind {
        TokenKind::Subject32 => Ok(
            TokenModel::Subject {
                tag,
                ids: parse_subject(bytes, false),
                names: SubjectNamesModel::unresolved(),
            },
        ),
        TokenKind::Subject64 => Ok(
            TokenModel::Subject {
                tag,
                ids: parse_subject(bytes, true),
                names: SubjectNamesModel::unresolved(),
            },
        ),
        TokenKind::Return32 => Ok(
            TokenModel::Return { tag, status: bytes[1], value: be_u32(bytes, 2) as u64 },
        ),
        TokenKind::Return64 => Ok(
            TokenModel::Return { tag, status: bytes[1], value: be_u64(bytes, 2) },
        ),
        TokenKind::Path => match parse_counted(bytes) {
            Ok(path) => Ok(TokenModel::Path { tag, path }),
            Err(error) => Err(error),
        },
        TokenKind::Text => match parse_counted(bytes) {
            Ok(text) => Ok(TokenModel::Text { tag, text }),
            Err(error) => Err(error),
        },
        TokenKind::ArbitraryData => parse_data(bytes),
        TokenKind::Trailer => Ok(
            TokenModel::Trailer { tag, magic: be_u16(bytes, 1), byte_count: be_u32(bytes, 3) },
        ),
    }
}

/// The token that `bytes` starts with, where `bytes` is what is left of a
/// record from the token's tag on.
///
/// The layouts, after the tag:
/// - subject: seven 32-bit ids (audit user, effective user and group, real
///   user and group, process, session), the terminal port (32 or 64 bits) and
///   the terminal address (32 bits);
/// - return: status (1 byte) and value (32 or 64 bits);
/// - path and text: length (16 bits) and that many bytes;
/// - arbitrary data: print format, unit type, unit count (1 byte each) and
///   count times the unit size of bytes;
/// - trailer: magic number (16 bits) and the record's byte count (32 bits).
///
/// A tag in no table is an unknown tag. A token that would reach past the end
/// of `bytes` overruns the record.
pub open spec fn parse_token(bytes: Seq<u8>) -> Result<TokenModel, TokenDecodeError>
    recommends
        bytes.len() > 0,
{
    match spec_token_kind(bytes[0]) {
        None => Err(TokenDecodeError::UnknownTokenTag),
        Some(kind) => if bytes.len() < spec_fixed_len(kind) {
            Err(TokenDecodeError::TokenOverrunError)
        } else {
            parse_kind(kind, bytes)
        },
    }
}

/// A token whose tag is in no table is refused as an unknown token,
/// whatever follows the tag.
pub proof fn lemma_unknown_token_tag(bytes: Seq<u8>)
    requires
        bytes.len() > 0,
        spec_token_kind(bytes[0]) is None,
    ensures
        parse_token(bytes) == Err::<TokenModel, TokenDecodeError>(
            TokenDecodeError::UnknownTokenTag,
        ),
{
}

/// A token that parses is well formed, carries the tag it was found under,
/// and lies wholly inside the bytes it was parsed from.
pub proof fn lemma_parsed_token(bytes: Seq<u8>)
    requires
        bytes.len() > 0,
    ensures
        parse_token(bytes) matches Ok(token) ==> {
            &&& token.wf()
            &&& token.tag() == bytes[0]
            &&& 3 <= token.encoded_len() <= bytes.len()
        },
{
    if let Ok(token) = parse_token(bytes) {
        match token {
            TokenModel::ArbitraryData { unit_type, unit_count, data, .. } => {
                let size = spec_unit_size(unit_type).unwrap();
                assert(0 <= size * unit_count) by (nonlinear_arith)
                    requires
                        0 <= size,
                        0 <= unit_count,
                ;
            },
            _ => {},
        }
    }
}

/// Reads the ids of a subject token whose tag is at `at`.
fn subject_at(bytes: &[u8], at: usize, wide: bool) -> (ids: SubjectIds)
    requires
        at + (if wide {
            41int
        } else {
            37int
        }) <= bytes.len(),
    ensures
        ids == parse_subject(bytes@.subrange(at as int, bytes@.len() as int), wide),
{
    SubjectIds {
        audit_uid: u32_at(bytes, at + 1),
        effective_uid: u32_at(bytes, at + 5),
        effective_gid: u32_at(bytes, at + 9),
        real_uid: u32_at(bytes, at + 13),
        real_gid: u32_at(bytes, at + 17),
        pid: u32_at(bytes, at + 21),
        session_id: u32_at(bytes, at + 25),
        terminal_port: if wide {
            u64_at(bytes, at + 29)
        } else {
            u32_at(bytes, at + 29) as u64
        },
        terminal_address: if wide {
            u32_at(bytes, at + 37)
        } else {
            u32_at(bytes, at + 33)
        },
    }
}

/// Copies `n` bytes of `bytes`, from `from` on.
fn copy_bytes(bytes: &[u8], from: usize, n: usize) -> (copy: Vec<u8>)
    requires
        from + n <= bytes.len(),
    ensures
        copy@ == bytes@.subrange(from as int, from + n),
{
    slice_to_vec(slice_subrange(bytes, from, from + n))
}

/// Decodes the payload of the path or text token whose tag is at `at`.
fn counted_at(bytes: &[u8], at: usize) -> (outcome: Result<Vec<u8>, TokenDecodeError>)
    requires
        at + 3 <= bytes.len(),
    ensures
        match parse_counted(bytes@.subrange(at as int, bytes@.len() as int)) {
            Ok(payload) => outcome matches Ok(copy) && copy@ == payload,
            Err(error) => outcome matches Err(e) && e == error,
        },
{
    let ghost rest = bytes@.subrange(at as int, bytes@.len() as int);
    let n: usize = u16_at(bytes, at + 1) as usize;
    if bytes.len() - at - 3 < n {
        return Err(TokenDecodeError::TokenOverrunError);
    }
    let copy = copy_bytes(bytes, at + 3, n);
    assert(copy@ =~= rest.subrange(3, 3 + n));
    Ok(copy)
}

/// Decodes the arbitrary-data token whose tag is at `at`.
fn data_at(bytes: &[u8], at: usize) -> (outcome: Result<Token, TokenDecodeError>)
    requires
        at + 4 <= bytes.len(),
    ensures
        match parse_data(bytes@.subrange(at as int, bytes@.len() as int)) {
            Ok(model) => outcome matches Ok(token) && token@ == model,
            Err(error) => outcome matches Err(e) && e == error,
        },
{
    let ghost rest = bytes@.subrange(at as int, bytes@.len() as int);
    let unit_type: u8 = bytes[at + 2];
    let unit_count: u8 = bytes[at + 3];
    let size: usize = match unit_size(unit_type) {
        Some(size) => size,
        None => {
            return Err(TokenDecodeError::UnknownDataUnit);
        },
    };
    assert(size * unit_count <= 8 * 255) by (nonlinear_arith)
        requires
            size <= 8,
            unit_count <= 255,
    ;
    let n: usize = size * (unit_count as usize);
    if bytes.len() - at - 4 < n {
        return Err(TokenDecodeError::TokenOverrunError);
    }
    let data = copy_bytes(bytes, at + 4, n);
    assert(data@ =~= rest.subrange(4, 4 + n));
    Ok(
        Token::ArbitraryData {
            tag: bytes[at],
            print_format: bytes[at + 1],
            unit_type,
            unit_count,
            data,
        },
    )
}

/// Decodes the token of the given kind whose tag is at `at`.
fn kind_at(kind: TokenKind, bytes: &[u8], at: usize) -> (outcome: Result<Token, TokenDecodeError>)
    requires
        at + spec_fixed_len(kind) <= bytes.len(),
    ensures
        match parse_kind(kind, bytes@.subrange(at as int, bytes@.len() as int)) {
            Ok(model) => outcome matches Ok(token) && token@ == model,
            Err(error) => outcome matches Err(e) && e == error,
        },
{
    let tag: u8 = bytes[at];
    match kind {
        TokenKind::Subject32 => {
            let ids = subject_at(bytes, at, false);
            Ok(Token::Subject { tag, ids, names: SubjectNames::unresolved() })
        },
        TokenKind::Subject64 => {
            let ids = subject_at(bytes, at, true);
            Ok(Token::Subject { tag, ids, names: SubjectNames::unresolved() })
        },
        TokenKind::Return32 => {
            let value: u64 = u32_at(bytes, at + 2) as u64;
            Ok(Token::Return { tag, status: bytes[at + 1], value })
        },
        TokenKind::Return64 => {
            let value: u64 = u64_at(bytes, at + 2);
            Ok(Token::Return { tag, status: bytes[at + 1], value })
        },
        TokenKind::Path => match counted_at(bytes, at) {
            Ok(path) => Ok(Token::Path { tag, path }),
            Err(error) => Err(error),
        },
        TokenKind::Text => match counted_at(bytes, at) {
            Ok(text) => Ok(Token::Text { tag, text }),
            Err(error) => Err(error),
        },
        TokenKind::ArbitraryData => data_at(bytes, at),
        TokenKind::Trailer => {
            let magic: u16 = u16_at(bytes, at + 1);
            let byte_count: u32 = u32_at(bytes, at + 3);
            Ok(Token::Trailer { tag, magic, byte_count })
        },
    }
}

impl Token {
    /// The token's tag.
    pub fn tag(&self) -> (tag: u8)
        ensures
            tag == self@.tag(),
    {
        match self {
            Token::Subject { tag, .. } => *tag,
            Token::Return { tag, .. } => *tag,
            Token::Path { tag, .. } => *tag,
            Token::Text { tag, .. } => *tag,
            Token::ArbitraryData { tag, .. } => *tag,
            Token::Trailer { tag, .. } => *tag,
        }
    }

    /// Number of bytes that the encoded token takes, its tag included.
    pub fn encoded_len(&self) -> (n: usize)
        requires
            self@.wf(),
        ensures
            n == self@.encoded_len(),
    {
        match self {
            Token::Subject { tag, .. } => if *tag == SUBJECT64 {
                41
            } else {
                37
            },
            Token::Return { tag, .. } => if *tag == RETURN64 {
                10
            } else {
                6
            },
            Token::Path { path, .. } => 3 + path.len(),
            Token::Text { text, .. } => 3 + text.len(),
            Token::ArbitraryData { unit_type, unit_count, data, .. } => {
                proof {
                    let size = spec_unit_size(*unit_type).unwrap();
                    assert(size * *unit_count <= 8 * 255) by (nonlinear_arith)
                        requires
                            size <= 8,
                            *unit_count <= 255,
                    ;
                }
                4 + data.len()
            },
            Token::Trailer { .. } => 7,
        }
    }
}

/// Decodes the token whose tag is at `at`, from the bytes of a record.
///
/// The result is the token together with its encoded length: the number of
/// bytes by which the caller advances.
pub fn decode_token(bytes: &[u8], at: usize) -> (outcome: Result<(Token, usize), TokenDecodeError>)
    requires
        at < bytes.len(),
    ensures
        match parse_token(bytes@.subrange(at as int, bytes@.len() as int)) {
            Ok(model) => {
                &&& outcome matches Ok((token, n))
                &&& token@ == model
                &&& n == model.encoded_len()
                &&& model.wf()
                &&& 3 <= n <= bytes.len() - at
            },
            Err(error) => outcome matches Err(e) && e == error,
        },
{
    proof {
        lemma_parsed_token(bytes@.subrange(at as int, bytes@.len() as int));
    }
    let kind = match token_kind(bytes[at]) {
        Some(kind) => kind,
        None => {
            return Err(TokenDecodeError::UnknownTokenTag);
        },
    };
    if bytes.len() - at < fixed_len(kind) {
        return Err(TokenDecodeError::TokenOverrunError);
    }
    match kind_at(kind, bytes, at) {
        Ok(token) => {
            let n: usize = token.encoded_len();
            Ok((token, n))
        },
        Err(error) => Err(error),
    }
}

} // verus!
