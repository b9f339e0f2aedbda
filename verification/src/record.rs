//! Decoding a framed record into an [`AuditRecord`].
//!
//! The header comes first. After it the decoder walks the record token by
//! token: it looks the tag up, decodes the token that the tag announces, and
//! advances by the token's own length, until it has consumed exactly the bytes
//! that the record declares. A token that cannot be decoded stops the walk;
//! the record is still handed out, with the tokens before the failure and a
//! status that says what went wrong and where.

use crate::error::HeaderError;
use crate::error::TokenDecodeError;
use crate::framer::framed;
use crate::framer::RawRecord;
use crate::header::decode_header;
use crate::header::parse_header;
use crate::header::Header;
use crate::token::decode_token;
use crate::token::lemma_parsed_token;
use crate::token::parse_token;
use crate::token::Token;
use crate::token::TokenModel;
use vstd::prelude::*;

verus! {

/// How the decoding of a record ended. Every status but `Complete` flags the
/// record as corrupt; the record is handed out all the same.
#[derive(Clone, Copy, Debug, PartialEq, Eq)]
pub enum RecordStatus {
    /// Every byte was decoded, and the record ends in a trailer that repeats
    /// the header's byte count.
    Complete,
    /// Every byte was decoded, but the last token is no trailer, or it is one
    /// whose byte count differs from the header's.
    TrailerMismatchError,
    /// The token at offset `at` of the record could not be decoded. The
    /// record holds the tokens before it.
    TokenError { error: TokenDecodeError, at: u32 },
}

/// One decoded record.
#[derive(Clone, Debug, PartialEq, Eq)]
pub struct AuditRecord {
    /// The header token.
    pub header: Header,
    /// The tokens after the header, in the order of the record.
    pub tokens: Vec<Token>,
    /// How decoding ended.
    pub status: RecordStatus,
}

/// Model of an [`AuditRecord`].
pub struct AuditRecordModel {
    pub header: Header,
    pub tokens: Seq<TokenModel>,
    pub status: RecordStatus,
}

/// The models of a sequence of tokens.
pub open spec fn token_models(tokens: Seq<Token>) -> Seq<TokenModel> {
    Seq::new(tokens.len(), |i: int| tokens[i]@)
}

impl View for AuditRecord {
    type V = AuditRecordModel;

    open spec fn view(&self) -> AuditRecordModel {
        AuditRecordModel {
            header: self.header,
            tokens: token_models(self.tokens@),
            status: self.status,
        }
    }
}

/// Sum of the encoded lengths of a sequence of tokens.
pub open spec fn tokens_len(tokens: Seq<TokenModel>) -> nat
    decreases tokens.len(),
{
    if tokens.len() == 0 {
        0
    } else {
        tokens_len(tokens.drop_last()) + tokens.last().encoded_len()
    }
}

/// Whether a record with this header and these tokens ends as it should: in a
/// trailer whose byte count is the header's.
pub open spec fn closes(header: Header, tokens: Seq<TokenModel>) -> bool {
    &&& tokens.len() > 0
    &&& tokens.last() matches TokenModel::Trailer { byte_count, .. }
    &&& byte_count == header.byte_count
}

/// The status of a record whose walk decoded `tokens` and stopped for `stop`.
pub open spec fn status_of(
    header: Header,
    tokens: Seq<TokenModel>,
    stop: Option<TokenDecodeError>,
) -> RecordStatus {
    match stop {
        Some(error) => RecordStatus::TokenError {
            error,
            at: (header.spec_encoded_len() + tokens_len(tokens)) as u32,
        },
        None => if closes(header, tokens) {
            RecordStatus::Complete
        } else {
            RecordStatus::TrailerMismatchError
        },
    }
}

impl AuditRecordModel {
    /// Number of bytes of the record that were decoded into the header and
    /// the tokens.
    pub open spec fn consumed(self) -> nat {
        self.header.spec_encoded_len() + tokens_len(self.tokens)
    }

    /// What holds of every decoded record.
    ///
    /// The header and every token are well formed. Unless decoding stopped at
    /// a token, the lengths of the header and of all tokens add up to exactly
    /// the byte count that the header declares. Where decoding stopped, it
    /// stopped inside the record, at the offset that the status gives.
    pub open spec fn wf(self) -> bool {
        &&& self.header.wf()
        &&& forall|i: int| 0 <= i < self.tokens.len() ==> (#[trigger] self.tokens[i]).wf()
        &&& match self.status {
            RecordStatus::Complete => {
                &&& self.consumed() == self.header.byte_count
                &&& closes(self.header, self.tokens)
            },
            RecordStatus::TrailerMismatchError => {
                &&& self.consumed() == self.header.byte_count
                &&& !closes(self.header, self.tokens)
            },
            RecordStatus::TokenError { at, .. } => {
                &&& self.consumed() < self.header.byte_count
                &&& at == self.consumed()
            },
        }
    }
}

/// The walk over the tokens of a record from offset `at` on: the tokens that
/// decode, in order, and the error that stopped the walk, if one did.
///
/// The walk ends without error exactly when it arrives at the end of `bytes`.
pub open spec fn parse_tokens(bytes: Seq<u8>, at: int) -> (Seq<TokenModel>, Option<
    TokenDecodeError,
>)
    decreases bytes.len() - at,
{
    if at < 0 || at >= bytes.len() {
        (Seq::empty(), None)
    } else {
        match parse_token(bytes.subrange(at, bytes.len() as int)) {
            Err(error) => (Seq::empty(), Some(error)),
            Ok(token) => {
                let (rest, stop) = parse_tokens(bytes, at + token.encoded_len());
                (seq![token] + rest, stop)
            },
        }
    }
}

/// The record that the bytes of a framed record decode to, or the reason why
/// its header does not decode.
pub open spec fn parse_record(bytes: Seq<u8>) -> Result<AuditRecordModel, HeaderError>
    recommends
        framed(bytes),
{
    match parse_header(bytes) {
        Err(error) => Err(error),
        Ok(header) => {
            let (tokens, stop) = parse_tokens(bytes, header.spec_encoded_len() as int);
            Ok(AuditRecordModel { header, tokens, status: status_of(header, tokens, stop) })
        },
    }
}

/// The length of a sequence of tokens grows by the length of a token put
/// behind it.
pub proof fn lemma_tokens_len_push(tokens: Seq<TokenModel>, token: TokenModel)
    ensures
        tokens_len(tokens.push(token)) == tokens_len(tokens) + token.encoded_len(),
{
    assert(tokens.push(token).drop_last() =~= tokens);
}

/// The length of a sequence of tokens is the length of its first token and
/// of the rest.
pub proof fn lemma_tokens_len_first(tokens: Seq<TokenModel>)
    requires
        tokens.len() > 0,
    ensures
        tokens_len(tokens) == tokens.first().encoded_len() + tokens_len(tokens.drop_first()),
    decreases tokens.len(),
{
    if tokens.len() == 1 {
        assert(tokens.drop_last() =~= Seq::empty());
        assert(tokens.drop_first() =~= Seq::empty());
        assert(tokens_len(Seq::<TokenModel>::empty()) == 0);
    } else {
        lemma_tokens_len_first(tokens.drop_last());
        assert(tokens.drop_last().drop_first() =~= tokens.drop_first().drop_last());
        assert(tokens.drop_last().first() == tokens.first());
        assert(tokens.drop_first().last() == tokens.last());
    }
}

/// One step of the walk: where the token at `at` decodes, the walk from `at`
/// gives that token and then whatever the walk from behind it gives.
pub proof fn lemma_walk_step(bytes: Seq<u8>, at: int, token: TokenModel)
    requires
        0 <= at < bytes.len(),
        parse_token(bytes.subrange(at, bytes.len() as int)) == Ok::<TokenModel, TokenDecodeError>(
            token,
        ),
    ensures
        parse_tokens(bytes, at) == (
            seq![token] + parse_tokens(bytes, at + token.encoded_len()).0,
            parse_tokens(bytes, at + token.encoded_len()).1,
        ),
{
}

/// The walk ends where the record ends, and stops where a token fails.
pub proof fn lemma_walk_end(bytes: Seq<u8>, at: int)
    ensures
        at >= bytes.len() ==> parse_tokens(bytes, at) == (
            Seq::<TokenModel>::empty(),
            None::<TokenDecodeError>,
        ),
        0 <= at < bytes.len() ==> (parse_token(
            bytes.subrange(at, bytes.len() as int),
        ) matches Err(error) ==> parse_tokens(bytes, at) == (
            Seq::<TokenModel>::empty(),
            Some(error),
        )),
{
}

/// The walk over the tokens of a record accounts for every byte it passes.
///
/// Each token that it decodes is well formed. Where it ends without error,
/// the tokens from `at` on take exactly the bytes from `at` to the end of the
/// record; where an error stops it, they take fewer, and the token that
/// failed begins inside the record.
pub proof fn lemma_parsed_tokens(bytes: Seq<u8>, at: int)
    requires
        0 <= at <= bytes.len(),
    ensures
        ({
            let (tokens, stop) = parse_tokens(bytes, at);
            &&& forall|i: int| 0 <= i < tokens.len() ==> (#[trigger] tokens[i]).wf()
            &&& match stop {
                None => at + tokens_len(tokens) == bytes.len(),
                Some(_) => at + tokens_len(tokens) < bytes.len(),
            }
        }),
    decreases bytes.len() - at,
{
    let (tokens, stop) = parse_tokens(bytes, at);
    if at < bytes.len() {
        let rest = bytes.subrange(at, bytes.len() as int);
        lemma_parsed_token(rest);
        match parse_token(rest) {
            Ok(token) => {
                let (others, _) = parse_tokens(bytes, at + token.encoded_len());
                lemma_parsed_tokens(bytes, at + token.encoded_len());
                assert(tokens == seq![token] + others);
                lemma_tokens_len_first(tokens);
                assert(tokens.drop_first() =~= others);
                assert forall|i: int| 0 <= i < tokens.len() implies (#[trigger] tokens[i]).wf() by {
                    if i > 0 {
                        assert(tokens[i] == others[i - 1]);
                    }
                }
            },
            Err(_) => {
                assert(tokens_len(tokens) == 0);
            },
        }
    } else {
        assert(tokens_len(tokens) == 0);
    }
}

/// Whatever a framed record decodes to is well formed, and declares the
/// length that the record has.
///
/// So of every record that is decoded to the end, the lengths of the header
/// and of all tokens add up to exactly the declared byte count; and a record
/// of which they do not is marked corrupt, with the place where decoding
/// stopped. No bytes are ever dropped in silence.
pub proof fn lemma_parsed_record(bytes: Seq<u8>)
    requires
        framed(bytes),
    ensures
        parse_record(bytes) matches Ok(record) ==> {
            &&& record.wf()
            &&& record.header.byte_count == bytes.len()
            &&& record.status !is TokenError ==> record.consumed() == bytes.len()
        },
{
    if let Ok(header) = parse_header(bytes) {
        lemma_parsed_tokens(bytes, header.spec_encoded_len() as int);
    }
}

/// Decodes a framed record.
///
/// The only failures are those of the header: without a header there is no
/// record. Every other defect is reported in the status of the record, which
/// is handed out with all that was decoded.
pub fn decode_record(raw: &RawRecord) -> (outcome: Result<AuditRecord, HeaderError>)
    ensures
        match parse_record(raw@) {
            Ok(model) => {
                &&& outcome matches Ok(record)
                &&& record@ == model
                &&& model.wf()
                &&& model.header.byte_count == raw@.len()
            },
            Err(error) => outcome matches Err(e) && e == error,
        },
{
    let header = match decode_header(raw) {
        Ok(header) => header,
        Err(error) => {
            return Err(error);
        },
    };
    let bytes = raw.as_bytes();
    let len: usize = bytes.len();
    let start: usize = header.encoded_len() as usize;
    let mut at: usize = start;
    let mut tokens: Vec<Token> = Vec::new();
    let mut stop: Option<TokenDecodeError> = None;
    assert(token_models(tokens@) =~= Seq::empty());
    assert(Seq::<TokenModel>::empty() + parse_tokens(bytes@, at as int).0 =~= parse_tokens(
        bytes@,
        at as int,
    ).0);
    while at < len && stop.is_none()
        invariant
            len == bytes@.len(),
            start <= at <= len,
            at == start + tokens_len(token_models(tokens@)),
            forall|i: int| 0 <= i < tokens@.len() ==> (#[trigger] token_models(tokens@)[i]).wf(),
            match stop {
                None => parse_tokens(bytes@, start as int) == (
                    token_models(tokens@) + parse_tokens(bytes@, at as int).0,
                    parse_tokens(bytes@, at as int).1,
                ),
                Some(error) => at < len && parse_tokens(bytes@, start as int) == (
                    token_models(tokens@),
                    Some(error),
                ),
            },
        decreases len - at, (if stop is None { 1int } else { 0int }),
    {
        let ghost before = token_models(tokens@);
        let ghost tail = parse_tokens(bytes@, at as int);
        match decode_token(bytes, at) {
            Ok((token, n)) => {
                let ghost model = token@;
                let ghost after = parse_tokens(bytes@, at + n);
                tokens.push(token);
                proof {
                    assert(token_models(tokens@) =~= before.push(model));
                    lemma_tokens_len_push(before, model);
                    assert(tail == (seq![model] + after.0, after.1));
                    assert(before.push(model) + after.0 =~= before + (seq![model] + after.0));
                }
                at = at + n;
            },
            Err(error) => {
                proof {
                    assert(tail == (Seq::<TokenModel>::empty(), Some(error)));
                    assert(before + Seq::<TokenModel>::empty() =~= before);
                }
                stop = Some(error);
            },
        }
    }
    proof {
        if stop is None {
            assert(token_models(tokens@) + Seq::<TokenModel>::empty() =~= token_models(tokens@));
        }
    }
    let status = match stop {
        Some(error) => RecordStatus::TokenError { error, at: at as u32 },
        None => {
            let count: usize = tokens.len();
            let closed: bool = count > 0 && match &tokens[count - 1] {
                Token::Trailer { byte_count, .. } => *byte_count == header.byte_count,
                _ => false,
            };
            if closed {
                RecordStatus::Complete
            } else {
                RecordStatus::TrailerMismatchError
            }
        },
    };
    Ok(AuditRecord { header, tokens, status })
}

/// The tokens up to any point of a sequence take no more bytes than all of
/// them.
pub proof fn lemma_tokens_len_prefix(tokens: Seq<TokenModel>, k: int)
    requires
        0 <= k <= tokens.len(),
    ensures
        tokens_len(tokens.take(k)) <= tokens_len(tokens),
    decreases tokens.len() - k,
{
    if k == tokens.len() {
        assert(tokens.take(k) =~= tokens);
    } else {
        assert(tokens.take(k + 1).drop_last() =~= tokens.take(k));
        lemma_tokens_len_prefix(tokens, k + 1);
    }
}

impl AuditRecord {
    /// Number of bytes of the record that were decoded into the header and
    /// the tokens. Unless the record is corrupt, this is its byte count.
    pub fn consumed_len(&self) -> (n: u32)
        requires
            self@.wf(),
        ensures
            n == self@.consumed(),
            self.status !is TokenError ==> n == self.header.byte_count,
    {
        let ghost models = token_models(self.tokens@);
        let mut n: u32 = self.header.encoded_len();
        let mut i: usize = 0;
        assert(models.take(0) =~= Seq::empty());
        while i < self.tokens.len()
            invariant
                i <= self.tokens@.len(),
                models == token_models(self.tokens@),
                self@.wf(),
                n == self.header.spec_encoded_len() + tokens_len(models.take(i as int)),
            decreases self.tokens@.len() - i,
        {
            proof {
                assert(models.take(i + 1).drop_last() =~= models.take(i as int));
                assert(models.take(i + 1).last() == self.tokens@[i as int]@);
                assert(self@.tokens[i as int].wf());
                lemma_tokens_len_prefix(models, i + 1);
            }
            n = n + self.tokens[i].encoded_len() as u32;
            i = i + 1;
        }
        assert(models.take(self.tokens@.len() as int) =~= models);
        n
    }
}

impl AuditRecord {
    /// Length of the whole record as its header declares it.
    pub fn byte_count(&self) -> (n: u32)
        ensures
            n == self@.header.byte_count,
    {
        self.header.byte_count
    }

    /// Format version of the record.
    pub fn version(&self) -> (version: u8)
        ensures
            version == self@.header.version,
    {
        self.header.version
    }

    /// The audited event.
    pub fn event_type(&self) -> (event: u16)
        ensures
            event == self@.header.event_type,
    {
        self.header.event_type
    }

    /// Bit flags that qualify the event.
    pub fn event_modifier(&self) -> (modifier: u16)
        ensures
            modifier == self@.header.event_modifier,
    {
        self.header.event_modifier
    }

    /// Time of the event: whole seconds.
    pub fn timestamp_seconds(&self) -> (seconds: u64)
        ensures
            seconds == self@.header.timestamp_seconds,
    {
        self.header.timestamp_seconds
    }

    /// Time of the event: the milliseconds field.
    pub fn timestamp_millis(&self) -> (millis: u64)
        ensures
            millis == self@.header.timestamp_millis,
    {
        self.header.timestamp_millis
    }

    /// Whether the record is flagged as corrupt: whether decoding stopped at
    /// a token, or the trailer does not match.
    pub fn is_corrupt(&self) -> (corrupt: bool)
        ensures
            corrupt == (self@.status !is Complete),
    {
        match self.status {
            RecordStatus::Complete => false,
            _ => true,
        }
    }
}

} // verus!
