//! Decoder for OpenBSM audit trails.
//!
//! An audit trail is a run of self-framed records. Each record starts with a
//! header token that declares the record's length, carries a sequence of body
//! tokens, and ends with a trailer token that repeats the length. This crate
//! frames records out of the bytes of a trail, decodes their tokens, and
//! resolves the numeric user and group ids found in them against passwd and
//! group tables.
//!
//! The bytes flow through the modules in this order:
//!
//! - [`reader`] holds the trail and the position up to which it is consumed;
//! - [`framer`] cuts one record after the other out of it;
//! - [`header`], [`token`] and [`record`] decode a framed record;
//! - [`identity`] and [`enrich`] attach names to the ids of its subjects;
//! - [`trail`] drives all of this over a whole trail and survives its defects;
//! - [`merge`] brings the records of several trails into the order of time.
//!
//! [`wire`], [`tags`], [`error`] and [`log`] hold what the others share, and
//! [`encoding`] states the encoding that the decoder is proved to invert.
//!
//! Every executable function is verified against a contract stated over
//! mathematical models of the bytes and of the decoded values. No function
//! panics, and none reads or writes anything but its arguments.

pub mod wire;
pub mod tags;
pub mod error;
pub mod log;
pub mod reader;
pub mod framer;
pub mod header;
pub mod token;
pub mod record;
pub mod identity;
pub mod enrich;
pub mod trail;
pub mod merge;
pub mod encoding;
