//! An in-process event logging pipeline: length-delimited event records are
//! staged in circular byte rings and persisted into an append-only log image
//! with a validated 64-byte file header.
//!
//! Every record is a fixed 16-byte little-endian header followed by exactly
//! `payload_len` opaque payload bytes. The rings store records back-to-back
//! in a power-of-two byte buffer, wrapping records across the end of the
//! buffer; the storage layer appends the same framing to a flat byte image
//! whose prefix is the file header.

pub mod dispatcher;
pub mod errors;
pub mod event;
pub mod frame;
pub mod ring;
pub mod spsc;
pub mod storage;
pub mod wrap;
