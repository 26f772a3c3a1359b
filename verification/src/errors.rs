//! Error types surfaced by the rings and the storage layer.

use vstd::prelude::*;

verus! {

/// Errors from ring construction and ring writes.
#[derive(Debug, Clone, Copy)]
pub enum RingError {
    /// A write needed more bytes than the ring had free.
    NotEnoughSpace { required: usize, available: usize },
    /// Ring construction rejected the requested capacity.
    InvalidCapacity { capacity: usize, reason: &'static str },
    /// Reserved for future enforcement; payloads are capped at 65535 bytes
    /// by their 16-bit length field.
    PayloadTooLarge { payload_len: usize, max_len: usize },
}

/// Errors from opening a persisted log image.
#[derive(Debug, Clone, Copy, PartialEq, Eq, Structural)]
pub enum StorageError {
    /// The image is shorter than a file header, its magic or version is
    /// wrong, or its metadata does not describe the image.
    InvalidData,
}

} // verus!
