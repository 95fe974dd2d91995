//! A DICOMweb protocol core: the QIDO-RS, WADO-RS and STOW-RS request
//! shapes on the client side, a route table and response assembly on
//! the server side, and the two codecs both sides share — the
//! `multipart/related` body framing that carries binary DICOM
//! payloads, and the DICOM-JSON attribute codec.
//!
//! Everything here is a pure function over plain values; reading and
//! writing the DICOM binary format belongs to the external toolkit,
//! and carrying bytes over HTTP belongs to whatever transport hosts
//! these functions.

pub mod ascii;
pub mod client;
pub mod dataset;
pub mod filter;
pub mod json;
pub mod multipart;
pub mod server;

use vstd::prelude::*;

verus! {

/// Errors of the protocol core, as surfaced to callers.
#[derive(Debug, Clone, Copy, PartialEq, Eq, Structural)]
pub enum ProtocolError {
    /// A multipart header phase was entered in the wrong state.
    UnexpectedState,
    /// No line of the body carried the boundary token: nothing was
    /// framed, so nothing can be recovered.
    MissingBoundary,
    /// A `Content-Length` header did not carry a readable decimal number.
    BadContentLength,
    /// A part announced more payload bytes than the body still holds.
    Truncated,
    /// A body without `Content-Length` did not end in the boundary terminator.
    MissingTerminator,
}

/// The error kinds of this crate, as callers see them: transport
/// failures surfaced unchanged, framing and codec faults, and the
/// not-found outcome of a retrieve.
#[derive(Debug, PartialEq)]
pub enum Error {
    /// A base URL handed to a client builder is not absolute.
    InvalidBaseUrl,
    /// Malformed multipart framing.
    Protocol(ProtocolError),
    /// A JSON value's shape does not match its representation.
    Codec(crate::json::CodecError),
    /// A retrieve found no matching instance.
    NotFound,
    /// An HTTP failure, surfaced unchanged from the transport.
    Transport(String),
}

} // verus!
