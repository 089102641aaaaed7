//! The errors of archive and frame decoding.
use vstd::prelude::*;

verus! {

/// Why an archive, a frame or a bitstream could not be decoded.
#[derive(Debug, Clone, Copy, PartialEq, Eq, Structural)]
pub enum X3Error {
    /// The archive does not start with the archive identifier.
    ArchiveHeaderInvalidMagic,
    /// The XML metadata lacks a required element, or holds a malformed value.
    ArchiveHeaderInvalid,
    /// An unknown token in the `<CODES>` element.
    ArchiveHeaderRiceCode,
    /// A frame does not start with `"x3"`.
    FrameHeaderBadMagic,
    /// The stored header CRC differs from the computed one.
    FrameHeaderInvalidHeaderCRC,
    /// The stored payload CRC differs from the computed one.
    FrameHeaderInvalidPayloadCRC,
    /// The payload is longer than the read buffer.
    FrameHeaderInvalidPayloadLen,
    /// The bitstream ended in the middle of a value.
    EndOfStream,
    /// The underlying reader failed.
    IoError,
}

} // verus!
