//! The data model of an X3 archive: codec parameters, archive spec and frame header.
use vstd::prelude::*;
use crate::error::X3Error;

verus! {

/// The bytes that open every archive.
pub const ARCHIVE_ID: [u8; 8] = [0x58, 0x33, 0x41, 0x52, 0x43, 0x48, 0x49, 0x56];

/// The length of a frame header in bytes.
pub const FRAME_HEADER_LENGTH: usize = 20;

/// The number of blocks in a frame unless the archive says otherwise.
pub const DEFAULT_BLOCKS_PER_FRAME: usize = 500;

/// The capacity of the frame payload buffer.
pub const X3_READ_BUFFER_SIZE: usize = 24576;

/// The codec parameters of an archive.
#[derive(Debug, Clone, Copy)]
pub struct Parameters {
    /// Samples per block.
    pub block_len: usize,
    /// Blocks per frame.
    pub blocks_per_frame: usize,
    /// The Rice parameter of each of the three Rice bands.
    pub rice_codes: [usize; 3],
    /// The block-magnitude thresholds that separate the bands.
    pub thresholds: [usize; 3],
}

/// Whether the parameters can drive a decoder.
pub open spec fn params_ok(block_len: usize, rice_codes: Seq<usize>, thresholds: Seq<usize>) -> bool {
    &&& block_len > 0
    &&& rice_codes.len() == 3
    &&& thresholds.len() == 3
    &&& forall|i: int| 0 <= i < 3 ==> rice_codes[i] <= 3
    &&& thresholds[0] < thresholds[1] < thresholds[2]
}

impl Parameters {
    pub open spec fn wf(&self) -> bool {
        params_ok(self.block_len, self.rice_codes@, self.thresholds@)
    }

    /// Checked construction: `ArchiveHeaderInvalid` for an empty block length or
    /// thresholds that do not strictly increase, `ArchiveHeaderRiceCode` for a Rice
    /// parameter above 3.
    pub fn new(
        block_len: usize,
        blocks_per_frame: usize,
        rice_codes: [usize; 3],
        thresholds: [usize; 3],
    ) -> (r: Result<Parameters, X3Error>)
        ensures
            block_len == 0 || !(thresholds@[0] < thresholds@[1] < thresholds@[2]) ==> r
                == Err::<Parameters, X3Error>(X3Error::ArchiveHeaderInvalid),
            block_len > 0 && thresholds@[0] < thresholds@[1] < thresholds@[2] && !(forall|i: int|
                0 <= i < 3 ==> rice_codes@[i] <= 3) ==> r == Err::<Parameters, X3Error>(
                X3Error::ArchiveHeaderRiceCode,
            ),
            params_ok(block_len, rice_codes@, thresholds@) ==> r == Ok::<Parameters, X3Error>(
                (Parameters { block_len, blocks_per_frame, rice_codes, thresholds }),
            ),
            r is Ok ==> r->Ok_0.wf(),
    {
        if block_len == 0 || !(thresholds[0] < thresholds[1] && thresholds[1] < thresholds[2]) {
            return Err(X3Error::ArchiveHeaderInvalid);
        }
        if rice_codes[0] > 3 || rice_codes[1] > 3 || rice_codes[2] > 3 {
            return Err(X3Error::ArchiveHeaderRiceCode);
        }
        Ok(Parameters { block_len, blocks_per_frame, rice_codes, thresholds })
    }
}

/// What an archive says of its audio.
#[derive(Debug, Clone, Copy)]
pub struct X3aSpec {
    /// Samples per second.
    pub sample_rate: u32,
    /// The channel count of the first frame header.
    pub channels: u16,
    pub params: Parameters,
}

/// The fixed-size header in front of every frame.
#[derive(Debug, Clone, Copy, PartialEq, Eq, Structural)]
pub struct FrameHeader {
    /// Source id, or channel count.
    pub channels: u16,
    /// Payload length in bytes.
    pub payload_len: usize,
    /// Number of samples in the payload.
    pub samples: u16,
    /// The time fields, big-endian.
    pub time: u64,
    /// The CRC-16 of the header's first 16 bytes.
    pub header_crc: u16,
    /// The CRC-16 of the payload.
    pub payload_crc: u16,
}

} // verus!
