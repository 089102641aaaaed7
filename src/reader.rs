//! Reading an archive held in memory: its header once, then frame after frame.
use vstd::prelude::*;
use crate::archive::{archive_header_check, read_archive_header, xml_params};
use crate::crc::{crc16, crc16_of};
use crate::decoder::{decode_frame, frame_header_of, frame_samples, read_frame_header};
use crate::error::X3Error;
use crate::x3::{FrameHeader, Parameters, X3aSpec, FRAME_HEADER_LENGTH, X3_READ_BUFFER_SIZE};

verus! {

/// A reader over the bytes of an archive, past its header.
pub struct X3aReader {
    /// The whole archive.
    pub data: Vec<u8>,
    /// The offset of the next frame.
    pub pos: usize,
    pub spec: X3aSpec,
    /// The number of frames dropped for a bad payload CRC or a truncated bitstream.
    pub frame_errors: usize,
}

/// What reading the frame at `pos` gives: the samples of a frame (`Ok(Some)`), the end
/// of the archive (`Ok(None)`) or an error; then the offset after it, and whether the
/// frame is dropped and counted as a frame error.
pub open spec fn next_frame(data: Seq<u8>, pos: int, params: Parameters) -> (Result<Option<Seq<i16>>, X3Error>, int, bool) {
    if data.len() - pos <= 20 {
        (Ok(None), pos, false)
    } else {
        match frame_header_of(data.subrange(pos, pos + 20)) {
            Err(e) => (Err(e), pos + 20, false),
            Ok(h) => {
                let start = pos + 20;
                let end = start + h.payload_len;
                if data.len() - start < h.payload_len {
                    (Ok(None), start, false)
                } else if h.payload_len > X3_READ_BUFFER_SIZE {
                    (Err(X3Error::FrameHeaderInvalidPayloadLen), start, false)
                } else if crc16_of(data.subrange(start, end)) != h.payload_crc {
                    (Err(X3Error::FrameHeaderInvalidPayloadCRC), end, true)
                } else {
                    match frame_samples(data.subrange(start, end), params, h.samples as nat) {
                        Some(s) => (Ok(Some(s)), end, false),
                        None => (Err(X3Error::EndOfStream), end, true),
                    }
                }
            },
        }
    }
}

/// The samples of all frames from `pos` on, in order, with the number of dropped
/// frames; a frame error that cannot be skipped ends it with that error.
pub open spec fn frames_from(data: Seq<u8>, pos: int, params: Parameters) -> Result<(Seq<i16>, nat), X3Error>
    decreases data.len() - pos,
{
    let (res, np, dropped) = next_frame(data, pos, params);
    if np <= pos || pos > data.len() {
        match res {
            Err(e) => Err(e),
            Ok(_) => Ok((Seq::empty(), 0)),
        }
    } else {
        match res {
            Ok(None) => Ok((Seq::empty(), 0)),
            Ok(Some(s)) => match frames_from(data, np, params) {
                Ok((rest, k)) => Ok((s + rest, k)),
                Err(e) => Err(e),
            },
            Err(e) => if dropped {
                match frames_from(data, np, params) {
                    Ok((rest, k)) => Ok((rest, k + 1)),
                    Err(e2) => Err(e2),
                }
            } else {
                Err(e)
            },
        }
    }
}

/// A frame's outcome depends on its own bytes alone: the frame at `pos` decodes as it
/// would at the start of the bytes from `pos` on, and ends at the same place. So a
/// dropped frame leaves the frames after it as they are.
pub proof fn lemma_frame_isolation(data: Seq<u8>, pos: int, params: Parameters)
    requires
        0 <= pos <= data.len(),
    ensures
        ({
            let (r1, p1, d1) = next_frame(data, pos, params);
            let (r2, p2, d2) = next_frame(data.subrange(pos, data.len() as int), 0, params);
            r1 == r2 && p1 == p2 + pos && d1 == d2
        }),
{
    let tail = data.subrange(pos, data.len() as int);
    if data.len() - pos > 20 {
        assert(tail.subrange(0, 20) =~= data.subrange(pos, pos + 20));
        match frame_header_of(data.subrange(pos, pos + 20)) {
            Err(_) => {},
            Ok(h) => {
                let start = pos + 20;
                let end = start + h.payload_len;
                if data.len() - start >= h.payload_len {
                    assert(tail.subrange(20, 20 + h.payload_len) =~= data.subrange(start, end));
                }
            },
        }
    }
}

proof fn lemma_next_frame_local(a: Seq<u8>, b: Seq<u8>, p: int, params: Parameters)
    requires
        0 <= p <= a.len(),
        a.len() == b.len(),
        forall|i: int| p <= i < a.len() ==> a[i] == b[i],
    ensures
        next_frame(a, p, params) == next_frame(b, p, params),
{
    assert(a.subrange(p, a.len() as int) =~= b.subrange(p, b.len() as int));
    lemma_frame_isolation(a, p, params);
    lemma_frame_isolation(b, p, params);
}

/// The frames from `p` on depend on the bytes from `p` on alone.
pub proof fn lemma_frames_local(a: Seq<u8>, b: Seq<u8>, p: int, params: Parameters)
    requires
        0 <= p <= a.len(),
        a.len() == b.len(),
        forall|i: int| p <= i < a.len() ==> a[i] == b[i],
    ensures
        frames_from(a, p, params) == frames_from(b, p, params),
    decreases a.len() - p,
{
    lemma_next_frame_local(a, b, p, params);
    let (res, np, dropped) = next_frame(a, p, params);
    if np > p && np <= a.len() {
        lemma_frames_local(a, b, np, params);
    }
}

/// A frame whose payload bytes are damaged, under an intact header, is either decoded
/// or dropped with `FrameHeaderInvalidPayloadCRC` or `EndOfStream` and counted once;
/// the reader moves to the same next frame either way, and every frame after it
/// decodes as it would have.
pub proof fn lemma_damaged_payload_contained(a: Seq<u8>, b: Seq<u8>, pos: int, params: Parameters)
    requires
        0 <= pos,
        pos + 20 < a.len(),
        a.len() == b.len(),
        frame_header_of(a.subrange(pos, pos + 20)) is Ok,
        ({
            let h = frame_header_of(a.subrange(pos, pos + 20))->Ok_0;
            &&& h.payload_len <= X3_READ_BUFFER_SIZE
            &&& pos + 20 + h.payload_len <= a.len()
            &&& forall|i: int|
                0 <= i < a.len() && !(pos + 20 <= i < pos + 20 + h.payload_len) ==> a[i] == b[i]
        }),
    ensures
        ({
            let (ra, pa, da) = next_frame(a, pos, params);
            let (rb, pb, db) = next_frame(b, pos, params);
            &&& pa == pb
            &&& pa > pos
            &&& (rb is Ok && rb->Ok_0 is Some && !db) || (db && (rb == Err::<Option<Seq<i16>>, X3Error>(
                X3Error::FrameHeaderInvalidPayloadCRC,
            ) || rb == Err::<Option<Seq<i16>>, X3Error>(X3Error::EndOfStream)))
            &&& frames_from(a, pa, params) == frames_from(b, pb, params)
        }),
{
    assert(a.subrange(pos, pos + 20) =~= b.subrange(pos, pos + 20));
    let h = frame_header_of(a.subrange(pos, pos + 20))->Ok_0;
    let end = pos + 20 + h.payload_len;
    lemma_frames_local(a, b, end, params);
}

impl X3aReader {
    pub open spec fn wf(&self) -> bool {
        &&& self.pos <= self.data@.len()
        &&& self.frame_errors <= self.pos
        &&& self.spec.params.wf()
    }

    /// Reads the archive header of `data`; the reader then stands at the first frame.
    pub fn open(data: Vec<u8>) -> (r: Result<X3aReader, X3Error>)
        ensures
            match archive_header_check(data@) {
                Err(e) => r == Err::<X3aReader, X3Error>(e),
                Ok(h) => match xml_params(data@.subrange(28, 28 + h.payload_len)) {
                    Ok((fs, ps)) => r is Ok && ({
                        let rd = r->Ok_0;
                        &&& rd.wf()
                        &&& rd.data@ == data@
                        &&& rd.pos == 28 + h.payload_len
                        &&& rd.frame_errors == 0
                        &&& rd.spec == X3aSpec { sample_rate: fs, channels: h.channels, params: ps }
                    }),
                    Err(e) => r is Err && r->Err_0 == e,
                },
            },
    {
        let (spec, header_size) = match read_archive_header(data.as_slice()) {
            Ok(v) => v,
            Err(e) => return Err(e),
        };
        Ok(X3aReader { data, pos: header_size, spec, frame_errors: 0 })
    }

    /// The archive's spec.
    pub fn spec(&self) -> (r: &X3aSpec)
        ensures
            *r == self.spec,
    {
        &self.spec
    }

    /// Reads and decodes the next frame into `wav`. `Ok(Some(n))`: `wav` holds the
    /// frame's `n` samples. `Ok(None)`: the archive has ended. A frame with a bad
    /// payload CRC or a truncated bitstream is dropped, counted, and its error returned;
    /// the reader then stands at the next frame.
    pub fn decode_next_frame(&mut self, wav: &mut Vec<i16>) -> (r: Result<Option<usize>, X3Error>)
        requires
            old(self).wf(),
        ensures
            final(self).wf(),
            final(self).data@ == old(self).data@,
            final(self).spec == old(self).spec,
            ({
                let (res, np, dropped) = next_frame(
                    old(self).data@,
                    old(self).pos as int,
                    old(self).spec.params,
                );
                &&& final(self).pos == np
                &&& final(self).frame_errors == old(self).frame_errors + if dropped {
                    1int
                } else {
                    0int
                }
                &&& !(r is Ok && r->Ok_0 is Some) ==> final(wav)@ == old(wav)@
                &&& match res {
                    Ok(None) => r == Ok::<Option<usize>, X3Error>(None),
                    Ok(Some(s)) => r == Ok::<Option<usize>, X3Error>(Some(s.len() as usize))
                        && final(wav)@ == s,
                    Err(e) => r == Err::<Option<usize>, X3Error>(e),
                }
            }),
    {
        if self.data.len() - self.pos <= FRAME_HEADER_LENGTH {
            return Ok(None);
        }
        let header = match self.read_frame_header() {
            Ok(h) => h,
            Err(e) => return Err(e),
        };
        if self.data.len() - self.pos < header.payload_len {
            return Ok(None);
        }
        if header.payload_len > X3_READ_BUFFER_SIZE {
            return Err(X3Error::FrameHeaderInvalidPayloadLen);
        }
        let (start, end) = match self.read_frame_payload(&header) {
            Ok(range) => range,
            Err(e) => {
                self.frame_errors = self.frame_errors + 1;
                return Err(e);
            },
        };
        let payload = vstd::slice::slice_subrange(self.data.as_slice(), start, end);
        match decode_frame(payload, wav, &self.spec.params, header.samples as usize) {
            Ok(n) => Ok(Some(n)),
            Err(e) => {
                self.frame_errors = self.frame_errors + 1;
                Err(e)
            },
        }
    }

    /// Takes the next `len` bytes, or all that are left when fewer remain, and
    /// returns where they stand.
    fn read_bytes(&mut self, len: usize) -> (r: (usize, usize))
        requires
            old(self).wf(),
        ensures
            final(self).wf(),
            final(self).data@ == old(self).data@,
            final(self).spec == old(self).spec,
            final(self).frame_errors == old(self).frame_errors,
            r.0 == old(self).pos,
            r.1 == final(self).pos,
            final(self).pos == if old(self).data@.len() - old(self).pos < len {
                old(self).data@.len() as int
            } else {
                old(self).pos + len
            },
    {
        let n: usize = if self.data.len() - self.pos < len {
            self.data.len() - self.pos
        } else {
            len
        };
        let start: usize = self.pos;
        self.pos = self.pos + n;
        (start, self.pos)
    }

    /// Reads and checks the header of the next frame.
    fn read_frame_header(&mut self) -> (r: Result<FrameHeader, X3Error>)
        requires
            old(self).wf(),
            old(self).data@.len() - old(self).pos >= FRAME_HEADER_LENGTH,
        ensures
            final(self).wf(),
            final(self).data@ == old(self).data@,
            final(self).spec == old(self).spec,
            final(self).frame_errors == old(self).frame_errors,
            final(self).pos == old(self).pos + FRAME_HEADER_LENGTH,
            r == frame_header_of(old(self).data@.subrange(old(self).pos as int, old(self).pos + 20)),
    {
        let (start, end) = self.read_bytes(FRAME_HEADER_LENGTH);
        read_frame_header(vstd::slice::slice_subrange(self.data.as_slice(), start, end))
    }

    /// Takes the payload that `header` announces and checks its CRC; returns where
    /// it stands.
    fn read_frame_payload(&mut self, header: &FrameHeader) -> (r: Result<(usize, usize), X3Error>)
        requires
            old(self).wf(),
            header.payload_len <= old(self).data@.len() - old(self).pos,
        ensures
            final(self).wf(),
            final(self).data@ == old(self).data@,
            final(self).spec == old(self).spec,
            final(self).frame_errors == old(self).frame_errors,
            final(self).pos == old(self).pos + header.payload_len,
            r == if crc16_of(old(self).data@.subrange(old(self).pos as int, final(self).pos as int))
                != header.payload_crc {
                Err::<(usize, usize), X3Error>(X3Error::FrameHeaderInvalidPayloadCRC)
            } else {
                Ok::<(usize, usize), X3Error>((old(self).pos, final(self).pos))
            },
    {
        let (start, end) = self.read_bytes(header.payload_len);
        if crc16(vstd::slice::slice_subrange(self.data.as_slice(), start, end)) != header.payload_crc {
            return Err(X3Error::FrameHeaderInvalidPayloadCRC);
        }
        Ok((start, end))
    }
}

/// An archive decoded to samples.
pub struct Decoded {
    pub spec: X3aSpec,
    /// The samples of every frame that decoded, in order.
    pub samples: Vec<i16>,
    /// The number of dropped frames.
    pub frame_errors: usize,
}

/// Decodes every remaining frame of `reader`, skipping dropped frames, and returns the
/// samples in order; an error that ends the archive is returned.
pub fn decode_frames(reader: &mut X3aReader) -> (r: Result<Vec<i16>, X3Error>)
    requires
        old(reader).wf(),
    ensures
        final(reader).wf(),
        final(reader).spec == old(reader).spec,
        match frames_from(old(reader).data@, old(reader).pos as int, old(reader).spec.params) {
            Ok((s, k)) => r is Ok && r->Ok_0@ == s && final(reader).frame_errors
                == old(reader).frame_errors + k,
            Err(e) => r == Err::<Vec<i16>, X3Error>(e),
        },
{
    let ghost data = reader.data@;
    let ghost params = reader.spec.params;
    let ghost p0 = reader.pos as int;
    let ghost e0 = reader.frame_errors as nat;
    let mut samples: Vec<i16> = Vec::new();
    let mut wav: Vec<i16> = Vec::new();
    let mut done: bool = false;
    while !done
        invariant
            reader.wf(),
            reader.data@ == data,
            reader.spec == old(reader).spec,
            data == old(reader).data@,
            params == old(reader).spec.params,
            p0 == old(reader).pos,
            e0 == old(reader).frame_errors,
            reader.frame_errors >= e0,
            done ==> frames_from(data, p0, params) == Ok::<(Seq<i16>, nat), X3Error>(
                (samples@, (reader.frame_errors - e0) as nat),
            ),
            !done ==> frames_from(data, p0, params) == match frames_from(
                data,
                reader.pos as int,
                params,
            ) {
                Ok((rest, k)) => Ok((samples@ + rest, (reader.frame_errors - e0 + k) as nat)),
                Err(e) => Err::<(Seq<i16>, nat), X3Error>(e),
            },
        decreases data.len() - reader.pos + if done { 0int } else { 1int },
    {
        let res = reader.decode_next_frame(&mut wav);
        let ghost np = reader.pos as int;
        match res {
            Ok(None) => {
                proof {
                    assert(samples@ + Seq::<i16>::empty() =~= samples@);
                }
                done = true;
            },
            Ok(Some(_)) => {
                proof {
                    let s = wav@;
                    match frames_from(data, np, params) {
                        Ok((rest, k)) => {
                            assert(samples@ + (s + rest) =~= (samples@ + s) + rest);
                        },
                        Err(_) => {},
                    }
                }
                samples.append(&mut wav);
            },
            Err(e) => {
                if !(e == X3Error::FrameHeaderInvalidPayloadCRC || e == X3Error::EndOfStream) {
                    return Err(e);
                }
            },
        }
    }
    Ok(samples)
}

/// Decodes a whole archive held in `archive`: its header, then every frame. Frames
/// with a bad payload CRC or a truncated bitstream are dropped and counted.
pub fn x3a_to_wav(archive: Vec<u8>) -> (r: Result<Decoded, X3Error>)
    ensures
        match archive_header_check(archive@) {
            Err(e) => r == Err::<Decoded, X3Error>(e),
            Ok(h) => match xml_params(archive@.subrange(28, 28 + h.payload_len)) {
                Err(e) => r is Err && r->Err_0 == e,
                Ok((fs, ps)) => match frames_from(archive@, 28 + h.payload_len, ps) {
                    Ok((s, k)) => r is Ok && ({
                        let d = r->Ok_0;
                        &&& d.spec == X3aSpec { sample_rate: fs, channels: h.channels, params: ps }
                        &&& d.samples@ == s
                        &&& d.frame_errors == k
                    }),
                    Err(e) => r is Err && r->Err_0 == e,
                },
            },
        },
{
    let mut reader = match X3aReader::open(archive) {
        Ok(rd) => rd,
        Err(e) => return Err(e),
    };
    let samples = match decode_frames(&mut reader) {
        Ok(s) => s,
        Err(e) => return Err(e),
    };
    Ok(Decoded { spec: reader.spec, samples, frame_errors: reader.frame_errors })
}

} // verus!
