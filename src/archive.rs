//! The archive header: the archive identifier, the metadata frame and its XML.
use vstd::prelude::*;
use crate::crc::{crc16, crc16_of};
use crate::decoder::{frame_header_of, read_frame_header};
use crate::error::X3Error;
use crate::metadata::{params_from_texts, params_of_texts};
use crate::xml::{xml_event_at, xml_text_at, XmlEvent, XmlReader, EVENT_EOF, EVENT_ERROR, EVENT_START};
use crate::x3::{FrameHeader, Parameters, X3aSpec, ARCHIVE_ID, FRAME_HEADER_LENGTH};

verus! {

/// Whether two byte strings are equal.
pub fn bytes_eq(a: &[u8], b: &[u8]) -> (r: bool)
    ensures
        r == (a@ == b@),
{
    if a.len() != b.len() {
        return false;
    }
    let mut i: usize = 0;
    while i < a.len()
        invariant
            a@.len() == b@.len(),
            i <= a@.len(),
            forall|j: int| 0 <= j < i ==> a@[j] == b@[j],
        decreases a.len() - i,
    {
        if a[i] != b[i] {
            return false;
        }
        i = i + 1;
    }
    assert(a@ =~= b@);
    true
}

/// The element names that the metadata reads.
pub const TAG_FS: [u8; 2] = [0x46, 0x53];
pub const TAG_BLKLEN: [u8; 6] = [0x42, 0x4c, 0x4b, 0x4c, 0x45, 0x4e];
pub const TAG_CODES: [u8; 5] = [0x43, 0x4f, 0x44, 0x45, 0x53];
pub const TAG_T: [u8; 1] = [0x54];

/// Which of the four elements a tag names: 0 to 3 for `FS`, `BLKLEN`, `CODES`, `T`,
/// 4 for any other.
pub open spec fn tag_slot(name: Seq<u8>) -> int {
    if name == TAG_FS@ {
        0
    } else if name == TAG_BLKLEN@ {
        1
    } else if name == TAG_CODES@ {
        2
    } else if name == TAG_T@ {
        3
    } else {
        4
    }
}

/// `texts` with the text of element `slot` set to `t`, unless it was already found.
pub open spec fn keep_first(texts: Seq<Option<Seq<u8>>>, slot: int, t: Seq<u8>) -> Seq<Option<Seq<u8>>> {
    if texts[slot] is None {
        texts.update(slot, Some(t))
    } else {
        texts
    }
}

/// The texts of the four elements found when scanning `doc` on from the calls
/// `calls`, with at most `fuel` more events before the end: each start tag of one of
/// the four is followed by reading its text. A reader error, or a document with more
/// events than bytes, gives `ArchiveHeaderInvalid`.
pub open spec fn xml_scan(doc: Seq<u8>, calls: Seq<Option<Seq<u8>>>, fuel: nat, texts: Seq<Option<Seq<u8>>>) -> Result<Seq<Option<Seq<u8>>>, X3Error>
    decreases fuel,
{
    let ev = xml_event_at(doc, calls);
    let c1 = calls.push(None);
    if ev.0 == EVENT_ERROR {
        Err(X3Error::ArchiveHeaderInvalid)
    } else if ev.0 == EVENT_EOF {
        Ok(texts)
    } else if fuel == 0 {
        Err(X3Error::ArchiveHeaderInvalid)
    } else if ev.0 == EVENT_START && tag_slot(ev.1) < 4 {
        match xml_text_at(doc, c1, ev.1) {
            None => Err(X3Error::ArchiveHeaderInvalid),
            Some(t) => xml_scan(
                doc,
                c1.push(Some(ev.1)),
                (fuel - 1) as nat,
                keep_first(texts, tag_slot(ev.1), t),
            ),
        }
    } else {
        xml_scan(doc, c1, (fuel - 1) as nat, texts)
    }
}

/// What the XML metadata `doc` gives: the first text of each of `FS`, `BLKLEN`, `CODES`
/// and `T`, wherever it stands, read by `params_of_texts`. A missing element or a
/// reader error gives `ArchiveHeaderInvalid`.
pub open spec fn xml_params(doc: Seq<u8>) -> Result<(u32, Parameters), X3Error> {
    match xml_scan(doc, Seq::empty(), doc.len(), seq![None, None, None, None]) {
        Err(e) => Err(e),
        Ok(ts) => if ts[0] is Some && ts[1] is Some && ts[2] is Some && ts[3] is Some {
            params_of_texts(ts[0]->Some_0, ts[1]->Some_0, ts[2]->Some_0, ts[3]->Some_0)
        } else {
            Err(X3Error::ArchiveHeaderInvalid)
        },
    }
}

/// The contents of an optional byte vector.
pub open spec fn opt_view(o: Option<Vec<u8>>) -> Option<Seq<u8>> {
    match o {
        Some(v) => Some(v@),
        None => None,
    }
}

/// Reads the sample rate and codec parameters from the XML metadata.
pub fn parse_xml(xml: &[u8]) -> (r: Result<(u32, Parameters), X3Error>)
    ensures
        r == xml_params(xml@),
        r is Ok ==> r->Ok_0.1.wf() && r->Ok_0.0 > 0,
{
    let mut reader = XmlReader::new(xml);
    let mut fs: Option<Vec<u8>> = None;
    let mut bl: Option<Vec<u8>> = None;
    let mut codes: Option<Vec<u8>> = None;
    let mut th: Option<Vec<u8>> = None;
    let ghost init: Seq<Option<Seq<u8>>> = seq![None::<Seq<u8>>, None, None, None];
    let ghost whole = xml_scan(xml@, Seq::empty(), xml@.len(), init);
    let mut done: bool = false;
    let mut left: usize = xml.len();
    assert(seq![opt_view(fs), opt_view(bl), opt_view(codes), opt_view(th)] =~= init);
    while !done
        invariant
            reader.doc() == xml@,
            init == seq![None::<Seq<u8>>, None, None, None],
            whole == xml_scan(xml@, Seq::empty(), xml@.len(), init),
            done ==> whole == Ok::<Seq<Option<Seq<u8>>>, X3Error>(
                seq![opt_view(fs), opt_view(bl), opt_view(codes), opt_view(th)],
            ),
            !done ==> whole == xml_scan(
                xml@,
                reader.calls(),
                left as nat,
                seq![opt_view(fs), opt_view(bl), opt_view(codes), opt_view(th)],
            ),
        decreases left + if done { 0int } else { 1int },
    {
        let ghost texts = seq![opt_view(fs), opt_view(bl), opt_view(codes), opt_view(th)];
        let ghost calls = reader.calls();
        assert(whole == xml_scan(xml@, calls, left as nat, texts));
        match reader.read_event() {
            Err(_) => return Err(X3Error::ArchiveHeaderInvalid),
            Ok(XmlEvent::Eof) => {
                done = true;
            },
            Ok(XmlEvent::Start(name)) => {
                if left == 0 {
                    return Err(X3Error::ArchiveHeaderInvalid);
                }
                let slot: usize = if bytes_eq(name.as_slice(), TAG_FS.as_slice()) {
                    0
                } else if bytes_eq(name.as_slice(), TAG_BLKLEN.as_slice()) {
                    1
                } else if bytes_eq(name.as_slice(), TAG_CODES.as_slice()) {
                    2
                } else if bytes_eq(name.as_slice(), TAG_T.as_slice()) {
                    3
                } else {
                    4
                };
                assert(slot == tag_slot(name@));
                if slot < 4 {
                    let text = match reader.read_text(name.as_slice()) {
                        Ok(t) => t,
                        Err(_) => return Err(X3Error::ArchiveHeaderInvalid),
                    };
                    if slot == 0 && fs.is_none() {
                        fs = Some(text);
                    } else if slot == 1 && bl.is_none() {
                        bl = Some(text);
                    } else if slot == 2 && codes.is_none() {
                        codes = Some(text);
                    } else if slot == 3 && th.is_none() {
                        th = Some(text);
                    }
                    assert(seq![opt_view(fs), opt_view(bl), opt_view(codes), opt_view(th)]
                        =~= keep_first(texts, slot as int, text@));
                }
                left = left - 1;
            },
            Ok(XmlEvent::Other) => {
                if left == 0 {
                    return Err(X3Error::ArchiveHeaderInvalid);
                }
                left = left - 1;
            },
        }
    }
    match (fs, bl, codes, th) {
        (Some(fs), Some(bl), Some(codes), Some(th)) => params_from_texts(
            fs.as_slice(),
            bl.as_slice(),
            codes.as_slice(),
            th.as_slice(),
        ),
        _ => Err(X3Error::ArchiveHeaderInvalid),
    }
}

/// The checks on an archive's leading bytes before its XML is read: the identifier,
/// the metadata frame header, the presence and CRC of its payload. Input that ends
/// too early gives `IoError`.
pub open spec fn archive_header_check(data: Seq<u8>) -> Result<FrameHeader, X3Error> {
    if data.len() < 8 {
        Err(X3Error::IoError)
    } else if data.subrange(0, 8) != ARCHIVE_ID@ {
        Err(X3Error::ArchiveHeaderInvalidMagic)
    } else if data.len() < 28 {
        Err(X3Error::IoError)
    } else {
        match frame_header_of(data.subrange(8, 28)) {
            Err(e) => Err(e),
            Ok(h) => if data.len() < 28 + h.payload_len {
                Err(X3Error::IoError)
            } else if crc16_of(data.subrange(28, 28 + h.payload_len)) != h.payload_crc {
                Err(X3Error::FrameHeaderInvalidPayloadCRC)
            } else {
                Ok(h)
            },
        }
    }
}

/// Reads the archive header at the start of `data`: the identifier, the metadata
/// frame and its XML. Returns the archive spec and the number of bytes read.
pub fn read_archive_header(data: &[u8]) -> (r: Result<(X3aSpec, usize), X3Error>)
    ensures
        match archive_header_check(data@) {
            Err(e) => r == Err::<(X3aSpec, usize), X3Error>(e),
            Ok(h) => r == match xml_params(data@.subrange(28, 28 + h.payload_len)) {
                Ok((fs, ps)) => Ok::<(X3aSpec, usize), X3Error>(
                    (X3aSpec { sample_rate: fs, channels: h.channels, params: ps }, (28 + h.payload_len) as usize),
                ),
                Err(e) => Err(e),
            },
        },
        r is Ok ==> r->Ok_0.0.params.wf() && r->Ok_0.0.sample_rate > 0,
{
    if data.len() < 8 {
        return Err(X3Error::IoError);
    }
    if !bytes_eq(vstd::slice::slice_subrange(data, 0, 8), ARCHIVE_ID.as_slice()) {
        return Err(X3Error::ArchiveHeaderInvalidMagic);
    }
    if data.len() < 8 + FRAME_HEADER_LENGTH {
        return Err(X3Error::IoError);
    }
    let header = match read_frame_header(vstd::slice::slice_subrange(data, 8, 28)) {
        Ok(h) => h,
        Err(e) => return Err(e),
    };
    if data.len() - 28 < header.payload_len {
        return Err(X3Error::IoError);
    }
    let payload = vstd::slice::slice_subrange(data, 28, 28 + header.payload_len);
    if crc16(payload) != header.payload_crc {
        return Err(X3Error::FrameHeaderInvalidPayloadCRC);
    }
    let (sample_rate, params) = match parse_xml(payload) {
        Ok(v) => v,
        Err(e) => return Err(e),
    };
    Ok((X3aSpec { sample_rate, channels: header.channels, params }, 28 + header.payload_len))
}

} // verus!
