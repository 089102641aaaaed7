use x3::archive::{parse_xml, read_archive_header};
use x3::bitreader::BitReader;
use x3::crc::crc16;
use x3::decoder::{decode_block, decode_frame, predict, read_frame_header};
use x3::error::X3Error;
use x3::reader::{decode_frames, x3a_to_wav, X3aReader};
use x3::x3::{Parameters, ARCHIVE_ID, X3_READ_BUFFER_SIZE};

struct Bits {
    bits: Vec<bool>,
}

impl Bits {
    fn new() -> Bits {
        Bits { bits: Vec::new() }
    }

    fn put(&mut self, v: u32, n: u32) {
        for i in (0..n).rev() {
            self.bits.push((v >> i) & 1 == 1);
        }
    }

    fn rice(&mut self, d: i64, k: u32) {
        let m: u64 = if d == 0 {
            0
        } else if d < 0 {
            (2 * (-d) - 1) as u64
        } else {
            (2 * d) as u64
        };
        for _ in 0..(m >> k) {
            self.bits.push(true);
        }
        self.bits.push(false);
        if k > 0 {
            self.put((m & ((1 << k) - 1)) as u32, k);
        }
    }

    fn bytes(&self) -> Vec<u8> {
        let mut out = vec![0u8; (self.bits.len() + 7) / 8];
        for (i, b) in self.bits.iter().enumerate() {
            if *b {
                out[i / 8] |= 0x80 >> (i % 8);
            }
        }
        out
    }
}

fn params() -> Parameters {
    Parameters::new(20, 500, [0, 1, 2], [3, 8, 20]).unwrap()
}

/// A payload of Rice band 0 blocks (parameter 0) of at most 20 residuals.
fn rice_payload(reference: i16, residuals: &[i64]) -> Vec<u8> {
    let mut b = Bits::new();
    b.put(reference as u16 as u32, 16);
    for block in residuals.chunks(20) {
        b.put(0, 2);
        for d in block {
            b.rice(*d, 0);
        }
    }
    b.bytes()
}

fn frame(payload: &[u8], samples: u16) -> Vec<u8> {
    let mut f = vec![0x78, 0x33, 0x01, 0x01];
    f.extend_from_slice(&(payload.len() as u16).to_be_bytes());
    f.extend_from_slice(&samples.to_be_bytes());
    f.extend_from_slice(&[0, 0, 0, 0, 0, 0, 0x12, 0x34]);
    let hc = crc16(&f[0..16]);
    f.extend_from_slice(&hc.to_be_bytes());
    f.extend_from_slice(&crc16(payload).to_be_bytes());
    f.extend_from_slice(payload);
    f
}

const XML: &str = "<X3ARCH><FS>48000</FS><BLKLEN>20</BLKLEN><CODES>RICE0,RICE1,RICE2,BFP</CODES><T>3,8,20</T></X3ARCH>";

fn archive_with(xml: &str, frames: &[Vec<u8>]) -> Vec<u8> {
    let mut a = ARCHIVE_ID.to_vec();
    a.extend_from_slice(&frame(xml.as_bytes(), 0));
    for f in frames {
        a.extend_from_slice(f);
    }
    a
}

fn residuals_of(k: i64, n: usize) -> Vec<i64> {
    (0..n).map(|i| ((i as i64 * 7 + k) % 9) - 4).collect()
}

fn integrate(s0: i16, d: &[i64]) -> Vec<i16> {
    let mut s = s0 as i64;
    d.iter()
        .map(|x| {
            s += x;
            s as i16
        })
        .collect()
}

#[test]
fn single_block_rice_round_trip() {
    let residuals: [i64; 20] = [1, -1, 2, -2, 0, 0, 3, -3, 1, 1, -1, -1, 0, 0, 2, -2, 1, 1, -1, -1];
    let payload = rice_payload(0, &residuals);
    let mut wav = Vec::new();
    assert_eq!(decode_frame(&payload, &mut wav, &params(), 20), Ok(20));
    assert_eq!(wav, vec![1, 0, 2, 0, 0, 0, 3, 0, 1, 2, 1, 0, 0, 0, 2, 0, 1, 2, 1, 0]);
}

#[test]
fn predict_integrates_from_previous_sample() {
    let mut out = vec![9];
    let last = predict(100, &vec![1, -2, 3], &mut out);
    assert_eq!(out, vec![9, 101, 99, 102]);
    assert_eq!(last, 102);
    let mut none = Vec::new();
    assert_eq!(predict(-5, &vec![], &mut none), -5);
    assert!(none.is_empty());
}

#[test]
fn predict_saturates() {
    let mut out = Vec::new();
    predict(32000, &vec![1000, -70000, -1_000_000], &mut out);
    assert_eq!(out, vec![32767, -32768, -32768]);
}

#[test]
fn bfp_block_decodes_signed_fields() {
    let mut b = Bits::new();
    b.put(3, 2); // mode 11
    b.put(3, 4); // e = 3: 4-bit fields
    for v in [-8i32, 7, 0, -1] {
        b.put((v as u32) & 0xf, 4);
    }
    let bytes = b.bytes();
    let mut br = BitReader::new(&bytes);
    assert_eq!(decode_block(&mut br, &params(), 4), Ok(vec![-8, 7, 0, -1]));
    assert_eq!(br.pos, 2 + 4 + 16);
}

#[test]
fn rice_band_two_uses_its_parameter() {
    let mut b = Bits::new();
    b.put(2, 2); // band 2: Rice parameter 2
    for d in [5i64, -6, 0] {
        b.rice(d, 2);
    }
    let bytes = b.bytes();
    let mut br = BitReader::new(&bytes);
    assert_eq!(decode_block(&mut br, &params(), 3), Ok(vec![5, -6, 0]));
}

#[test]
fn frame_with_partial_last_block() {
    let d = residuals_of(1, 45);
    let payload = rice_payload(-7, &d);
    let mut wav = Vec::new();
    assert_eq!(decode_frame(&payload, &mut wav, &params(), 45), Ok(45));
    assert_eq!(wav, integrate(-7, &d));
}

#[test]
fn truncated_payload_is_end_of_stream() {
    let d = residuals_of(2, 20);
    let payload = rice_payload(0, &d);
    let mut wav = Vec::new();
    assert_eq!(decode_frame(&payload[..3], &mut wav, &params(), 20), Err(X3Error::EndOfStream));
    assert_eq!(decode_frame(&payload, &mut wav, &params(), 40), Err(X3Error::EndOfStream));
}

#[test]
fn oversized_payload_is_refused() {
    let payload = vec![0u8; X3_READ_BUFFER_SIZE + 1];
    let mut wav = Vec::new();
    assert_eq!(
        decode_frame(&payload, &mut wav, &params(), 1),
        Err(X3Error::FrameHeaderInvalidPayloadLen)
    );
}

#[test]
fn frame_header_fields() {
    let f = frame(&[1, 2, 3], 17);
    let h = read_frame_header(&f[0..20]).unwrap();
    assert_eq!(h.channels, 0x0101);
    assert_eq!(h.payload_len, 3);
    assert_eq!(h.samples, 17);
    assert_eq!(h.time, 0x1234);
    assert_eq!(h.payload_crc, crc16(&[1, 2, 3]));
}

#[test]
fn frame_header_errors() {
    let mut f = frame(&[1, 2, 3], 17);
    f[5] ^= 1;
    assert_eq!(read_frame_header(&f[0..20]), Err(X3Error::FrameHeaderInvalidHeaderCRC));
    f[0] = b'y';
    assert_eq!(read_frame_header(&f[0..20]), Err(X3Error::FrameHeaderBadMagic));
}

#[test]
fn xml_parse() {
    let (rate, p) = parse_xml(XML.as_bytes()).unwrap();
    assert_eq!(rate, 48000);
    assert_eq!(p.block_len, 20);
    assert_eq!(p.rice_codes, [0, 1, 2]);
    assert_eq!(p.thresholds, [3, 8, 20]);
}

#[test]
fn xml_parse_nested_and_trimmed() {
    let xml = "<?xml version=\"1.0\"?><A><X3ARCH><CFG><FS> 96000 </FS></CFG><BLKLEN>16</BLKLEN><X>1</X>\
               <CODES>RICE3,BFP,RICE2,RICE1</CODES><T>1,2,3</T></X3ARCH></A>";
    let (rate, p) = parse_xml(xml.as_bytes()).unwrap();
    assert_eq!(rate, 96000);
    assert_eq!(p.block_len, 16);
    assert_eq!(p.rice_codes, [3, 2, 1]);
    assert_eq!(p.thresholds, [1, 2, 3]);
}

#[test]
fn xml_errors() {
    let missing = "<X3ARCH><FS>48000</FS><BLKLEN>20</BLKLEN><T>3,8,20</T></X3ARCH>";
    assert_eq!(parse_xml(missing.as_bytes()).err(), Some(X3Error::ArchiveHeaderInvalid));
    let bad_code = "<X3ARCH><FS>48000</FS><BLKLEN>20</BLKLEN><CODES>RICE0,RICE9,RICE2</CODES><T>3,8,20</T></X3ARCH>";
    assert_eq!(parse_xml(bad_code.as_bytes()).err(), Some(X3Error::ArchiveHeaderRiceCode));
    let unsorted = "<X3ARCH><FS>48000</FS><BLKLEN>20</BLKLEN><CODES>RICE0,RICE1,RICE2</CODES><T>8,3,20</T></X3ARCH>";
    assert_eq!(parse_xml(unsorted.as_bytes()).err(), Some(X3Error::ArchiveHeaderInvalid));
    let zero_rate = "<X3ARCH><FS>0</FS><BLKLEN>20</BLKLEN><CODES>RICE0,RICE1,RICE2</CODES><T>3,8,20</T></X3ARCH>";
    assert_eq!(parse_xml(zero_rate.as_bytes()).err(), Some(X3Error::ArchiveHeaderInvalid));
}

#[test]
fn archive_header_reads_spec() {
    let a = archive_with(XML, &[]);
    let (spec, n) = read_archive_header(&a).unwrap();
    assert_eq!(n, a.len());
    assert_eq!(spec.sample_rate, 48000);
    assert_eq!(spec.channels, 0x0101);
    assert_eq!(spec.params.block_len, 20);
}

#[test]
fn archive_header_errors() {
    let a = archive_with(XML, &[]);
    assert_eq!(read_archive_header(&a[0..5]).err(), Some(X3Error::IoError));
    assert_eq!(read_archive_header(&a[0..a.len() - 1]).err(), Some(X3Error::IoError));
    let mut bad_id = a.clone();
    bad_id[0] = b'Y';
    assert_eq!(read_archive_header(&bad_id).err(), Some(X3Error::ArchiveHeaderInvalidMagic));
    let mut bad_xml_crc = a.clone();
    let last = bad_xml_crc.len() - 1;
    bad_xml_crc[last] ^= 0x01;
    assert_eq!(
        read_archive_header(&bad_xml_crc).err(),
        Some(X3Error::FrameHeaderInvalidPayloadCRC)
    );
}

#[test]
fn well_formed_frame_gives_its_sample_count() {
    let d = residuals_of(3, 60);
    let a = archive_with(XML, &[frame(&rice_payload(10, &d), 60)]);
    let mut reader = X3aReader::open(a).unwrap();
    assert_eq!(reader.spec().sample_rate, 48000);
    let mut wav = Vec::new();
    assert_eq!(reader.decode_next_frame(&mut wav), Ok(Some(60)));
    assert_eq!(wav, integrate(10, &d));
    assert_eq!(reader.decode_next_frame(&mut wav), Ok(None));
    assert_eq!(reader.frame_errors, 0);
}

#[test]
fn frame_boundary_reset() {
    // frame 1 ends at 1000; frame 2 restarts from its own reference sample -1000
    let d1: Vec<i64> = vec![4, 3, 2, 1];
    let d2: Vec<i64> = vec![5, -5];
    let a = archive_with(
        XML,
        &[frame(&rice_payload(990, &d1), 4), frame(&rice_payload(-1000, &d2), 2)],
    );
    let mut reader = X3aReader::open(a).unwrap();
    let mut wav = Vec::new();
    assert_eq!(reader.decode_next_frame(&mut wav), Ok(Some(4)));
    assert_eq!(*wav.last().unwrap(), 1000);
    assert_eq!(reader.decode_next_frame(&mut wav), Ok(Some(2)));
    assert_eq!(wav, vec![-995, -1000]);
}

#[test]
fn bad_payload_crc_recovery() {
    let n: usize = 40;
    let ds: Vec<Vec<i64>> = (0..5).map(|k| residuals_of(k, n)).collect();
    let mut frames: Vec<Vec<u8>> = ds
        .iter()
        .enumerate()
        .map(|(k, d)| frame(&rice_payload(k as i16 * 100, d), n as u16))
        .collect();
    frames[1][20 + 5] ^= 0x10;
    let a = archive_with(XML, &frames);
    let decoded = x3a_to_wav(a).unwrap();
    assert_eq!(decoded.frame_errors, 1);
    assert_eq!(decoded.samples.len(), 4 * n);
    let mut expected = Vec::new();
    for k in [0usize, 2, 3, 4] {
        expected.extend(integrate(k as i16 * 100, &ds[k]));
    }
    assert_eq!(decoded.samples, expected);
    assert_eq!(decoded.spec.sample_rate, 48000);
}

#[test]
fn dropped_frame_is_reported_then_skipped() {
    let d = residuals_of(0, 20);
    let mut bad = frame(&rice_payload(0, &d), 20);
    bad[20] ^= 0x80;
    let good = frame(&rice_payload(1, &d), 20);
    let a = archive_with(XML, &[bad, good]);
    let mut reader = X3aReader::open(a).unwrap();
    let mut wav = Vec::new();
    assert_eq!(reader.decode_next_frame(&mut wav), Err(X3Error::FrameHeaderInvalidPayloadCRC));
    assert_eq!(reader.frame_errors, 1);
    assert_eq!(reader.decode_next_frame(&mut wav), Ok(Some(20)));
    assert_eq!(wav, integrate(1, &d));
    assert_eq!(decode_frames(&mut reader), Ok(vec![]));
}

#[test]
fn truncated_bitstream_frame_is_dropped() {
    let d = residuals_of(0, 20);
    // the header claims more samples than the payload holds
    let short = frame(&rice_payload(0, &d), 30);
    let good = frame(&rice_payload(2, &d), 20);
    let decoded = x3a_to_wav(archive_with(XML, &[short, good])).unwrap();
    assert_eq!(decoded.frame_errors, 1);
    assert_eq!(decoded.samples, integrate(2, &d));
}

#[test]
fn bad_frame_header_ends_decoding_with_error() {
    let d = residuals_of(0, 20);
    let mut f = frame(&rice_payload(0, &d), 20);
    f[1] = 0;
    assert_eq!(x3a_to_wav(archive_with(XML, &[f])).err(), Some(X3Error::FrameHeaderBadMagic));
}

#[test]
fn prediction_round_trip() {
    let d: Vec<i64> = vec![1, -1, 2, -2, 0, 300, -7000, 12, 5, -32];
    let mut s = Vec::new();
    predict(-20, &d, &mut s);
    let mut prev: i64 = -20;
    let mut back = Vec::new();
    for x in &s {
        back.push(*x as i64 - prev);
        prev = *x as i64;
    }
    assert_eq!(back, d);
}

#[test]
fn failed_frame_leaves_output_untouched() {
    let d = residuals_of(2, 20);
    let payload = rice_payload(0, &d);
    let mut wav = vec![7i16, 8, 9];
    assert_eq!(decode_frame(&payload[..3], &mut wav, &params(), 20), Err(X3Error::EndOfStream));
    assert_eq!(wav, vec![7, 8, 9]);

    let mut bad = frame(&payload, 20);
    bad[21] ^= 0x01;
    let mut reader = X3aReader::open(archive_with(XML, &[bad])).unwrap();
    assert_eq!(reader.decode_next_frame(&mut wav), Err(X3Error::FrameHeaderInvalidPayloadCRC));
    assert_eq!(wav, vec![7, 8, 9]);
    assert_eq!(reader.decode_next_frame(&mut wav), Ok(None));
    assert_eq!(wav, vec![7, 8, 9]);
}

#[test]
fn archive_spec_comes_from_the_xml() {
    let xml = "<X3ARCH><FS>8000</FS><FS>9000</FS><BLKLEN>16</BLKLEN><CODES>RICE0,RICE2,RICE3</CODES><T>1,5,9</T></X3ARCH>";
    let d = residuals_of(4, 16);
    let decoded = x3a_to_wav(archive_with(xml, &[frame(&rice_payload(3, &d), 16)])).unwrap();
    assert_eq!(decoded.spec.sample_rate, 8000);
    assert_eq!(decoded.spec.params.block_len, 16);
    assert_eq!(decoded.spec.params.rice_codes, [0, 2, 3]);
    assert_eq!(decoded.spec.params.thresholds, [1, 5, 9]);
    assert_eq!(decoded.frame_errors, 0);
    let bad_xml = "<X3ARCH><FS>8000</FS><BLKLEN>16</BLKLEN><CODES>RICE1,RICE2,RICE3</CODES></X3ARCH>";
    assert_eq!(x3a_to_wav(archive_with(bad_xml, &[])).err(), Some(X3Error::ArchiveHeaderInvalid));
}
