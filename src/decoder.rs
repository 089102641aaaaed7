//! Frame header parsing, block decoding, inverse prediction and the per-frame driver.
use vstd::prelude::*;
use vstd::arithmetic::power2::{pow2, lemma2_to64};
use crate::bitreader::{
    BitReader, bits_value, lemma_bits_value_bound, nbits, ones_from, signed_of,
};
use crate::crc::{crc16, crc16_of};
use crate::error::X3Error;
use crate::x3::{FrameHeader, Parameters, FRAME_HEADER_LENGTH, X3_READ_BUFFER_SIZE};

verus! {

/// The big-endian 16-bit integer at byte `i`.
pub open spec fn be16(b: Seq<u8>, i: int) -> int {
    b[i] as int * 256 + b[i + 1] as int
}

/// The `n` bytes at `i` as a big-endian unsigned integer.
pub open spec fn be_bytes(b: Seq<u8>, i: int, n: nat) -> nat
    decreases n,
{
    if n == 0 {
        0
    } else {
        be_bytes(b, i, (n - 1) as nat) * 256 + b[i + n - 1] as nat
    }
}

/// Powers of 256.
pub open spec fn pow256(n: nat) -> nat
    decreases n,
{
    if n == 0 {
        1
    } else {
        256 * pow256((n - 1) as nat)
    }
}

proof fn lemma_be_bytes_bound(b: Seq<u8>, i: int, n: nat)
    ensures
        be_bytes(b, i, n) < pow256(n),
    decreases n,
{
    if n > 0 {
        lemma_be_bytes_bound(b, i, (n - 1) as nat);
    }
}

/// What the 20 header bytes `b` of a frame say, or why they are refused.
pub open spec fn frame_header_of(b: Seq<u8>) -> Result<FrameHeader, X3Error> {
    if b[0] != 0x78u8 || b[1] != 0x33u8 {
        Err(X3Error::FrameHeaderBadMagic)
    } else if crc16_of(b.subrange(0, 16)) as int != be16(b, 16) {
        Err(X3Error::FrameHeaderInvalidHeaderCRC)
    } else {
        Ok(
            FrameHeader {
                channels: be16(b, 2) as u16,
                payload_len: be16(b, 4) as usize,
                samples: be16(b, 6) as u16,
                time: be_bytes(b, 8, 8) as u64,
                header_crc: be16(b, 16) as u16,
                payload_crc: be16(b, 18) as u16,
            },
        )
    }
}

fn read_be16(buf: &[u8], i: usize) -> (r: u16)
    requires
        i + 1 < buf@.len(),
    ensures
        r as int == be16(buf@, i as int),
{
    (buf[i] as u16) * 256 + buf[i + 1] as u16
}

/// Parses the frame header at the start of `buf`: the magic `"x3"`, the big-endian
/// fields, and the CRC-16 of the first 16 bytes against the stored one.
pub fn read_frame_header(buf: &[u8]) -> (r: Result<FrameHeader, X3Error>)
    requires
        buf@.len() >= FRAME_HEADER_LENGTH,
    ensures
        r == frame_header_of(buf@),
{
    if buf[0] != 0x78u8 || buf[1] != 0x33u8 {
        return Err(X3Error::FrameHeaderBadMagic);
    }
    let crc = crc16(vstd::slice::slice_subrange(buf, 0, 16));
    let header_crc = read_be16(buf, 16);
    if crc != header_crc {
        return Err(X3Error::FrameHeaderInvalidHeaderCRC);
    }
    let mut time: u64 = 0;
    let mut i: usize = 0;
    while i < 8
        invariant
            i <= 8,
            buf@.len() >= 20,
            time as nat == be_bytes(buf@, 8, i as nat),
        decreases 8 - i,
    {
        proof {
            lemma_be_bytes_bound(buf@, 8, i as nat);
            reveal_with_fuel(pow256, 8);
        }
        time = time * 256 + buf[8 + i] as u64;
        i = i + 1;
    }
    Ok(
        FrameHeader {
            channels: read_be16(buf, 2),
            payload_len: read_be16(buf, 4) as usize,
            samples: read_be16(buf, 6),
            time,
            header_crc,
            payload_crc: read_be16(buf, 18),
        },
    )
}

/// The signed residual of an interleaved magnitude: zero stays zero, an odd value
/// is negative, and the magnitude is `(m + 1) / 2`.
pub open spec fn zigzag(m: nat) -> int {
    if m == 0 {
        0
    } else if m % 2 == 1 {
        -((m + 1) / 2)
    } else {
        (m / 2) as int
    }
}

/// One residual at bit `p`, with its end: a Rice code with parameter `w`, or with
/// `bfp` a `w`-bit two's complement field.
pub open spec fn residual_at(data: Seq<u8>, p: int, bfp: bool, w: nat) -> Option<(int, int)> {
    if bfp {
        if p + w > nbits(data) {
            None
        } else {
            Some((signed_of(bits_value(data, p, w), w), p + w))
        }
    } else {
        let q = ones_from(data, p);
        if p + q >= nbits(data) || p + q + 1 + w > nbits(data) {
            None
        } else {
            Some((zigzag(q * pow2(w) + bits_value(data, p + q + 1, w)), p + q + 1 + w))
        }
    }
}

/// `n` residuals in a row from bit `p`, with their end.
pub open spec fn residuals(data: Seq<u8>, p: int, bfp: bool, w: nat, n: nat) -> Option<(Seq<int>, int)>
    decreases n,
{
    if n == 0 {
        Some((Seq::empty(), p))
    } else {
        match residuals(data, p, bfp, w, (n - 1) as nat) {
            None => None,
            Some((s, p2)) => match residual_at(data, p2, bfp, w) {
                None => None,
                Some((d, p3)) => Some((s.push(d), p3)),
            },
        }
    }
}

/// A block of `n` residuals at bit `p`: a 2-bit mode picks Rice band 0, 1 or 2, or
/// with `11` a 4-bit exponent `e` and fields of `e + 1` bits.
pub open spec fn block_of(data: Seq<u8>, p: int, params: Parameters, n: nat) -> Option<(Seq<int>, int)> {
    if p + 2 > nbits(data) {
        None
    } else {
        let mode = bits_value(data, p, 2);
        if mode < 3 {
            residuals(data, p + 2, false, params.rice_codes@[mode as int] as nat, n)
        } else if p + 6 > nbits(data) {
            None
        } else {
            residuals(data, p + 6, true, bits_value(data, p + 2, 4) + 1, n)
        }
    }
}

/// The values of a vector of residuals.
pub open spec fn ints(v: Seq<i64>) -> Seq<int> {
    v.map_values(|x: i64| x as int)
}

proof fn lemma_residuals_none(data: Seq<u8>, p: int, bfp: bool, w: nat, i: nat, n: nat)
    requires
        i <= n,
        residuals(data, p, bfp, w, i) is None,
    ensures
        residuals(data, p, bfp, w, n) is None,
    decreases n - i,
{
    if i < n {
        lemma_residuals_none(data, p, bfp, w, i, (n - 1) as nat);
    }
}

proof fn lemma_pow2_small()
    ensures
        pow2(0) == 1,
        pow2(1) == 2,
        pow2(2) == 4,
        pow2(3) == 8,
        pow2(4) == 16,
        pow2(15) == 0x8000,
        pow2(16) == 0x10000,
        pow2(17) == 0x20000,
{
    lemma2_to64();
}

/// Reads one residual: a Rice code of parameter `w`, or with `bfp` a `w`-bit field.
fn read_residual(br: &mut BitReader, bfp: bool, w: u32) -> (r: Result<i64, X3Error>)
    requires
        old(br).wf(),
        bfp ==> 1 <= w <= 16,
        !bfp ==> w <= 3,
    ensures
        final(br).wf(),
        final(br).data@ == old(br).data@,
        final(br).pos >= old(br).pos,
        match residual_at(old(br).data@, old(br).pos as int, bfp, w as nat) {
            Some((d, p)) => r == Ok::<i64, X3Error>(d as i64) && d == d as i64 && final(br).pos == p,
            None => r == Err::<i64, X3Error>(X3Error::EndOfStream),
        },
{
    proof {
        lemma_pow2_small();
    }
    if bfp {
        let v = match br.read_bits(w) {
            Ok(v) => v,
            Err(e) => return Err(e),
        };
        proof {
            lemma_bits_value_bound(old(br).data@, old(br).pos as int, w as nat);
            vstd::arithmetic::power2::lemma_pow2_strictly_increases(w as nat, 17);
            if w > 1 {
                vstd::arithmetic::power2::lemma_pow2_unfold(w as nat);
            }
        }
        let mut half: i64 = 1;
        let mut j: u32 = 1;
        while j < w
            invariant
                1 <= j <= w <= 16,
                half == pow2((j - 1) as nat),
            decreases w - j,
        {
            proof {
                vstd::arithmetic::power2::lemma_pow2_unfold(j as nat);
                vstd::arithmetic::power2::lemma_pow2_strictly_increases(j as nat, 16);
                lemma_pow2_small();
            }
            half = half * 2;
            j = j + 1;
        }
        if w > 0 && v as i64 >= half {
            Ok(v as i64 - 2 * half)
        } else {
            Ok(v as i64)
        }
    } else {
        let q = match br.read_unary_terminator() {
            Ok(q) => q,
            Err(e) => return Err(e),
        };
        let rem: u32 = if w > 0 {
            match br.read_bits(w) {
                Ok(v) => v,
                Err(e) => return Err(e),
            }
        } else {
            0
        };
        proof {
            if w > 0 {
                lemma_bits_value_bound(old(br).data@, old(br).pos + q + 1, w as nat);
            }
        }
        let scale: u64 = if w == 0 {
            1
        } else if w == 1 {
            2
        } else if w == 2 {
            4
        } else {
            8
        };
        let m: u64 = q as u64 * scale + rem as u64;
        if m == 0 {
            Ok(0)
        } else if m % 2 == 1 {
            Ok(-(((m + 1) / 2) as i64))
        } else {
            Ok((m / 2) as i64)
        }
    }
}

/// Decodes one block of `n` residuals at the cursor: its mode, then the residuals.
pub fn decode_block(br: &mut BitReader, params: &Parameters, n: usize) -> (r: Result<Vec<i64>, X3Error>)
    requires
        old(br).wf(),
        params.wf(),
    ensures
        final(br).wf(),
        final(br).data@ == old(br).data@,
        final(br).pos >= old(br).pos,
        match block_of(old(br).data@, old(br).pos as int, *params, n as nat) {
            Some((d, p)) => r is Ok && ints(r->Ok_0@) == d && final(br).pos == p,
            None => r == Err::<Vec<i64>, X3Error>(X3Error::EndOfStream),
        },
{
    let ghost data = br.data@;
    let ghost p0 = br.pos as int;
    let mode = match br.read_bits(2) {
        Ok(m) => m,
        Err(e) => return Err(e),
    };
    proof {
        lemma_bits_value_bound(data, p0, 2);
        lemma_pow2_small();
    }
    let bfp: bool = mode == 3;
    let w: u32 = if bfp {
        let e = match br.read_bits(4) {
            Ok(e) => e,
            Err(e) => return Err(e),
        };
        proof {
            lemma_bits_value_bound(data, p0 + 2, 4);
        }
        e + 1
    } else {
        params.rice_codes[mode as usize] as u32
    };
    let ghost start = br.pos as int;
    let mut out: Vec<i64> = Vec::new();
    let mut i: usize = 0;
    assert(ints(out@) =~= Seq::<int>::empty());
    assert(block_of(data, p0, *params, n as nat) == residuals(data, start, bfp, w as nat, n as nat));
    while i < n
        invariant
            block_of(data, p0, *params, n as nat) == residuals(data, start, bfp, w as nat, n as nat),
            br.wf(),
            br.data@ == data,
            data == old(br).data@,
            p0 == old(br).pos,
            br.pos >= start >= p0,
            bfp ==> 1 <= w <= 16,
            !bfp ==> w <= 3,
            i <= n,
            residuals(data, start, bfp, w as nat, i as nat) == Some((ints(out@), br.pos as int)),
        decreases n - i,
    {
        let d = match read_residual(br, bfp, w) {
            Ok(d) => d,
            Err(e) => {
                proof {
                    lemma_residuals_none(data, start, bfp, w as nat, (i + 1) as nat, n as nat);
                }
                return Err(e);
            },
        };
        proof {
            assert(ints(out@.push(d)) =~= ints(out@).push(d as int));
        }
        out.push(d);
        i = i + 1;
    }
    Ok(out)
}

/// Saturation to the range of `i16`.
pub open spec fn sat_i16(x: int) -> i16 {
    if x > 32767 {
        32767i16
    } else if x < -32768 {
        -32768i16
    } else {
        x as i16
    }
}

/// The last sample of `s`, or `s0` when `s` is empty.
pub open spec fn last_sample(s0: i16, s: Seq<i16>) -> i16 {
    if s.len() == 0 {
        s0
    } else {
        s.last()
    }
}

/// The samples obtained from the previous sample `s0` and the residuals `d`: each
/// sample is the saturated sum of the one before it and its residual.
pub open spec fn integrate(s0: i16, d: Seq<int>) -> Seq<i16>
    decreases d.len(),
{
    if d.len() == 0 {
        Seq::empty()
    } else {
        let prev = integrate(s0, d.drop_last());
        prev.push(sat_i16(last_sample(s0, prev) + d.last()))
    }
}

pub proof fn lemma_integrate_len(s0: i16, d: Seq<int>)
    ensures
        integrate(s0, d).len() == d.len(),
    decreases d.len(),
{
    if d.len() > 0 {
        lemma_integrate_len(s0, d.drop_last());
    }
}

/// Integration continues across a split of the residuals: the second part starts
/// from the last sample of the first.
pub proof fn lemma_integrate_concat(s0: i16, a: Seq<int>, b: Seq<int>)
    ensures
        integrate(s0, a + b) == integrate(s0, a) + integrate(
            last_sample(s0, integrate(s0, a)),
            b,
        ),
    decreases b.len(),
{
    let ia = integrate(s0, a);
    let l = last_sample(s0, ia);
    if b.len() == 0 {
        assert(a + b =~= a);
        assert(ia + integrate(l, b) =~= ia);
    } else {
        let b1 = b.drop_last();
        assert((a + b).drop_last() =~= a + b1);
        assert((a + b).last() == b.last());
        lemma_integrate_concat(s0, a, b1);
        lemma_integrate_len(l, b1);
        let j = integrate(l, b1);
        assert(last_sample(s0, ia + j) == last_sample(l, j));
        assert((ia + j).push(sat_i16(last_sample(l, j) + b.last())) =~= ia + integrate(l, b));
    }
}

/// Forward prediction: each sample minus the one before it, the first minus `s0`.
pub open spec fn differences(s0: i16, s: Seq<i16>) -> Seq<int>
    decreases s.len(),
{
    if s.len() == 0 {
        Seq::empty()
    } else {
        differences(s0, s.drop_last()).push(s.last() - last_sample(s0, s.drop_last()))
    }
}

/// Whether no step of integrating `d` from `s0` leaves the range of `i16`.
pub open spec fn decodable(s0: i16, d: Seq<int>) -> bool {
    forall|i: int|
        0 <= i < d.len() ==> -32768 <= #[trigger] last_sample(s0, integrate(s0, d.subrange(0, i)))
            + d[i] <= 32767
}

/// Inverse prediction followed by forward prediction gives back the residuals, for
/// every residual sequence that integrates without saturating.
pub proof fn lemma_predict_round_trip(s0: i16, d: Seq<int>)
    requires
        decodable(s0, d),
    ensures
        differences(s0, integrate(s0, d)) == d,
    decreases d.len(),
{
    if d.len() == 0 {
        assert(differences(s0, integrate(s0, d)) =~= d);
    } else {
        let d1 = d.drop_last();
        assert forall|i: int| 0 <= i < d1.len() implies -32768 <= #[trigger] last_sample(
            s0,
            integrate(s0, d1.subrange(0, i)),
        ) + d1[i] <= 32767 by {
            assert(d1.subrange(0, i) =~= d.subrange(0, i));
            assert(last_sample(s0, integrate(s0, d.subrange(0, i))) + d[i] <= 32767);
        }
        lemma_predict_round_trip(s0, d1);
        let n = d.len() - 1;
        assert(d.subrange(0, n) =~= d1);
        assert(-32768 <= last_sample(s0, integrate(s0, d.subrange(0, n))) + d[n] <= 32767);
        let s = integrate(s0, d);
        assert(s.drop_last() =~= integrate(s0, d1));
        assert(differences(s0, s) =~= d);
    }
}

/// Inverse prediction: appends to `out` the samples integrated from `last` over
/// `residuals`, and returns the last of them (`last` when there are none).
pub fn predict(last: i16, residuals: &Vec<i64>, out: &mut Vec<i16>) -> (r: i16)
    ensures
        final(out)@ == old(out)@ + integrate(last, ints(residuals@)),
        r == last_sample(last, integrate(last, ints(residuals@))),
{
    let ghost d = ints(residuals@);
    let mut cur: i16 = last;
    let mut i: usize = 0;
    assert(d.subrange(0, 0) =~= Seq::<int>::empty());
    assert(out@ =~= old(out)@ + integrate(last, d.subrange(0, 0)));
    while i < residuals.len()
        invariant
            i <= residuals@.len(),
            d == ints(residuals@),
            out@ == old(out)@ + integrate(last, d.subrange(0, i as int)),
            cur == last_sample(last, integrate(last, d.subrange(0, i as int))),
        decreases residuals.len() - i,
    {
        let r: i64 = residuals[i];
        let c: i64 = if r > 70000 {
            70000
        } else if r < -70000 {
            -70000
        } else {
            r
        };
        let s: i64 = cur as i64 + c;
        let v: i16 = if s > 32767 {
            32767
        } else if s < -32768 {
            -32768
        } else {
            s as i16
        };
        proof {
            let di = d.subrange(0, i + 1);
            assert(di.drop_last() =~= d.subrange(0, i as int));
            assert(di.last() == r as int);
            assert(v == sat_i16(cur + r));
            assert(out@.push(v) =~= old(out)@ + integrate(last, di));
        }
        out.push(v);
        cur = v;
        i = i + 1;
    }
    assert(d.subrange(0, residuals@.len() as int) =~= d);
    cur
}

/// The residuals of a frame from bit `p`: blocks of `block_len` residuals, the last
/// one shortened to what is left of `remaining`.
pub open spec fn frame_residuals(data: Seq<u8>, p: int, params: Parameters, remaining: nat) -> Option<Seq<int>>
    decreases remaining,
{
    if remaining == 0 {
        Some(Seq::empty())
    } else {
        let n: nat = if params.block_len == 0 || params.block_len >= remaining {
            remaining
        } else {
            params.block_len as nat
        };
        match block_of(data, p, params, n) {
            None => None,
            Some((d, p2)) => match frame_residuals(data, p2, params, (remaining - n) as nat) {
                None => None,
                Some(rest) => Some(d + rest),
            },
        }
    }
}

/// The reference sample that opens a payload: 16 bits of two's complement.
pub open spec fn reference_sample(payload: Seq<u8>) -> i16 {
    signed_of(bits_value(payload, 0, 16), 16) as i16
}

/// The `samples` samples that a frame payload decodes to, or `None` when the
/// bitstream ends first.
pub open spec fn frame_samples(payload: Seq<u8>, params: Parameters, samples: nat) -> Option<Seq<i16>> {
    if nbits(payload) < 16 {
        None
    } else {
        match frame_residuals(payload, 16, params, samples) {
            Some(d) => Some(integrate(reference_sample(payload), d)),
            None => None,
        }
    }
}

/// Decodes a frame payload into `wav`: the reference sample, then blocks until
/// `samples` samples stand in `wav`. A payload longer than the read buffer is
/// refused with `FrameHeaderInvalidPayloadLen`, one that ends early with `EndOfStream`.
pub fn decode_frame(payload: &[u8], wav: &mut Vec<i16>, params: &Parameters, samples: usize) -> (r: Result<usize, X3Error>)
    requires
        params.wf(),
    ensures
        payload@.len() > X3_READ_BUFFER_SIZE ==> r == Err::<usize, X3Error>(
            X3Error::FrameHeaderInvalidPayloadLen,
        ),
        payload@.len() <= X3_READ_BUFFER_SIZE ==> match frame_samples(payload@, *params, samples as nat) {
            Some(s) => r == Ok::<usize, X3Error>(samples) && final(wav)@ == s,
            None => r == Err::<usize, X3Error>(X3Error::EndOfStream),
        },
        r is Ok ==> final(wav)@.len() == samples,
        r is Err ==> final(wav)@ == old(wav)@,
{
    if payload.len() > X3_READ_BUFFER_SIZE {
        return Err(X3Error::FrameHeaderInvalidPayloadLen);
    }
    let mut out: Vec<i16> = Vec::new();
    let mut br = BitReader::new(payload);
    let raw = match br.read_bits(16) {
        Ok(v) => v,
        Err(e) => return Err(e),
    };
    proof {
        lemma_bits_value_bound(payload@, 0, 16);
        lemma_pow2_small();
    }
    let reference: i16 = if raw >= 32768 {
        (raw as i64 - 65536) as i16
    } else {
        raw as i16
    };
    let mut last: i16 = reference;
    let mut remaining: usize = samples;
    let ghost done: Seq<int> = Seq::empty();
    assert(out@ =~= integrate(reference, done));
    assert(frame_residuals(payload@, 16, *params, samples as nat) == match frame_residuals(
        payload@,
        br.pos as int,
        *params,
        remaining as nat,
    ) {
        Some(rest) => Some(done + rest),
        None => None,
    }) by {
        match frame_residuals(payload@, 16, *params, samples as nat) {
            Some(rest) => {
                assert(done + rest =~= rest);
            },
            None => {},
        }
    }
    while remaining > 0
        invariant
            br.wf(),
            br.data@ == payload@,
            payload@.len() <= X3_READ_BUFFER_SIZE,
            params.wf(),
            remaining <= samples,
            done.len() == samples - remaining,
            reference == reference_sample(payload@),
            frame_residuals(payload@, 16, *params, samples as nat) == match frame_residuals(
                payload@,
                br.pos as int,
                *params,
                remaining as nat,
            ) {
                Some(rest) => Some(done + rest),
                None => None,
            },
            out@ == integrate(reference, done),
            last == last_sample(reference, out@),
            wav@ == old(wav)@,
        decreases remaining,
    {
        let n: usize = if params.block_len >= remaining {
            remaining
        } else {
            params.block_len
        };
        let ghost p = br.pos as int;
        let d = match decode_block(&mut br, params, n) {
            Ok(d) => d,
            Err(e) => return Err(e),
        };
        let ghost dd = ints(d@);
        last = predict(last, &d, &mut out);
        proof {
            lemma_integrate_concat(reference, done, dd);
            lemma_integrate_len(reference, done);
            lemma_integrate_len(last_sample(reference, integrate(reference, done)), dd);
            match frame_residuals(payload@, br.pos as int, *params, (remaining - n) as nat) {
                Some(rest) => {
                    assert(done + (dd + rest) =~= (done + dd) + rest);
                },
                None => {},
            }
            assert(block_of(payload@, p, *params, n as nat) == Some((dd, br.pos as int)));
            done = done + dd;
            assert(dd.len() == n) by {
                lemma_block_len(payload@, p, *params, n as nat);
            }
        }
        remaining = remaining - n;
    }
    proof {
        lemma_integrate_len(reference, done);
    }
    *wav = out;
    Ok(samples)
}

proof fn lemma_residuals_len(data: Seq<u8>, p: int, bfp: bool, w: nat, n: nat)
    ensures
        residuals(data, p, bfp, w, n) is Some ==> residuals(data, p, bfp, w, n)->Some_0.0.len() == n,
    decreases n,
{
    if n > 0 {
        lemma_residuals_len(data, p, bfp, w, (n - 1) as nat);
    }
}

proof fn lemma_block_len(data: Seq<u8>, p: int, params: Parameters, n: nat)
    ensures
        block_of(data, p, params, n) is Some ==> block_of(data, p, params, n)->Some_0.0.len() == n,
{
    if p + 2 <= nbits(data) {
        let mode = bits_value(data, p, 2);
        lemma_residuals_len(data, p + 2, false, params.rice_codes@[mode as int] as nat, n);
        lemma_residuals_len(data, p + 6, true, bits_value(data, p + 2, 4) + 1, n);
    }
}

} // verus!
