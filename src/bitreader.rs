//! A cursor over a byte slice that serves bit fields, most significant bit first.
use vstd::prelude::*;
use vstd::arithmetic::power2::{pow2, lemma_pow2_unfold, lemma2_to64};
use crate::error::X3Error;

verus! {

/// The largest byte slice a reader accepts: its bit count stays below 2^32.
pub const MAX_READER_BYTES: usize = 0x1fff_ffff;

/// The number of bits in `data`.
pub open spec fn nbits(data: Seq<u8>) -> int {
    (data.len() * 8) as int
}

/// Bit `i` of `data`, counting from the most significant bit of the first byte.
pub open spec fn bit_at(data: Seq<u8>, i: int) -> nat {
    ((data[i / 8] >> (7 - i % 8) as u8) & 1u8) as nat
}

/// The `n` bits at offset `p`, read as an unsigned integer, first bit most significant.
pub open spec fn bits_value(data: Seq<u8>, p: int, n: nat) -> nat
    decreases n,
{
    if n == 0 {
        0
    } else {
        2 * bits_value(data, p, (n - 1) as nat) + bit_at(data, p + n - 1)
    }
}

/// The number of consecutive one bits from offset `p` up to the first zero or the end.
pub open spec fn ones_from(data: Seq<u8>, p: int) -> nat
    decreases nbits(data) - p,
{
    if p < 0 || p >= nbits(data) {
        0
    } else if bit_at(data, p) == 1 {
        1 + ones_from(data, p + 1)
    } else {
        0
    }
}

/// An `n`-bit field read as two's complement.
pub open spec fn signed_of(v: nat, n: nat) -> int {
    if n > 0 && v >= pow2((n - 1) as nat) {
        v - pow2(n)
    } else {
        v as int
    }
}

pub proof fn lemma_bits_value_bound(data: Seq<u8>, p: int, n: nat)
    ensures
        bits_value(data, p, n) < pow2(n),
    decreases n,
{
    if n == 0 {
        lemma2_to64();
    } else {
        lemma_bits_value_bound(data, p, (n - 1) as nat);
        lemma_pow2_unfold(n);
        assert(bit_at(data, p + n - 1) <= 1) by {
            let b = data[(p + n - 1) / 8];
            let s = (7 - (p + n - 1) % 8) as u8;
            assert((b >> s) & 1u8 <= 1u8) by (bit_vector);
        }
    }
}

/// A read cursor over `data`, at bit offset `pos`.
pub struct BitReader<'a> {
    pub data: &'a [u8],
    pub pos: usize,
}

impl<'a> BitReader<'a> {
    /// The cursor lies within the data, whose bit count fits in 32 bits.
    pub open spec fn wf(&self) -> bool {
        &&& self.data@.len() <= MAX_READER_BYTES
        &&& self.pos <= nbits(self.data@)
    }

    /// A reader at the first bit of `data`.
    pub fn new(data: &'a [u8]) -> (r: BitReader<'a>)
        requires
            data@.len() <= MAX_READER_BYTES,
        ensures
            r.wf(),
            r.data@ == data@,
            r.pos == 0,
    {
        BitReader { data, pos: 0 }
    }

    /// The number of bits left after the cursor.
    pub fn remaining_bits(&self) -> (r: usize)
        requires
            self.wf(),
        ensures
            r == nbits(self.data@) - self.pos,
    {
        self.data.len() * 8 - self.pos
    }

    /// Reads one bit.
    fn read_bit(&mut self) -> (r: u32)
        requires
            old(self).wf(),
            old(self).pos < nbits(old(self).data@),
        ensures
            final(self).wf(),
            final(self).data@ == old(self).data@,
            final(self).pos == old(self).pos + 1,
            r as nat == bit_at(old(self).data@, old(self).pos as int),
            r <= 1,
    {
        let byte: u8 = self.data[self.pos / 8];
        let shift: u8 = (7 - self.pos % 8) as u8;
        let b: u8 = (byte >> shift) & 1u8;
        assert(b <= 1u8) by (bit_vector)
            requires b == (byte >> shift) & 1u8;
        self.pos = self.pos + 1;
        b as u32
    }

    /// Reads the next `n` bits as an unsigned integer, most significant bit first,
    /// and advances by `n`; fails with `EndOfStream`, without moving, when fewer remain.
    pub fn read_bits(&mut self, n: u32) -> (r: Result<u32, X3Error>)
        requires
            old(self).wf(),
            1 <= n <= 32,
        ensures
            final(self).wf(),
            final(self).data@ == old(self).data@,
            final(self).pos >= old(self).pos,
            old(self).pos + n <= nbits(old(self).data@) ==> {
                &&& r is Ok
                &&& r->Ok_0 as nat == bits_value(old(self).data@, old(self).pos as int, n as nat)
                &&& final(self).pos == old(self).pos + n
            },
            old(self).pos + n > nbits(old(self).data@) ==> {
                &&& r == Err::<u32, X3Error>(X3Error::EndOfStream)
                &&& final(self).pos == old(self).pos
            },
    {
        if self.remaining_bits() < n as usize {
            return Err(X3Error::EndOfStream);
        }
        let ghost start = self.pos as int;
        let ghost data = self.data@;
        let mut v: u64 = 0;
        let mut i: u32 = 0;
        while i < n
            invariant
                self.wf(),
                self.data@ == data,
                0 <= i <= n <= 32,
                start + n <= nbits(data),
                self.pos == start + i,
                v as nat == bits_value(data, start, i as nat),
            decreases n - i,
        {
            proof {
                lemma_bits_value_bound(data, start, i as nat);
                lemma_pow2_unfold((i + 1) as nat);
                lemma_pow2_bound32(i as nat);
            }
            let b = self.read_bit();
            v = v * 2 + b as u64;
            i = i + 1;
        }
        proof {
            lemma_bits_value_bound(data, start, n as nat);
            lemma_pow2_bound32(n as nat);
        }
        Ok(v as u32)
    }

    /// Counts the one bits before the next zero bit and consumes them with the zero;
    /// fails with `EndOfStream`, without moving, when no zero bit remains.
    pub fn read_unary_terminator(&mut self) -> (r: Result<u32, X3Error>)
        requires
            old(self).wf(),
        ensures
            final(self).wf(),
            final(self).data@ == old(self).data@,
            final(self).pos >= old(self).pos,
            ({
                let q = ones_from(old(self).data@, old(self).pos as int);
                if old(self).pos + q < nbits(old(self).data@) {
                    &&& r == Ok::<u32, X3Error>(q as u32)
                    &&& final(self).pos == old(self).pos + q + 1
                } else {
                    &&& r == Err::<u32, X3Error>(X3Error::EndOfStream)
                    &&& final(self).pos == old(self).pos
                }
            }),
    {
        let ghost start = self.pos as int;
        let ghost data = self.data@;
        let total: usize = self.data.len() * 8;
        let mut p: usize = self.pos;
        let mut q: u32 = 0;
        while p < total
            invariant
                self.data@ == data,
                data == old(self).data@,
                self.pos == start,
                start == old(self).pos,
                self.wf(),
                total == nbits(data),
                start <= p <= total,
                q == p - start,
                ones_from(data, start) == q + ones_from(data, p as int),
            decreases total - p,
        {
            let byte: u8 = self.data[p / 8];
            let shift: u8 = (7 - p % 8) as u8;
            let b: u8 = (byte >> shift) & 1u8;
            if b == 0 {
                self.pos = p + 1;
                return Ok(q);
            }
            assert(b <= 1u8) by (bit_vector)
                requires b == (byte >> shift) & 1u8;
            p = p + 1;
            q = q + 1;
        }
        Err(X3Error::EndOfStream)
    }

    /// Moves the cursor to the next byte boundary, skipping padding bits.
    pub fn align_to_byte(&mut self)
        requires
            old(self).wf(),
        ensures
            final(self).wf(),
            final(self).data@ == old(self).data@,
            final(self).pos >= old(self).pos,
            final(self).pos % 8 == 0,
            final(self).pos < old(self).pos + 8,
    {
        if self.pos % 8 != 0 {
            self.pos = self.pos + (8 - self.pos % 8);
        }
    }

    /// The `len` bytes at the cursor, which must stand on a byte boundary; the
    /// cursor moves past them. Fails with `EndOfStream`, without moving, when the
    /// cursor is not aligned or fewer bytes remain.
    pub fn byte_slice(&mut self, len: usize) -> (r: Result<&'a [u8], X3Error>)
        requires
            old(self).wf(),
        ensures
            final(self).wf(),
            final(self).data@ == old(self).data@,
            final(self).pos >= old(self).pos,
            ({
                let p = old(self).pos as int;
                if p % 8 == 0 && p / 8 + len <= old(self).data@.len() {
                    &&& r is Ok
                    &&& r->Ok_0@ == old(self).data@.subrange(p / 8, p / 8 + len)
                    &&& final(self).pos == p + 8 * len
                } else {
                    &&& r == Err::<&'a [u8], X3Error>(X3Error::EndOfStream)
                    &&& final(self).pos == p
                }
            }),
    {
        if self.pos % 8 != 0 || len > self.data.len() - self.pos / 8 {
            return Err(X3Error::EndOfStream);
        }
        let start: usize = self.pos / 8;
        let s = vstd::slice::slice_subrange(self.data, start, start + len);
        self.pos = self.pos + 8 * len;
        Ok(s)
    }

    /// Whether the bytes at the cursor, which must stand on a byte boundary, equal
    /// `expected`; the cursor does not move.
    pub fn compare_bytes(&self, expected: &[u8]) -> (r: bool)
        requires
            self.wf(),
        ensures
            r == ({
                let p = self.pos as int;
                p % 8 == 0 && p / 8 + expected@.len() <= self.data@.len()
                    && self.data@.subrange(p / 8, p / 8 + expected@.len()) == expected@
            }),
    {
        if self.pos % 8 != 0 || expected.len() > self.data.len() - self.pos / 8 {
            return false;
        }
        let start: usize = self.pos / 8;
        let mut i: usize = 0;
        while i < expected.len()
            invariant
                self.wf(),
                start == self.pos / 8,
                start + expected@.len() <= self.data@.len(),
                i <= expected@.len(),
                forall|j: int| 0 <= j < i ==> self.data@[start + j] == expected@[j],
            decreases expected.len() - i,
        {
            if self.data[start + i] != expected[i] {
                assert(self.data@.subrange(start as int, start + expected@.len())[i as int]
                    != expected@[i as int]);
                return false;
            }
            i = i + 1;
        }
        assert(self.data@.subrange(start as int, start + expected@.len()) =~= expected@);
        true
    }
}

proof fn lemma_pow2_bound32(n: nat)
    requires
        n <= 32,
    ensures
        pow2(n) <= 0x1_0000_0000,
    decreases 32 - n,
{
    if n < 32 {
        lemma_pow2_bound32(n + 1);
        lemma_pow2_unfold(n + 1);
    } else {
        lemma2_to64();
    }
}

} // verus!
