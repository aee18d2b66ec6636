use vstd::arithmetic::div_mod::lemma_fundamental_div_mod_converse;
use vstd::arithmetic::power2::{lemma2_to64, lemma_pow2_pos, lemma_pow2_strictly_increases, lemma_pow2_unfold, pow2};
use vstd::bits::lemma_u32_shl_is_mul;
use vstd::prelude::*;

use crate::error::DecodeError;

verus! {

/// Bit `k` (counting from the least significant) of byte `b`.
pub open spec fn byte_bit(b: u8, k: nat) -> nat {
    ((b as nat) / pow2(k)) % 2
}

/// Bit `i` of the little-endian bit stream that `data` carries: bit `i % 8` of byte `i / 8`.
pub open spec fn bit_at(data: Seq<u8>, i: int) -> nat {
    byte_bit(data[i / 8], (i % 8) as nat)
}

/// The number whose bits, least significant first, are the `n` stream bits from `start` on.
pub open spec fn bits_value(data: Seq<u8>, start: int, n: nat) -> nat
    decreases n,
{
    if n == 0 {
        0
    } else {
        bit_at(data, start) + 2 * bits_value(data, start + 1, (n - 1) as nat)
    }
}

/// A little-endian 16-bit integer held in two bytes.
pub open spec fn le_u16(b0: u8, b1: u8) -> nat {
    b0 as nat + 256 * (b1 as nat)
}

/// A little-endian 32-bit integer held in four bytes.
pub open spec fn le_u32(b0: u8, b1: u8, b2: u8, b3: u8) -> nat {
    le_u16(b0, b1) + 65536 * le_u16(b2, b3)
}

pub proof fn lemma_bits_value_split(data: Seq<u8>, start: int, a: nat, b: nat)
    ensures
        bits_value(data, start, a + b) == bits_value(data, start, a) + pow2(a) * bits_value(
            data,
            start + a,
            b,
        ),
    decreases a,
{
    if a == 0 {
        lemma2_to64();
    } else {
        lemma_bits_value_split(data, start + 1, (a - 1) as nat, b);
        lemma_pow2_unfold(a);
        let x = bits_value(data, start + 1, (a - 1) as nat);
        let y = bits_value(data, start + a, b);
        let p = pow2((a - 1) as nat);
        assert(2 * (x + p * y) == 2 * x + (2 * p) * y) by (nonlinear_arith);
        assert((a + b - 1) as nat == (a - 1) as nat + b);
    }
}

pub proof fn lemma_bits_value_bound(data: Seq<u8>, start: int, n: nat)
    ensures
        bits_value(data, start, n) < pow2(n),
    decreases n,
{
    if n == 0 {
        lemma2_to64();
    } else {
        lemma_bits_value_bound(data, start + 1, (n - 1) as nat);
        lemma_pow2_unfold(n);
    }
}

proof fn lemma_byte_sum(b: u8)
    ensures
        b as nat == (b as nat / 1) % 2 + 2 * ((b as nat / 2) % 2) + 4 * ((b as nat / 4) % 2) + 8 * ((
        b as nat / 8) % 2) + 16 * ((b as nat / 16) % 2) + 32 * ((b as nat / 32) % 2) + 64 * ((
        b as nat / 64) % 2) + 128 * ((b as nat / 128) % 2),
{
    let x = b as nat;
    assert(x < 256);
    assert(x == (x / 1) % 2 + 2 * ((x / 2) % 2) + 4 * ((x / 4) % 2) + 8 * ((x / 8) % 2) + 16 * ((x
        / 16) % 2) + 32 * ((x / 32) % 2) + 64 * ((x / 64) % 2) + 128 * ((x / 128) % 2))
        by (nonlinear_arith)
        requires
            x < 256,
    ;
}

pub proof fn lemma_bits_value_byte(data: Seq<u8>, p: int)
    requires
        0 <= p,
    ensures
        bits_value(data, 8 * p, 8) == data[p] as nat,
{
    reveal_with_fuel(bits_value, 9);
    lemma2_to64();
    lemma_fundamental_div_mod_converse(8 * p, 8, p, 0);
    lemma_fundamental_div_mod_converse(8 * p + 1, 8, p, 1);
    lemma_fundamental_div_mod_converse(8 * p + 2, 8, p, 2);
    lemma_fundamental_div_mod_converse(8 * p + 3, 8, p, 3);
    lemma_fundamental_div_mod_converse(8 * p + 4, 8, p, 4);
    lemma_fundamental_div_mod_converse(8 * p + 5, 8, p, 5);
    lemma_fundamental_div_mod_converse(8 * p + 6, 8, p, 6);
    lemma_fundamental_div_mod_converse(8 * p + 7, 8, p, 7);
    lemma_byte_sum(data[p]);
}

proof fn lemma_or_is_add(x: u32, lo: u32, s: u32)
    requires
        s <= 16,
        lo < (1u32 << s),
    ensures
        (x << s) + lo == ((x << s) | lo),
{
    assert(s <= 16 && lo < (1u32 << s) ==> (x << s) + lo == ((x << s) | lo)) by (bit_vector);
}

proof fn lemma_bits_value_low(data: Seq<u8>, p: int, m: nat)
    requires
        0 <= p < data.len(),
        m <= 8,
    ensures
        bits_value(data, 8 * p, m) == data[p] as nat % pow2(m),
{
    lemma_bits_value_split(data, 8 * p, m, (8 - m) as nat);
    assert((m + (8 - m) as nat) as nat == 8);
    lemma_bits_value_byte(data, p);
    lemma_bits_value_bound(data, 8 * p, m);
    lemma_pow2_pos(m);
    let a = bits_value(data, 8 * p + m, (8 - m) as nat);
    assert(pow2(m) * a == a * pow2(m)) by (nonlinear_arith);
    lemma_fundamental_div_mod_converse(
        data[p] as int,
        pow2(m) as int,
        bits_value(data, 8 * p + m, (8 - m) as nat) as int,
        bits_value(data, 8 * p, m) as int,
    );
}

/// Sixteen bits read while `k` bits of the byte before `pos` are held are those held bits,
/// then the next two bytes shifted past them, cut to 16 bits.
pub proof fn lemma_sixteen_bits(data: Seq<u8>, pos: int, k: nat)
    requires
        0 <= pos,
        pos + 2 <= data.len(),
        k < 8,
        k <= 8 * pos,
    ensures
        bits_value(data, 8 * pos - k, 16) == (bits_value(data, 8 * pos - k, k) + data[pos] as nat * pow2(k)
            + data[pos + 1] as nat * pow2(k + 8)) % 65536,
{
    let s = 8 * pos - k;
    let ub = bits_value(data, s, k);
    let b0 = data[pos] as nat;
    let b1 = data[pos + 1] as nat;
    lemma_bits_value_split(data, s, k, (16 - k) as nat);
    assert((k + (16 - k) as nat) as nat == 16);
    lemma_bits_value_split(data, 8 * pos, 8, (8 - k) as nat);
    assert((8 + (8 - k) as nat) as nat == (16 - k) as nat);
    lemma_bits_value_byte(data, pos);
    assert(8 * pos + 8 == 8 * (pos + 1));
    lemma_bits_value_low(data, pos + 1, (8 - k) as nat);
    lemma2_to64();
    vstd::arithmetic::power2::lemma_pow2_adds(k, 8);
    vstd::arithmetic::power2::lemma_pow2_adds(k + 8, (8 - k) as nat);
    assert((k + 8 + (8 - k) as nat) as nat == 16);
    lemma_pow2_pos((8 - k) as nat);
    let pk = pow2(k);
    let q = pow2((8 - k) as nat);
    let lo = b1 % q;
    let hi = b1 / q;
    vstd::arithmetic::div_mod::lemma_fundamental_div_mod(b1 as int, q as int);
    assert(b1 == hi * q + lo) by (nonlinear_arith)
        requires
            b1 == q * hi + lo,
    ;
    let total = bits_value(data, s, 16);
    assert(total == ub + pk * (b0 + 256 * lo));
    lemma_bits_value_bound(data, s, 16);
    assert(b1 * (pk * 256) == 65536 * hi + (pk * 256) * lo) by (nonlinear_arith)
        requires
            b1 == hi * q + lo,
            (pk * 256) * q == 65536,
    ;
    assert(ub + b0 * pk + b1 * (pk * 256) == total + 65536 * hi) by (nonlinear_arith)
        requires
            total == ub + pk * (b0 + 256 * lo),
            b1 * (pk * 256) == 65536 * hi + (pk * 256) * lo,
    ;
    vstd::arithmetic::div_mod::lemma_mod_multiples_vanish(hi as int, total as int, 65536);
    vstd::arithmetic::div_mod::lemma_small_mod(total, 65536);
}

/// A run of at most 16 bits, `bits` holding them right-aligned and `len` counting them.
#[derive(Clone, Copy, Debug, PartialEq, Eq, Hash, Structural)]
pub struct BitSequence {
    bits: u16,
    len: u8,
}

impl BitSequence {
    /// A sequence is well formed when it is at most 16 bits long and its value fits in them.
    pub open spec fn wf(&self) -> bool {
        self.len() <= 16 && (self.bits() as nat) < pow2(self.len() as nat)
    }

    pub closed spec fn spec_bits(&self) -> u16 {
        self.bits
    }

    pub closed spec fn spec_len(&self) -> u8 {
        self.len
    }

    pub fn new(bits: u16, len: u8) -> (r: Self)
        requires
            len <= 16,
        ensures
            r.bits() == bits,
            r.len() == len,
    {
        BitSequence { bits, len }
    }

    #[verifier::when_used_as_spec(spec_bits)]
    pub fn bits(&self) -> (r: u16)
        ensures
            r == self.spec_bits(),
    {
        self.bits
    }

    #[verifier::when_used_as_spec(spec_len)]
    pub fn len(&self) -> (r: u8)
        ensures
            r == self.spec_len(),
    {
        self.len
    }

    /// Appends `other` after `self`: `other`'s bits become the low bits of the result.
    pub fn concat(self, other: Self) -> (r: Self)
        requires
            self.wf(),
            other.wf(),
            self.len() + other.len() <= 16,
        ensures
            r.wf(),
            r.len() == self.len() + other.len(),
            r.bits() as nat == self.bits() as nat * pow2(other.len() as nat) + other.bits() as nat,
    {
        proof {
            vstd::arithmetic::power2::lemma_pow2_adds(self.len as nat, other.len as nat);
            lemma_pow2_pos(other.len as nat);
            lemma2_to64();
            if other.len < 16 {
                lemma_pow2_strictly_increases(other.len as nat, 16);
            }
            assert((self.bits as nat) * pow2(other.len as nat) <= 65535 * 65536) by (nonlinear_arith)
                requires
                    self.bits <= 65535,
                    pow2(other.len as nat) <= 65536,
            ;
            lemma_u32_shl_is_mul(self.bits as u32, other.len as u32);
            let a = self.bits as nat;
            let b = other.bits as nat;
            let pa = pow2(self.len as nat);
            let pb = pow2(other.len as nat);
            assert(a * pb + b < pa * pb) by (nonlinear_arith)
                requires
                    a < pa,
                    b < pb,
            ;
            assert(pa * pb <= 65536) by {
                if self.len + other.len < 16 {
                    lemma_pow2_strictly_increases((self.len + other.len) as nat, 16);
                }
            }
            assert(a * pb <= a * pb + b);
            assert((a * pb) as u32 + (b as u32) == ((a * pb) as u32 | b as u32)) by {
                let hi = (a * pb) as u32;
                let lo = b as u32;
                let s = other.len as u32;
                assert(hi == (self.bits as u32) << s);
                assert(lo < (1u32 << s)) by {
                    lemma_u32_shl_is_mul(1, s);
                }
                lemma_or_is_add(self.bits as u32, lo, s);
            }
        }
        let hi: u32 = (self.bits as u32) << (other.len as u32);
        let v: u32 = hi | (other.bits as u32);
        BitSequence { bits: v as u16, len: self.len + other.len }
    }
}

/// A byte source over an owned buffer, read front to back.
pub struct ByteReader {
    data: Vec<u8>,
    pos: usize,
}

impl ByteReader {
    /// All the bytes of the source, read or not.
    pub closed spec fn bytes(&self) -> Seq<u8> {
        self.data@
    }

    /// How many bytes have been read.
    pub closed spec fn position(&self) -> nat {
        self.pos as nat
    }

    pub open spec fn wf(&self) -> bool {
        self.position() <= self.bytes().len()
    }

    /// The bytes not read yet.
    pub open spec fn rest(&self) -> Seq<u8> {
        self.bytes().subrange(self.position() as int, self.bytes().len() as int)
    }

    pub fn new(data: Vec<u8>) -> (r: Self)
        ensures
            r.wf(),
            r.bytes() == data@,
            r.position() == 0,
    {
        ByteReader { data, pos: 0 }
    }

    /// The number of bytes not read yet.
    pub fn remaining(&self) -> (n: usize)
        requires
            self.wf(),
        ensures
            n == self.rest().len(),
    {
        self.data.len() - self.pos
    }

    pub proof fn lemma_bounds(&self)
        requires
            self.wf(),
        ensures
            self.rest().len() == self.bytes().len() - self.position(),
    {
    }

    /// How many bytes have been read.
    pub fn pos(&self) -> (n: usize)
        ensures
            n == self.position(),
    {
        self.pos
    }

    /// The bytes read since position `from`.
    pub fn consumed(&self, from: usize) -> (s: &[u8])
        requires
            self.wf(),
            from <= self.position(),
        ensures
            s@ == self.bytes().subrange(from as int, self.position() as int),
    {
        vstd::slice::slice_subrange(self.data.as_slice(), from, self.pos)
    }

    /// Whether every byte has been read.
    pub fn is_empty(&self) -> (r: bool)
        requires
            self.wf(),
        ensures
            r == (self.rest().len() == 0),
    {
        self.pos >= self.data.len()
    }

    pub fn read_u8(&mut self) -> (r: Result<u8, DecodeError>)
        requires
            old(self).wf(),
        ensures
            final(self).wf(),
            final(self).bytes() == old(self).bytes(),
            old(self).rest().len() >= 1 ==> r == Ok::<u8, DecodeError>(old(self).rest()[0])
                && final(self).position() == old(self).position() + 1,
            old(self).rest().len() < 1 ==> r == Err::<u8, DecodeError>(DecodeError::UnexpectedEnd)
                && final(self).position() == old(self).position(),
    {
        if self.pos < self.data.len() {
            let b = self.data[self.pos];
            self.pos = self.pos + 1;
            Ok(b)
        } else {
            Err(DecodeError::UnexpectedEnd)
        }
    }

    pub fn read_u16_le(&mut self) -> (r: Result<u16, DecodeError>)
        requires
            old(self).wf(),
        ensures
            final(self).wf(),
            final(self).bytes() == old(self).bytes(),
            old(self).rest().len() >= 2 ==> r is Ok && r->Ok_0 as nat == le_u16(
                old(self).rest()[0],
                old(self).rest()[1],
            ) && final(self).position() == old(self).position() + 2,
            old(self).rest().len() < 2 ==> r == Err::<u16, DecodeError>(DecodeError::UnexpectedEnd)
                && final(self).position() == old(self).position(),
    {
        if self.data.len() - self.pos < 2 {
            return Err(DecodeError::UnexpectedEnd);
        }
        let b0 = self.data[self.pos] as u16;
        let b1 = self.data[self.pos + 1] as u16;
        self.pos = self.pos + 2;
        Ok(b0 + 256 * b1)
    }

    pub fn read_u32_le(&mut self) -> (r: Result<u32, DecodeError>)
        requires
            old(self).wf(),
        ensures
            final(self).wf(),
            final(self).bytes() == old(self).bytes(),
            old(self).rest().len() >= 4 ==> r is Ok && r->Ok_0 as nat == le_u32(
                old(self).rest()[0],
                old(self).rest()[1],
                old(self).rest()[2],
                old(self).rest()[3],
            ) && final(self).position() == old(self).position() + 4,
            old(self).rest().len() < 4 ==> r == Err::<u32, DecodeError>(DecodeError::UnexpectedEnd)
                && final(self).position() == old(self).position(),
    {
        if self.data.len() - self.pos < 4 {
            return Err(DecodeError::UnexpectedEnd);
        }
        let lo = self.data[self.pos] as u32 + 256 * (self.data[self.pos + 1] as u32);
        let hi = self.data[self.pos + 2] as u32 + 256 * (self.data[self.pos + 3] as u32);
        self.pos = self.pos + 4;
        Ok(lo + 65536 * hi)
    }

    /// Reads exactly `n` bytes, or none when fewer are left.
    pub fn read_exact(&mut self, n: usize) -> (r: Result<Vec<u8>, DecodeError>)
        requires
            old(self).wf(),
        ensures
            final(self).wf(),
            final(self).bytes() == old(self).bytes(),
            old(self).rest().len() >= n ==> r is Ok && r->Ok_0@ == old(self).rest().take(n as int)
                && final(self).position() == old(self).position() + n,
            old(self).rest().len() < n ==> r == Err::<Vec<u8>, DecodeError>(
                DecodeError::UnexpectedEnd,
            ) && final(self).position() == old(self).position(),
    {
        if self.data.len() - self.pos < n {
            return Err(DecodeError::UnexpectedEnd);
        }
        let mut out: Vec<u8> = Vec::new();
        let start = self.pos;
        let mut i: usize = 0;
        while i < n
            invariant
                self.wf(),
                self.bytes() == old(self).bytes(),
                self.pos == start,
                start == old(self).position(),
                start + n <= self.data.len(),
                i <= n,
                out@ == self.rest().take(i as int),
            decreases n - i,
        {
            out.push(self.data[start + i]);
            i = i + 1;
            assert(out@ =~= self.rest().take(i as int));
        }
        self.pos = start + n;
        Ok(out)
    }

    /// Reads up to and including the first zero byte, or to the end when none is left.
    pub fn read_until_nul(&mut self) -> (r: Vec<u8>)
        requires
            old(self).wf(),
        ensures
            final(self).wf(),
            final(self).bytes() == old(self).bytes(),
            r@ == old(self).rest().take(r@.len() as int),
            final(self).position() == old(self).position() + r@.len(),
            forall|i: int| 0 <= i < r@.len() - 1 ==> r@[i] != 0,
            r@.len() < old(self).rest().len() ==> r@.len() > 0 && r@.last() == 0,
    {
        let mut out: Vec<u8> = Vec::new();
        let start = self.pos;
        while self.pos < self.data.len()
            invariant
                self.wf(),
                self.bytes() == old(self).bytes(),
                start == old(self).position(),
                start <= self.pos,
                out@ == old(self).rest().take(self.pos - start),
                forall|i: int| 0 <= i < out@.len() ==> out@[i] != 0,
            decreases self.data.len() - self.pos,
        {
            let b = self.data[self.pos];
            out.push(b);
            self.pos = self.pos + 1;
            assert(out@ =~= old(self).rest().take(self.pos - start));
            if b == 0 {
                return out;
            }
        }
        out
    }
}

/// Reads bits least significant first from a byte source, keeping fewer than eight
/// bits of the last byte read.
pub struct BitReader {
    stream: ByteReader,
    unread: BitSequence,
}

impl BitReader {
    /// The byte source under the reader.
    pub closed spec fn source(&self) -> ByteReader {
        self.stream
    }

    /// How many bits of the last byte read are still held.
    pub closed spec fn pending(&self) -> nat {
        self.unread.len as nat
    }

    /// The bytes of the source.
    pub open spec fn bytes(&self) -> Seq<u8> {
        self.source().bytes()
    }

    /// The index of the next bit to hand out in the source's bit stream.
    pub open spec fn bit_pos(&self) -> int {
        self.source().position() * 8 - self.pending()
    }

    /// How many bits are left to read.
    pub open spec fn bits_left(&self) -> int {
        self.bytes().len() * 8 - self.bit_pos()
    }

    pub closed spec fn wf(&self) -> bool {
        &&& self.stream.wf()
        &&& self.unread.len < 8
        &&& self.unread.len as nat <= self.stream.position() * 8
        &&& self.unread.bits as nat == bits_value(
            self.stream.bytes(),
            self.bit_pos(),
            self.unread.len as nat,
        )
    }

    pub proof fn lemma_wf_bounds(&self)
        requires
            self.wf(),
        ensures
            self.source().wf(),
            self.pending() < 8,
            0 <= self.bit_pos(),
            self.bits_left() >= 0,
            self.bit_pos() + self.pending() == self.source().position() * 8,
    {
    }

    /// Whether at least `n` bits are left to read.
    pub fn has_bits(&self, n: u8) -> (r: bool)
        requires
            self.wf(),
            n <= 16,
        ensures
            r == (self.bits_left() >= n),
    {
        let bytes = self.stream.remaining();
        if bytes >= 2 {
            true
        } else {
            (bytes as u8) * 8 + self.unread.len >= n
        }
    }

    pub fn new(stream: ByteReader) -> (r: Self)
        requires
            stream.wf(),
        ensures
            r.wf(),
            r.source() == stream,
            r.pending() == 0,
    {
        BitReader { stream, unread: BitSequence { bits: 0, len: 0 } }
    }

    /// Reads the next `len` bits of the stream; the first of them is the least significant.
    pub fn read_bits(&mut self, len: u8) -> (r: Result<BitSequence, DecodeError>)
        requires
            old(self).wf(),
            len <= 16,
        ensures
            final(self).wf(),
            final(self).bytes() == old(self).bytes(),
            match r {
                Ok(s) => {
                    &&& old(self).bits_left() >= len
                    &&& s.len() == len
                    &&& s.wf()
                    &&& (s.bits() as nat) < pow2(len as nat)
                    &&& s.bits() as nat == bits_value(old(self).bytes(), old(self).bit_pos(), len as nat)
                    &&& final(self).bit_pos() == old(self).bit_pos() + len
                },
                Err(e) => {
                    &&& old(self).bits_left() < len
                    &&& e == DecodeError::UnexpectedEnd
                    &&& *final(self) == *old(self)
                },
            },
            len == 0 ==> *final(self) == *old(self),
    {
        let ghost data = self.stream.bytes();
        let ghost start = self.bit_pos();
        let mut acc: u32 = self.unread.bits as u32;
        let mut cnt: u8 = self.unread.len;
        if cnt < len {
            let need: u8 = len - cnt;
            let need_bytes: usize = ((need + 7) / 8) as usize;
            if self.stream.remaining() < need_bytes {
                proof {
                    assert(self.stream.rest().len() * 8 < need as int) by (nonlinear_arith)
                        requires
                            self.stream.rest().len() < (need + 7) / 8,
                            need > 0,
                    ;
                }
                return Err(DecodeError::UnexpectedEnd);
            }
            proof {
                assert(self.stream.rest().len() * 8 >= need as int) by (nonlinear_arith)
                    requires
                        self.stream.rest().len() >= (need + 7) / 8,
                ;
            }
        }
        proof {
            lemma_bits_value_bound(data, start, cnt as nat);
        }
        while cnt < len
            invariant
                self.stream.wf(),
                self.stream.bytes() == data,
                len <= 16,
                cnt < len + 8,
                start >= 0,
                start + cnt == self.stream.position() * 8,
                start + len <= data.len() * 8,
                acc as nat == bits_value(data, start, cnt as nat),
                (acc as nat) < pow2(cnt as nat),
                self.unread == old(self).unread,
                cnt >= old(self).unread.len,
                cnt == old(self).unread.len ==> self.stream == old(self).stream,
            decreases len + 8 - cnt,
        {
            proof {
                assert(self.stream.rest().len() >= 1) by (nonlinear_arith)
                    requires
                        start + cnt == self.stream.position() * 8,
                        start + len <= data.len() * 8,
                        cnt < len,
                        self.stream.rest().len() == data.len() - self.stream.position(),
                ;
            }
            let byte = match self.stream.read_u8() {
                Ok(b) => b,
                Err(_) => {
                    return Err(DecodeError::UnexpectedEnd);
                },
            };
            proof {
                let p = self.stream.position() - 1;
                assert(start + cnt == 8 * p);
                lemma_bits_value_split(data, start, cnt as nat, 8);
                lemma_bits_value_byte(data, p);
                assert(data[p] == byte);
                lemma_bits_value_bound(data, start, (cnt + 8) as nat);
                lemma_pow2_strictly_increases(cnt as nat, 16);
                lemma2_to64();
                assert((byte as nat) * pow2(cnt as nat) <= 255 * 65536) by (nonlinear_arith)
                    requires
                        byte <= 255,
                        pow2(cnt as nat) < 65536,
                ;
                lemma_u32_shl_is_mul(byte as u32, cnt as u32);
                assert(bits_value(data, start + cnt, 8) == byte as nat);
                assert((cnt + 8) as nat == cnt as nat + 8);
                assert(bits_value(data, start, (cnt + 8) as nat) == acc as nat + (byte as nat) * pow2(
                    cnt as nat,
                ));
                if cnt + 8 < 32 {
                    lemma_pow2_strictly_increases((cnt + 8) as nat, 32);
                }
            }
            acc = acc + ((byte as u32) << (cnt as u32));
            cnt = cnt + 8;
        }
        proof {
            lemma2_to64();
            if len < 16 {
                lemma_pow2_strictly_increases(len as nat, 16);
            }
            lemma_u32_shl_is_mul(1, len as u32);
            lemma_pow2_pos(len as nat);
            lemma_bits_value_split(data, start, len as nat, (cnt - len) as nat);
            assert((len + (cnt - len) as nat) as nat == cnt as nat);
            assert(bits_value(data, start, cnt as nat) == bits_value(data, start + len, (cnt - len) as nat)
                * pow2(len as nat) + bits_value(data, start, len as nat)) by (nonlinear_arith)
                requires
                    bits_value(data, start, cnt as nat) == bits_value(data, start, len as nat)
                        + pow2(len as nat) * bits_value(data, start + len, (cnt - len) as nat),
            ;
            lemma_bits_value_bound(data, start, len as nat);
            lemma_fundamental_div_mod_converse(
                acc as int,
                pow2(len as nat) as int,
                bits_value(data, start + len, (cnt - len) as nat) as int,
                bits_value(data, start, len as nat) as int,
            );
            lemma_bits_value_bound(data, start + len, (cnt - len) as nat);
            lemma_pow2_strictly_increases((cnt - len) as nat, 16);
            lemma2_to64();
        }
        let p: u32 = 1u32 << (len as u32);
        let value: u32 = acc % p;
        let rest: u32 = acc / p;
        self.unread = BitSequence { bits: rest as u16, len: cnt - len };
        Ok(BitSequence { bits: value as u16, len })
    }

    /// Drops the bits still held from the last byte and lends out the byte source.
    pub fn borrow_reader_from_boundary(&mut self) -> (r: &mut ByteReader)
        requires
            old(self).wf(),
        ensures
            *r == old(self).source(),
            final(self).source() == *final(r),
            final(self).pending() == 0,
            final(r).wf() ==> final(self).wf(),
    {
        self.unread = BitSequence { bits: 0, len: 0 };
        &mut self.stream
    }

    pub fn into_inner(self) -> (r: ByteReader)
        requires
            self.wf(),
        ensures
            r == self.source(),
            r.wf(),
    {
        self.stream
    }
}

} // verus!
