//! The five operations that a cipher is made of.
//!
//! Each maps one byte to one byte and may depend on where the byte stands in
//! the stream. Positions count from the start of the stream and only their
//! low eight bits matter.

use std::fmt::Debug;
use vstd::prelude::*;

verus! {

pub trait Cipher: Debug + Send {
    /// What the operation makes of the byte at `offset` of the stream.
    spec fn apply_byte(&self, byte: u8, offset: nat) -> u8;

    /// The byte at `offset` of the stream of which the operation makes `byte`.
    spec fn reverse_byte(&self, byte: u8, offset: nat) -> u8;

    /// `reverse_byte` undoes `apply_byte`.
    proof fn lemma_reverse_apply(&self, byte: u8, offset: nat)
        ensures
            self.reverse_byte(self.apply_byte(byte, offset), offset) == byte,
    ;

    /// Enciphers `buf`, whose first byte stands at `position` of the stream.
    fn apply(&self, buf: &[u8], position: u64) -> (out: Vec<u8>)
        ensures
            out@ == Seq::new(
                buf@.len(),
                |i: int| self.apply_byte(buf@[i], (position + i) as nat),
            ),
    ;

    /// Deciphers `buf`, whose first byte stands at `position` of the stream.
    fn reverse(&self, buf: &[u8], position: u64) -> (out: Vec<u8>)
        ensures
            out@ == Seq::new(
                buf@.len(),
                |i: int| self.reverse_byte(buf@[i], (position + i) as nat),
            ),
    ;
}

/// `buf` enciphered by `cipher`, where the first byte of `buf` stands at
/// `position` of the stream.
pub open spec fn applied<C: Cipher + ?Sized>(cipher: &C, buf: Seq<u8>, position: u64) -> Seq<u8> {
    Seq::new(buf.len(), |i: int| cipher.apply_byte(buf[i], (position + i) as nat))
}

/// `buf` deciphered by `cipher`, where the first byte of `buf` stands at
/// `position` of the stream.
pub open spec fn reversed<C: Cipher + ?Sized>(cipher: &C, buf: Seq<u8>, position: u64) -> Seq<
    u8,
> {
    Seq::new(buf.len(), |i: int| cipher.reverse_byte(buf[i], (position + i) as nat))
}

/// Deciphering what was enciphered at the same position gives the text back.
pub proof fn lemma_reversed_applied<C: Cipher + ?Sized>(cipher: &C, buf: Seq<u8>, position: u64)
    ensures
        reversed(cipher, applied(cipher, buf, position), position) == buf,
{
    let there = applied(cipher, buf, position);
    let back = reversed(cipher, there, position);
    assert forall|i: int| 0 <= i < buf.len() implies back[i] == buf[i] by {
        cipher.lemma_reverse_apply(buf[i], (position + i) as nat);
    }
}

/// The low eight bits of a stream offset.
pub open spec fn low_byte(offset: nat) -> u8 {
    (offset % 256) as u8
}

/// The byte with its bits in the opposite order.
pub open spec fn reversed_bits(b: u8) -> u8 {
    ((b & 0x01) << 7) | ((b & 0x02) << 5) | ((b & 0x04) << 3) | ((b & 0x08) << 1) | ((b & 0x10)
        >> 1) | ((b & 0x20) >> 3) | ((b & 0x40) >> 5) | ((b & 0x80) >> 7)
}

/// The sum of two bytes, modulo 256.
pub open spec fn add_bytes(a: u8, b: u8) -> u8 {
    ((a + b) % 256) as u8
}

/// The difference of two bytes, modulo 256.
pub open spec fn sub_bytes(a: u8, b: u8) -> u8 {
    ((a - b) % 256) as u8
}

fn reverse_bits(b: u8) -> (r: u8)
    ensures
        r == reversed_bits(b),
{
    ((b & 0x01) << 7) | ((b & 0x02) << 5) | ((b & 0x04) << 3) | ((b & 0x08) << 1) | ((b & 0x10)
        >> 1) | ((b & 0x20) >> 3) | ((b & 0x40) >> 5) | ((b & 0x80) >> 7)
}

/// The low eight bits of the stream offset of byte `i` of a buffer that
/// starts at `position`.
fn offset_byte(position: u64, i: usize) -> (r: u8)
    ensures
        r == low_byte((position + i) as nat),
{
    let low_position: u64 = position % 256;
    let low_index: usize = i % 256;
    ((low_position + low_index as u64) % 256) as u8
}

/// Reverses the order of the bits of every byte.
#[derive(Debug)]
pub struct ReverseBits;

impl Cipher for ReverseBits {
    open spec fn apply_byte(&self, byte: u8, offset: nat) -> u8 {
        reversed_bits(byte)
    }

    open spec fn reverse_byte(&self, byte: u8, offset: nat) -> u8 {
        reversed_bits(byte)
    }

    proof fn lemma_reverse_apply(&self, byte: u8, offset: nat) {
        assert(reversed_bits(reversed_bits(byte)) == byte) by (bit_vector);
    }

    fn apply(&self, buf: &[u8], position: u64) -> (out: Vec<u8>) {
        let mut out: Vec<u8> = Vec::new();
        let mut i: usize = 0;
        while i < buf.len()
            invariant
                i <= buf.len(),
                out@ == Seq::new(
                    buf@.take(i as int).len(),
                    |j: int| self.apply_byte(buf@.take(i as int)[j], (position + j) as nat),
                ),
            decreases buf.len() - i,
        {
            out.push(reverse_bits(buf[i]));
            i += 1;
            proof {
                assert(out@ =~= Seq::new(
                    buf@.take(i as int).len(),
                    |j: int| self.apply_byte(buf@.take(i as int)[j], (position + j) as nat),
                ));
            }
        }
        proof {
            assert(buf@.take(i as int) =~= buf@);
        }
        out
    }

    fn reverse(&self, buf: &[u8], position: u64) -> (out: Vec<u8>) {
        let out = self.apply(buf, position);
        proof {
            assert(out@ =~= Seq::new(
                    buf@.len(),
                    |j: int| self.reverse_byte(buf@[j], (position + j) as nat),
                ));
        }
        out
    }
}

/// Exclusive or of every byte with a fixed byte.
#[derive(Debug)]
pub struct XorN(u8);

impl XorN {
    /// The byte that every byte is combined with.
    pub closed spec fn n(&self) -> u8 {
        self.0
    }

    pub fn new(n: u8) -> (cipher: Self)
        ensures
            cipher.n() == n,
    {
        Self(n)
    }
}

impl Cipher for XorN {
    open spec fn apply_byte(&self, byte: u8, offset: nat) -> u8 {
        byte ^ self.n()
    }

    open spec fn reverse_byte(&self, byte: u8, offset: nat) -> u8 {
        byte ^ self.n()
    }

    proof fn lemma_reverse_apply(&self, byte: u8, offset: nat) {
        let n = self.n();
        assert((byte ^ n) ^ n == byte) by (bit_vector);
    }

    fn apply(&self, buf: &[u8], position: u64) -> (out: Vec<u8>) {
        let mut out: Vec<u8> = Vec::new();
        let mut i: usize = 0;
        while i < buf.len()
            invariant
                i <= buf.len(),
                out@ == Seq::new(
                    buf@.take(i as int).len(),
                    |j: int| self.apply_byte(buf@.take(i as int)[j], (position + j) as nat),
                ),
            decreases buf.len() - i,
        {
            out.push(buf[i] ^ self.0);
            i += 1;
            proof {
                assert(out@ =~= Seq::new(
                    buf@.take(i as int).len(),
                    |j: int| self.apply_byte(buf@.take(i as int)[j], (position + j) as nat),
                ));
            }
        }
        proof {
            assert(buf@.take(i as int) =~= buf@);
        }
        out
    }

    fn reverse(&self, buf: &[u8], position: u64) -> (out: Vec<u8>) {
        let out = self.apply(buf, position);
        proof {
            assert(out@ =~= Seq::new(
                    buf@.len(),
                    |j: int| self.reverse_byte(buf@[j], (position + j) as nat),
                ));
        }
        out
    }
}

/// Exclusive or of every byte with the low eight bits of its offset in the
/// stream.
#[derive(Debug)]
pub struct XorPos;

impl Cipher for XorPos {
    open spec fn apply_byte(&self, byte: u8, offset: nat) -> u8 {
        byte ^ low_byte(offset)
    }

    open spec fn reverse_byte(&self, byte: u8, offset: nat) -> u8 {
        byte ^ low_byte(offset)
    }

    proof fn lemma_reverse_apply(&self, byte: u8, offset: nat) {
        let n = low_byte(offset);
        assert((byte ^ n) ^ n == byte) by (bit_vector);
    }

    fn apply(&self, buf: &[u8], position: u64) -> (out: Vec<u8>) {
        let mut out: Vec<u8> = Vec::new();
        let mut i: usize = 0;
        while i < buf.len()
            invariant
                i <= buf.len(),
                out@ == Seq::new(
                    buf@.take(i as int).len(),
                    |j: int| self.apply_byte(buf@.take(i as int)[j], (position + j) as nat),
                ),
            decreases buf.len() - i,
        {
            out.push(buf[i] ^ offset_byte(position, i));
            i += 1;
            proof {
                assert(out@ =~= Seq::new(
                    buf@.take(i as int).len(),
                    |j: int| self.apply_byte(buf@.take(i as int)[j], (position + j) as nat),
                ));
            }
        }
        proof {
            assert(buf@.take(i as int) =~= buf@);
        }
        out
    }

    fn reverse(&self, buf: &[u8], position: u64) -> (out: Vec<u8>) {
        let out = self.apply(buf, position);
        proof {
            assert(out@ =~= Seq::new(
                    buf@.len(),
                    |j: int| self.reverse_byte(buf@[j], (position + j) as nat),
                ));
        }
        out
    }
}

fn add_wrapping(a: u8, b: u8) -> (r: u8)
    ensures
        r == add_bytes(a, b),
{
    let sum: u16 = a as u16 + b as u16;
    (sum % 256) as u8
}

fn sub_wrapping(a: u8, b: u8) -> (r: u8)
    ensures
        r == sub_bytes(a, b),
{
    let difference: u16 = a as u16 + 256 - b as u16;
    (difference % 256) as u8
}

pub proof fn lemma_sub_add(a: u8, b: u8)
    ensures
        sub_bytes(add_bytes(a, b), b) == a,
{
}

/// Addition of a fixed byte to every byte, modulo 256.
#[derive(Debug)]
pub struct AddN(u8);

impl AddN {
    /// The byte that is added to every byte.
    pub closed spec fn n(&self) -> u8 {
        self.0
    }

    pub fn new(n: u8) -> (cipher: Self)
        ensures
            cipher.n() == n,
    {
        Self(n)
    }
}

impl Cipher for AddN {
    open spec fn apply_byte(&self, byte: u8, offset: nat) -> u8 {
        add_bytes(byte, self.n())
    }

    open spec fn reverse_byte(&self, byte: u8, offset: nat) -> u8 {
        sub_bytes(byte, self.n())
    }

    proof fn lemma_reverse_apply(&self, byte: u8, offset: nat) {
        lemma_sub_add(byte, self.n());
    }

    fn apply(&self, buf: &[u8], position: u64) -> (out: Vec<u8>) {
        let mut out: Vec<u8> = Vec::new();
        let mut i: usize = 0;
        while i < buf.len()
            invariant
                i <= buf.len(),
                out@ == Seq::new(
                    buf@.take(i as int).len(),
                    |j: int| self.apply_byte(buf@.take(i as int)[j], (position + j) as nat),
                ),
            decreases buf.len() - i,
        {
            out.push(add_wrapping(buf[i], self.0));
            i += 1;
            proof {
                assert(out@ =~= Seq::new(
                    buf@.take(i as int).len(),
                    |j: int| self.apply_byte(buf@.take(i as int)[j], (position + j) as nat),
                ));
            }
        }
        proof {
            assert(buf@.take(i as int) =~= buf@);
        }
        out
    }

    fn reverse(&self, buf: &[u8], position: u64) -> (out: Vec<u8>) {
        let mut out: Vec<u8> = Vec::new();
        let mut i: usize = 0;
        while i < buf.len()
            invariant
                i <= buf.len(),
                out@ == Seq::new(
                    buf@.take(i as int).len(),
                    |j: int| self.reverse_byte(buf@.take(i as int)[j], (position + j) as nat),
                ),
            decreases buf.len() - i,
        {
            out.push(sub_wrapping(buf[i], self.0));
            i += 1;
            proof {
                assert(out@ =~= Seq::new(
                    buf@.take(i as int).len(),
                    |j: int| self.reverse_byte(buf@.take(i as int)[j], (position + j) as nat),
                ));
            }
        }
        proof {
            assert(buf@.take(i as int) =~= buf@);
        }
        out
    }
}

/// Addition of the low eight bits of its offset in the stream to every byte,
/// modulo 256.
#[derive(Debug)]
pub struct AddPos;

impl Cipher for AddPos {
    open spec fn apply_byte(&self, byte: u8, offset: nat) -> u8 {
        add_bytes(byte, low_byte(offset))
    }

    open spec fn reverse_byte(&self, byte: u8, offset: nat) -> u8 {
        sub_bytes(byte, low_byte(offset))
    }

    proof fn lemma_reverse_apply(&self, byte: u8, offset: nat) {
        lemma_sub_add(byte, low_byte(offset));
    }

    fn apply(&self, buf: &[u8], position: u64) -> (out: Vec<u8>) {
        let mut out: Vec<u8> = Vec::new();
        let mut i: usize = 0;
        while i < buf.len()
            invariant
                i <= buf.len(),
                out@ == Seq::new(
                    buf@.take(i as int).len(),
                    |j: int| self.apply_byte(buf@.take(i as int)[j], (position + j) as nat),
                ),
            decreases buf.len() - i,
        {
            out.push(add_wrapping(buf[i], offset_byte(position, i)));
            i += 1;
            proof {
                assert(out@ =~= Seq::new(
                    buf@.take(i as int).len(),
                    |j: int| self.apply_byte(buf@.take(i as int)[j], (position + j) as nat),
                ));
            }
        }
        proof {
            assert(buf@.take(i as int) =~= buf@);
        }
        out
    }

    fn reverse(&self, buf: &[u8], position: u64) -> (out: Vec<u8>) {
        let mut out: Vec<u8> = Vec::new();
        let mut i: usize = 0;
        while i < buf.len()
            invariant
                i <= buf.len(),
                out@ == Seq::new(
                    buf@.take(i as int).len(),
                    |j: int| self.reverse_byte(buf@.take(i as int)[j], (position + j) as nat),
                ),
            decreases buf.len() - i,
        {
            out.push(sub_wrapping(buf[i], offset_byte(position, i)));
            i += 1;
            proof {
                assert(out@ =~= Seq::new(
                    buf@.take(i as int).len(),
                    |j: int| self.reverse_byte(buf@.take(i as int)[j], (position + j) as nat),
                ));
            }
        }
        proof {
            assert(buf@.take(i as int) =~= buf@);
        }
        out
    }
}

} // verus!
