//! A cipher as the list of its operations, and the two directions of a
//! stream that it guards.

use super::ciphers::{applied, lemma_reversed_applied, reversed, Cipher};
use vstd::prelude::*;

verus! {

/// `buf` after every operation of `ciphers`, from the first to the last.
pub open spec fn applied_all<C: Cipher + ?Sized>(
    ciphers: Seq<Box<C>>,
    position: u64,
    buf: Seq<u8>,
) -> Seq<u8>
    decreases ciphers.len(),
{
    if ciphers.len() == 0 {
        buf
    } else {
        applied(&*ciphers.last(), applied_all(ciphers.drop_last(), position, buf), position)
    }
}

/// `buf` after every operation of `ciphers` is undone, from the last to the
/// first.
pub open spec fn reversed_all<C: Cipher + ?Sized>(
    ciphers: Seq<Box<C>>,
    position: u64,
    buf: Seq<u8>,
) -> Seq<u8>
    decreases ciphers.len(),
{
    if ciphers.len() == 0 {
        buf
    } else {
        reversed_all(ciphers.drop_last(), position, reversed(&*ciphers.last(), buf, position))
    }
}

/// A cipher keeps the length of what it is given.
pub proof fn lemma_applied_all_len<C: Cipher + ?Sized>(
    ciphers: Seq<Box<C>>,
    position: u64,
    buf: Seq<u8>,
)
    ensures
        applied_all(ciphers, position, buf).len() == buf.len(),
        reversed_all(ciphers, position, buf).len() == buf.len(),
    decreases ciphers.len(),
{
    if ciphers.len() > 0 {
        lemma_applied_all_len(ciphers.drop_last(), position, buf);
        lemma_applied_all_len(
            ciphers.drop_last(),
            position,
            reversed(&*ciphers.last(), buf, position),
        );
    }
}

/// Deciphering what was enciphered at the same position gives the text back.
pub proof fn lemma_reversed_all_applied_all<C: Cipher + ?Sized>(
    ciphers: Seq<Box<C>>,
    position: u64,
    buf: Seq<u8>,
)
    ensures
        reversed_all(ciphers, position, applied_all(ciphers, position, buf)) == buf,
    decreases ciphers.len(),
{
    if ciphers.len() > 0 {
        let inner = applied_all(ciphers.drop_last(), position, buf);
        lemma_reversed_applied(&*ciphers.last(), inner, position);
        lemma_reversed_all_applied_all(ciphers.drop_last(), position, buf);
    }
}

/// Enciphers `buf`, whose first byte stands at `start_position` of the
/// stream.
pub fn cipher_spec_apply<C>(ciphers: &[Box<C>], start_position: u64, buf: Vec<u8>) -> (out: Vec<
    u8,
>) where C: Cipher + ?Sized
    ensures
        out@ == applied_all(ciphers@, start_position, buf@),
{
    let mut msg = buf;
    let mut i: usize = 0;
    proof {
        assert(ciphers@.take(0) =~= Seq::<Box<C>>::empty());
    }
    while i < ciphers.len()
        invariant
            i <= ciphers.len(),
            msg@ == applied_all(ciphers@.take(i as int), start_position, buf@),
        decreases ciphers.len() - i,
    {
        proof {
            assert(ciphers@.take(i + 1).drop_last() =~= ciphers@.take(i as int));
        }
        msg = ciphers[i].apply(msg.as_slice(), start_position);
        i += 1;
    }
    proof {
        assert(ciphers@.take(i as int) =~= ciphers@);
    }
    msg
}

/// Deciphers `buf`, whose first byte stands at `start_position` of the
/// stream.
pub fn cipher_spec_reverse<C>(ciphers: &[Box<C>], start_position: u64, buf: Vec<u8>) -> (out: Vec<
    u8,
>) where C: Cipher + ?Sized
    ensures
        out@ == reversed_all(ciphers@, start_position, buf@),
{
    let mut msg = buf;
    let mut i: usize = ciphers.len();
    proof {
        assert(ciphers@.take(i as int) =~= ciphers@);
    }
    while i > 0
        invariant
            i <= ciphers.len(),
            reversed_all(ciphers@.take(i as int), start_position, msg@) == reversed_all(
                ciphers@,
                start_position,
                buf@,
            ),
        decreases i,
    {
        proof {
            assert(ciphers@.take(i as int).drop_last() =~= ciphers@.take(i - 1));
        }
        i -= 1;
        msg = ciphers[i].reverse(msg.as_slice(), start_position);
    }
    msg
}

/// The state of a cipher on a stream that is read and written: its
/// operations, and how far each direction has come.
pub struct CipherStream<C: ?Sized> {
    ciphers: Vec<Box<C>>,
    bytes_read: u64,
    bytes_written: u64,
}

/// The position of a stream after `len` more bytes. Positions are kept in 64
/// bits and start again at zero behind the last one, which leaves their low
/// eight bits right.
pub open spec fn advanced(position: u64, len: nat) -> u64 {
    ((position + len) % 0x1_0000_0000_0000_0000) as u64
}

impl<C: Cipher + ?Sized> CipherStream<C> {
    pub closed spec fn ciphers(&self) -> Seq<Box<C>> {
        self.ciphers@
    }

    /// The position in the stream of the next byte that is read.
    pub closed spec fn bytes_read(&self) -> u64 {
        self.bytes_read
    }

    /// The position in the stream of the next byte that is written.
    pub closed spec fn bytes_written(&self) -> u64 {
        self.bytes_written
    }

    pub fn new(ciphers: Vec<Box<C>>) -> (stream: Self)
        ensures
            stream.ciphers() == ciphers@,
            stream.bytes_read() == 0,
            stream.bytes_written() == 0,
    {
        Self { ciphers, bytes_read: 0, bytes_written: 0 }
    }

    /// Deciphers the bytes that were read next from the stream.
    pub fn read(&mut self, buf: Vec<u8>) -> (plain: Vec<u8>)
        ensures
            plain@ == reversed_all(old(self).ciphers(), old(self).bytes_read(), buf@),
            final(self).ciphers() == old(self).ciphers(),
            final(self).bytes_read() == advanced(old(self).bytes_read(), buf@.len()),
            final(self).bytes_written() == old(self).bytes_written(),
    {
        let len = buf.len();
        let plain = cipher_spec_reverse(self.ciphers.as_slice(), self.bytes_read, buf);
        self.bytes_read = add_position(self.bytes_read, len);
        plain
    }

    /// Enciphers the bytes that are written next to the stream.
    pub fn write(&mut self, buf: Vec<u8>) -> (ciphered: Vec<u8>)
        ensures
            ciphered@ == applied_all(old(self).ciphers(), old(self).bytes_written(), buf@),
            final(self).ciphers() == old(self).ciphers(),
            final(self).bytes_written() == advanced(old(self).bytes_written(), buf@.len()),
            final(self).bytes_read() == old(self).bytes_read(),
    {
        let len = buf.len();
        let ciphered = cipher_spec_apply(self.ciphers.as_slice(), self.bytes_written, buf);
        self.bytes_written = add_position(self.bytes_written, len);
        ciphered
    }
}

fn add_position(position: u64, len: usize) -> (next: u64)
    ensures
        next == advanced(position, len as nat),
{
    let sum: u128 = position as u128 + len as u128;
    (sum % 0x1_0000_0000_0000_0000) as u64
}

} // verus!
