//! The cipher specification that opens a connection.
//!
//! A client names the operations of its cipher one after the other and ends
//! the list with a zero byte:
//!
//! ```text
//! 00          end of the specification
//! 01          reverse the bits
//! 02 N        exclusive or with N
//! 03          exclusive or with the position
//! 04 N        add N
//! 05          add the position
//! ```

use super::cipher_stream::{applied_all, cipher_spec_apply};
use super::ciphers::{AddN, AddPos, Cipher, ReverseBits, XorN, XorPos};
use super::ciphers::{add_bytes, low_byte, reversed_bits, sub_bytes};
use vstd::prelude::*;

verus! {

/// One operation of a cipher that a client asked for.
#[derive(Debug, Clone, Copy, PartialEq, Eq, Structural)]
pub enum CipherOp {
    ReverseBits,
    XorN(u8),
    XorPos,
    AddN(u8),
    AddPos,
}

impl Cipher for CipherOp {
    open spec fn apply_byte(&self, byte: u8, offset: nat) -> u8 {
        match *self {
            CipherOp::ReverseBits => reversed_bits(byte),
            CipherOp::XorN(n) => byte ^ n,
            CipherOp::XorPos => byte ^ low_byte(offset),
            CipherOp::AddN(n) => add_bytes(byte, n),
            CipherOp::AddPos => add_bytes(byte, low_byte(offset)),
        }
    }

    open spec fn reverse_byte(&self, byte: u8, offset: nat) -> u8 {
        match *self {
            CipherOp::ReverseBits => reversed_bits(byte),
            CipherOp::XorN(n) => byte ^ n,
            CipherOp::XorPos => byte ^ low_byte(offset),
            CipherOp::AddN(n) => sub_bytes(byte, n),
            CipherOp::AddPos => sub_bytes(byte, low_byte(offset)),
        }
    }

    proof fn lemma_reverse_apply(&self, byte: u8, offset: nat) {
        match *self {
            CipherOp::ReverseBits => ReverseBits.lemma_reverse_apply(byte, offset),
            CipherOp::XorN(n) => {
                assert((byte ^ n) ^ n == byte) by (bit_vector);
            },
            CipherOp::XorPos => XorPos.lemma_reverse_apply(byte, offset),
            CipherOp::AddN(n) => {},
            CipherOp::AddPos => AddPos.lemma_reverse_apply(byte, offset),
        }
    }

    fn apply(&self, buf: &[u8], position: u64) -> (out: Vec<u8>) {
        let out = match self {
            CipherOp::ReverseBits => ReverseBits.apply(buf, position),
            CipherOp::XorN(n) => XorN::new(*n).apply(buf, position),
            CipherOp::XorPos => XorPos.apply(buf, position),
            CipherOp::AddN(n) => AddN::new(*n).apply(buf, position),
            CipherOp::AddPos => AddPos.apply(buf, position),
        };
        proof {
            assert(out@ =~= Seq::new(
                buf@.len(),
                |i: int| self.apply_byte(buf@[i], (position + i) as nat),
            ));
        }
        out
    }

    fn reverse(&self, buf: &[u8], position: u64) -> (out: Vec<u8>) {
        let out = match self {
            CipherOp::ReverseBits => ReverseBits.reverse(buf, position),
            CipherOp::XorN(n) => XorN::new(*n).reverse(buf, position),
            CipherOp::XorPos => XorPos.reverse(buf, position),
            CipherOp::AddN(n) => AddN::new(*n).reverse(buf, position),
            CipherOp::AddPos => AddPos.reverse(buf, position),
        };
        proof {
            assert(out@ =~= Seq::new(
                buf@.len(),
                |i: int| self.reverse_byte(buf@[i], (position + i) as nat),
            ));
        }
        out
    }
}

/// Why a cipher specification is refused.
#[derive(Debug, Clone, Copy, PartialEq, Eq, Structural)]
pub enum CipherSpecError {
    /// A byte that names no operation.
    InvalidCipher(u8),
    /// The cipher leaves the probe as it is.
    NoOp,
}

/// What the bytes read so far say of the cipher specification.
pub ghost enum Parsed {
    /// The list has not ended yet.
    Incomplete,
    /// This byte names no operation.
    Invalid(u8),
    /// The operations, and how many bytes the list took.
    Complete { ops: Seq<Box<CipherOp>>, used: nat },
}

/// `rest` behind `ops`, which took `used` bytes.
pub open spec fn after(ops: Seq<Box<CipherOp>>, used: nat, rest: Parsed) -> Parsed {
    match rest {
        Parsed::Complete { ops: more, used: more_used } => Parsed::Complete {
            ops: ops + more,
            used: used + more_used,
        },
        other => other,
    }
}

/// The cipher specification at the start of `bytes`.
pub open spec fn parsed(bytes: Seq<u8>) -> Parsed
    decreases bytes.len(),
{
    if bytes.len() == 0 {
        Parsed::Incomplete
    } else if bytes[0] == 0 {
        Parsed::Complete { ops: Seq::empty(), used: 1 }
    } else if bytes[0] == 1 {
        after(seq![Box::new(CipherOp::ReverseBits)], 1, parsed(bytes.skip(1)))
    } else if bytes[0] == 3 {
        after(seq![Box::new(CipherOp::XorPos)], 1, parsed(bytes.skip(1)))
    } else if bytes[0] == 5 {
        after(seq![Box::new(CipherOp::AddPos)], 1, parsed(bytes.skip(1)))
    } else if bytes[0] == 2 || bytes[0] == 4 {
        if bytes.len() < 2 {
            Parsed::Incomplete
        } else if bytes[0] == 2 {
            after(seq![Box::new(CipherOp::XorN(bytes[1]))], 2, parsed(bytes.skip(2)))
        } else {
            after(seq![Box::new(CipherOp::AddN(bytes[1]))], 2, parsed(bytes.skip(2)))
        }
    } else {
        Parsed::Invalid(bytes[0])
    }
}

/// The text that a cipher is tried on: `abcd`.
pub open spec fn probe() -> Seq<u8> {
    seq![0x61u8, 0x62, 0x63, 0x64]
}

/// The stream position at which a cipher is tried.
pub const PROBE_POSITION: u64 = 2;

/// Whether the cipher leaves the probe as it is.
pub open spec fn is_no_op<C: Cipher + ?Sized>(cipher_spec: Seq<Box<C>>) -> bool {
    applied_all(cipher_spec, PROBE_POSITION, probe()) == probe()
}

/// Refuses a cipher that leaves the probe as it is.
pub fn validate_cipher_spec<C>(cipher_spec: &[Box<C>]) -> (res: Result<
    (),
    CipherSpecError,
>) where C: Cipher + ?Sized
    ensures
        res == if is_no_op(cipher_spec@) {
            Err::<(), CipherSpecError>(CipherSpecError::NoOp)
        } else {
            Ok::<(), CipherSpecError>(())
        },
{
    let test_buf: Vec<u8> = vec![0x61, 0x62, 0x63, 0x64];
    proof {
        assert(test_buf@ =~= probe());
    }
    let ciphered_buf = cipher_spec_apply(cipher_spec, PROBE_POSITION, test_buf);
    proof {
        super::cipher_stream::lemma_applied_all_len(cipher_spec@, PROBE_POSITION, probe());
    }
    let same = ciphered_buf[0] == 0x61 && ciphered_buf[1] == 0x62 && ciphered_buf[2] == 0x63
        && ciphered_buf[3] == 0x64;
    if same {
        proof {
            assert(ciphered_buf@ =~= probe());
        }
        Err(CipherSpecError::NoOp)
    } else {
        Ok(())
    }
}

/// Reads the cipher specification at the start of `src`.
///
/// The result is `Ok(None)` as long as the list has not ended: the caller
/// reads on and asks again. Else it is the operations together with the
/// number of bytes that the list took, or the reason why the specification
/// is refused.
pub fn read_cipher_spec(src: &[u8]) -> (res: Result<
    Option<(Vec<Box<CipherOp>>, usize)>,
    CipherSpecError,
>)
    ensures
        match parsed(src@) {
            Parsed::Incomplete => res == Ok::<Option<(Vec<Box<CipherOp>>, usize)>, CipherSpecError>(
                None,
            ),
            Parsed::Invalid(byte) => res == Err::<
                Option<(Vec<Box<CipherOp>>, usize)>,
                CipherSpecError,
            >(CipherSpecError::InvalidCipher(byte)),
            Parsed::Complete { ops, used } => if is_no_op(ops) {
                res == Err::<Option<(Vec<Box<CipherOp>>, usize)>, CipherSpecError>(
                    CipherSpecError::NoOp,
                )
            } else {
                res matches Ok(Some(found)) && found.0@ == ops && found.1 == used
            },
        },
{
    let mut cipher_spec: Vec<Box<CipherOp>> = Vec::new();
    let mut i: usize = 0;
    proof {
        assert(src@.skip(0) =~= src@);
        assert(after(cipher_spec@, 0, parsed(src@)) == parsed(src@)) by {
            match parsed(src@) {
                Parsed::Complete { ops, used } => {
                    assert(cipher_spec@ + ops =~= ops);
                },
                _ => {},
            }
        }
    }
    loop
        invariant_except_break
            i <= src.len(),
            after(cipher_spec@, i as nat, parsed(src@.skip(i as int))) == parsed(src@),
        ensures
            parsed(src@) == (Parsed::Complete { ops: cipher_spec@, used: i as nat }),
        decreases src.len() - i,
    {
        if i >= src.len() {
            return Ok(None);
        }
        let ghost before = cipher_spec@;
        let ghost rest = src@.skip(i as int);
        let code: u8 = src[i];
        proof {
            assert(rest.skip(1) =~= src@.skip(i + 1));
        }
        if code == 0 {
            proof {
                assert(before + Seq::<Box<CipherOp>>::empty() =~= before);
            }
            i += 1;
            break ;
        }
        let taken: usize = if code == 2 || code == 4 { 2 } else { 1 };
        if code > 5 {
            return Err(CipherSpecError::InvalidCipher(code));
        }
        if taken == 2 && i + 1 >= src.len() {
            return Ok(None);
        }
        let op = if code == 1 {
            CipherOp::ReverseBits
        } else if code == 2 {
            CipherOp::XorN(src[i + 1])
        } else if code == 3 {
            CipherOp::XorPos
        } else if code == 4 {
            CipherOp::AddN(src[i + 1])
        } else {
            CipherOp::AddPos
        };
        cipher_spec.push(Box::new(op));
        proof {
            if taken == 2 {
                assert(rest.skip(2) =~= src@.skip(i + 2));
            }
            let later = parsed(src@.skip(i + taken));
            assert(cipher_spec@ =~= before + seq![Box::new(op)]);
            match later {
                Parsed::Complete { ops, used } => {
                    assert((before + seq![Box::new(op)]) + ops =~= before + (seq![Box::new(op)]
                        + ops));
                },
                _ => {},
            }
        }
        i += taken;
    }
    match validate_cipher_spec(cipher_spec.as_slice()) {
        Ok(()) => Ok(Some((cipher_spec, i))),
        Err(refused) => Err(refused),
    }
}

} // verus!
