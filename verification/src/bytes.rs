//! A cursor over an in-memory byte stream, with the little-endian
//! primitives the circuit and witness decoders are built from.

use vstd::prelude::*;
use vstd::arithmetic::power2::pow2;

verus! {

/// Why a decode failed.
#[derive(Clone, Copy, PartialEq, Eq, Structural, Debug)]
pub enum CircuitError {
    /// The stream ended before a record was complete.
    Truncated,
    /// The file does not start with the expected magic number.
    BadMagic,
    /// A segment's declared input or output size is not a power of two.
    NotPowerOfTwo,
    /// A coefficient tag byte is none of the known ones.
    BadCoefType,
    /// A child segment points at itself or at a later segment.
    BadChildSegment,
    /// A serialized base-field element carries nonzero padding.
    BadFieldElement,
    /// A gate's wire index falls outside its layer after flattening.
    WireOutOfRange,
    /// A custom gate carries a type tag the evaluator does not know.
    UnknownGateType,
    /// A declared size does not fit the machine's address space.
    SizeTooLarge,
    /// The witness stream disagrees with the circuit's input size.
    BadWitness,
}

/// The value of one little-endian u64, from eight bytes.
pub open spec fn le8(s: Seq<u8>) -> int {
    s[0] + 0x100 * s[1] + 0x1_0000 * s[2] + 0x100_0000 * s[3] + 0x1_0000_0000 * s[4]
        + 0x100_0000_0000 * s[5] + 0x1_0000_0000_0000 * s[6] + 0x100_0000_0000_0000 * s[7]
}

/// The value of one little-endian u32, from four bytes.
pub open spec fn le4(s: Seq<u8>) -> int {
    s[0] + 0x100 * s[1] + 0x1_0000 * s[2] + 0x100_0000 * s[3]
}

/// A read-only cursor over a byte stream.
pub struct ByteReader<'a> {
    pub data: &'a [u8],
    pub pos: usize,
}

impl<'a> ByteReader<'a> {
    /// The cursor never passes the end of the stream.
    pub open spec fn wf(self) -> bool {
        self.pos <= self.data@.len()
    }

    /// How many bytes are left to read.
    pub open spec fn remaining(self) -> int {
        self.data@.len() - self.pos
    }

    /// Opens a cursor at the start of a stream.
    pub fn new(data: &'a [u8]) -> (r: Self)
        ensures
            r.wf(),
            r.data@ == data@,
            r.pos == 0,
    {
        ByteReader { data, pos: 0 }
    }

    /// Reads one byte.
    pub fn read_u8(&mut self) -> (r: Result<u8, CircuitError>)
        requires
            old(self).wf(),
        ensures
            final(self).wf(),
            final(self).data@ == old(self).data@,
            old(self).remaining() >= 1 ==> r == Ok::<u8, CircuitError>(
                old(self).data@[old(self).pos as int],
            ) && final(self).pos == old(self).pos + 1,
            old(self).remaining() < 1 ==> r == Err::<u8, CircuitError>(CircuitError::Truncated)
                && final(self).pos == old(self).pos,
    {
        if self.pos < self.data.len() {
            let b = self.data[self.pos];
            self.pos = self.pos + 1;
            Ok(b)
        } else {
            Err(CircuitError::Truncated)
        }
    }

    /// Reads one little-endian u64.
    pub fn read_u64(&mut self) -> (r: Result<u64, CircuitError>)
        requires
            old(self).wf(),
        ensures
            final(self).wf(),
            final(self).data@ == old(self).data@,
            old(self).remaining() >= 8 ==> r is Ok && r->Ok_0 as int == le8(
                old(self).data@.subrange(old(self).pos as int, old(self).pos + 8),
            ) && final(self).pos == old(self).pos + 8,
            old(self).remaining() < 8 ==> r == Err::<u64, CircuitError>(CircuitError::Truncated)
                && final(self).pos == old(self).pos,
    {
        if self.data.len() - self.pos >= 8 {
            let p = self.pos;
            let b0 = self.data[p] as u64;
            let b1 = self.data[p + 1] as u64;
            let b2 = self.data[p + 2] as u64;
            let b3 = self.data[p + 3] as u64;
            let b4 = self.data[p + 4] as u64;
            let b5 = self.data[p + 5] as u64;
            let b6 = self.data[p + 6] as u64;
            let b7 = self.data[p + 7] as u64;
            let v: u64 = b0 + 0x100 * b1 + 0x1_0000 * b2 + 0x100_0000 * b3 + 0x1_0000_0000 * b4
                + 0x100_0000_0000 * b5 + 0x1_0000_0000_0000 * b6 + 0x100_0000_0000_0000 * b7;
            self.pos = p + 8;
            proof {
                let s = old(self).data@.subrange(p as int, p + 8);
                assert(s[0] == old(self).data@[p as int]);
                assert(v as int == le8(s));
            }
            Ok(v)
        } else {
            Err(CircuitError::Truncated)
        }
    }

    /// Reads one little-endian u32.
    pub fn read_u32(&mut self) -> (r: Result<u32, CircuitError>)
        requires
            old(self).wf(),
        ensures
            final(self).wf(),
            final(self).data@ == old(self).data@,
            old(self).remaining() >= 4 ==> r is Ok && r->Ok_0 as int == le4(
                old(self).data@.subrange(old(self).pos as int, old(self).pos + 4),
            ) && final(self).pos == old(self).pos + 4,
            old(self).remaining() < 4 ==> r == Err::<u32, CircuitError>(CircuitError::Truncated)
                && final(self).pos == old(self).pos,
    {
        if self.data.len() - self.pos >= 4 {
            let p = self.pos;
            let b0 = self.data[p] as u32;
            let b1 = self.data[p + 1] as u32;
            let b2 = self.data[p + 2] as u32;
            let b3 = self.data[p + 3] as u32;
            let v: u32 = b0 + 0x100 * b1 + 0x1_0000 * b2 + 0x100_0000 * b3;
            self.pos = p + 4;
            proof {
                let s = old(self).data@.subrange(p as int, p + 4);
                assert(s[0] == old(self).data@[p as int]);
                assert(v as int == le4(s));
            }
            Ok(v)
        } else {
            Err(CircuitError::Truncated)
        }
    }

    /// Skips `n` bytes after checking each is zero.
    pub fn read_zero_padding(&mut self, n: usize) -> (r: Result<(), CircuitError>)
        requires
            old(self).wf(),
        ensures
            final(self).wf(),
            final(self).data@ == old(self).data@,
            r is Ok <==> old(self).remaining() >= n && all_zero(
                old(self).data@.subrange(old(self).pos as int, old(self).pos + n),
            ),
            r is Ok ==> final(self).pos == old(self).pos + n,
            r is Err ==> final(self).pos == old(self).pos && (r == Err::<(), CircuitError>(
                CircuitError::Truncated,
            ) || r == Err::<(), CircuitError>(CircuitError::BadFieldElement)),
    {
        if n > self.data.len() - self.pos {
            return Err(CircuitError::Truncated);
        }
        let p = self.pos;
        let dlen = self.data.len();
        let mut i: usize = 0;
        while i < n
            invariant
                self.wf(),
                self.pos == p,
                dlen == self.data@.len(),
                p + n <= dlen,
                self.data@ == old(self).data@,
                i <= n,
                forall|j: int| 0 <= j < i ==> old(self).data@[#[trigger] (p + j)] == 0,
            decreases n - i,
        {
            if self.data[p + i] != 0 {
                proof {
                    let s = old(self).data@.subrange(p as int, p + n);
                    assert(s[i as int] == old(self).data@[p + i]);
                }
                return Err(CircuitError::BadFieldElement);
            }
            i = i + 1;
        }
        self.pos = p + n;
        proof {
            let s = old(self).data@.subrange(p as int, p + n);
            assert(forall|j: int| 0 <= j < n ==> s[j] == old(self).data@[p + j]);
        }
        Ok(())
    }
}

/// Every byte of the sequence is zero.
pub open spec fn all_zero(s: Seq<u8>) -> bool {
    forall|i: int| 0 <= i < s.len() ==> s[i] == 0
}

/// Computes `2^n` when it fits the address space.
pub fn pow2_checked(n: usize) -> (r: Option<usize>)
    ensures
        match r {
            Some(v) => v as nat == pow2(n as nat) && pow2(n as nat) <= usize::MAX as nat,
            None => pow2(n as nat) > usize::MAX as nat,
        },
{
    proof {
        vstd::arithmetic::power2::lemma2_to64();
        vstd::arithmetic::power2::lemma2_to64_rest();
    }
    if n < usize::BITS as usize {
        proof {
            vstd::bits::lemma_usize_pow2_no_overflow(n as nat);
            vstd::bits::lemma_usize_shl_is_mul(1usize, n);
        }
        Some(1usize << n)
    } else {
        proof {
            if pow2(n as nat) <= usize::MAX as nat {
                if n as nat > usize::BITS as nat {
                    vstd::arithmetic::power2::lemma_pow2_strictly_increases(
                        usize::BITS as nat,
                        n as nat,
                    );
                }
            }
        }
        None
    }
}

/// Computes `2^n`, which the caller knows fits the address space.
pub fn pow2_exact(n: usize) -> (r: usize)
    requires
        pow2(n as nat) <= usize::MAX as nat,
    ensures
        r as nat == pow2(n as nat),
{
    match pow2_checked(n) {
        Some(v) => v,
        None => {
            proof {
                assert(false);
            }
            0
        },
    }
}

} // verus!
