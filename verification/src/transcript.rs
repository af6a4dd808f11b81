//! The Fiat-Shamir transcript: a deterministic sponge over a standard
//! hash. It absorbs the prover's messages and emits challenge scalars;
//! the proof is the exact byte stream the transcript absorbed.

use vstd::prelude::*;
use crate::bytes::le8;
use crate::m31::{p, M31};
use crate::m31_ext::M31Ext3;
use crate::simd_ext::SimdM31Ext3;

verus! {

/// What SHA-256 returns on a byte stream. The digest depends on the
/// bytes alone, so it can be named without being written out.
pub uninterp spec fn sha256_of(bytes: Seq<u8>) -> Seq<u8>;

/// Relies on sha2::Sha256::digest: a pure function of the input bytes,
/// with a thirty-two byte output.
#[verifier::external_body]
fn sha256(bytes: &Vec<u8>) -> (r: Vec<u8>)
    ensures
        r@ == sha256_of(bytes@),
        r@.len() == 32,
{
    let out = <sha2::Sha256 as sha2::Digest>::digest(bytes.as_slice());
    out.as_slice().to_vec()
}

/// The absorbed stream after `k` challenge draws: each draw mixes the
/// digest of everything absorbed so far back into the stream.
pub open spec fn absorbed_after(a: Seq<u8>, k: nat) -> Seq<u8>
    decreases k,
{
    if k == 0 {
        a
    } else {
        absorbed_after(a, (k - 1) as nat) + sha256_of(absorbed_after(a, (k - 1) as nat))
    }
}

/// A base-field scalar derived from a digest: its first eight bytes,
/// little-endian, reduced.
pub open spec fn m31_of_hash(d: Seq<u8>) -> int {
    le8(d.subrange(0, 8)) % p()
}

/// A challenge-field scalar derived from a digest: three reduced
/// coordinates from the first twenty-four bytes.
pub open spec fn ext_of_hash(d: Seq<u8>) -> Seq<int> {
    seq![
        le8(d.subrange(0, 8)) % p(),
        le8(d.subrange(8, 16)) % p(),
        le8(d.subrange(16, 24)) % p(),
    ]
}

/// The Fiat-Shamir transcript: the proof stream it has emitted, and the
/// absorbed stream challenges are derived from.
pub struct Transcript {
    pub proof: Vec<u8>,
    pub absorbed: Vec<u8>,
}

impl Transcript {
    /// An empty transcript.
    pub fn new() -> (r: Self)
        ensures
            r.proof@ == Seq::<u8>::empty(),
            r.absorbed@ == Seq::<u8>::empty(),
    {
        Transcript { proof: Vec::new(), absorbed: Vec::new() }
    }

    /// Absorbs one packed sumcheck value: its canonical serialization
    /// goes to the proof stream and to the challenge stream alike.
    pub fn append_f(&mut self, f: &SimdM31Ext3)
        ensures
            final(self).proof@ == old(self).proof@ + crate::simd_ext::simd_ext_bytes(*f),
            final(self).absorbed@ == old(self).absorbed@ + crate::simd_ext::simd_ext_bytes(*f),
            final(self).proof@.len() == old(self).proof@.len() + 96,
    {
        let mut chunk: Vec<u8> = Vec::new();
        f.serialize_into(&mut chunk);
        let mut i: usize = 0;
        let n = chunk.len();
        while i < n
            invariant
                n == chunk@.len(),
                i <= n,
                self.proof@ == old(self).proof@ + chunk@.take(i as int),
                self.absorbed@ == old(self).absorbed@ + chunk@.take(i as int),
            decreases n - i,
        {
            let b = chunk[i];
            self.proof.push(b);
            self.absorbed.push(b);
            proof {
                assert(chunk@.take(i + 1) =~= chunk@.take(i as int).push(chunk@[i as int]));
                assert(old(self).proof@ + chunk@.take(i + 1) =~= (old(self).proof@ + chunk@.take(
                    i as int,
                )).push(chunk@[i as int]));
                assert(old(self).absorbed@ + chunk@.take(i + 1) =~= (old(self).absorbed@
                    + chunk@.take(i as int)).push(chunk@[i as int]));
            }
            i = i + 1;
        }
        proof {
            assert(chunk@.take(n as int) =~= chunk@);
        }
    }

    /// Draws one challenge scalar of the challenge field and mixes the
    /// digest back into the absorbed stream.
    pub fn challenge_f(&mut self) -> (r: M31Ext3)
        ensures
            r.wf(),
            r.as_ints() == ext_of_hash(sha256_of(old(self).absorbed@)),
            final(self).absorbed@ == absorbed_after(old(self).absorbed@, 1),
            final(self).absorbed@.len() == old(self).absorbed@.len() + 32,
            sha256_of(old(self).absorbed@).len() == 32,
            final(self).proof@ == old(self).proof@,
    {
        let d = sha256(&self.absorbed);
        let c0 = Self::scalar_from_digest(&d, 0);
        let c1 = Self::scalar_from_digest(&d, 8);
        let c2 = Self::scalar_from_digest(&d, 16);
        let mut i: usize = 0;
        while i < 32
            invariant
                d@.len() == 32,
                d@ == sha256_of(old(self).absorbed@),
                i <= 32,
                self.absorbed@ == old(self).absorbed@ + d@.take(i as int),
                self.proof@ == old(self).proof@,
            decreases 32 - i,
        {
            self.absorbed.push(d[i]);
            proof {
                assert(d@.take(i + 1) =~= d@.take(i as int).push(d@[i as int]));
                assert(old(self).absorbed@ + d@.take(i + 1) =~= (old(self).absorbed@ + d@.take(
                    i as int,
                )).push(d@[i as int]));
            }
            i = i + 1;
        }
        proof {
            assert(d@.take(32int) =~= d@);
            let a = old(self).absorbed@;
            assert(absorbed_after(a, 1) == absorbed_after(a, 0) + sha256_of(absorbed_after(a, 0)));
            assert(self.absorbed@ =~= absorbed_after(a, 1));
        }
        let r = M31Ext3 { v: [c0, c1, c2] };
        proof {
            assert(r.as_ints() =~= ext_of_hash(sha256_of(old(self).absorbed@)));
        }
        r
    }

    /// Draws one challenge scalar of the circuit's base field and mixes
    /// the digest back into the absorbed stream.
    pub fn circuit_f(&mut self) -> (r: M31)
        ensures
            r.wf(),
            r.as_int() == m31_of_hash(sha256_of(old(self).absorbed@)),
            final(self).absorbed@ == absorbed_after(old(self).absorbed@, 1),
            final(self).absorbed@.len() == old(self).absorbed@.len() + 32,
            sha256_of(old(self).absorbed@).len() == 32,
            final(self).proof@ == old(self).proof@,
    {
        let d = sha256(&self.absorbed);
        let c0 = Self::scalar_from_digest(&d, 0);
        let mut i: usize = 0;
        while i < 32
            invariant
                d@.len() == 32,
                d@ == sha256_of(old(self).absorbed@),
                i <= 32,
                self.absorbed@ == old(self).absorbed@ + d@.take(i as int),
                self.proof@ == old(self).proof@,
            decreases 32 - i,
        {
            self.absorbed.push(d[i]);
            proof {
                assert(d@.take(i + 1) =~= d@.take(i as int).push(d@[i as int]));
                assert(old(self).absorbed@ + d@.take(i + 1) =~= (old(self).absorbed@ + d@.take(
                    i as int,
                )).push(d@[i as int]));
            }
            i = i + 1;
        }
        proof {
            assert(d@.take(32int) =~= d@);
            let a = old(self).absorbed@;
            assert(absorbed_after(a, 1) == absorbed_after(a, 0) + sha256_of(absorbed_after(a, 0)));
            assert(self.absorbed@ =~= absorbed_after(a, 1));
        }
        c0
    }

    /// One reduced scalar from eight digest bytes at an offset.
    fn scalar_from_digest(d: &Vec<u8>, off: usize) -> (r: M31)
        requires
            off + 8 <= d@.len(),
        ensures
            r.wf(),
            r.as_int() == le8(d@.subrange(off as int, off + 8)) % p(),
    {
        let dl = d.len();
        let b0 = d[off] as u64;
        let b1 = d[off + 1] as u64;
        let b2 = d[off + 2] as u64;
        let b3 = d[off + 3] as u64;
        let b4 = d[off + 4] as u64;
        let b5 = d[off + 5] as u64;
        let b6 = d[off + 6] as u64;
        let b7 = d[off + 7] as u64;
        let v: u64 = b0 + 0x100 * b1 + 0x1_0000 * b2 + 0x100_0000 * b3 + 0x1_0000_0000 * b4
            + 0x100_0000_0000 * b5 + 0x1_0000_0000_0000 * b6 + 0x100_0000_0000_0000 * b7;
        proof {
            let s = d@.subrange(off as int, off + 8);
            assert(s[0] == d@[off as int]);
            assert(v as int == le8(s));
            vstd::arithmetic::div_mod::lemma_mod_bound(v as int, p());
        }
        let red: u64 = v % (crate::m31::M31_MOD as u64);
        M31 { v: red as u32 }
    }
}

} // verus!
