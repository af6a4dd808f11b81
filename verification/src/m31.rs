//! The scalar Mersenne-31 prime field: integers modulo `p = 2^31 - 1`,
//! stored in canonical form `[0, p)`.

use vstd::prelude::*;
use vstd::arithmetic::div_mod::{
    lemma_add_mod_noop, lemma_mod_bound, lemma_mul_mod_noop_general, lemma_small_mod,
    lemma_sub_mod_noop,
};
use vstd::arithmetic::mul::{lemma_mul_is_commutative, lemma_mul_upper_bound};

verus! {

/// The Mersenne prime modulus `2^31 - 1`.
pub const M31_MOD: u32 = 0x7fff_ffff;

/// The modulus as a spec-level integer.
pub open spec fn p() -> int {
    M31_MOD as int
}

/// Whether `a` is a canonical field representative.
pub open spec fn in_field(a: int) -> bool {
    0 <= a < p()
}

/// Field addition on canonical representatives.
pub open spec fn fadd(a: int, b: int) -> int {
    (a + b) % p()
}

/// Field negation on canonical representatives.
pub open spec fn fneg(a: int) -> int {
    (p() - a) % p()
}

/// Field subtraction on canonical representatives.
pub open spec fn fsub(a: int, b: int) -> int {
    (a - b) % p()
}

/// Field multiplication on canonical representatives.
pub open spec fn fmul(a: int, b: int) -> int {
    (a * b) % p()
}

/// Iterated field multiplication: `a^e` on canonical representatives.
pub open spec fn fpow(a: int, e: nat) -> int
    decreases e,
{
    if e == 0 {
        1
    } else {
        fmul(a, fpow(a, (e - 1) as nat))
    }
}

/// A power of a canonical element is canonical.
pub proof fn lemma_fpow_in_field(a: int, e: nat)
    ensures
        e > 0 ==> in_field(fpow(a, e)),
    decreases e,
{
    if e > 0 {
        lemma_mod_bound(a * fpow(a, (e - 1) as nat), p());
    }
}

/// Squaring the base halves the exponent.
pub proof fn lemma_fpow_even(a: int, k: nat)
    ensures
        fpow(a, 2 * k) == fpow(fmul(a, a), k),
    decreases k,
{
    if k > 0 {
        lemma_fpow_even(a, (k - 1) as nat);
        let m = (2 * (k - 1)) as nat;
        assert(fpow(a, 2 * k) == fmul(a, fpow(a, (2 * k - 1) as nat)));
        assert((2 * k - 1) as nat == m + 1);
        assert(fpow(a, m + 1) == fmul(a, fpow(a, m)));
        lemma_fmul_assoc(a, a, fpow(a, m));
        assert(fpow(fmul(a, a), k) == fmul(fmul(a, a), fpow(fmul(a, a), (k - 1) as nat)));
    }
}

/// The canonical serialization of a scalar: four little-endian bytes.
pub open spec fn m31_le_bytes(x: M31) -> Seq<u8> {
    seq![
        (x.v & 0xff) as u8,
        ((x.v >> 8) & 0xff) as u8,
        ((x.v >> 16) & 0xff) as u8,
        ((x.v >> 24) & 0xff) as u8,
    ]
}

/// A scalar of the Mersenne-31 field, kept in canonical form `[0, M31_MOD)`.
#[derive(Clone, Copy, PartialEq, Eq, Structural, Debug)]
pub struct M31 {
    pub v: u32,
}

impl M31 {
    /// The mathematical value this element stands for.
    pub open spec fn as_int(self) -> int {
        self.v as int
    }

    /// Canonical-form invariant.
    pub open spec fn wf(self) -> bool {
        self.v < M31_MOD
    }

    /// The additive identity.
    pub fn zero() -> (r: Self)
        ensures
            r.wf(),
            r.as_int() == 0,
    {
        M31 { v: 0 }
    }

    /// The multiplicative identity.
    pub fn one() -> (r: Self)
        ensures
            r.wf(),
            r.as_int() == 1,
    {
        M31 { v: 1 }
    }

    /// Builds an element from an arbitrary 32-bit word, reducing modulo `p`.
    pub fn from_u32(x: u32) -> (r: Self)
        ensures
            r.wf(),
            r.as_int() == x as int % p(),
    {
        M31 { v: x % M31_MOD }
    }

    /// Field addition.
    pub fn add(&self, o: &Self) -> (r: Self)
        requires
            self.wf(),
            o.wf(),
        ensures
            r.wf(),
            r.as_int() == fadd(self.as_int(), o.as_int()),
    {
        let s: u32 = self.v + o.v;
        let r = if s >= M31_MOD {
            M31 { v: s - M31_MOD }
        } else {
            M31 { v: s }
        };
        proof {
            if s >= M31_MOD {
                assert((s as int) - p() < p());
                lemma_sub_mod_noop(s as int, p(), p());
                lemma_small_mod((s - M31_MOD) as nat, p() as nat);
                assert(p() % p() == 0) by {
                    lemma_small_mod(0nat, p() as nat);
                    assert((p() - 0) % p() == (p() % p()));
                }
            } else {
                lemma_small_mod(s as nat, p() as nat);
            }
        }
        r
    }

    /// Field negation.
    pub fn neg(&self) -> (r: Self)
        requires
            self.wf(),
        ensures
            r.wf(),
            r.as_int() == fneg(self.as_int()),
    {
        let r = if self.v == 0 {
            M31 { v: 0 }
        } else {
            M31 { v: M31_MOD - self.v }
        };
        proof {
            if self.v == 0 {
                assert(p() % p() == 0) by {
                    vstd::arithmetic::div_mod::lemma_mod_self_0(p());
                }
            } else {
                lemma_small_mod((M31_MOD - self.v) as nat, p() as nat);
            }
        }
        r
    }

    /// Field subtraction.
    pub fn sub(&self, o: &Self) -> (r: Self)
        requires
            self.wf(),
            o.wf(),
        ensures
            r.wf(),
            r.as_int() == fsub(self.as_int(), o.as_int()),
    {
        let r = self.add(&o.neg());
        proof {
            lemma_fsub_is_fadd_fneg(self.as_int(), o.as_int());
        }
        r
    }

    /// Field multiplication, through a widening 64-bit product.
    pub fn mul(&self, o: &Self) -> (r: Self)
        requires
            self.wf(),
            o.wf(),
        ensures
            r.wf(),
            r.as_int() == fmul(self.as_int(), o.as_int()),
    {
        proof {
            lemma_mul_upper_bound(self.v as int, p() - 1, o.v as int, p() - 1);
            assert((p() - 1) * (p() - 1) < 0x10000000000000000) by (nonlinear_arith);
            lemma_mod_bound(self.v as int * o.v as int, p());
        }
        let prod: u64 = (self.v as u64) * (o.v as u64);
        let red: u64 = prod % (M31_MOD as u64);
        M31 { v: red as u32 }
    }

    /// Squaring; never allocates.
    pub fn square(&self) -> (r: Self)
        requires
            self.wf(),
        ensures
            r.wf(),
            r.as_int() == fmul(self.as_int(), self.as_int()),
    {
        self.mul(self)
    }

    /// Doubling; never allocates.
    pub fn double(&self) -> (r: Self)
        requires
            self.wf(),
        ensures
            r.wf(),
            r.as_int() == fadd(self.as_int(), self.as_int()),
    {
        self.add(self)
    }

    /// Raises `self` to the power `e` by binary exponentiation.
    fn pow_u32(&self, e: u32) -> (r: Self)
        requires
            self.wf(),
        ensures
            r.wf(),
            r.as_int() == fpow(self.as_int(), e as nat),
    {
        let ghost x0 = self.as_int();
        let mut base: M31 = *self;
        let mut acc: M31 = M31::one();
        let mut exp: u32 = e;
        proof {
            lemma_fpow_in_field(x0, e as nat);
            if e > 0 {
                lemma_fidentities(fpow(x0, e as nat));
                lemma_fmul_comm(1, fpow(x0, e as nat));
            } else {
                lemma_small_mod(1nat, p() as nat);
                assert(fmul(1, 1) == 1int % p()) by {
                    assert(1int * 1int == 1int) by (nonlinear_arith);
                }
            }
        }
        while exp > 0
            invariant
                base.wf(),
                acc.wf(),
                fmul(acc.as_int(), fpow(base.as_int(), exp as nat)) == fmul(
                    1,
                    fpow(x0, e as nat),
                ),
            decreases exp,
        {
            let ghost acc0 = acc.as_int();
            let ghost b0 = base.as_int();
            let ghost e0 = exp as nat;
            if exp & 1 == 1 {
                acc = acc.mul(&base);
                proof {
                    assert(exp % 2 == 1) by (bit_vector)
                        requires
                            exp & 1 == 1,
                    ;
                    // peel one factor off the power, then fold it into
                    // the accumulator
                    assert(fpow(b0, e0) == fmul(b0, fpow(b0, (e0 - 1) as nat)));
                    lemma_fmul_assoc(acc0, b0, fpow(b0, (e0 - 1) as nat));
                }
            } else {
                proof {
                    assert(exp % 2 == 0) by (bit_vector)
                        requires
                            exp & 1 != 1,
                    ;
                }
            }
            base = base.square();
            proof {
                let e1 = (exp / 2) as nat;
                if exp % 2 == 1 {
                    assert(e0 - 1 == 2 * e1);
                } else {
                    assert(e0 == 2 * e1);
                }
                lemma_fpow_even(b0, e1);
            }
            exp = exp / 2;
        }
        proof {
            lemma_fidentities(acc.as_int());
            lemma_fidentities(fpow(x0, e as nat));
            if e > 0 {
                lemma_fpow_in_field(x0, e as nat);
                lemma_fmul_comm(1, fpow(x0, e as nat));
            }
        }
        acc
    }

    /// Multiplicative inverse: `None` for zero. The candidate is the
    /// Fermat power `self^(p-2)`, handed out exactly when it passes the
    /// inverse check; by Fermat's little theorem that is every nonzero
    /// element.
    pub fn inv(&self) -> (r: Option<Self>)
        requires
            self.wf(),
        ensures
            r is Some <==> fmul(self.as_int(), fpow(self.as_int(), (M31_MOD - 2) as nat)) == 1,
            self.as_int() == 0 ==> r is None,
            r is Some ==> r->0.wf() && r->0.as_int() == fpow(
                self.as_int(),
                (M31_MOD - 2) as nat,
            ) && fmul(self.as_int(), r->0.as_int()) == 1 && self.as_int() != 0,
    {
        let cand = self.pow_u32(M31_MOD - 2);
        let check = self.mul(&cand);
        if check.v == 1 {
            proof {
                if self.as_int() == 0 {
                    assert(0 * cand.as_int() == 0) by (nonlinear_arith);
                    assert(fmul(0, cand.as_int()) == 0) by {
                        lemma_small_mod(0nat, p() as nat);
                    }
                }
            }
            Some(cand)
        } else {
            None
        }
    }

    /// Maps a 32-byte buffer to a field element: the first eight bytes,
    /// little-endian, reduced modulo `p`. Not uniform; suitable for
    /// digesting hash output.
    pub fn from_uniform_bytes(bytes: &[u8; 32]) -> (r: Self)
        ensures
            r.wf(),
    {
        let mut acc: u64 = 0;
        let mut i: usize = 8;
        while i > 0
            invariant
                i <= 8,
            decreases i,
        {
            i = i - 1;
            acc = (acc << 8) | (bytes[i] as u64);
        }
        proof {
            lemma_mod_bound(acc as int, p());
        }
        M31 { v: (acc % (M31_MOD as u64)) as u32 }
    }

    /// Canonical serialization: four little-endian bytes.
    pub fn serialize_into(&self, buf: &mut Vec<u8>)
        ensures
            final(buf)@ == old(buf)@ + m31_le_bytes(*self),
    {
        buf.push((self.v & 0xff) as u8);
        buf.push(((self.v >> 8) & 0xff) as u8);
        buf.push(((self.v >> 16) & 0xff) as u8);
        buf.push(((self.v >> 24) & 0xff) as u8);
        proof {
            assert(buf@ =~= old(buf)@ + seq![
                (self.v & 0xff) as u8,
                ((self.v >> 8) & 0xff) as u8,
                ((self.v >> 16) & 0xff) as u8,
                ((self.v >> 24) & 0xff) as u8,
            ]);
        }
    }

    /// Bytes per element in the canonical serialization.
    pub fn serialized_size() -> (r: usize)
        ensures
            r == 4,
    {
        4
    }
}

/// Law: field addition is commutative.
pub proof fn lemma_fadd_comm(a: int, b: int)
    ensures
        fadd(a, b) == fadd(b, a),
{
}

/// Law: field addition is associative.
pub proof fn lemma_fadd_assoc(a: int, b: int, c: int)
    requires
        in_field(a),
        in_field(b),
        in_field(c),
    ensures
        fadd(fadd(a, b), c) == fadd(a, fadd(b, c)),
{
    lemma_small_mod(c as nat, p() as nat);
    lemma_small_mod(a as nat, p() as nat);
    lemma_add_mod_noop(a + b, c, p());
    lemma_add_mod_noop(a, b + c, p());
}

/// Law: field multiplication is commutative.
pub proof fn lemma_fmul_comm(a: int, b: int)
    ensures
        fmul(a, b) == fmul(b, a),
{
    lemma_mul_is_commutative(a, b);
}

/// Law: field multiplication is associative.
pub proof fn lemma_fmul_assoc(a: int, b: int, c: int)
    ensures
        fmul(fmul(a, b), c) == fmul(a, fmul(b, c)),
{
    lemma_mul_mod_noop_general(a * b, c, p());
    lemma_mul_mod_noop_general(a, b * c, p());
    assert((a * b) * c == a * (b * c)) by {
        vstd::arithmetic::mul::lemma_mul_is_associative(a, b, c);
    }
}

/// Law: multiplication distributes over addition.
pub proof fn lemma_fdistrib(a: int, b: int, c: int)
    ensures
        fmul(a, fadd(b, c)) == fadd(fmul(a, b), fmul(a, c)),
{
    lemma_mul_mod_noop_general(a, b + c, p());
    assert(a * (b + c) == a * b + a * c) by {
        vstd::arithmetic::mul::lemma_mul_is_distributive_add(a, b, c);
    }
    lemma_add_mod_noop(a * b, a * c, p());
}

/// Law: every element cancels against its negation.
pub proof fn lemma_fadd_neg(a: int)
    requires
        in_field(a),
    ensures
        fadd(a, fneg(a)) == 0,
{
    if a == 0 {
        vstd::arithmetic::div_mod::lemma_mod_self_0(p());
        lemma_small_mod(0nat, p() as nat);
    } else {
        lemma_small_mod((p() - a) as nat, p() as nat);
        vstd::arithmetic::div_mod::lemma_mod_self_0(p());
    }
}

/// Law: zero is the additive identity and one the multiplicative identity.
pub proof fn lemma_fidentities(a: int)
    requires
        in_field(a),
    ensures
        fadd(a, 0) == a,
        fmul(a, 1) == a,
{
    lemma_small_mod(a as nat, p() as nat);
    assert(a * 1 == a) by (nonlinear_arith);
}


/// Law: serialization round-trips — the four little-endian bytes
/// written for a canonical element read back as the element itself.
pub proof fn lemma_serialize_round_trip(x: M31)
    requires
        x.wf(),
    ensures
        crate::bytes::le4(m31_le_bytes(x)) == x.as_int(),
{
    let v = x.v;
    assert(((v & 0xff) as u8) as u64 == (v as u64) & 0xff) by (bit_vector);
    assert((((v >> 8) & 0xff) as u8) as u64 == ((v as u64) >> 8) & 0xff) by (bit_vector);
    assert((((v >> 16) & 0xff) as u8) as u64 == ((v as u64) >> 16) & 0xff) by (bit_vector);
    assert((((v >> 24) & 0xff) as u8) as u64 == ((v as u64) >> 24) & 0xff) by (bit_vector);
    assert(((v as u64) & 0xff) + 0x100 * (((v as u64) >> 8) & 0xff) + 0x1_0000 * (((v as u64)
        >> 16) & 0xff) + 0x100_0000 * (((v as u64) >> 24) & 0xff) == v as u64) by (bit_vector);
    let s = m31_le_bytes(x);
    assert(crate::bytes::le4(s) == s[0] + 0x100 * s[1] + 0x1_0000 * s[2] + 0x100_0000 * s[3]);
}

/// `a - b` and `a + (p - b)` agree modulo `p`.
pub proof fn lemma_fsub_is_fadd_fneg(a: int, b: int)
    requires
        in_field(a),
        in_field(b),
    ensures
        fadd(a, fneg(b)) == fsub(a, b),
{
    if b == 0 {
        vstd::arithmetic::div_mod::lemma_mod_self_0(p());
        lemma_small_mod(a as nat, p() as nat);
    } else {
        lemma_small_mod((p() - b) as nat, p() as nat);
        // (a + (p - b)) % p == (a - b) % p because they differ by p
        lemma_add_mod_noop(a + (p() - b), 0, p());
        assert((a + (p() - b)) % p() == (a - b) % p()) by {
            vstd::arithmetic::div_mod::lemma_mod_add_multiples_vanish(a - b, p());
        }
    }
}

} // verus!
