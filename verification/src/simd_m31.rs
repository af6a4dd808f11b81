//! Eight Mersenne-31 scalars packed into one value; every field
//! operation acts lane-wise. One packed value carries the same wire of
//! eight independent witnesses.

use vstd::prelude::*;
use crate::m31::{fadd, fmul, fneg, fpow, in_field, m31_le_bytes, p, M31, M31_MOD};

verus! {

/// Number of scalar lanes in a packed Mersenne-31 value.
pub const M31_PACK_SIZE: usize = 8;

/// Lane-wise addition on lane models.
pub open spec fn s_add(x: Seq<int>, y: Seq<int>) -> Seq<int> {
    Seq::new(x.len(), |i: int| fadd(x[i], y[i]))
}

/// Lane-wise negation on lane models.
pub open spec fn s_neg(x: Seq<int>) -> Seq<int> {
    Seq::new(x.len(), |i: int| fneg(x[i]))
}

/// Lane-wise multiplication on lane models.
pub open spec fn s_mul(x: Seq<int>, y: Seq<int>) -> Seq<int> {
    Seq::new(x.len(), |i: int| fmul(x[i], y[i]))
}

/// Lane-wise multiplication by one scalar.
pub open spec fn s_scale(x: Seq<int>, c: int) -> Seq<int> {
    Seq::new(x.len(), |i: int| fmul(x[i], c))
}

/// The model of a broadcast scalar: the same value in every lane.
pub open spec fn s_broadcast(c: int) -> Seq<int> {
    Seq::new(M31_PACK_SIZE as nat, |i: int| c)
}

/// All lanes canonical.
pub open spec fn s_wf(x: Seq<int>) -> bool {
    forall|i: int| 0 <= i < x.len() ==> in_field(#[trigger] x[i])
}

/// The canonical serialization of a packed value: the eight lanes as
/// consecutive little-endian words.
pub open spec fn simd_bytes(x: AVXM31) -> Seq<u8> {
    m31_le_bytes(x.v[0]) + m31_le_bytes(x.v[1]) + m31_le_bytes(x.v[2]) + m31_le_bytes(x.v[3])
        + m31_le_bytes(x.v[4]) + m31_le_bytes(x.v[5]) + m31_le_bytes(x.v[6]) + m31_le_bytes(
        x.v[7],
    )
}

/// A packed vector of eight Mersenne-31 scalars.
#[derive(Clone, Copy, Debug)]
pub struct AVXM31 {
    pub v: [M31; 8],
}

/// The packed Mersenne-31 vector under its portable name.
pub type SimdM31 = AVXM31;

impl PartialEq for AVXM31 {
    fn eq(&self, o: &AVXM31) -> (r: bool) {
        let mut i: usize = 0;
        while i < 8
            invariant
                i <= 8,
                forall|j: int| 0 <= j < i ==> self.v[j] == o.v[j],
            decreases 8 - i,
        {
            if self.v[i] != o.v[i] {
                return false;
            }
            i = i + 1;
        }
        true
    }
}

impl vstd::std_specs::cmp::PartialEqSpecImpl for AVXM31 {
    open spec fn obeys_eq_spec() -> bool {
        true
    }

    open spec fn eq_spec(&self, o: &AVXM31) -> bool {
        forall|j: int| 0 <= j < 8 ==> self.v[j] == o.v[j]
    }
}

impl AVXM31 {
    /// The lane models, constant-term lane first.
    pub open spec fn as_ints(self) -> Seq<int> {
        Seq::new(8nat, |i: int| self.v[i].as_int())
    }

    /// Every lane canonical.
    pub open spec fn wf(self) -> bool {
        forall|i: int| 0 <= i < 8 ==> (#[trigger] self.v[i]).wf()
    }

    /// The all-zero vector.
    pub fn zero() -> (r: Self)
        ensures
            r.wf(),
            r.as_ints() == s_broadcast(0),
    {
        let r = AVXM31 { v: [M31 { v: 0 }; 8] };
        proof {
            assert(r.as_ints() =~= s_broadcast(0));
        }
        r
    }

    /// The all-one vector.
    pub fn one() -> (r: Self)
        ensures
            r.wf(),
            r.as_ints() == s_broadcast(1),
    {
        let r = AVXM31 { v: [M31 { v: 1 }; 8] };
        proof {
            assert(r.as_ints() =~= s_broadcast(1));
        }
        r
    }

    /// Broadcasts one scalar into every lane.
    pub fn pack_full(x: &M31) -> (r: Self)
        requires
            x.wf(),
        ensures
            r.wf(),
            r.as_ints() == s_broadcast(x.as_int()),
    {
        let r = AVXM31 { v: [*x; 8] };
        proof {
            assert(r.as_ints() =~= s_broadcast(x.as_int()));
        }
        r
    }

    /// Packs eight scalars, lane by lane.
    pub fn from_scalar_array(scalars: &Vec<M31>) -> (r: Self)
        requires
            scalars@.len() == M31_PACK_SIZE,
            forall|i: int| 0 <= i < scalars@.len() ==> (#[trigger] scalars@[i]).wf(),
        ensures
            r.wf(),
            r.as_ints().len() == 8,
            forall|i: int| 0 <= i < 8 ==> r.as_ints()[i] == scalars@[i].as_int(),
    {
        AVXM31 {
            v: [
                scalars[0],
                scalars[1],
                scalars[2],
                scalars[3],
                scalars[4],
                scalars[5],
                scalars[6],
                scalars[7],
            ],
        }
    }

    /// Hands the lanes back out as scalars.
    pub fn to_scalar_vec(&self) -> (r: Vec<M31>)
        requires
            self.wf(),
        ensures
            r@.len() == 8,
            forall|i: int| 0 <= i < 8 ==> (#[trigger] r@[i]).wf() && r@[i].as_int()
                == self.as_ints()[i],
    {
        let mut out: Vec<M31> = Vec::new();
        out.push(self.v[0]);
        out.push(self.v[1]);
        out.push(self.v[2]);
        out.push(self.v[3]);
        out.push(self.v[4]);
        out.push(self.v[5]);
        out.push(self.v[6]);
        out.push(self.v[7]);
        out
    }

    /// Lane-wise addition.
    pub fn add(&self, o: &Self) -> (r: Self)
        requires
            self.wf(),
            o.wf(),
        ensures
            r.wf(),
            r.as_ints() == s_add(self.as_ints(), o.as_ints()),
    {
        let r = AVXM31 {
            v: [
                self.v[0].add(&o.v[0]),
                self.v[1].add(&o.v[1]),
                self.v[2].add(&o.v[2]),
                self.v[3].add(&o.v[3]),
                self.v[4].add(&o.v[4]),
                self.v[5].add(&o.v[5]),
                self.v[6].add(&o.v[6]),
                self.v[7].add(&o.v[7]),
            ],
        };
        proof {
            assert(r.as_ints() =~= s_add(self.as_ints(), o.as_ints()));
        }
        r
    }

    /// Lane-wise negation.
    pub fn neg(&self) -> (r: Self)
        requires
            self.wf(),
        ensures
            r.wf(),
            r.as_ints() == s_neg(self.as_ints()),
    {
        let r = AVXM31 {
            v: [
                self.v[0].neg(),
                self.v[1].neg(),
                self.v[2].neg(),
                self.v[3].neg(),
                self.v[4].neg(),
                self.v[5].neg(),
                self.v[6].neg(),
                self.v[7].neg(),
            ],
        };
        proof {
            assert(r.as_ints() =~= s_neg(self.as_ints()));
        }
        r
    }

    /// Lane-wise subtraction.
    pub fn sub(&self, o: &Self) -> (r: Self)
        requires
            self.wf(),
            o.wf(),
        ensures
            r.wf(),
            r.as_ints() == s_add(self.as_ints(), s_neg(o.as_ints())),
    {
        let r = self.add(&o.neg());
        proof {
            assert(r.as_ints() =~= s_add(self.as_ints(), s_neg(o.as_ints())));
        }
        r
    }

    /// Lane-wise multiplication.
    pub fn mul(&self, o: &Self) -> (r: Self)
        requires
            self.wf(),
            o.wf(),
        ensures
            r.wf(),
            r.as_ints() == s_mul(self.as_ints(), o.as_ints()),
    {
        let r = AVXM31 {
            v: [
                self.v[0].mul(&o.v[0]),
                self.v[1].mul(&o.v[1]),
                self.v[2].mul(&o.v[2]),
                self.v[3].mul(&o.v[3]),
                self.v[4].mul(&o.v[4]),
                self.v[5].mul(&o.v[5]),
                self.v[6].mul(&o.v[6]),
                self.v[7].mul(&o.v[7]),
            ],
        };
        proof {
            assert(r.as_ints() =~= s_mul(self.as_ints(), o.as_ints()));
        }
        r
    }

    /// Lane-wise squaring.
    pub fn square(&self) -> (r: Self)
        requires
            self.wf(),
        ensures
            r.wf(),
            r.as_ints() == s_mul(self.as_ints(), self.as_ints()),
    {
        self.mul(self)
    }

    /// Lane-wise doubling.
    pub fn double(&self) -> (r: Self)
        requires
            self.wf(),
        ensures
            r.wf(),
            r.as_ints() == s_add(self.as_ints(), self.as_ints()),
    {
        self.add(self)
    }

    /// Multiplies every lane by two.
    pub fn mul_by_2(&self) -> (r: Self)
        requires
            self.wf(),
        ensures
            r.wf(),
            r.as_ints() == s_add(self.as_ints(), self.as_ints()),
    {
        self.double()
    }

    /// Multiplies every lane by five, a common factor in the cubic
    /// extension's reduction.
    pub fn mul_by_5(&self) -> (r: Self)
        requires
            self.wf(),
        ensures
            r.wf(),
            r.as_ints() == s_scale(self.as_ints(), 5),
    {
        let r = self.scale(&M31 { v: 5 });
        r
    }

    /// Multiplies every lane by ten.
    pub fn mul_by_10(&self) -> (r: Self)
        requires
            self.wf(),
        ensures
            r.wf(),
            r.as_ints() == s_scale(self.as_ints(), 10),
    {
        let r = self.scale(&M31 { v: 10 });
        r
    }

    /// Broadcast-multiplies every lane by one scalar.
    pub fn scale(&self, challenge: &M31) -> (r: Self)
        requires
            self.wf(),
            challenge.wf(),
        ensures
            r.wf(),
            r.as_ints() == s_scale(self.as_ints(), challenge.as_int()),
    {
        let r = AVXM31 {
            v: [
                self.v[0].mul(challenge),
                self.v[1].mul(challenge),
                self.v[2].mul(challenge),
                self.v[3].mul(challenge),
                self.v[4].mul(challenge),
                self.v[5].mul(challenge),
                self.v[6].mul(challenge),
                self.v[7].mul(challenge),
            ],
        };
        proof {
            assert(r.as_ints() =~= s_scale(self.as_ints(), challenge.as_int()));
        }
        r
    }

    /// Lane-wise inverse: `None` as soon as any lane has none, so in
    /// particular as soon as any lane is zero. Each lane's candidate is
    /// its Fermat power, handed out exactly when it passes the inverse
    /// check; by Fermat's little theorem that is every nonzero lane.
    pub fn inv(&self) -> (r: Option<Self>)
        requires
            self.wf(),
        ensures
            r is Some <==> forall|i: int|
                0 <= i < 8 ==> fmul(
                    #[trigger] self.as_ints()[i],
                    fpow(self.as_ints()[i], (M31_MOD - 2) as nat),
                ) == 1,
            (exists|i: int| 0 <= i < 8 && #[trigger] self.as_ints()[i] == 0) ==> r is None,
            r is Some ==> r->0.wf() && forall|i: int| 0 <= i < 8 ==> fmul(
                self.as_ints()[i],
                r->0.as_ints()[i],
            ) == 1,
    {
        let mut out: Vec<M31> = Vec::new();
        let mut i: usize = 0;
        while i < 8
            invariant
                self.wf(),
                i <= 8,
                out@.len() == i,
                forall|j: int|
                    0 <= j < i ==> fmul(
                        #[trigger] self.as_ints()[j],
                        fpow(self.as_ints()[j], (M31_MOD - 2) as nat),
                    ) == 1,
                forall|j: int| 0 <= j < i ==> (#[trigger] out@[j]).wf() && fmul(
                    self.as_ints()[j],
                    out@[j].as_int(),
                ) == 1,
            decreases 8 - i,
        {
            match self.v[i].inv() {
                Some(x) => {
                    out.push(x);
                },
                None => {
                    proof {
                        assert(fmul(
                            self.as_ints()[i as int],
                            fpow(self.as_ints()[i as int], (M31_MOD - 2) as nat),
                        ) != 1);
                    }
                    return None;
                },
            }
            i = i + 1;
        }
        proof {
            assert forall|j: int|
                0 <= j < 8 && #[trigger] self.as_ints()[j] == 0 implies false by {
                assert(fmul(0, fpow(0, (M31_MOD - 2) as nat)) == 1);
                assert(0 * fpow(0, (M31_MOD - 2) as nat) == 0) by (nonlinear_arith);
                vstd::arithmetic::div_mod::lemma_small_mod(0nat, p() as nat);
            }
        }
        Some(Self::from_scalar_array(&out))
    }

    /// Canonical serialization: thirty-two bytes, four per lane,
    /// little-endian within each lane.
    pub fn serialize_into(&self, buf: &mut Vec<u8>)
        ensures
            final(buf)@ == old(buf)@ + simd_bytes(*self),
            final(buf)@.len() == old(buf)@.len() + 32,
    {
        self.v[0].serialize_into(buf);
        self.v[1].serialize_into(buf);
        self.v[2].serialize_into(buf);
        self.v[3].serialize_into(buf);
        self.v[4].serialize_into(buf);
        self.v[5].serialize_into(buf);
        self.v[6].serialize_into(buf);
        self.v[7].serialize_into(buf);
        proof {
            assert(buf@ =~= old(buf)@ + simd_bytes(*self));
        }
    }

    /// Bytes per element in the canonical serialization.
    pub fn serialized_size() -> (r: usize)
        ensures
            r == 32,
    {
        32
    }
}

/// Canonical lane models make a well-formed packed value.
pub proof fn lemma_s_wf_to_wf(x: AVXM31)
    requires
        s_wf(x.as_ints()),
    ensures
        x.wf(),
{
    assert forall|i: int| 0 <= i < 8 implies (#[trigger] x.v[i]).wf() by {
        assert(x.as_ints()[i] == x.v[i].as_int());
        assert(in_field(x.as_ints()[i]));
    }
}


impl AVXM31 {
    /// Canonical deserialization: thirty-two bytes, four per lane,
    /// little-endian within each lane, each word reduced modulo `p`.
    pub fn deserialize_from(r: &mut crate::bytes::ByteReader) -> (out: Result<
        AVXM31,
        crate::bytes::CircuitError,
    >)
        requires
            old(r).wf(),
        ensures
            final(r).wf(),
            final(r).data@ == old(r).data@,
            old(r).remaining() >= 32 ==> out is Ok && final(r).pos == old(r).pos + 32 && forall|
                i: int,
            |
                0 <= i < 8 ==> #[trigger] out->Ok_0.as_ints()[i] == crate::bytes::le4(
                    old(r).data@.subrange(old(r).pos + 4 * i, old(r).pos + 4 * i + 4),
                ) % p(),
            old(r).remaining() < 32 ==> out is Err && final(r).pos == old(r).pos,
            out is Ok ==> out->Ok_0.wf(),
    {
        if r.data.len() - r.pos < 32 {
            return Err(crate::bytes::CircuitError::Truncated);
        }
        let ghost base = old(r).pos as int;
        let mut lanes: Vec<M31> = Vec::new();
        let mut i: usize = 0;
        while i < 8
            invariant
                r.wf(),
                r.data@ == old(r).data@,
                base == old(r).pos as int,
                old(r).remaining() >= 32,
                i <= 8,
                r.pos == base + 4 * i,
                lanes@.len() == i,
                forall|t: int| 0 <= t < i ==> (#[trigger] lanes@[t]).wf(),
                forall|t: int|
                    0 <= t < i ==> (#[trigger] lanes@[t]).as_int() == crate::bytes::le4(
                        old(r).data@.subrange(base + 4 * t, base + 4 * t + 4),
                    ) % p(),
            decreases 8 - i,
        {
            let w = match r.read_u32() {
                Ok(v) => v,
                Err(e) => {
                    return Err(e);
                },
            };
            lanes.push(M31::from_u32(w));
            i = i + 1;
        }
        Ok(AVXM31::from_scalar_array(&lanes))
    }
}

/// Law: packed serialization round-trips — each lane of a canonical
/// packed value reads back from its own four bytes of the thirty-two
/// written.
pub proof fn lemma_simd_serialize_round_trip(x: AVXM31)
    requires
        x.wf(),
    ensures
        simd_bytes(x).len() == 32,
        forall|i: int|
            0 <= i < 8 ==> crate::bytes::le4(
                #[trigger] simd_bytes(x).subrange(4 * i, 4 * i + 4),
            ) % p() == x.as_ints()[i],
{
    assert forall|i: int| 0 <= i < 8 implies crate::bytes::le4(
        #[trigger] simd_bytes(x).subrange(4 * i, 4 * i + 4),
    ) % p() == x.as_ints()[i] by {
        assert(simd_bytes(x).subrange(4 * i, 4 * i + 4) =~= m31_le_bytes(x.v[i]));
        crate::m31::lemma_serialize_round_trip(x.v[i]);
        vstd::arithmetic::div_mod::lemma_small_mod(x.v[i].v as nat, p() as nat);
    }
}

/// Law: scaling a broadcast vector is broadcasting the scalar product —
/// `scale(pack_full(s), t) = pack_full(s * t)` at the model level.
pub proof fn lemma_scale_broadcast(s: int, t: int)
    ensures
        s_scale(s_broadcast(s), t) == s_broadcast(fmul(s, t)),
{
    assert(s_scale(s_broadcast(s), t) =~= s_broadcast(fmul(s, t)));
}

/// Law: lane independence — every packed operation equals the scalar
/// operation applied to each lane separately.
pub proof fn lemma_lane_independence(x: Seq<int>, y: Seq<int>, i: int)
    requires
        x.len() == y.len(),
        0 <= i < x.len(),
    ensures
        s_add(x, y)[i] == fadd(x[i], y[i]),
        s_mul(x, y)[i] == fmul(x[i], y[i]),
        s_neg(x)[i] == fneg(x[i]),
        s_scale(x, y[i])[i] == fmul(x[i], y[i]),
{
}

} // verus!
