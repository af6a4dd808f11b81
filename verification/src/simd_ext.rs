//! Eight cubic-extension values packed into one vector: the combined
//! field the sumcheck works in. A lane pairs one witness slot with the
//! full challenge field.

use vstd::prelude::*;
use crate::m31::{m31_le_bytes, M31};
use crate::m31_ext::{e_add, e_mul, e_neg, e_zero, ext_wf, M31Ext3};
use crate::simd_m31::AVXM31;

verus! {

/// Lane models: eight extension values, each three base coordinates.
pub open spec fn v_wf(x: Seq<Seq<int>>) -> bool {
    &&& x.len() == 8
    &&& forall|i: int| 0 <= i < 8 ==> ext_wf(#[trigger] x[i])
}

/// Lane-wise extension addition.
pub open spec fn v_add(x: Seq<Seq<int>>, y: Seq<Seq<int>>) -> Seq<Seq<int>> {
    Seq::new(x.len(), |i: int| e_add(x[i], y[i]))
}

/// Lane-wise extension negation.
pub open spec fn v_neg(x: Seq<Seq<int>>) -> Seq<Seq<int>> {
    Seq::new(x.len(), |i: int| e_neg(x[i]))
}

/// Lane-wise extension multiplication.
pub open spec fn v_mul(x: Seq<Seq<int>>, y: Seq<Seq<int>>) -> Seq<Seq<int>> {
    Seq::new(x.len(), |i: int| e_mul(x[i], y[i]))
}

/// Lane-wise multiplication by one extension scalar.
pub open spec fn v_scale(x: Seq<Seq<int>>, c: Seq<int>) -> Seq<Seq<int>> {
    Seq::new(x.len(), |i: int| e_mul(x[i], c))
}

/// The all-zero vector's model.
pub open spec fn v_zero() -> Seq<Seq<int>> {
    Seq::new(8nat, |i: int| e_zero())
}

/// Embeds base-field lanes into extension lanes.
pub open spec fn v_promote(x: Seq<int>) -> Seq<Seq<int>> {
    Seq::new(x.len(), |i: int| seq![x[i], 0, 0])
}

/// The canonical serialization of one extension value: its three
/// coordinates as consecutive little-endian words.
pub open spec fn ext_bytes(e: M31Ext3) -> Seq<u8> {
    m31_le_bytes(e.v[0]) + m31_le_bytes(e.v[1]) + m31_le_bytes(e.v[2])
}

/// The canonical serialization of a packed value: the eight lanes as
/// consecutive extension serializations.
pub open spec fn simd_ext_bytes(x: SimdM31Ext3) -> Seq<u8> {
    ext_bytes(x.v[0]) + ext_bytes(x.v[1]) + ext_bytes(x.v[2]) + ext_bytes(x.v[3]) + ext_bytes(
        x.v[4],
    ) + ext_bytes(x.v[5]) + ext_bytes(x.v[6]) + ext_bytes(x.v[7])
}

/// A packed vector of eight cubic-extension values.
#[derive(Clone, Copy, Debug)]
pub struct SimdM31Ext3 {
    pub v: [M31Ext3; 8],
}

impl PartialEq for SimdM31Ext3 {
    fn eq(&self, o: &SimdM31Ext3) -> (r: bool) {
        let mut i: usize = 0;
        while i < 8
            invariant
                i <= 8,
                forall|j: int| 0 <= j < i ==> self.v[j] == o.v[j],
            decreases 8 - i,
        {
            if !(self.v[i] == o.v[i]) {
                return false;
            }
            proof {
                assert(self.v[i as int].v =~= o.v[i as int].v);
            }
            i = i + 1;
        }
        true
    }
}

impl vstd::std_specs::cmp::PartialEqSpecImpl for SimdM31Ext3 {
    open spec fn obeys_eq_spec() -> bool {
        true
    }

    open spec fn eq_spec(&self, o: &SimdM31Ext3) -> bool {
        forall|j: int| 0 <= j < 8 ==> self.v[j] == o.v[j]
    }
}

impl SimdM31Ext3 {
    /// The lane models.
    pub open spec fn as_lanes(self) -> Seq<Seq<int>> {
        Seq::new(8nat, |i: int| self.v[i].as_ints())
    }

    /// Every lane canonical.
    pub open spec fn wf(self) -> bool {
        forall|i: int| 0 <= i < 8 ==> (#[trigger] self.v[i]).wf()
    }

    /// The all-zero vector.
    pub fn zero() -> (r: Self)
        ensures
            r.wf(),
            r.as_lanes() == v_zero(),
    {
        let z = M31Ext3::zero();
        let r = SimdM31Ext3 { v: [z; 8] };
        proof {
            assert(r.as_lanes() =~= v_zero());
        }
        r
    }

    /// Broadcasts one 32-bit word into every lane's constant coordinate.
    pub fn from_u32(x: u32) -> (r: Self)
        ensures
            r.wf(),
            r.as_lanes() == Seq::new(8nat, |i: int| seq![x as int % crate::m31::p(), 0, 0]),
    {
        let e = M31Ext3::from_u32(x);
        let r = SimdM31Ext3 { v: [e; 8] };
        proof {
            assert(r.as_lanes() =~= Seq::new(
                8nat,
                |i: int| seq![x as int % crate::m31::p(), 0, 0],
            ));
        }
        r
    }

    /// Promotes a packed base-field vector, lane by lane.
    pub fn promote(x: &AVXM31) -> (r: Self)
        requires
            x.wf(),
        ensures
            r.wf(),
            r.as_lanes() == v_promote(x.as_ints()),
    {
        let r = SimdM31Ext3 {
            v: [
                M31Ext3::from_base(&x.v[0]),
                M31Ext3::from_base(&x.v[1]),
                M31Ext3::from_base(&x.v[2]),
                M31Ext3::from_base(&x.v[3]),
                M31Ext3::from_base(&x.v[4]),
                M31Ext3::from_base(&x.v[5]),
                M31Ext3::from_base(&x.v[6]),
                M31Ext3::from_base(&x.v[7]),
            ],
        };
        proof {
            assert(r.as_lanes() =~= v_promote(x.as_ints()));
        }
        r
    }

    /// Lane-wise addition.
    pub fn add(&self, o: &Self) -> (r: Self)
        requires
            self.wf(),
            o.wf(),
        ensures
            r.wf(),
            r.as_lanes() == v_add(self.as_lanes(), o.as_lanes()),
    {
        let r = SimdM31Ext3 {
            v: [
                self.v[0].add(&o.v[0]),
                self.v[1].add(&o.v[1]),
                self.v[2].add(&o.v[2]),
                self.v[3].add(&o.v[3]),
                self.v[4].add(&o.v[4]),
                self.v[5].add(&o.v[5]),
                self.v[6].add(&o.v[6]),
                self.v[7].add(&o.v[7]),
            ],
        };
        proof {
            assert(r.as_lanes() =~= v_add(self.as_lanes(), o.as_lanes()));
        }
        r
    }

    /// Lane-wise subtraction.
    pub fn sub(&self, o: &Self) -> (r: Self)
        requires
            self.wf(),
            o.wf(),
        ensures
            r.wf(),
            r.as_lanes() == v_add(self.as_lanes(), v_neg(o.as_lanes())),
    {
        let r = SimdM31Ext3 {
            v: [
                self.v[0].sub(&o.v[0]),
                self.v[1].sub(&o.v[1]),
                self.v[2].sub(&o.v[2]),
                self.v[3].sub(&o.v[3]),
                self.v[4].sub(&o.v[4]),
                self.v[5].sub(&o.v[5]),
                self.v[6].sub(&o.v[6]),
                self.v[7].sub(&o.v[7]),
            ],
        };
        proof {
            assert(r.as_lanes() =~= v_add(self.as_lanes(), v_neg(o.as_lanes())));
        }
        r
    }

    /// Lane-wise multiplication.
    pub fn mul(&self, o: &Self) -> (r: Self)
        requires
            self.wf(),
            o.wf(),
        ensures
            r.wf(),
            r.as_lanes() == v_mul(self.as_lanes(), o.as_lanes()),
    {
        let r = SimdM31Ext3 {
            v: [
                self.v[0].mul(&o.v[0]),
                self.v[1].mul(&o.v[1]),
                self.v[2].mul(&o.v[2]),
                self.v[3].mul(&o.v[3]),
                self.v[4].mul(&o.v[4]),
                self.v[5].mul(&o.v[5]),
                self.v[6].mul(&o.v[6]),
                self.v[7].mul(&o.v[7]),
            ],
        };
        proof {
            assert(r.as_lanes() =~= v_mul(self.as_lanes(), o.as_lanes()));
        }
        r
    }

    /// Broadcast-multiplies every lane by one challenge scalar.
    pub fn scale(&self, challenge: &M31Ext3) -> (r: Self)
        requires
            self.wf(),
            challenge.wf(),
        ensures
            r.wf(),
            r.as_lanes() == v_scale(self.as_lanes(), challenge.as_ints()),
    {
        let r = SimdM31Ext3 {
            v: [
                self.v[0].mul(challenge),
                self.v[1].mul(challenge),
                self.v[2].mul(challenge),
                self.v[3].mul(challenge),
                self.v[4].mul(challenge),
                self.v[5].mul(challenge),
                self.v[6].mul(challenge),
                self.v[7].mul(challenge),
            ],
        };
        proof {
            assert(r.as_lanes() =~= v_scale(self.as_lanes(), challenge.as_ints()));
        }
        r
    }

    /// Multiplies lane `l` by the base-field lane `l` of a packed
    /// circuit vector.
    pub fn mul_by_circuit(&self, x: &AVXM31) -> (r: Self)
        requires
            self.wf(),
            x.wf(),
        ensures
            r.wf(),
            r.as_lanes() == Seq::new(
                8nat,
                |i: int| e_mul(self.as_lanes()[i], seq![x.as_ints()[i], 0, 0]),
            ),
    {
        let r = SimdM31Ext3 {
            v: [
                self.v[0].mul(&M31Ext3::from_base(&x.v[0])),
                self.v[1].mul(&M31Ext3::from_base(&x.v[1])),
                self.v[2].mul(&M31Ext3::from_base(&x.v[2])),
                self.v[3].mul(&M31Ext3::from_base(&x.v[3])),
                self.v[4].mul(&M31Ext3::from_base(&x.v[4])),
                self.v[5].mul(&M31Ext3::from_base(&x.v[5])),
                self.v[6].mul(&M31Ext3::from_base(&x.v[6])),
                self.v[7].mul(&M31Ext3::from_base(&x.v[7])),
            ],
        };
        proof {
            assert(r.as_lanes() =~= Seq::new(
                8nat,
                |i: int| e_mul(self.as_lanes()[i], seq![x.as_ints()[i], 0, 0]),
            ));
        }
        r
    }

    /// Canonical serialization: ninety-six bytes, twelve per lane.
    pub fn serialize_into(&self, buf: &mut Vec<u8>)
        ensures
            final(buf)@ == old(buf)@ + simd_ext_bytes(*self),
            final(buf)@.len() == old(buf)@.len() + 96,
    {
        self.v[0].v[0].serialize_into(buf);
        self.v[0].v[1].serialize_into(buf);
        self.v[0].v[2].serialize_into(buf);
        self.v[1].v[0].serialize_into(buf);
        self.v[1].v[1].serialize_into(buf);
        self.v[1].v[2].serialize_into(buf);
        self.v[2].v[0].serialize_into(buf);
        self.v[2].v[1].serialize_into(buf);
        self.v[2].v[2].serialize_into(buf);
        self.v[3].v[0].serialize_into(buf);
        self.v[3].v[1].serialize_into(buf);
        self.v[3].v[2].serialize_into(buf);
        self.v[4].v[0].serialize_into(buf);
        self.v[4].v[1].serialize_into(buf);
        self.v[4].v[2].serialize_into(buf);
        self.v[5].v[0].serialize_into(buf);
        self.v[5].v[1].serialize_into(buf);
        self.v[5].v[2].serialize_into(buf);
        self.v[6].v[0].serialize_into(buf);
        self.v[6].v[1].serialize_into(buf);
        self.v[6].v[2].serialize_into(buf);
        self.v[7].v[0].serialize_into(buf);
        self.v[7].v[1].serialize_into(buf);
        self.v[7].v[2].serialize_into(buf);
        proof {
            assert(buf@ =~= old(buf)@ + simd_ext_bytes(*self));
        }
    }
}

/// Multiplies one challenge scalar into every lane of a packed circuit
/// vector: lane `l` becomes `challenge * coef_l`.
pub fn challenge_mul_circuit(challenge: &M31Ext3, coef: &AVXM31) -> (r: SimdM31Ext3)
    requires
        challenge.wf(),
        coef.wf(),
    ensures
        r.wf(),
        r.as_lanes() == Seq::new(
            8nat,
            |i: int| e_mul(challenge.as_ints(), seq![coef.as_ints()[i], 0, 0]),
        ),
{
    let r = SimdM31Ext3 {
        v: [
            challenge.mul(&M31Ext3::from_base(&coef.v[0])),
            challenge.mul(&M31Ext3::from_base(&coef.v[1])),
            challenge.mul(&M31Ext3::from_base(&coef.v[2])),
            challenge.mul(&M31Ext3::from_base(&coef.v[3])),
            challenge.mul(&M31Ext3::from_base(&coef.v[4])),
            challenge.mul(&M31Ext3::from_base(&coef.v[5])),
            challenge.mul(&M31Ext3::from_base(&coef.v[6])),
            challenge.mul(&M31Ext3::from_base(&coef.v[7])),
        ],
    };
    proof {
        assert(r.as_lanes() =~= Seq::new(
            8nat,
            |i: int| e_mul(challenge.as_ints(), seq![coef.as_ints()[i], 0, 0]),
        ));
    }
    r
}

} // verus!
