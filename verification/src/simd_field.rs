//! The packed-field interface: a field value that carries one scalar
//! per lane, scaled and packed lane-wise.

use vstd::prelude::*;
use vstd::arithmetic::div_mod::lemma_mod_bound;
use crate::m31::{fmul, p, M31};
use crate::m31_ext::{e_mul, M31Ext3};
use crate::simd_m31::{s_scale, AVXM31, M31_PACK_SIZE};
use crate::simd_ext::{v_scale, SimdM31Ext3};

verus! {

/// The scalar with a given canonical value.
pub open spec fn m31_of(x: int) -> M31 {
    M31 { v: x as u32 }
}

/// The extension element with the given canonical coordinates.
pub open spec fn ext_of(x: Seq<int>) -> M31Ext3 {
    M31Ext3 { v: [m31_of(x[0]), m31_of(x[1]), m31_of(x[2])] }
}

/// A field type that packs `simd_size` scalars into one value, every
/// operation lane-wise.
pub trait SimdField: Sized {
    /// The field one lane holds; challenges are drawn from it.
    type Scalar;

    /// How many scalars one packed value holds.
    spec fn spec_simd_size() -> nat;

    /// The canonical-form invariant of a packed value.
    spec fn simd_wf(&self) -> bool;

    /// The canonical-form invariant of a scalar.
    spec fn scalar_wf(s: &Self::Scalar) -> bool;

    /// What `scale` returns, lane by lane.
    spec fn spec_scale(&self, challenge: &Self::Scalar) -> Self;

    /// The number of scalars in a single packed value.
    fn simd_size() -> (r: usize)
        ensures
            r as nat == Self::spec_simd_size(),
    ;

    /// Packs one scalar per lane.
    fn from_scalar_array(scalars: &Vec<Self::Scalar>) -> (r: Self)
        requires
            scalars@.len() == Self::spec_simd_size(),
            forall|i: int| 0 <= i < scalars@.len() ==> Self::scalar_wf(&scalars@[i]),
        ensures
            r.simd_wf(),
    ;

    /// Broadcast-multiplies every lane by one scalar.
    fn scale(&self, challenge: &Self::Scalar) -> (r: Self)
        requires
            self.simd_wf(),
            Self::scalar_wf(challenge),
        ensures
            r.simd_wf(),
            r == self.spec_scale(challenge),
    ;
}

impl SimdField for AVXM31 {
    type Scalar = M31;

    open spec fn spec_simd_size() -> nat {
        M31_PACK_SIZE as nat
    }

    open spec fn simd_wf(&self) -> bool {
        self.wf()
    }

    open spec fn scalar_wf(s: &M31) -> bool {
        s.wf()
    }

    open spec fn spec_scale(&self, challenge: &M31) -> AVXM31 {
        AVXM31 {
            v: [
                m31_of(fmul(self.v[0].as_int(), challenge.as_int())),
                m31_of(fmul(self.v[1].as_int(), challenge.as_int())),
                m31_of(fmul(self.v[2].as_int(), challenge.as_int())),
                m31_of(fmul(self.v[3].as_int(), challenge.as_int())),
                m31_of(fmul(self.v[4].as_int(), challenge.as_int())),
                m31_of(fmul(self.v[5].as_int(), challenge.as_int())),
                m31_of(fmul(self.v[6].as_int(), challenge.as_int())),
                m31_of(fmul(self.v[7].as_int(), challenge.as_int())),
            ],
        }
    }

    fn simd_size() -> (r: usize) {
        M31_PACK_SIZE
    }

    fn from_scalar_array(scalars: &Vec<M31>) -> (r: AVXM31) {
        AVXM31::from_scalar_array(scalars)
    }

    fn scale(&self, challenge: &M31) -> (r: AVXM31) {
        let r = AVXM31::scale(self, challenge);
        proof {
            let e = SimdField::spec_scale(self, challenge);
            assert forall|i: int| 0 <= i < 8 implies #[trigger] r.v[i] == e.v[i] by {
                assert(r.as_ints()[i] == s_scale(self.as_ints(), challenge.as_int())[i]);
                lemma_mod_bound(self.as_ints()[i] * challenge.as_int(), p());
            }
            assert(r.v =~= e.v);
        }
        r
    }
}

impl SimdField for SimdM31Ext3 {
    type Scalar = M31Ext3;

    open spec fn spec_simd_size() -> nat {
        M31_PACK_SIZE as nat
    }

    open spec fn simd_wf(&self) -> bool {
        self.wf()
    }

    open spec fn scalar_wf(s: &M31Ext3) -> bool {
        s.wf()
    }

    open spec fn spec_scale(&self, challenge: &M31Ext3) -> SimdM31Ext3 {
        SimdM31Ext3 {
            v: [
                ext_of(e_mul(self.v[0].as_ints(), challenge.as_ints())),
                ext_of(e_mul(self.v[1].as_ints(), challenge.as_ints())),
                ext_of(e_mul(self.v[2].as_ints(), challenge.as_ints())),
                ext_of(e_mul(self.v[3].as_ints(), challenge.as_ints())),
                ext_of(e_mul(self.v[4].as_ints(), challenge.as_ints())),
                ext_of(e_mul(self.v[5].as_ints(), challenge.as_ints())),
                ext_of(e_mul(self.v[6].as_ints(), challenge.as_ints())),
                ext_of(e_mul(self.v[7].as_ints(), challenge.as_ints())),
            ],
        }
    }

    fn simd_size() -> (r: usize) {
        M31_PACK_SIZE
    }

    fn from_scalar_array(scalars: &Vec<M31Ext3>) -> (r: SimdM31Ext3) {
        SimdM31Ext3 {
            v: [
                scalars[0],
                scalars[1],
                scalars[2],
                scalars[3],
                scalars[4],
                scalars[5],
                scalars[6],
                scalars[7],
            ],
        }
    }

    #[verifier::rlimit(100)]
    fn scale(&self, challenge: &M31Ext3) -> (r: SimdM31Ext3) {
        let r = SimdM31Ext3::scale(self, challenge);
        proof {
            let e = SimdField::spec_scale(self, challenge);
            assert forall|i: int| 0 <= i < 8 implies #[trigger] r.v[i] == e.v[i] by {
                assert(r.as_lanes()[i] == v_scale(self.as_lanes(), challenge.as_ints())[i]);
                assert(r.v[i].as_ints() == e_mul(self.v[i].as_ints(), challenge.as_ints()));
                assert forall|c: int| 0 <= c < 3 implies #[trigger] r.v[i].v[c] == e.v[i].v[c] by {
                    assert(r.v[i].as_ints()[c] == e_mul(
                        self.v[i].as_ints(),
                        challenge.as_ints(),
                    )[c]);
                }
                assert(r.v[i].v =~= e.v[i].v);
            }
            assert(r.v =~= e.v);
        }
        r
    }
}

} // verus!
