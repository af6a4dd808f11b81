//! Preallocated work buffers for the sumcheck: evaluation tables sized
//! to the largest layer, reused across layers.

use vstd::prelude::*;
use vstd::arithmetic::power2::pow2;
use crate::m31_ext::M31Ext3;
use crate::simd_ext::SimdM31Ext3;

verus! {

/// The prover's per-proof scratch memory: the folded input table, the
/// gate-weight tables, the equality tables at the carried points, the
/// two half tables the equality expansion is built from, and the masks
/// of populated slots.
pub struct GkrScratchpad {
    pub v_evals: Vec<SimdM31Ext3>,
    pub hg_evals_5: Vec<SimdM31Ext3>,
    pub hg_evals_1: Vec<SimdM31Ext3>,
    pub eq_evals_at_rx: Vec<M31Ext3>,
    pub eq_evals_at_rz0: Vec<M31Ext3>,
    pub eq_evals_at_rz1: Vec<M31Ext3>,
    pub eq_evals_first_half: Vec<M31Ext3>,
    pub eq_evals_second_half: Vec<M31Ext3>,
    pub gate_exists_5: Vec<bool>,
    pub gate_exists_1: Vec<bool>,
}

impl GkrScratchpad {
    /// Every buffered field element canonical.
    pub open spec fn wf(self) -> bool {
        &&& forall|i: int| 0 <= i < self.v_evals@.len() ==> (#[trigger] self.v_evals@[i]).wf()
        &&& forall|i: int|
            0 <= i < self.hg_evals_5@.len() ==> (#[trigger] self.hg_evals_5@[i]).wf()
        &&& forall|i: int|
            0 <= i < self.hg_evals_1@.len() ==> (#[trigger] self.hg_evals_1@[i]).wf()
        &&& forall|i: int|
            0 <= i < self.eq_evals_at_rx@.len() ==> (#[trigger] self.eq_evals_at_rx@[i]).wf()
        &&& forall|i: int|
            0 <= i < self.eq_evals_at_rz0@.len() ==> (#[trigger] self.eq_evals_at_rz0@[i]).wf()
        &&& forall|i: int|
            0 <= i < self.eq_evals_at_rz1@.len() ==> (#[trigger] self.eq_evals_at_rz1@[i]).wf()
        &&& forall|i: int|
            0 <= i < self.eq_evals_first_half@.len() ==> (
            #[trigger] self.eq_evals_first_half@[i]).wf()
        &&& forall|i: int|
            0 <= i < self.eq_evals_second_half@.len() ==> (
            #[trigger] self.eq_evals_second_half@[i]).wf()
    }

    /// Allocates the buffers: the input-side tables at the largest
    /// input size, the output-side tables at the largest output size.
    pub fn new(max_num_input_var: usize, max_num_output_var: usize) -> (r: Self)
        requires
            pow2(max_num_input_var as nat) <= usize::MAX as nat,
            pow2(max_num_output_var as nat) <= usize::MAX as nat,
        ensures
            r.wf(),
            r.v_evals@.len() == pow2(max_num_input_var as nat),
            r.hg_evals_5@.len() == pow2(max_num_input_var as nat),
            r.hg_evals_1@.len() == pow2(max_num_input_var as nat),
            r.eq_evals_at_rx@.len() == pow2(max_num_input_var as nat),
            r.eq_evals_at_rz0@.len() == pow2(max_num_output_var as nat),
            r.eq_evals_at_rz1@.len() == pow2(max_num_output_var as nat),
            r.eq_evals_first_half@.len() == if pow2(max_num_input_var as nat) > pow2(
                max_num_output_var as nat,
            ) {
                pow2(max_num_input_var as nat)
            } else {
                pow2(max_num_output_var as nat)
            },
            r.eq_evals_second_half@.len() == r.eq_evals_first_half@.len(),
            r.gate_exists_5@.len() == pow2(max_num_input_var as nat),
            r.gate_exists_1@.len() == pow2(max_num_input_var as nat),
    {
        let max_input_num = crate::bytes::pow2_exact(max_num_input_var);
        let max_output_num = crate::bytes::pow2_exact(max_num_output_var);
        // the half tables serve both the output-side and the
        // input-side equality expansions
        let half_num = if max_input_num > max_output_num {
            max_input_num
        } else {
            max_output_num
        };
        GkrScratchpad {
            v_evals: fill_simd(max_input_num),
            hg_evals_5: fill_simd(max_input_num),
            hg_evals_1: fill_simd(max_input_num),
            eq_evals_at_rx: fill_ext(max_input_num),
            eq_evals_at_rz0: fill_ext(max_output_num),
            eq_evals_at_rz1: fill_ext(max_output_num),
            eq_evals_first_half: fill_ext(half_num),
            eq_evals_second_half: fill_ext(half_num),
            gate_exists_5: fill_bool(max_input_num),
            gate_exists_1: fill_bool(max_input_num),
        }
    }
}

/// A buffer of packed zeros.
fn fill_simd(n: usize) -> (r: Vec<SimdM31Ext3>)
    ensures
        r@.len() == n,
        forall|i: int| 0 <= i < n ==> (#[trigger] r@[i]).wf(),
{
    let mut v: Vec<SimdM31Ext3> = Vec::new();
    let z = SimdM31Ext3::zero();
    let mut i: usize = 0;
    while i < n
        invariant
            i <= n,
            v@.len() == i,
            z.wf(),
            forall|t: int| 0 <= t < i ==> (#[trigger] v@[t]).wf(),
        decreases n - i,
    {
        v.push(z);
        i = i + 1;
    }
    v
}

/// A buffer of extension zeros.
fn fill_ext(n: usize) -> (r: Vec<M31Ext3>)
    ensures
        r@.len() == n,
        forall|i: int| 0 <= i < n ==> (#[trigger] r@[i]).wf(),
{
    let mut v: Vec<M31Ext3> = Vec::new();
    let z = M31Ext3::zero();
    let mut i: usize = 0;
    while i < n
        invariant
            i <= n,
            v@.len() == i,
            z.wf(),
            forall|t: int| 0 <= t < i ==> (#[trigger] v@[t]).wf(),
        decreases n - i,
    {
        v.push(z);
        i = i + 1;
    }
    v
}

/// A buffer of cleared marks.
fn fill_bool(n: usize) -> (r: Vec<bool>)
    ensures
        r@.len() == n,
        forall|i: int| 0 <= i < n ==> !(#[trigger] r@[i]),
{
    let mut v: Vec<bool> = Vec::new();
    let mut i: usize = 0;
    while i < n
        invariant
            i <= n,
            v@.len() == i,
            forall|t: int| 0 <= t < i ==> !(#[trigger] v@[t]),
        decreases n - i,
    {
        v.push(false);
        i = i + 1;
    }
    v
}

} // verus!
