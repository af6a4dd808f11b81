//! Flat circuit layers: per-layer gate lists with globally offset wire
//! indices, their evaluation, and the index of coefficients that are
//! filled in after loading.

use vstd::prelude::*;
use vstd::arithmetic::power2::pow2;
use crate::bytes::{ByteReader, CircuitError};
use crate::gate::{CoefType, GateAdd, GateConst, GateKind, GateModel, GateMul, GateUni};
use crate::m31::M31;
use crate::simd_m31::{s_add, s_broadcast, s_mul, s_wf, AVXM31};

verus! {

/// The type tag of the power-five custom gate.
pub const GATE_TYPE_POW5: usize = 12345;

/// The type tag of the linear custom gate.
pub const GATE_TYPE_POW1: usize = 12346;

/// The lane models of a vector of packed values.
pub open spec fn lane_views(v: Seq<AVXM31>) -> Seq<Seq<int>> {
    v.map_values(|x: AVXM31| x.as_ints())
}

/// A table of all-zero packed values.
pub open spec fn zero_table(n: nat) -> Seq<Seq<int>> {
    Seq::new(n, |i: int| s_broadcast(0))
}

/// Every entry has eight canonical lanes.
pub open spec fn table_wf(t: Seq<Seq<int>>) -> bool {
    forall|i: int| 0 <= i < t.len() ==> (#[trigger] t[i]).len() == 8 && s_wf(t[i])
}

/// One flat circuit layer.
#[derive(Clone)]
pub struct CircuitLayer {
    pub input_var_num: usize,
    pub output_var_num: usize,
    pub input_vals: Vec<AVXM31>,
    pub output_vals: Vec<AVXM31>,
    pub mul: Vec<GateMul>,
    pub add: Vec<GateAdd>,
    pub const_: Vec<GateConst>,
    pub uni: Vec<GateUni>,
}

/// The mathematical content of a layer.
pub struct LayerModel {
    pub input_var_num: int,
    pub output_var_num: int,
    pub input_vals: Seq<Seq<int>>,
    pub output_vals: Seq<Seq<int>>,
    pub mul: Seq<GateModel>,
    pub add: Seq<GateModel>,
    pub const_: Seq<GateModel>,
    pub uni: Seq<GateModel>,
}

/// All gates of a list have the given arity, wire indices inside the
/// layer's input and output spaces, and canonical coefficients.
pub open spec fn gates_in_range(gs: Seq<GateModel>, arity: int, nin: int, nout: int) -> bool {
    forall|i: int|
        0 <= i < gs.len() ==> {
            let g = #[trigger] gs[i];
            &&& g.i_ids.len() == arity
            &&& forall|j: int| 0 <= j < arity ==> 0 <= #[trigger] g.i_ids[j] < pow2(nin as nat)
            &&& 0 <= g.o_id < pow2(nout as nat)
            &&& g.coef.len() == 8
            &&& s_wf(g.coef)
        }
}

/// Every custom gate carries a type tag the evaluator knows.
pub open spec fn uni_types_ok(gs: Seq<GateModel>) -> bool {
    forall|i: int|
        0 <= i < gs.len() ==> (#[trigger] gs[i]).gate_type == GATE_TYPE_POW5 as int || gs[i].gate_type
            == GATE_TYPE_POW1 as int
}

/// The fifth power, lane-wise: two squarings and a final multiply.
pub open spec fn s_pow5(x: Seq<int>) -> Seq<int> {
    s_mul(s_mul(s_mul(x, x), s_mul(x, x)), x)
}

/// Folds the multiplication gates into the output table.
pub open spec fn apply_muls(gs: Seq<GateModel>, inputs: Seq<Seq<int>>, acc: Seq<Seq<int>>) -> Seq<
    Seq<int>,
>
    decreases gs.len(),
{
    if gs.len() == 0 {
        acc
    } else {
        let g = gs[0];
        apply_muls(
            gs.drop_first(),
            inputs,
            acc.update(
                g.o_id,
                s_add(acc[g.o_id], s_mul(s_mul(inputs[g.i_ids[0]], inputs[g.i_ids[1]]), g.coef)),
            ),
        )
    }
}

/// Folds the addition gates into the output table.
pub open spec fn apply_adds(gs: Seq<GateModel>, inputs: Seq<Seq<int>>, acc: Seq<Seq<int>>) -> Seq<
    Seq<int>,
>
    decreases gs.len(),
{
    if gs.len() == 0 {
        acc
    } else {
        let g = gs[0];
        apply_adds(
            gs.drop_first(),
            inputs,
            acc.update(g.o_id, s_add(acc[g.o_id], s_mul(inputs[g.i_ids[0]], g.coef))),
        )
    }
}

/// Folds the constant gates into the output table.
pub open spec fn apply_csts(gs: Seq<GateModel>, acc: Seq<Seq<int>>) -> Seq<Seq<int>>
    decreases gs.len(),
{
    if gs.len() == 0 {
        acc
    } else {
        let g = gs[0];
        apply_csts(gs.drop_first(), acc.update(g.o_id, s_add(acc[g.o_id], g.coef)))
    }
}

/// Folds the custom gates into the output table, dispatching on the
/// type tag; an unknown tag leaves the table unchanged, a case the
/// evaluator rejects before it is reached.
pub open spec fn apply_unis(gs: Seq<GateModel>, inputs: Seq<Seq<int>>, acc: Seq<Seq<int>>) -> Seq<
    Seq<int>,
>
    decreases gs.len(),
{
    if gs.len() == 0 {
        acc
    } else {
        let g = gs[0];
        let acc2 = if g.gate_type == GATE_TYPE_POW5 as int {
            acc.update(g.o_id, s_add(acc[g.o_id], s_mul(s_pow5(inputs[g.i_ids[0]]), g.coef)))
        } else if g.gate_type == GATE_TYPE_POW1 as int {
            acc.update(g.o_id, s_add(acc[g.o_id], s_mul(inputs[g.i_ids[0]], g.coef)))
        } else {
            acc
        };
        apply_unis(gs.drop_first(), inputs, acc2)
    }
}

/// What one layer computes on its inputs: all four gate families
/// accumulated into a fresh output table.
pub open spec fn eval_layer(m: LayerModel) -> Seq<Seq<int>> {
    apply_unis(
        m.uni,
        m.input_vals,
        apply_csts(
            m.const_,
            apply_adds(
                m.add,
                m.input_vals,
                apply_muls(m.mul, m.input_vals, zero_table(pow2(m.output_var_num as nat))),
            ),
        ),
    )
}

impl CircuitLayer {
    /// The layer's mathematical content.
    pub open spec fn model(self) -> LayerModel {
        LayerModel {
            input_var_num: self.input_var_num as int,
            output_var_num: self.output_var_num as int,
            input_vals: lane_views(self.input_vals@),
            output_vals: lane_views(self.output_vals@),
            mul: self.mul@.map_values(|g: GateMul| g.model()),
            add: self.add@.map_values(|g: GateAdd| g.model()),
            const_: self.const_@.map_values(|g: GateConst| g.model()),
            uni: self.uni@.map_values(|g: GateUni| g.model()),
        }
    }

    /// Structural well-formedness: sizes bounded, wire indices inside
    /// the layer's spaces, coefficients canonical.
    pub open spec fn wf(self) -> bool {
        &&& pow2(self.input_var_num as nat) <= usize::MAX as nat
        &&& pow2(self.output_var_num as nat) <= usize::MAX as nat
        &&& gates_in_range(
            self.model().mul,
            2,
            self.input_var_num as int,
            self.output_var_num as int,
        )
        &&& gates_in_range(
            self.model().add,
            1,
            self.input_var_num as int,
            self.output_var_num as int,
        )
        &&& gates_in_range(
            self.model().const_,
            0,
            self.input_var_num as int,
            self.output_var_num as int,
        )
        &&& gates_in_range(
            self.model().uni,
            1,
            self.input_var_num as int,
            self.output_var_num as int,
        )
        &&& forall|i: int|
            0 <= i < self.input_vals@.len() ==> (#[trigger] self.input_vals@[i]).wf()
        &&& forall|i: int|
            0 <= i < self.output_vals@.len() ==> (#[trigger] self.output_vals@[i]).wf()
    }

    /// An empty layer of the given sizes.
    pub fn new_empty(input_var_num: usize, output_var_num: usize) -> (r: Self)
        requires
            pow2(input_var_num as nat) <= usize::MAX as nat,
            pow2(output_var_num as nat) <= usize::MAX as nat,
        ensures
            r.wf(),
            r.model().input_var_num == input_var_num,
            r.model().output_var_num == output_var_num,
            r.model().input_vals == Seq::<Seq<int>>::empty(),
            r.model().output_vals == Seq::<Seq<int>>::empty(),
            r.model().mul == Seq::<GateModel>::empty(),
            r.model().add == Seq::<GateModel>::empty(),
            r.model().const_ == Seq::<GateModel>::empty(),
            r.model().uni == Seq::<GateModel>::empty(),
    {
        let r = CircuitLayer {
            input_var_num,
            output_var_num,
            input_vals: Vec::new(),
            output_vals: Vec::new(),
            mul: Vec::new(),
            add: Vec::new(),
            const_: Vec::new(),
            uni: Vec::new(),
        };
        proof {
            assert(r.model().input_vals =~= Seq::<Seq<int>>::empty());
            assert(r.model().output_vals =~= Seq::<Seq<int>>::empty());
            assert(r.model().mul =~= Seq::<GateModel>::empty());
            assert(r.model().add =~= Seq::<GateModel>::empty());
            assert(r.model().const_ =~= Seq::<GateModel>::empty());
            assert(r.model().uni =~= Seq::<GateModel>::empty());
        }
        r
    }

    /// Evaluates the layer: clears `res`, sizes it to the output space,
    /// and accumulates every gate's contribution. Fails only on a
    /// custom gate whose type tag is unknown.
    pub fn evaluate(&self, res: &mut Vec<AVXM31>) -> (out: Result<(), CircuitError>)
        requires
            self.wf(),
            self.input_vals@.len() == pow2(self.input_var_num as nat),
        ensures
            out is Ok <==> uni_types_ok(self.model().uni),
            out is Err ==> out == Err::<(), CircuitError>(CircuitError::UnknownGateType),
            out is Ok ==> lane_views(final(res)@) == eval_layer(self.model())
                && final(res)@.len() == pow2(self.output_var_num as nat) && forall|i: int|
                0 <= i < final(res)@.len() ==> (#[trigger] final(res)@[i]).wf(),
    {
        let ghost m = self.model();
        res.clear();
        let out_size: usize = crate::bytes::pow2_exact(self.output_var_num);
        let zero = AVXM31::zero();
        let mut zi: usize = 0;
        while zi < out_size
            invariant
                zi <= out_size,
                out_size == pow2(self.output_var_num as nat),
                res@.len() == zi,
                zero.wf(),
                zero.as_ints() == s_broadcast(0),
                forall|i: int| 0 <= i < zi ==> (#[trigger] res@[i]).wf(),
                forall|i: int| 0 <= i < zi ==> (#[trigger] res@[i]).as_ints() == s_broadcast(0),
            decreases out_size - zi,
        {
            res.push(zero);
            zi = zi + 1;
        }
        proof {
            assert(lane_views(res@) =~= zero_table(pow2(m.output_var_num as nat)));
        }
        let ghost acc0 = zero_table(pow2(m.output_var_num as nat));
        proof {
            assert(m.mul.skip(0int) =~= m.mul);
        }
        let mut gi: usize = 0;
        while gi < self.mul.len()
            invariant
                self.wf(),
                self.input_vals@.len() == pow2(self.input_var_num as nat),
                m == self.model(),
                acc0 == zero_table(pow2(m.output_var_num as nat)),
                gi <= self.mul@.len(),
                res@.len() == pow2(self.output_var_num as nat),
                forall|i: int| 0 <= i < res@.len() ==> (#[trigger] res@[i]).wf(),
                apply_muls(m.mul.skip(gi as int), m.input_vals, lane_views(res@)) == apply_muls(
                    m.mul,
                    m.input_vals,
                    acc0,
                ),
            decreases self.mul@.len() - gi,
        {
            let g = &self.mul[gi];
            let ghost pre = lane_views(res@);
            proof {
                assert(m.mul[gi as int] == g.model());
                crate::simd_m31::lemma_s_wf_to_wf(g.coef);
            }
            let term = self.input_vals[g.i_ids[0]].mul(&self.input_vals[g.i_ids[1]]).mul(
                &g.coef,
            );
            let cur = res[g.o_id];
            res[g.o_id] = cur.add(&term);
            proof {
                let gm = m.mul[gi as int];
                assert(lane_views(res@) =~= pre.update(
                    gm.o_id,
                    s_add(
                        pre[gm.o_id],
                        s_mul(s_mul(m.input_vals[gm.i_ids[0]], m.input_vals[gm.i_ids[1]]), gm.coef),
                    ),
                ));
                assert(m.mul.skip(gi as int).drop_first() =~= m.mul.skip(gi + 1));
                assert(m.mul.skip(gi as int)[0] == gm);
            }
            gi = gi + 1;
        }
        proof {
            assert(m.mul.skip(self.mul@.len() as int) =~= Seq::<GateModel>::empty());
        }
        let ghost acc1 = apply_muls(m.mul, m.input_vals, acc0);
        proof {
            assert(m.add.skip(0int) =~= m.add);
        }
        let mut ai: usize = 0;
        while ai < self.add.len()
            invariant
                self.wf(),
                self.input_vals@.len() == pow2(self.input_var_num as nat),
                m == self.model(),
                ai <= self.add@.len(),
                res@.len() == pow2(self.output_var_num as nat),
                forall|i: int| 0 <= i < res@.len() ==> (#[trigger] res@[i]).wf(),
                apply_adds(m.add.skip(ai as int), m.input_vals, lane_views(res@)) == apply_adds(
                    m.add,
                    m.input_vals,
                    acc1,
                ),
            decreases self.add@.len() - ai,
        {
            let g = &self.add[ai];
            let ghost pre = lane_views(res@);
            proof {
                assert(m.add[ai as int] == g.model());
                crate::simd_m31::lemma_s_wf_to_wf(g.coef);
            }
            let term = self.input_vals[g.i_ids[0]].mul(&g.coef);
            let cur = res[g.o_id];
            res[g.o_id] = cur.add(&term);
            proof {
                let gm = m.add[ai as int];
                assert(lane_views(res@) =~= pre.update(
                    gm.o_id,
                    s_add(pre[gm.o_id], s_mul(m.input_vals[gm.i_ids[0]], gm.coef)),
                ));
                assert(m.add.skip(ai as int).drop_first() =~= m.add.skip(ai + 1));
                assert(m.add.skip(ai as int)[0] == gm);
            }
            ai = ai + 1;
        }
        proof {
            assert(m.add.skip(self.add@.len() as int) =~= Seq::<GateModel>::empty());
        }
        let ghost acc2 = apply_adds(m.add, m.input_vals, acc1);
        proof {
            assert(m.const_.skip(0int) =~= m.const_);
        }
        let mut ci: usize = 0;
        while ci < self.const_.len()
            invariant
                self.wf(),
                m == self.model(),
                ci <= self.const_@.len(),
                res@.len() == pow2(self.output_var_num as nat),
                forall|i: int| 0 <= i < res@.len() ==> (#[trigger] res@[i]).wf(),
                apply_csts(m.const_.skip(ci as int), lane_views(res@)) == apply_csts(
                    m.const_,
                    acc2,
                ),
            decreases self.const_@.len() - ci,
        {
            let g = &self.const_[ci];
            let ghost pre = lane_views(res@);
            proof {
                assert(m.const_[ci as int] == g.model());
                crate::simd_m31::lemma_s_wf_to_wf(g.coef);
            }
            let cur = res[g.o_id];
            res[g.o_id] = cur.add(&g.coef);
            proof {
                let gm = m.const_[ci as int];
                assert(lane_views(res@) =~= pre.update(
                    gm.o_id,
                    s_add(pre[gm.o_id], gm.coef),
                ));
                assert(m.const_.skip(ci as int).drop_first() =~= m.const_.skip(ci + 1));
                assert(m.const_.skip(ci as int)[0] == gm);
            }
            ci = ci + 1;
        }
        proof {
            assert(m.const_.skip(self.const_@.len() as int) =~= Seq::<GateModel>::empty());
        }
        let ghost acc3 = apply_csts(m.const_, acc2);
        proof {
            assert(m.uni.skip(0int) =~= m.uni);
        }
        let mut ui: usize = 0;
        while ui < self.uni.len()
            invariant
                self.wf(),
                self.input_vals@.len() == pow2(self.input_var_num as nat),
                m == self.model(),
                ui <= self.uni@.len(),
                res@.len() == pow2(self.output_var_num as nat),
                forall|i: int| 0 <= i < res@.len() ==> (#[trigger] res@[i]).wf(),
                forall|t: int|
                    0 <= t < ui ==> (#[trigger] m.uni[t]).gate_type == GATE_TYPE_POW5 as int
                        || m.uni[t].gate_type == GATE_TYPE_POW1 as int,
                apply_unis(m.uni.skip(ui as int), m.input_vals, lane_views(res@)) == apply_unis(
                    m.uni,
                    m.input_vals,
                    acc3,
                ),
            decreases self.uni@.len() - ui,
        {
            let g = &self.uni[ui];
            let ghost pre = lane_views(res@);
            proof {
                assert(m.uni[ui as int] == g.model());
                crate::simd_m31::lemma_s_wf_to_wf(g.coef);
            }
            if g.gate_type == GATE_TYPE_POW5 {
                let x = &self.input_vals[g.i_ids[0]];
                let x2 = x.square();
                let x4 = x2.square();
                let x5 = x4.mul(x);
                let term = x5.mul(&g.coef);
                let cur = res[g.o_id];
                res[g.o_id] = cur.add(&term);
                proof {
                    let gm = m.uni[ui as int];
                    assert(lane_views(res@) =~= pre.update(
                        gm.o_id,
                        s_add(pre[gm.o_id], s_mul(s_pow5(m.input_vals[gm.i_ids[0]]), gm.coef)),
                    ));
                    assert(m.uni.skip(ui as int).drop_first() =~= m.uni.skip(ui + 1));
                    assert(m.uni.skip(ui as int)[0] == gm);
                }
            } else if g.gate_type == GATE_TYPE_POW1 {
                let term = self.input_vals[g.i_ids[0]].mul(&g.coef);
                let cur = res[g.o_id];
                res[g.o_id] = cur.add(&term);
                proof {
                    let gm = m.uni[ui as int];
                    assert(lane_views(res@) =~= pre.update(
                        gm.o_id,
                        s_add(pre[gm.o_id], s_mul(m.input_vals[gm.i_ids[0]], gm.coef)),
                    ));
                    assert(m.uni.skip(ui as int).drop_first() =~= m.uni.skip(ui + 1));
                    assert(m.uni.skip(ui as int)[0] == gm);
                }
            } else {
                return Err(CircuitError::UnknownGateType);
            }
            ui = ui + 1;
        }
        proof {
            assert(m.uni.skip(self.uni@.len() as int) =~= Seq::<GateModel>::empty());
        }
        Ok(())
    }
}

/// Points at one gate coefficient: the layer, the list, the position.
/// Replaces raw references into gate storage with a structured locator.
#[derive(Clone, Copy, PartialEq, Eq, Structural, Debug)]
pub struct CoefLocator {
    pub layer_idx: usize,
    pub kind: GateKind,
    pub position: usize,
}

/// A flat circuit: its layers from input to output, and, once
/// identified, the locators of every challenge-filled and every
/// public-input-filled coefficient. The locators index by position, so
/// a clone carries a valid index with it.
#[derive(Clone)]
pub struct Circuit {
    pub layers: Vec<CircuitLayer>,
    pub special_coefs_identified: bool,
    pub rnd_coefs: Vec<CoefLocator>,
    pub pub_coefs: Vec<(usize, CoefLocator)>,
}


/// The locators of the challenge-filled coefficients in one gate list,
/// in position order.
pub open spec fn rnd_locs_list(gs: Seq<GateModel>, li: int, k: GateKind, n: nat) -> Seq<
    CoefLocator,
>
    decreases n,
{
    if n == 0 || n > gs.len() {
        Seq::empty()
    } else {
        rnd_locs_list(gs, li, k, (n - 1) as nat) + if gs[n - 1].coef_type is Random {
            seq![CoefLocator { layer_idx: li as usize, kind: k, position: (n - 1) as usize }]
        } else {
            Seq::empty()
        }
    }
}

/// The locators of the public-input coefficients in one gate list,
/// paired with the input index each copies.
pub open spec fn pub_locs_list(gs: Seq<GateModel>, li: int, k: GateKind, n: nat) -> Seq<
    (usize, CoefLocator),
>
    decreases n,
{
    if n == 0 || n > gs.len() {
        Seq::empty()
    } else {
        pub_locs_list(gs, li, k, (n - 1) as nat) + (match gs[n - 1].coef_type {
            CoefType::PublicInput(idx) => seq![
                (
                    idx,
                    CoefLocator { layer_idx: li as usize, kind: k, position: (n - 1) as usize },
                ),
            ],
            _ => Seq::empty(),
        })
    }
}

/// One layer's challenge locators: additions first, then
/// multiplications, constants, and custom gates.
pub open spec fn rnd_locs_layer(m: LayerModel, li: int) -> Seq<CoefLocator> {
    rnd_locs_list(m.add, li, GateKind::Add, m.add.len()) + rnd_locs_list(
        m.mul,
        li,
        GateKind::Mul,
        m.mul.len(),
    ) + rnd_locs_list(m.const_, li, GateKind::Cst, m.const_.len()) + rnd_locs_list(
        m.uni,
        li,
        GateKind::Uni,
        m.uni.len(),
    )
}

/// One layer's public-input locators, in the same order.
pub open spec fn pub_locs_layer(m: LayerModel, li: int) -> Seq<(usize, CoefLocator)> {
    pub_locs_list(m.add, li, GateKind::Add, m.add.len()) + pub_locs_list(
        m.mul,
        li,
        GateKind::Mul,
        m.mul.len(),
    ) + pub_locs_list(m.const_, li, GateKind::Cst, m.const_.len()) + pub_locs_list(
        m.uni,
        li,
        GateKind::Uni,
        m.uni.len(),
    )
}

/// The whole circuit's challenge locators, layer by layer.
pub open spec fn rnd_locs_upto(layers: Seq<CircuitLayer>, n: nat) -> Seq<CoefLocator>
    decreases n,
{
    if n == 0 || n > layers.len() {
        Seq::empty()
    } else {
        rnd_locs_upto(layers, (n - 1) as nat) + rnd_locs_layer(layers[n - 1].model(), n - 1)
    }
}

/// The whole circuit's public-input locators, layer by layer.
pub open spec fn pub_locs_upto(layers: Seq<CircuitLayer>, n: nat) -> Seq<(usize, CoefLocator)>
    decreases n,
{
    if n == 0 || n > layers.len() {
        Seq::empty()
    } else {
        pub_locs_upto(layers, (n - 1) as nat) + pub_locs_layer(layers[n - 1].model(), n - 1)
    }
}

impl CircuitLayer {
    /// Collects the locators of every challenge-filled and every
    /// public-input coefficient of this layer, in a fixed list order.
    pub fn identify_special_coefs(
        &self,
        rnd_coefs: &mut Vec<CoefLocator>,
        pub_coefs: &mut Vec<(usize, CoefLocator)>,
        layer_idx: usize,
    )
        ensures
            final(rnd_coefs)@ == old(rnd_coefs)@ + rnd_locs_layer(
                self.model(),
                layer_idx as int,
            ),
            final(pub_coefs)@ == old(pub_coefs)@ + pub_locs_layer(
                self.model(),
                layer_idx as int,
            ),
    {
        let ghost m = self.model();
        let ghost li = layer_idx as int;
        collect_locs1(&self.add, rnd_coefs, pub_coefs, layer_idx, GateKind::Add);
        proof {
            assert(m.add == self.add@.map_values(|g: GateAdd| g.model()));
        }
        collect_locs2(&self.mul, rnd_coefs, pub_coefs, layer_idx, GateKind::Mul);
        collect_locs0(&self.const_, rnd_coefs, pub_coefs, layer_idx, GateKind::Cst);
        collect_locs1(&self.uni, rnd_coefs, pub_coefs, layer_idx, GateKind::Uni);
        proof {
            assert(final(rnd_coefs)@ =~= old(rnd_coefs)@ + rnd_locs_layer(m, li));
            assert(final(pub_coefs)@ =~= old(pub_coefs)@ + pub_locs_layer(m, li));
        }
    }
}


/// Collects the special-coefficient locators of one gate list.
fn collect_locs2(
    gates: &Vec<GateMul>,
    rnd_coefs: &mut Vec<CoefLocator>,
    pub_coefs: &mut Vec<(usize, CoefLocator)>,
    layer_idx: usize,
    kind: GateKind,
) 
    ensures
        final(rnd_coefs)@ == old(rnd_coefs)@ + rnd_locs_list(
            gates@.map_values(|g: GateMul| g.model()),
            layer_idx as int,
            kind,
            gates@.len(),
        ),
        final(pub_coefs)@ == old(pub_coefs)@ + pub_locs_list(
            gates@.map_values(|g: GateMul| g.model()),
            layer_idx as int,
            kind,
            gates@.len(),
        ),
{
    let ghost gs = gates@.map_values(|g: GateMul| g.model());
    let ghost li = layer_idx as int;
    let n = gates.len();
    let mut i: usize = 0;
    while i < n
        invariant
            gs == gates@.map_values(|g: GateMul| g.model()),
            li == layer_idx as int,
            n == gates@.len(),
            i <= n,
            rnd_coefs@ == old(rnd_coefs)@ + rnd_locs_list(gs, li, kind, i as nat),
            pub_coefs@ == old(pub_coefs)@ + pub_locs_list(gs, li, kind, i as nat),
        decreases n - i,
    {
        match gates[i].coef_type {
            CoefType::Random => {
                rnd_coefs.push(CoefLocator { layer_idx, kind, position: i });
            },
            CoefType::PublicInput(idx) => {
                pub_coefs.push(
                    (idx, CoefLocator { layer_idx, kind, position: i }),
                );
            },
            CoefType::Constant => {},
        }
        proof {
            assert(gs[i as int] == gates@[i as int].model());
            assert(rnd_coefs@ =~= old(rnd_coefs)@ + rnd_locs_list(gs, li, kind, (i + 1) as nat));
            assert(pub_coefs@ =~= old(pub_coefs)@ + pub_locs_list(gs, li, kind, (i + 1) as nat));
        }
        i = i + 1;
    }
}

/// Collects the special-coefficient locators of one gate list.
fn collect_locs1(
    gates: &Vec<GateAdd>,
    rnd_coefs: &mut Vec<CoefLocator>,
    pub_coefs: &mut Vec<(usize, CoefLocator)>,
    layer_idx: usize,
    kind: GateKind,
) 
    ensures
        final(rnd_coefs)@ == old(rnd_coefs)@ + rnd_locs_list(
            gates@.map_values(|g: GateAdd| g.model()),
            layer_idx as int,
            kind,
            gates@.len(),
        ),
        final(pub_coefs)@ == old(pub_coefs)@ + pub_locs_list(
            gates@.map_values(|g: GateAdd| g.model()),
            layer_idx as int,
            kind,
            gates@.len(),
        ),
{
    let ghost gs = gates@.map_values(|g: GateAdd| g.model());
    let ghost li = layer_idx as int;
    let n = gates.len();
    let mut i: usize = 0;
    while i < n
        invariant
            gs == gates@.map_values(|g: GateAdd| g.model()),
            li == layer_idx as int,
            n == gates@.len(),
            i <= n,
            rnd_coefs@ == old(rnd_coefs)@ + rnd_locs_list(gs, li, kind, i as nat),
            pub_coefs@ == old(pub_coefs)@ + pub_locs_list(gs, li, kind, i as nat),
        decreases n - i,
    {
        match gates[i].coef_type {
            CoefType::Random => {
                rnd_coefs.push(CoefLocator { layer_idx, kind, position: i });
            },
            CoefType::PublicInput(idx) => {
                pub_coefs.push(
                    (idx, CoefLocator { layer_idx, kind, position: i }),
                );
            },
            CoefType::Constant => {},
        }
        proof {
            assert(gs[i as int] == gates@[i as int].model());
            assert(rnd_coefs@ =~= old(rnd_coefs)@ + rnd_locs_list(gs, li, kind, (i + 1) as nat));
            assert(pub_coefs@ =~= old(pub_coefs)@ + pub_locs_list(gs, li, kind, (i + 1) as nat));
        }
        i = i + 1;
    }
}

/// Collects the special-coefficient locators of one gate list.
fn collect_locs0(
    gates: &Vec<GateConst>,
    rnd_coefs: &mut Vec<CoefLocator>,
    pub_coefs: &mut Vec<(usize, CoefLocator)>,
    layer_idx: usize,
    kind: GateKind,
) 
    ensures
        final(rnd_coefs)@ == old(rnd_coefs)@ + rnd_locs_list(
            gates@.map_values(|g: GateConst| g.model()),
            layer_idx as int,
            kind,
            gates@.len(),
        ),
        final(pub_coefs)@ == old(pub_coefs)@ + pub_locs_list(
            gates@.map_values(|g: GateConst| g.model()),
            layer_idx as int,
            kind,
            gates@.len(),
        ),
{
    let ghost gs = gates@.map_values(|g: GateConst| g.model());
    let ghost li = layer_idx as int;
    let n = gates.len();
    let mut i: usize = 0;
    while i < n
        invariant
            gs == gates@.map_values(|g: GateConst| g.model()),
            li == layer_idx as int,
            n == gates@.len(),
            i <= n,
            rnd_coefs@ == old(rnd_coefs)@ + rnd_locs_list(gs, li, kind, i as nat),
            pub_coefs@ == old(pub_coefs)@ + pub_locs_list(gs, li, kind, i as nat),
        decreases n - i,
    {
        match gates[i].coef_type {
            CoefType::Random => {
                rnd_coefs.push(CoefLocator { layer_idx, kind, position: i });
            },
            CoefType::PublicInput(idx) => {
                pub_coefs.push(
                    (idx, CoefLocator { layer_idx, kind, position: i }),
                );
            },
            CoefType::Constant => {},
        }
        proof {
            assert(gs[i as int] == gates@[i as int].model());
            assert(rnd_coefs@ =~= old(rnd_coefs)@ + rnd_locs_list(gs, li, kind, (i + 1) as nat));
            assert(pub_coefs@ =~= old(pub_coefs)@ + pub_locs_list(gs, li, kind, (i + 1) as nat));
        }
        i = i + 1;
    }
}


/// The coefficient lanes a locator points at.
pub open spec fn coef_at(layers: Seq<CircuitLayer>, loc: CoefLocator) -> Seq<int> {
    gate_at(layers, loc).coef
}

/// Resolves a locator to its gate.
pub open spec fn gate_at(layers: Seq<CircuitLayer>, loc: CoefLocator) -> GateModel {
    let m = layers[loc.layer_idx as int].model();
    match loc.kind {
        GateKind::Mul => m.mul[loc.position as int],
        GateKind::Add => m.add[loc.position as int],
        GateKind::Cst => m.const_[loc.position as int],
        GateKind::Uni => m.uni[loc.position as int],
    }
}

/// Whether a locator points inside the circuit.
pub open spec fn loc_valid(layers: Seq<CircuitLayer>, loc: CoefLocator) -> bool {
    &&& (loc.layer_idx as int) < layers.len()
    &&& match loc.kind {
        GateKind::Mul => (loc.position as int) < layers[loc.layer_idx as int].mul@.len(),
        GateKind::Add => (loc.position as int) < layers[loc.layer_idx as int].add@.len(),
        GateKind::Cst => (loc.position as int) < layers[loc.layer_idx as int].const_@.len(),
        GateKind::Uni => (loc.position as int) < layers[loc.layer_idx as int].uni@.len(),
    }
}

/// Entries of one list's locator collection: right layer and kind,
/// positions strictly increasing and under the bound, tag matching.
proof fn lemma_rnd_locs_list_valid(gs: Seq<GateModel>, li: int, k: GateKind, n: nat)
    requires
        n <= gs.len(),
        n <= usize::MAX as nat,
        0 <= li <= usize::MAX as int,
    ensures
        forall|t: int|
            0 <= t < rnd_locs_list(gs, li, k, n).len() ==> {
                let e = #[trigger] rnd_locs_list(gs, li, k, n)[t];
                &&& e.kind == k
                &&& e.layer_idx as int == li
                &&& (e.position as int) < n
                &&& gs[e.position as int].coef_type is Random
            },
        forall|t1: int, t2: int|
            0 <= t1 < t2 < rnd_locs_list(gs, li, k, n).len()
                ==> (#[trigger] rnd_locs_list(gs, li, k, n)[t1]).position < (
            #[trigger] rnd_locs_list(gs, li, k, n)[t2]).position,
    decreases n,
{
    if n > 0 {
        lemma_rnd_locs_list_valid(gs, li, k, (n - 1) as nat);
    }
}

/// Entries of one list's public-input collection, likewise.
proof fn lemma_pub_locs_list_valid(gs: Seq<GateModel>, li: int, k: GateKind, n: nat)
    requires
        n <= gs.len(),
        n <= usize::MAX as nat,
        0 <= li <= usize::MAX as int,
    ensures
        forall|t: int|
            0 <= t < pub_locs_list(gs, li, k, n).len() ==> {
                let e = #[trigger] pub_locs_list(gs, li, k, n)[t];
                &&& e.1.kind == k
                &&& e.1.layer_idx as int == li
                &&& (e.1.position as int) < n
                &&& gs[e.1.position as int].coef_type == CoefType::PublicInput(e.0)
            },
        forall|t1: int, t2: int|
            0 <= t1 < t2 < pub_locs_list(gs, li, k, n).len()
                ==> (#[trigger] pub_locs_list(gs, li, k, n)[t1]).1.position < (
            #[trigger] pub_locs_list(gs, li, k, n)[t2]).1.position,
    decreases n,
{
    if n > 0 {
        lemma_pub_locs_list_valid(gs, li, k, (n - 1) as nat);
    }
}

/// Every locator of one layer's collection is valid there, tags Random,
/// and the collection has no repeated locator.
proof fn lemma_rnd_locs_layer_valid(layers: Seq<CircuitLayer>, li: int)
    requires
        0 <= li < layers.len(),
        li <= usize::MAX as int,
    ensures
        forall|t: int|
            0 <= t < rnd_locs_layer(layers[li].model(), li).len() ==> {
                let e = #[trigger] rnd_locs_layer(layers[li].model(), li)[t];
                &&& e.layer_idx as int == li
                &&& loc_valid(layers, e)
                &&& gate_at(layers, e).coef_type is Random
            },
        forall|t1: int, t2: int|
            0 <= t1 < t2 < rnd_locs_layer(layers[li].model(), li).len()
                ==> #[trigger] rnd_locs_layer(layers[li].model(), li)[t1]
                != #[trigger] rnd_locs_layer(layers[li].model(), li)[t2],
{
    let m = layers[li].model();
    vstd::std_specs::vec::axiom_spec_len(&layers[li].add);
    vstd::std_specs::vec::axiom_spec_len(&layers[li].mul);
    vstd::std_specs::vec::axiom_spec_len(&layers[li].const_);
    vstd::std_specs::vec::axiom_spec_len(&layers[li].uni);
    lemma_rnd_locs_list_valid(m.add, li, GateKind::Add, m.add.len());
    lemma_rnd_locs_list_valid(m.mul, li, GateKind::Mul, m.mul.len());
    lemma_rnd_locs_list_valid(m.const_, li, GateKind::Cst, m.const_.len());
    lemma_rnd_locs_list_valid(m.uni, li, GateKind::Uni, m.uni.len());
}

/// Every locator of the whole collection is valid, tags Random, and no
/// locator repeats.
pub proof fn lemma_rnd_locs_valid(layers: Seq<CircuitLayer>, n: nat)
    requires
        n <= layers.len(),
        n <= usize::MAX as nat,
    ensures
        forall|t: int|
            0 <= t < rnd_locs_upto(layers, n).len() ==> loc_valid(
                layers,
                #[trigger] rnd_locs_upto(layers, n)[t],
            ) && gate_at(layers, rnd_locs_upto(layers, n)[t]).coef_type is Random
                && (rnd_locs_upto(layers, n)[t].layer_idx as int) < n,
        forall|t1: int, t2: int|
            0 <= t1 < t2 < rnd_locs_upto(layers, n).len() ==> #[trigger] rnd_locs_upto(
                layers,
                n,
            )[t1] != #[trigger] rnd_locs_upto(layers, n)[t2],
    decreases n,
{
    if n > 0 {
        lemma_rnd_locs_valid(layers, (n - 1) as nat);
        lemma_rnd_locs_layer_valid(layers, n - 1);
    }
}

/// Every public-input locator of the whole collection is valid and its
/// gate carries the matching tag.
pub proof fn lemma_pub_locs_valid(layers: Seq<CircuitLayer>, n: nat)
    requires
        n <= layers.len(),
        n <= usize::MAX as nat,
    ensures
        forall|t: int|
            0 <= t < pub_locs_upto(layers, n).len() ==> loc_valid(
                layers,
                (#[trigger] pub_locs_upto(layers, n)[t]).1,
            ) && gate_at(layers, pub_locs_upto(layers, n)[t].1).coef_type
                == CoefType::PublicInput(pub_locs_upto(layers, n)[t].0),
    decreases n,
{
    if n > 0 {
        lemma_pub_locs_valid(layers, (n - 1) as nat);
        let li = n - 1;
        let m = layers[li].model();
        vstd::std_specs::vec::axiom_spec_len(&layers[li].add);
        vstd::std_specs::vec::axiom_spec_len(&layers[li].mul);
        vstd::std_specs::vec::axiom_spec_len(&layers[li].const_);
        vstd::std_specs::vec::axiom_spec_len(&layers[li].uni);
        lemma_pub_locs_list_valid(m.add, li as int, GateKind::Add, m.add.len());
        lemma_pub_locs_list_valid(m.mul, li as int, GateKind::Mul, m.mul.len());
        lemma_pub_locs_list_valid(m.const_, li as int, GateKind::Cst, m.const_.len());
        lemma_pub_locs_list_valid(m.uni, li as int, GateKind::Uni, m.uni.len());
    }
}

impl Circuit {
    /// Structural well-formedness: every layer well-formed, and, once
    /// the special coefficients are identified, the locator lists are
    /// exactly the circuit's Random and PublicInput positions.
    pub open spec fn wf(self) -> bool {
        &&& forall|i: int| 0 <= i < self.layers@.len() ==> (#[trigger] self.layers@[i]).wf()
        &&& self.special_coefs_identified ==> self.rnd_coefs@ == rnd_locs_upto(
            self.layers@,
            self.layers@.len(),
        ) && self.pub_coefs@ == pub_locs_upto(self.layers@, self.layers@.len())
    }

    /// Rebuilds the index of challenge-filled and public-input
    /// coefficients from the layers.
    pub fn identify_special_coefs(&mut self)
        ensures
            final(self).layers@ == old(self).layers@,
            final(self).special_coefs_identified,
            final(self).rnd_coefs@ == rnd_locs_upto(old(self).layers@, old(self).layers@.len()),
            final(self).pub_coefs@ == pub_locs_upto(old(self).layers@, old(self).layers@.len()),
            (forall|i: int|
                0 <= i < old(self).layers@.len() ==> (#[trigger] old(self).layers@[i]).wf())
                ==> final(self).wf(),
    {
        let mut rnd: Vec<CoefLocator> = Vec::new();
        let mut pubs: Vec<(usize, CoefLocator)> = Vec::new();
        let n = self.layers.len();
        let mut i: usize = 0;
        while i < n
            invariant
                self.layers@ == old(self).layers@,
                n == self.layers@.len(),
                i <= n,
                rnd@ == rnd_locs_upto(self.layers@, i as nat),
                pubs@ == pub_locs_upto(self.layers@, i as nat),
            decreases n - i,
        {
            self.layers[i].identify_special_coefs(&mut rnd, &mut pubs, i);
            proof {
                assert(self.layers@[i as int].model() == self.layers@[i as int].model());
            }
            i = i + 1;
        }
        self.rnd_coefs = rnd;
        self.pub_coefs = pubs;
        self.special_coefs_identified = true;
    }
}


/// Two gates equal everywhere but possibly the coefficient.
pub open spec fn gate_shape_eq(a: GateModel, b: GateModel) -> bool {
    a.i_ids == b.i_ids && a.o_id == b.o_id && a.coef_type == b.coef_type && a.gate_type
        == b.gate_type
}

/// Two gate lists of one shape.
pub open spec fn list_shape_eq(a: Seq<GateModel>, b: Seq<GateModel>) -> bool {
    a.len() == b.len() && forall|i: int|
        0 <= i < a.len() ==> gate_shape_eq(#[trigger] a[i], #[trigger] b[i])
}

/// Two layers of one shape: sizes and gate lists agree everywhere but
/// possibly the coefficients; the bound values are not constrained.
pub open spec fn layer_shape_eq(a: LayerModel, b: LayerModel) -> bool {
    &&& a.input_var_num == b.input_var_num
    &&& a.output_var_num == b.output_var_num
    &&& list_shape_eq(a.mul, b.mul)
    &&& list_shape_eq(a.add, b.add)
    &&& list_shape_eq(a.const_, b.const_)
    &&& list_shape_eq(a.uni, b.uni)
}

/// Two layer lists of one shape.
pub open spec fn layers_shape_eq(a: Seq<CircuitLayer>, b: Seq<CircuitLayer>) -> bool {
    a.len() == b.len() && forall|i: int|
        0 <= i < a.len() ==> layer_shape_eq(
            (#[trigger] a[i]).model(),
            (#[trigger] b[i]).model(),
        )
}

/// The locator collections depend only on the shape.
proof fn lemma_locs_list_shape(a: Seq<GateModel>, b: Seq<GateModel>, li: int, k: GateKind, n: nat)
    requires
        list_shape_eq(a, b),
        n <= a.len(),
    ensures
        rnd_locs_list(a, li, k, n) == rnd_locs_list(b, li, k, n),
        pub_locs_list(a, li, k, n) == pub_locs_list(b, li, k, n),
    decreases n,
{
    if n > 0 {
        lemma_locs_list_shape(a, b, li, k, (n - 1) as nat);
    }
}

/// The circuit's locator collections depend only on the shape.
pub proof fn lemma_locs_shape(a: Seq<CircuitLayer>, b: Seq<CircuitLayer>, n: nat)
    requires
        layers_shape_eq(a, b),
        n <= a.len(),
    ensures
        rnd_locs_upto(a, n) == rnd_locs_upto(b, n),
        pub_locs_upto(a, n) == pub_locs_upto(b, n),
    decreases n,
{
    if n > 0 {
        lemma_locs_shape(a, b, (n - 1) as nat);
        let ma = a[n - 1].model();
        let mb = b[n - 1].model();
        lemma_locs_list_shape(ma.add, mb.add, n - 1, GateKind::Add, ma.add.len());
        lemma_locs_list_shape(ma.mul, mb.mul, n - 1, GateKind::Mul, ma.mul.len());
        lemma_locs_list_shape(ma.const_, mb.const_, n - 1, GateKind::Cst, ma.const_.len());
        lemma_locs_list_shape(ma.uni, mb.uni, n - 1, GateKind::Uni, ma.uni.len());
    }
}


/// Replacing one gate's coefficient by canonical lanes keeps a list in
/// range.
proof fn lemma_gir_update_coef(
    gs: Seq<GateModel>,
    pos: int,
    g2: GateModel,
    arity: int,
    nin: int,
    nout: int,
)
    requires
        gates_in_range(gs, arity, nin, nout),
        0 <= pos < gs.len(),
        gate_shape_eq(gs[pos], g2),
        g2.coef.len() == 8,
        crate::simd_m31::s_wf(g2.coef),
    ensures
        gates_in_range(gs.update(pos, g2), arity, nin, nout),
{
    let gs2 = gs.update(pos, g2);
    assert forall|i: int| 0 <= i < gs2.len() implies {
        let g = #[trigger] gs2[i];
        &&& g.i_ids.len() == arity
        &&& forall|j: int| 0 <= j < arity ==> 0 <= #[trigger] g.i_ids[j] < pow2(nin as nat)
        &&& 0 <= g.o_id < pow2(nout as nat)
        &&& g.coef.len() == 8
        &&& crate::simd_m31::s_wf(g.coef)
    } by {
        if i == pos {
            assert(gs2[i] == g2);
            assert(gs[pos].i_ids.len() == arity);
            assert(forall|j: int|
                0 <= j < arity ==> 0 <= #[trigger] gs[pos].i_ids[j] < pow2(nin as nat));
        } else {
            assert(gs2[i] == gs[i]);
        }
    }
}


/// Shape agreement is transitive.
proof fn lemma_shape_eq_trans(a: Seq<CircuitLayer>, b: Seq<CircuitLayer>, c: Seq<CircuitLayer>)
    requires
        layers_shape_eq(a, b),
        layers_shape_eq(b, c),
    ensures
        layers_shape_eq(a, c),
{
    assert forall|i: int| 0 <= i < a.len() implies layer_shape_eq(
        (#[trigger] a[i]).model(),
        c[i].model(),
    ) by {
        let am = a[i].model();
        let bm = b[i].model();
        let cm = c[i].model();
        assert(layer_shape_eq(am, bm));
        assert(layer_shape_eq(bm, cm));
        assert forall|j: int| 0 <= j < am.mul.len() implies gate_shape_eq(
            #[trigger] am.mul[j],
            #[trigger] cm.mul[j],
        ) by {
            assert(gate_shape_eq(am.mul[j], bm.mul[j]));
            assert(gate_shape_eq(bm.mul[j], cm.mul[j]));
        }
        assert forall|j: int| 0 <= j < am.add.len() implies gate_shape_eq(
            #[trigger] am.add[j],
            #[trigger] cm.add[j],
        ) by {
            assert(gate_shape_eq(am.add[j], bm.add[j]));
            assert(gate_shape_eq(bm.add[j], cm.add[j]));
        }
        assert forall|j: int| 0 <= j < am.const_.len() implies gate_shape_eq(
            #[trigger] am.const_[j],
            #[trigger] cm.const_[j],
        ) by {
            assert(gate_shape_eq(am.const_[j], bm.const_[j]));
            assert(gate_shape_eq(bm.const_[j], cm.const_[j]));
        }
        assert forall|j: int| 0 <= j < am.uni.len() implies gate_shape_eq(
            #[trigger] am.uni[j],
            #[trigger] cm.uni[j],
        ) by {
            assert(gate_shape_eq(am.uni[j], bm.uni[j]));
            assert(gate_shape_eq(bm.uni[j], cm.uni[j]));
        }
    }
}

/// Writes one coefficient through its locator, touching nothing else.
fn set_coef(layers: &mut Vec<CircuitLayer>, loc: CoefLocator, v: AVXM31) -> (r: ())
    requires
        loc_valid(old(layers)@, loc),
        v.wf(),
    ensures
        final(layers)@.len() == old(layers)@.len(),
        layers_shape_eq(old(layers)@, final(layers)@),
        forall|loc2: CoefLocator| loc_valid(old(layers)@, loc2) == loc_valid(
            final(layers)@,
            loc2,
        ),
        gate_at(final(layers)@, loc).coef == v.as_ints(),
        forall|loc2: CoefLocator|
            loc_valid(old(layers)@, loc2) && loc2 != loc ==> gate_at(final(layers)@, loc2)
                == gate_at(old(layers)@, loc2),
        forall|i: int|
            0 <= i < old(layers)@.len() && (#[trigger] old(layers)@[i]).wf()
                ==> final(layers)@[i].wf(),
        forall|i: int|
            0 <= i < old(layers)@.len()
                ==> (#[trigger] final(layers)@[i]).input_vals@ == old(layers)@[i].input_vals@
                && final(layers)@[i].output_vals@ == old(layers)@[i].output_vals@,
{
    let ghost pre = layers@;
    let li = loc.layer_idx;
    let pos = loc.position;
    match loc.kind {
        GateKind::Mul => {
            layers[li].mul[pos].coef = v;
        },
        GateKind::Add => {
            layers[li].add[pos].coef = v;
        },
        GateKind::Cst => {
            layers[li].const_[pos].coef = v;
        },
        GateKind::Uni => {
            layers[li].uni[pos].coef = v;
        },
    }
    proof {
        assert forall|i: int| 0 <= i < pre.len() implies layer_shape_eq(
            (#[trigger] pre[i]).model(),
            layers@[i].model(),
        ) by {
            if i != li as int {
                assert(layers@[i] == pre[i]);
            }
        }
        assert forall|loc2: CoefLocator|
            loc_valid(pre, loc2) && loc2 != loc implies gate_at(layers@, loc2) == gate_at(
            pre,
            loc2,
        ) by {
            if loc2.layer_idx != li {
                assert(layers@[loc2.layer_idx as int] == pre[loc2.layer_idx as int]);
            }
        }
        assert forall|i: int|
            0 <= i < pre.len() implies (#[trigger] layers@[i]).input_vals@
            == pre[i].input_vals@ && layers@[i].output_vals@ == pre[i].output_vals@ by {
            if i != li as int {
                assert(layers@[i] == pre[i]);
            }
        }
        assert forall|i: int|
            0 <= i < pre.len() && (#[trigger] pre[i]).wf() implies layers@[i].wf() by {
            if i != li as int {
                assert(layers@[i] == pre[i]);
            } else {
                let om = pre[i].model();
                let nm = layers@[i].model();
                assert(crate::simd_m31::s_wf(v.as_ints())) by {
                    assert(forall|t: int|
                        0 <= t < 8 ==> crate::m31::in_field(#[trigger] v.as_ints()[t]));
                }
                match loc.kind {
                    GateKind::Mul => {
                        assert(nm.mul =~= om.mul.update(pos as int, nm.mul[pos as int]));
                        lemma_gir_update_coef(
                            om.mul,
                            pos as int,
                            nm.mul[pos as int],
                            2,
                            om.input_var_num,
                            om.output_var_num,
                        );
                    },
                    GateKind::Add => {
                        assert(nm.add =~= om.add.update(pos as int, nm.add[pos as int]));
                        lemma_gir_update_coef(
                            om.add,
                            pos as int,
                            nm.add[pos as int],
                            1,
                            om.input_var_num,
                            om.output_var_num,
                        );
                    },
                    GateKind::Cst => {
                        assert(nm.const_ =~= om.const_.update(pos as int, nm.const_[pos as int]));
                        lemma_gir_update_coef(
                            om.const_,
                            pos as int,
                            nm.const_[pos as int],
                            0,
                            om.input_var_num,
                            om.output_var_num,
                        );
                    },
                    GateKind::Uni => {
                        assert(nm.uni =~= om.uni.update(pos as int, nm.uni[pos as int]));
                        lemma_gir_update_coef(
                            om.uni,
                            pos as int,
                            nm.uni[pos as int],
                            1,
                            om.input_var_num,
                            om.output_var_num,
                        );
                    },
                }
            }
        }
    }
}


impl Circuit {
    /// Draws one base-field challenge per identified Random coefficient,
    /// in list order, and broadcasts it into the coefficient's lanes.
    pub fn fill_rnd_coefs(&mut self, transcript: &mut crate::transcript::Transcript)
        requires
            old(self).wf(),
            old(self).special_coefs_identified,
        ensures
            final(self).wf(),
            final(self).special_coefs_identified,
            final(self).rnd_coefs@ == old(self).rnd_coefs@,
            final(self).pub_coefs@ == old(self).pub_coefs@,
            layers_shape_eq(old(self).layers@, final(self).layers@),
            forall|k: int|
                0 <= k < old(self).rnd_coefs@.len() ==> coef_at(
                    final(self).layers@,
                    #[trigger] old(self).rnd_coefs@[k],
                ) == crate::simd_m31::s_broadcast(
                    crate::transcript::m31_of_hash(
                        crate::transcript::sha256_of(
                            crate::transcript::absorbed_after(
                                old(transcript).absorbed@,
                                k as nat,
                            ),
                        ),
                    ),
                ),
            forall|loc: CoefLocator|
                loc_valid(old(self).layers@, loc) && !((#[trigger] gate_at(
                    old(self).layers@,
                    loc,
                )).coef_type is Random) ==> gate_at(final(self).layers@, loc) == gate_at(
                    old(self).layers@,
                    loc,
                ),
            final(transcript).absorbed@ == crate::transcript::absorbed_after(
                old(transcript).absorbed@,
                old(self).rnd_coefs@.len() as nat,
            ),
            final(transcript).proof@ == old(transcript).proof@,
            forall|i: int|
                0 <= i < old(self).layers@.len()
                    ==> (#[trigger] final(self).layers@[i]).input_vals@
                    == old(self).layers@[i].input_vals@
                    && final(self).layers@[i].output_vals@
                    == old(self).layers@[i].output_vals@,
    {
        let ghost locs = self.rnd_coefs@;
        let ghost lay0 = self.layers@;
        let ghost a0 = transcript.absorbed@;
        proof {
            vstd::std_specs::vec::axiom_spec_len(&self.layers);
            lemma_rnd_locs_valid(lay0, lay0.len() as nat);
        }
        let n = self.rnd_coefs.len();
        let mut k: usize = 0;
        while k < n
            invariant
                locs == rnd_locs_upto(lay0, lay0.len() as nat),
                self.rnd_coefs@ == old(self).rnd_coefs@,
                self.pub_coefs@ == old(self).pub_coefs@,
                self.special_coefs_identified == old(self).special_coefs_identified,
                locs == old(self).rnd_coefs@,
                lay0 == old(self).layers@,
                a0 == old(transcript).absorbed@,
                old(self).wf(),
                old(self).special_coefs_identified,
                n == locs.len(),
                k <= n,
                self.layers@.len() == lay0.len(),
                layers_shape_eq(lay0, self.layers@),
                forall|t: int|
                    0 <= t < locs.len() ==> loc_valid(lay0, #[trigger] locs[t]) && gate_at(
                        lay0,
                        locs[t],
                    ).coef_type is Random,
                forall|t1: int, t2: int|
                    0 <= t1 < t2 < locs.len() ==> #[trigger] locs[t1] != #[trigger] locs[t2],
                forall|loc2: CoefLocator| loc_valid(lay0, loc2) == loc_valid(self.layers@, loc2),
                forall|i: int|
                    0 <= i < lay0.len() ==> (#[trigger] self.layers@[i]).input_vals@
                        == lay0[i].input_vals@ && self.layers@[i].output_vals@
                        == lay0[i].output_vals@,
                forall|j: int|
                    0 <= j < k ==> coef_at(self.layers@, #[trigger] locs[j])
                        == crate::simd_m31::s_broadcast(
                        crate::transcript::m31_of_hash(
                            crate::transcript::sha256_of(
                                crate::transcript::absorbed_after(a0, j as nat),
                            ),
                        ),
                    ),
                forall|loc2: CoefLocator|
                    loc_valid(lay0, loc2) && !((#[trigger] gate_at(lay0, loc2)).coef_type
                        is Random) ==> gate_at(self.layers@, loc2) == gate_at(lay0, loc2),
                transcript.absorbed@ == crate::transcript::absorbed_after(a0, k as nat),
                transcript.proof@ == old(transcript).proof@,
                forall|i: int| 0 <= i < self.layers@.len() ==> (#[trigger] self.layers@[i]).wf(),
            decreases n - k,
        {
            let loc = self.rnd_coefs[k];
            let c = transcript.circuit_f();
            let v = crate::simd_m31::AVXM31::pack_full(&c);
            let ghost pre_layers = self.layers@;
            set_coef(&mut self.layers, loc, v);
            proof {
                lemma_shape_eq_trans(lay0, pre_layers, self.layers@);
                assert forall|i: int| 0 <= i < self.layers@.len() implies (
                #[trigger] self.layers@[i]).wf() by {
                    assert(pre_layers[i].wf());
                }
                let ak = crate::transcript::absorbed_after(a0, k as nat);
                assert(crate::transcript::absorbed_after(ak, 0) == ak);
                assert(crate::transcript::absorbed_after(
                    crate::transcript::absorbed_after(a0, k as nat),
                    1,
                ) == crate::transcript::absorbed_after(a0, k as nat) + crate::transcript::sha256_of(
                    crate::transcript::absorbed_after(a0, k as nat),
                ));
                assert(crate::transcript::absorbed_after(a0, (k + 1) as nat)
                    == crate::transcript::absorbed_after(a0, k as nat) + crate::transcript::sha256_of(
                    crate::transcript::absorbed_after(a0, k as nat),
                ));
                assert forall|j: int| 0 <= j < k + 1 implies coef_at(
                    self.layers@,
                    #[trigger] locs[j],
                ) == crate::simd_m31::s_broadcast(
                    crate::transcript::m31_of_hash(
                        crate::transcript::sha256_of(
                            crate::transcript::absorbed_after(a0, j as nat),
                        ),
                    ),
                ) by {
                    if j < k {
                        assert(locs[j] != locs[k as int]);
                        assert(gate_at(self.layers@, locs[j]) == gate_at(pre_layers, locs[j]));
                    } else {
                        assert(v.as_ints() =~= crate::simd_m31::s_broadcast(c.as_int()));
                    }
                }
            }
            k = k + 1;
        }
        proof {
            lemma_locs_shape(lay0, self.layers@, lay0.len() as nat);
        }
    }

    /// Copies, for every identified PublicInput coefficient, the packed
    /// public-input value it names.
    pub fn fill_pub_coefs(&mut self, public_inputs: &Vec<crate::simd_m31::AVXM31>)
        requires
            old(self).wf(),
            old(self).special_coefs_identified,
            forall|t: int|
                0 <= t < old(self).pub_coefs@.len() ==> (#[trigger] old(self).pub_coefs@[t]).0
                    < public_inputs@.len(),
            forall|t: int| 0 <= t < public_inputs@.len() ==> (#[trigger] public_inputs@[t]).wf(),
        ensures
            final(self).wf(),
            final(self).special_coefs_identified,
            final(self).rnd_coefs@ == old(self).rnd_coefs@,
            final(self).pub_coefs@ == old(self).pub_coefs@,
            layers_shape_eq(old(self).layers@, final(self).layers@),
            forall|k: int|
                0 <= k < old(self).pub_coefs@.len() ==> coef_at(
                    final(self).layers@,
                    (#[trigger] old(self).pub_coefs@[k]).1,
                ) == public_inputs@[old(self).pub_coefs@[k].0 as int].as_ints(),
            forall|loc: CoefLocator|
                loc_valid(old(self).layers@, loc) && !((#[trigger] gate_at(
                    old(self).layers@,
                    loc,
                )).coef_type is PublicInput) ==> gate_at(final(self).layers@, loc) == gate_at(
                    old(self).layers@,
                    loc,
                ),
            forall|i: int|
                0 <= i < old(self).layers@.len()
                    ==> (#[trigger] final(self).layers@[i]).input_vals@
                    == old(self).layers@[i].input_vals@
                    && final(self).layers@[i].output_vals@
                    == old(self).layers@[i].output_vals@,
    {
        let ghost locs = self.pub_coefs@;
        let ghost lay0 = self.layers@;
        proof {
            vstd::std_specs::vec::axiom_spec_len(&self.layers);
            lemma_pub_locs_valid(lay0, lay0.len() as nat);
        }
        let n = self.pub_coefs.len();
        let mut k: usize = 0;
        while k < n
            invariant
                locs == pub_locs_upto(lay0, lay0.len() as nat),
                self.rnd_coefs@ == old(self).rnd_coefs@,
                self.pub_coefs@ == old(self).pub_coefs@,
                self.special_coefs_identified == old(self).special_coefs_identified,
                locs == old(self).pub_coefs@,
                lay0 == old(self).layers@,
                old(self).wf(),
                old(self).special_coefs_identified,
                forall|t: int|
                    0 <= t < locs.len() ==> (#[trigger] locs[t]).0 < public_inputs@.len(),
                forall|t: int|
                    0 <= t < public_inputs@.len() ==> (#[trigger] public_inputs@[t]).wf(),
                n == locs.len(),
                k <= n,
                self.layers@.len() == lay0.len(),
                layers_shape_eq(lay0, self.layers@),
                forall|t: int|
                    0 <= t < locs.len() ==> loc_valid(lay0, (#[trigger] locs[t]).1) && gate_at(
                        lay0,
                        locs[t].1,
                    ).coef_type == CoefType::PublicInput(locs[t].0),
                forall|loc2: CoefLocator| loc_valid(lay0, loc2) == loc_valid(self.layers@, loc2),
                forall|i: int|
                    0 <= i < lay0.len() ==> (#[trigger] self.layers@[i]).input_vals@
                        == lay0[i].input_vals@ && self.layers@[i].output_vals@
                        == lay0[i].output_vals@,
                forall|j: int|
                    0 <= j < k ==> coef_at(self.layers@, (#[trigger] locs[j]).1)
                        == public_inputs@[locs[j].0 as int].as_ints(),
                forall|loc2: CoefLocator|
                    loc_valid(lay0, loc2) && !((#[trigger] gate_at(lay0, loc2)).coef_type
                        is PublicInput) ==> gate_at(self.layers@, loc2) == gate_at(lay0, loc2),
                forall|i: int| 0 <= i < self.layers@.len() ==> (#[trigger] self.layers@[i]).wf(),
            decreases n - k,
        {
            let (idx, loc) = self.pub_coefs[k];
            let v = public_inputs[idx];
            let ghost pre_layers = self.layers@;
            set_coef(&mut self.layers, loc, v);
            proof {
                lemma_shape_eq_trans(lay0, pre_layers, self.layers@);
                assert forall|i: int| 0 <= i < self.layers@.len() implies (
                #[trigger] self.layers@[i]).wf() by {
                    assert(pre_layers[i].wf());
                }
                assert forall|j: int| 0 <= j < k + 1 implies coef_at(
                    self.layers@,
                    (#[trigger] locs[j]).1,
                ) == public_inputs@[locs[j].0 as int].as_ints() by {
                    if j < k {
                        if locs[j].1 == loc {
                            assert(gate_at(lay0, locs[j].1).coef_type == CoefType::PublicInput(
                                locs[j].0,
                            ));
                            assert(gate_at(lay0, loc).coef_type == CoefType::PublicInput(idx));
                            assert(locs[j].0 == idx);
                        } else {
                            assert(gate_at(self.layers@, locs[j].1) == gate_at(
                                pre_layers,
                                locs[j].1,
                            ));
                        }
                    }
                }
            }
            k = k + 1;
        }
        proof {
            lemma_locs_shape(lay0, self.layers@, lay0.len() as nat);
        }
    }
}


/// Whether a circuit is ready to evaluate: the first layer's inputs are
/// bound and full, every layer's output space feeds the next layer's
/// input space, and every custom gate type is known.
pub open spec fn eval_ready(layers: Seq<CircuitLayer>) -> bool {
    &&& layers.len() > 0
    &&& layers[0].input_vals@.len() == pow2(layers[0].input_var_num as nat)
    &&& forall|i: int|
        0 <= i < layers.len() - 1 ==> (#[trigger] layers[i + 1].input_var_num)
            == layers[i].output_var_num
    &&& forall|i: int| 0 <= i < layers.len() ==> uni_types_ok((#[trigger] layers[i]).model().uni)
}

/// One layer equals another except for its bound values.
pub open spec fn layer_gates_eq(a: CircuitLayer, b: CircuitLayer) -> bool {
    &&& a.input_var_num == b.input_var_num
    &&& a.output_var_num == b.output_var_num
    &&& a.mul@ == b.mul@
    &&& a.add@ == b.add@
    &&& a.const_@ == b.const_@
    &&& a.uni@ == b.uni@
}

impl Circuit {
    /// The base-two logarithm of the input layer's size.
    pub fn log_input_size(&self) -> (r: usize)
        requires
            self.layers@.len() > 0,
        ensures
            r == self.layers@[0].input_var_num,
    {
        self.layers[0].input_var_num
    }

    /// The input layer's bound values.
    pub fn input(&self) -> (r: &Vec<AVXM31>)
        requires
            self.layers@.len() > 0,
        ensures
            r@ == self.layers@[0].input_vals@,
    {
        &self.layers[0].input_vals
    }

    /// Binds the input layer's values.
    pub fn set_inputs(&mut self, vals: Vec<AVXM31>)
        requires
            old(self).layers@.len() > 0,
            forall|i: int| 0 <= i < vals@.len() ==> (#[trigger] vals@[i]).wf(),
        ensures
            final(self).layers@.len() == old(self).layers@.len(),
            final(self).layers@[0].input_vals@ == vals@,
            forall|i: int|
                0 < i < old(self).layers@.len() ==> #[trigger] final(self).layers@[i] == old(
                    self,
                ).layers@[i],
            layer_gates_eq(old(self).layers@[0], final(self).layers@[0]),
            final(self).layers@[0].output_vals@ == old(self).layers@[0].output_vals@,
            final(self).rnd_coefs@ == old(self).rnd_coefs@,
            final(self).pub_coefs@ == old(self).pub_coefs@,
            final(self).special_coefs_identified == old(self).special_coefs_identified,
            old(self).wf() ==> final(self).wf(),
    {
        self.layers[0].input_vals = vals;
        proof {
            if old(self).wf() {
                assert forall|i: int| 0 <= i < self.layers@.len() implies (
                #[trigger] self.layers@[i]).wf() by {
                    assert(old(self).layers@[i].wf());
                    if i > 0 {
                        assert(self.layers@[i] == old(self).layers@[i]);
                    }
                }
                assert(layers_shape_eq(old(self).layers@, self.layers@)) by {
                    assert forall|i: int| 0 <= i < self.layers@.len() implies layer_shape_eq(
                        (#[trigger] old(self).layers@[i]).model(),
                        self.layers@[i].model(),
                    ) by {
                        if i > 0 {
                            assert(self.layers@[i] == old(self).layers@[i]);
                        }
                    }
                }
                lemma_locs_shape(old(self).layers@, self.layers@, self.layers@.len() as nat);
            }
        }
    }

    /// Evaluates the circuit, layer by layer: each layer's outputs
    /// become the next layer's inputs, the last layer's outputs are
    /// kept. Fails exactly when the circuit is not ready.
    pub fn evaluate(&mut self) -> (out: Result<(), CircuitError>)
        requires
            old(self).wf(),
            old(self).layers@.len() > 0,
        ensures
            out is Ok <==> eval_ready(old(self).layers@),
            out is Ok ==> {
                &&& final(self).layers@.len() == old(self).layers@.len()
                &&& forall|i: int|
                    0 <= i < old(self).layers@.len() ==> layer_gates_eq(
                        #[trigger] old(self).layers@[i],
                        final(self).layers@[i],
                    )
                &&& final(self).layers@[0].input_vals@ == old(self).layers@[0].input_vals@
                &&& forall|i: int|
                    0 <= i < old(self).layers@.len() - 1 ==> lane_views(
                        #[trigger] final(self).layers@[i + 1].input_vals@,
                    ) == eval_layer(final(self).layers@[i].model())
                &&& lane_views(
                    final(self).layers@[old(self).layers@.len() - 1].output_vals@,
                ) == eval_layer(final(self).layers@[old(self).layers@.len() - 1].model())
                &&& final(self).wf()
                &&& final(self).rnd_coefs@ == old(self).rnd_coefs@
                &&& final(self).pub_coefs@ == old(self).pub_coefs@
                &&& final(self).special_coefs_identified == old(
                    self,
                ).special_coefs_identified
            },
    {
        let n = self.layers.len();
        let sz0 = crate::bytes::pow2_exact(self.layers[0].input_var_num);
        if self.layers[0].input_vals.len() != sz0 {
            return Err(CircuitError::BadWitness);
        }
        let mut i: usize = 0;
        while i < n
            invariant
                old(self).wf(),
                n == self.layers@.len(),
                n == old(self).layers@.len(),
                n > 0,
                i <= n,
                self.rnd_coefs@ == old(self).rnd_coefs@,
                self.pub_coefs@ == old(self).pub_coefs@,
                self.special_coefs_identified == old(self).special_coefs_identified,
                forall|t: int| 0 <= t < n ==> (#[trigger] self.layers@[t]).wf(),
                forall|t: int|
                    0 <= t < n ==> layer_gates_eq(
                        #[trigger] old(self).layers@[t],
                        self.layers@[t],
                    ),
                layers_shape_eq(old(self).layers@, self.layers@),
                self.layers@[0].input_vals@ == old(self).layers@[0].input_vals@,
                self.layers@[0].input_vals@.len() == pow2(
                    self.layers@[0].input_var_num as nat,
                ),
                forall|t: int|
                    i <= t < n ==> (#[trigger] self.layers@[t]).input_vals@ == old(
                        self,
                    ).layers@[t].input_vals@ || t == i,
                i < n ==> self.layers@[i as int].input_vals@.len() == pow2(
                    self.layers@[i as int].input_var_num as nat,
                ),
                forall|t: int|
                    0 <= t < i && t < n - 1 ==> (#[trigger] self.layers@[t + 1].input_var_num)
                        == self.layers@[t].output_var_num,
                forall|t: int|
                    0 <= t < i ==> uni_types_ok((#[trigger] self.layers@[t]).model().uni),
                forall|t: int|
                    0 <= t < i && t < n - 1 ==> lane_views(
                        #[trigger] self.layers@[t + 1].input_vals@,
                    ) == eval_layer(self.layers@[t].model()),
                forall|t: int|
                    0 <= t < n ==> (#[trigger] self.layers@[t]).output_vals@ == old(
                        self,
                    ).layers@[t].output_vals@ || (t == n - 1 && i == n),
                i == n ==> lane_views(self.layers@[n - 1].output_vals@) == eval_layer(
                    self.layers@[n - 1].model(),
                ),
            decreases n - i,
        {
            let mut buf: Vec<AVXM31> = Vec::new();
            let ghost pre = self.layers@;
            match self.layers[i].evaluate(&mut buf) {
                Ok(()) => {},
                Err(e) => {
                    proof {
                        assert(!uni_types_ok(old(self).layers@[i as int].model().uni)) by {
                            assert(layer_gates_eq(old(self).layers@[i as int], pre[i as int]));
                            assert(old(self).layers@[i as int].model().uni =~= pre[i as int].model().uni);
                        }
                    }
                    return Err(e);
                },
            }
            if i + 1 < n {
                if self.layers[i + 1].input_var_num != self.layers[i].output_var_num {
                    proof {
                        assert(old(self).layers@[i + 1].input_var_num != old(
                            self,
                        ).layers@[i as int].output_var_num);
                    }
                    return Err(CircuitError::BadWitness);
                }
                self.layers[i + 1].input_vals = buf;
                proof {
                    assert forall|t: int| 0 <= t < n implies (#[trigger] self.layers@[t]).wf() by {
                        assert(pre[t].wf());
                        if t != i + 1 {
                            assert(self.layers@[t] == pre[t]);
                        }
                    }
                    assert(layers_shape_eq(pre, self.layers@)) by {
                        assert forall|t: int| 0 <= t < n implies layer_shape_eq(
                            (#[trigger] pre[t]).model(),
                            self.layers@[t].model(),
                        ) by {
                            if t != i + 1 {
                                assert(self.layers@[t] == pre[t]);
                            }
                        }
                    }
                    lemma_shape_eq_trans(old(self).layers@, pre, self.layers@);
                    assert(eval_layer(self.layers@[i as int].model()) == eval_layer(
                        pre[i as int].model(),
                    )) by {
                        assert(self.layers@[i as int] == pre[i as int]);
                    }
                }
            } else {
                self.layers[i].output_vals = buf;
                proof {
                    assert forall|t: int| 0 <= t < n implies (#[trigger] self.layers@[t]).wf() by {
                        assert(pre[t].wf());
                        if t != i as int {
                            assert(self.layers@[t] == pre[t]);
                        }
                    }
                    assert(layers_shape_eq(pre, self.layers@)) by {
                        assert forall|t: int| 0 <= t < n implies layer_shape_eq(
                            (#[trigger] pre[t]).model(),
                            self.layers@[t].model(),
                        ) by {
                            if t != i as int {
                                assert(self.layers@[t] == pre[t]);
                            }
                        }
                    }
                    lemma_shape_eq_trans(old(self).layers@, pre, self.layers@);
                    assert(eval_layer(self.layers@[i as int].model()) == eval_layer(
                        pre[i as int].model(),
                    )) by {
                        let a = pre[i as int].model();
                        let b = self.layers@[i as int].model();
                        assert(a.uni == b.uni && a.mul == b.mul && a.add == b.add && a.const_
                            == b.const_ && a.input_vals == b.input_vals && a.output_var_num
                            == b.output_var_num);
                    }
                }
            }
            i = i + 1;
        }
        proof {
            assert(eval_ready(old(self).layers@)) by {
                assert forall|t: int|
                    0 <= t < n ==> uni_types_ok(
                        (#[trigger] old(self).layers@[t]).model().uni,
                    ) by {
                    if 0 <= t < n {
                        assert(old(self).layers@[t].model().uni =~= self.layers@[t].model().uni);
                    }
                }
                assert forall|t: int|
                    0 <= t < n - 1 ==> (#[trigger] old(self).layers@[t + 1].input_var_num)
                        == old(self).layers@[t].output_var_num by {}
            }
            lemma_locs_shape(old(self).layers@, self.layers@, n as nat);
        }
        Ok(())
    }
}


/// The witness header: the witness count, the private and public input
/// counts per witness, and the position after the field-modulus limbs.
pub open spec fn sp_w_header(data: Seq<u8>) -> Option<(int, int, int, int)> {
    match crate::gate::sp_usize(data, 0) {
        Some((nw, q0)) => match crate::gate::sp_usize(data, q0) {
            Some((n_in, q1)) => match crate::gate::sp_usize(data, q1) {
                Some((n_pub, q2)) => if q2 + 32 <= data.len() {
                    Some((nw, n_in, n_pub, q2 + 32))
                } else {
                    None
                },
                None => None,
            },
            None => None,
        },
        None => None,
    }
}

/// How many witnesses are read: at most the lane count.
pub open spec fn w_nwr(nw: int) -> int {
    if nw < 8 {
        nw
    } else {
        8
    }
}

/// Where witness `i`'s element `j` lies in the stream.
pub open spec fn w_off(base: int, stride: int, i: int, j: int) -> int {
    base + (i * stride + j) * 32
}

/// Every element of every read witness parses.
pub open spec fn w_all_parse(data: Seq<u8>, base: int, stride: int, nwr: int) -> bool {
    forall|i: int, j: int|
        0 <= i < nwr && 0 <= j < stride ==> crate::gate::sp_ecc_m31(
            data,
            #[trigger] w_off(base, stride, i, j),
        ) is Some
}

/// The value of witness `i`'s element `j`.
pub open spec fn w_val(data: Seq<u8>, base: int, stride: int, i: int, j: int) -> int {
    crate::gate::sp_ecc_m31(data, w_off(base, stride, i, j))->Some_0.0
}

/// Lane `l` of packed element `j`: the witness value for read lanes,
/// zero for padding lanes.
pub open spec fn w_lane_val(
    data: Seq<u8>,
    base: int,
    stride: int,
    nwr: int,
    l: int,
    j: int,
) -> int {
    if l < nwr {
        w_val(data, base, stride, l, j)
    } else {
        0
    }
}

/// The packed value of one stream element across the witness lanes.
pub open spec fn w_simd(data: Seq<u8>, base: int, stride: int, nwr: int, j: int) -> Seq<int> {
    Seq::new(8nat, |l: int| w_lane_val(data, base, stride, nwr, l, j))
}

impl Circuit {
    /// Transposes an eight-row table of scalars into packed values: one
    /// packed element per column, one row per lane.
    pub fn vec_2d_to_vec_simd(vec2d: &Vec<Vec<M31>>, n: usize) -> (r: Vec<AVXM31>)
        requires
            vec2d@.len() == 8,
            forall|i: int| 0 <= i < 8 ==> (#[trigger] vec2d@[i])@.len() == n,
            forall|i: int, j: int|
                0 <= i < 8 && 0 <= j < n ==> (#[trigger] vec2d@[i]@[j]).wf(),
        ensures
            r@.len() == n,
            forall|j: int| 0 <= j < n ==> (#[trigger] r@[j]).wf(),
            forall|j: int, l: int|
                0 <= j < n && 0 <= l < 8 ==> #[trigger] r@[j].as_ints()[l]
                    == vec2d@[l]@[j].as_int(),
    {
        let mut out: Vec<AVXM31> = Vec::new();
        let mut j: usize = 0;
        while j < n
            invariant
                vec2d@.len() == 8,
                forall|i: int| 0 <= i < 8 ==> (#[trigger] vec2d@[i])@.len() == n,
                forall|i: int, t: int|
                    0 <= i < 8 && 0 <= t < n ==> (#[trigger] vec2d@[i]@[t]).wf(),
                j <= n,
                out@.len() == j,
                forall|t: int| 0 <= t < j ==> (#[trigger] out@[t]).wf(),
                forall|t: int, l: int|
                    0 <= t < j && 0 <= l < 8 ==> #[trigger] out@[t].as_ints()[l]
                        == vec2d@[l]@[t].as_int(),
            decreases n - j,
        {
            let mut scalars: Vec<M31> = Vec::new();
            let mut l: usize = 0;
            while l < 8
                invariant
                    vec2d@.len() == 8,
                    forall|i: int| 0 <= i < 8 ==> (#[trigger] vec2d@[i])@.len() == n,
                    forall|i: int, t: int|
                        0 <= i < 8 && 0 <= t < n ==> (#[trigger] vec2d@[i]@[t]).wf(),
                    j < n,
                    l <= 8,
                    scalars@.len() == l,
                    forall|t: int|
                        0 <= t < l ==> (#[trigger] scalars@[t]).wf() && scalars@[t]
                            == vec2d@[t]@[j as int],
                decreases 8 - l,
            {
                scalars.push(vec2d[l][j]);
                l = l + 1;
            }
            let packed = AVXM31::from_scalar_array(&scalars);
            out.push(packed);
            j = j + 1;
        }
        out
    }

    /// Decodes a witness stream: binds the private inputs of the first
    /// `SIMD` witnesses as the input layer's packed values, zero in the
    /// padding lanes, and copies the packed public inputs into every
    /// identified PublicInput coefficient.
    pub fn load_witness_bytes(&mut self, file_bytes: &[u8]) -> (out: Result<(), CircuitError>)
        requires
            old(self).wf(),
            old(self).special_coefs_identified,
            old(self).layers@.len() > 0,
        ensures
            out is Ok ==> {
                let (nw, n_in, n_pub, base) = sp_w_header(file_bytes@)->Some_0;
                let stride = n_in + n_pub;
                let nwr = w_nwr(nw);
                &&& sp_w_header(file_bytes@) is Some
                &&& n_in == pow2(old(self).layers@[0].input_var_num as nat)
                &&& w_all_parse(file_bytes@, base, stride, nwr)
                &&& (forall|t: int|
                    0 <= t < old(self).pub_coefs@.len() ==> (
                    #[trigger] old(self).pub_coefs@[t]).0 < n_pub)
                &&& final(self).layers@[0].input_vals@.len() == n_in
                &&& (forall|j: int|
                    0 <= j < n_in ==> (#[trigger] final(self).layers@[0].input_vals@[j]).as_ints()
                        == w_simd(file_bytes@, base, stride, nwr, j))
                &&& (forall|k: int|
                    0 <= k < old(self).pub_coefs@.len() ==> coef_at(
                        final(self).layers@,
                        (#[trigger] old(self).pub_coefs@[k]).1,
                    ) == w_simd(
                        file_bytes@,
                        base,
                        stride,
                        nwr,
                        n_in + old(self).pub_coefs@[k].0,
                    ))
                &&& final(self).wf()
                &&& final(self).special_coefs_identified
                &&& final(self).rnd_coefs@ == old(self).rnd_coefs@
                &&& final(self).pub_coefs@ == old(self).pub_coefs@
                &&& layers_shape_eq(old(self).layers@, final(self).layers@)
                &&& final(self).layers@.len() == old(self).layers@.len()
            },
            out is Err ==> !{
                let (nw, n_in, n_pub, base) = sp_w_header(file_bytes@)->Some_0;
                let stride = n_in + n_pub;
                let nwr = w_nwr(nw);
                &&& sp_w_header(file_bytes@) is Some
                &&& n_in == pow2(old(self).layers@[0].input_var_num as nat)
                &&& w_all_parse(file_bytes@, base, stride, nwr)
                &&& (forall|t: int|
                    0 <= t < old(self).pub_coefs@.len() ==> (
                    #[trigger] old(self).pub_coefs@[t]).0 < n_pub)
            },
    {
        let ghost data = file_bytes@;
        let mut r = ByteReader::new(file_bytes);
        let nw = match r.read_usize() {
            Ok(v) => v,
            Err(_) => {
                return Err(CircuitError::Truncated);
            },
        };
        let n_in = match r.read_usize() {
            Ok(v) => v,
            Err(_) => {
                return Err(CircuitError::Truncated);
            },
        };
        let n_pub = match r.read_usize() {
            Ok(v) => v,
            Err(_) => {
                return Err(CircuitError::Truncated);
            },
        };
        match r.read_u64() {
            Ok(_) => (),
            Err(_) => {
                return Err(CircuitError::Truncated);
            },
        }
        match r.read_u64() {
            Ok(_) => (),
            Err(_) => {
                return Err(CircuitError::Truncated);
            },
        }
        match r.read_u64() {
            Ok(_) => (),
            Err(_) => {
                return Err(CircuitError::Truncated);
            },
        }
        match r.read_u64() {
            Ok(_) => (),
            Err(_) => {
                return Err(CircuitError::Truncated);
            },
        }
        let ghost base = sp_w_header(data)->Some_0.3;
        let ghost stride_g = n_in as int + n_pub as int;
        let ghost nwr_g = w_nwr(nw as int);
        let sz0 = crate::bytes::pow2_exact(self.layers[0].input_var_num);
        if n_in != sz0 {
            return Err(CircuitError::BadWitness);
        }
        let nwr: usize = if nw < 8 {
            nw
        } else {
            8
        };
        // the two tables start as zero rows: unread lanes stay zero
        let mut private_rows: Vec<Vec<M31>> = Vec::new();
        let mut public_rows: Vec<Vec<M31>> = Vec::new();
        let mut z: usize = 0;
        while z < 8
            invariant
                z <= 8,
                private_rows@.len() == z,
                public_rows@.len() == z,
                forall|t: int| 0 <= t < z ==> (#[trigger] private_rows@[t])@.len() == n_in,
                forall|t: int| 0 <= t < z ==> (#[trigger] public_rows@[t])@.len() == n_pub,
                forall|t: int, u: int|
                    0 <= t < z && 0 <= u < n_in ==> (#[trigger] private_rows@[t]@[u]).wf()
                        && private_rows@[t]@[u].as_int() == 0,
                forall|t: int, u: int|
                    0 <= t < z && 0 <= u < n_pub ==> (#[trigger] public_rows@[t]@[u]).wf()
                        && public_rows@[t]@[u].as_int() == 0,
            decreases 8 - z,
        {
            private_rows.push(make_zero_row(n_in));
            public_rows.push(make_zero_row(n_pub));
            z = z + 1;
        }
        let mut i: usize = 0;
        while i < nwr
            invariant
                r.wf(),
                r.data@ == data,
                data == file_bytes@,
                sp_w_header(data) is Some,
                base == sp_w_header(data)->Some_0.3,
                n_in as int == sp_w_header(data)->Some_0.1,
                n_pub as int == sp_w_header(data)->Some_0.2,
                stride_g == n_in as int + n_pub as int,
                nwr_g == w_nwr(sp_w_header(data)->Some_0.0),
                nwr as int == nwr_g,
                nwr <= 8,
                i <= nwr,
                r.pos as int == w_off(base, stride_g, i as int, 0),
                private_rows@.len() == 8,
                public_rows@.len() == 8,
                forall|t: int| 0 <= t < 8 ==> (#[trigger] private_rows@[t])@.len() == n_in,
                forall|t: int| 0 <= t < 8 ==> (#[trigger] public_rows@[t])@.len() == n_pub,
                forall|t: int, u: int|
                    0 <= t < 8 && 0 <= u < n_in ==> (#[trigger] private_rows@[t]@[u]).wf(),
                forall|t: int, u: int|
                    0 <= t < 8 && 0 <= u < n_pub ==> (#[trigger] public_rows@[t]@[u]).wf(),
                forall|t: int, u: int|
                    0 <= t < i && 0 <= u < n_in ==> crate::gate::sp_ecc_m31(
                        data,
                        #[trigger] w_off(base, stride_g, t, u),
                    ) is Some && private_rows@[t]@[u].as_int() == w_val(
                        data,
                        base,
                        stride_g,
                        t,
                        u,
                    ),
                forall|t: int, u: int|
                    0 <= t < i && 0 <= u < n_pub ==> crate::gate::sp_ecc_m31(
                        data,
                        #[trigger] w_off(base, stride_g, t, n_in + u),
                    ) is Some && public_rows@[t]@[u].as_int() == w_val(
                        data,
                        base,
                        stride_g,
                        t,
                        n_in + u,
                    ),
                forall|t: int, u: int|
                    i <= t < 8 && 0 <= u < n_in ==> (#[trigger] private_rows@[t]@[u]).as_int()
                        == 0,
                forall|t: int, u: int|
                    i <= t < 8 && 0 <= u < n_pub ==> (#[trigger] public_rows@[t]@[u]).as_int()
                        == 0,
            decreases nwr - i,
        {
            let mut j: usize = 0;
            while j < n_in
                invariant
                    r.wf(),
                    r.data@ == data,
                    data == file_bytes@,
                    sp_w_header(data) is Some,
                    base == sp_w_header(data)->Some_0.3,
                    n_in as int == sp_w_header(data)->Some_0.1,
                    n_pub as int == sp_w_header(data)->Some_0.2,
                    stride_g == n_in as int + n_pub as int,
                    nwr_g == w_nwr(sp_w_header(data)->Some_0.0),
                    nwr as int == nwr_g,
                    i < nwr <= 8,
                    j <= n_in,
                    r.pos as int == w_off(base, stride_g, i as int, j as int),
                    private_rows@.len() == 8,
                    public_rows@.len() == 8,
                    forall|t: int| 0 <= t < 8 ==> (#[trigger] private_rows@[t])@.len() == n_in,
                    forall|t: int| 0 <= t < 8 ==> (#[trigger] public_rows@[t])@.len() == n_pub,
                    forall|t: int, u: int|
                        0 <= t < 8 && 0 <= u < n_in ==> (#[trigger] private_rows@[t]@[u]).wf(),
                    forall|t: int, u: int|
                        0 <= t < 8 && 0 <= u < n_pub ==> (#[trigger] public_rows@[t]@[u]).wf(),
                    forall|t: int, u: int|
                        0 <= t < i && 0 <= u < n_in ==> crate::gate::sp_ecc_m31(
                            data,
                            #[trigger] w_off(base, stride_g, t, u),
                        ) is Some && private_rows@[t]@[u].as_int() == w_val(
                            data,
                            base,
                            stride_g,
                            t,
                            u,
                        ),
                    forall|t: int, u: int|
                        0 <= t < i && 0 <= u < n_pub ==> crate::gate::sp_ecc_m31(
                            data,
                            #[trigger] w_off(base, stride_g, t, n_in + u),
                        ) is Some && public_rows@[t]@[u].as_int() == w_val(
                            data,
                            base,
                            stride_g,
                            t,
                            n_in + u,
                        ),
                    forall|u: int|
                        0 <= u < j ==> crate::gate::sp_ecc_m31(
                            data,
                            #[trigger] w_off(base, stride_g, i as int, u),
                        ) is Some && private_rows@[i as int]@[u].as_int() == w_val(
                            data,
                            base,
                            stride_g,
                            i as int,
                            u,
                        ),
                    forall|t: int, u: int|
                        i < t < 8 && 0 <= u < n_in ==> (
                        #[trigger] private_rows@[t]@[u]).as_int() == 0,
                    forall|u: int|
                        j <= u < n_in ==> (#[trigger] private_rows@[i as int]@[u]).as_int() == 0,
                    forall|t: int, u: int|
                        i <= t < 8 && 0 <= u < n_pub ==> (
                        #[trigger] public_rows@[t]@[u]).as_int() == 0,
                decreases n_in - j,
            {
                let e = match r.read_ecc_m31() {
                    Ok(v) => v,
                    Err(_) => {
                        proof {
                            assert(!w_all_parse(data, base, stride_g, nwr_g));
                        }
                        return Err(CircuitError::BadWitness);
                    },
                };
                let ghost pr_pre = private_rows@;
                private_rows[i][j] = e;
                proof {
                    assert forall|t: int, u: int|
                        0 <= t < 8 && 0 <= u < n_in && !(t == i as int && u == j as int) implies (
                    #[trigger] private_rows@[t]@[u]) == pr_pre[t]@[u] by {
                        if t != i as int {
                            assert(private_rows@[t] == pr_pre[t]);
                        }
                    }
                    assert(w_off(base, stride_g, i as int, j as int) + 32 == w_off(
                        base,
                        stride_g,
                        i as int,
                        j as int + 1,
                    ));
                }
                j = j + 1;
            }
            let mut j2: usize = 0;
            while j2 < n_pub
                invariant
                    r.wf(),
                    r.data@ == data,
                    data == file_bytes@,
                    sp_w_header(data) is Some,
                    base == sp_w_header(data)->Some_0.3,
                    n_in as int == sp_w_header(data)->Some_0.1,
                    n_pub as int == sp_w_header(data)->Some_0.2,
                    stride_g == n_in as int + n_pub as int,
                    nwr_g == w_nwr(sp_w_header(data)->Some_0.0),
                    nwr as int == nwr_g,
                    i < nwr <= 8,
                    j2 <= n_pub,
                    r.pos as int == w_off(base, stride_g, i as int, n_in as int + j2 as int),
                    private_rows@.len() == 8,
                    public_rows@.len() == 8,
                    forall|t: int| 0 <= t < 8 ==> (#[trigger] private_rows@[t])@.len() == n_in,
                    forall|t: int| 0 <= t < 8 ==> (#[trigger] public_rows@[t])@.len() == n_pub,
                    forall|t: int, u: int|
                        0 <= t < 8 && 0 <= u < n_in ==> (#[trigger] private_rows@[t]@[u]).wf(),
                    forall|t: int, u: int|
                        0 <= t < 8 && 0 <= u < n_pub ==> (#[trigger] public_rows@[t]@[u]).wf(),
                    forall|t: int, u: int|
                        0 <= t < i && 0 <= u < n_in ==> crate::gate::sp_ecc_m31(
                            data,
                            #[trigger] w_off(base, stride_g, t, u),
                        ) is Some && private_rows@[t]@[u].as_int() == w_val(
                            data,
                            base,
                            stride_g,
                            t,
                            u,
                        ),
                    forall|u: int|
                        0 <= u < n_in ==> crate::gate::sp_ecc_m31(
                            data,
                            #[trigger] w_off(base, stride_g, i as int, u),
                        ) is Some && private_rows@[i as int]@[u].as_int() == w_val(
                            data,
                            base,
                            stride_g,
                            i as int,
                            u,
                        ),
                    forall|t: int, u: int|
                        0 <= t < i && 0 <= u < n_pub ==> crate::gate::sp_ecc_m31(
                            data,
                            #[trigger] w_off(base, stride_g, t, n_in + u),
                        ) is Some && public_rows@[t]@[u].as_int() == w_val(
                            data,
                            base,
                            stride_g,
                            t,
                            n_in + u,
                        ),
                    forall|u: int|
                        0 <= u < j2 ==> crate::gate::sp_ecc_m31(
                            data,
                            #[trigger] w_off(base, stride_g, i as int, n_in + u),
                        ) is Some && public_rows@[i as int]@[u].as_int() == w_val(
                            data,
                            base,
                            stride_g,
                            i as int,
                            n_in + u,
                        ),
                    forall|t: int, u: int|
                        i < t < 8 && 0 <= u < n_in ==> (
                        #[trigger] private_rows@[t]@[u]).as_int() == 0,
                    forall|t: int, u: int|
                        i < t < 8 && 0 <= u < n_pub ==> (
                        #[trigger] public_rows@[t]@[u]).as_int() == 0,
                    forall|u: int|
                        j2 <= u < n_pub ==> (#[trigger] public_rows@[i as int]@[u]).as_int()
                            == 0,
                decreases n_pub - j2,
            {
                let e = match r.read_ecc_m31() {
                    Ok(v) => v,
                    Err(_) => {
                        proof {
                            assert(!w_all_parse(data, base, stride_g, nwr_g));
                        }
                        return Err(CircuitError::BadWitness);
                    },
                };
                let ghost pb_pre = public_rows@;
                public_rows[i][j2] = e;
                proof {
                    assert forall|t: int, u: int|
                        0 <= t < 8 && 0 <= u < n_pub && !(t == i as int && u == j2 as int)
                        implies (#[trigger] public_rows@[t]@[u]) == pb_pre[t]@[u] by {
                        if t != i as int {
                            assert(public_rows@[t] == pb_pre[t]);
                        }
                    }
                    assert(w_off(base, stride_g, i as int, n_in as int + j2 as int) + 32
                        == w_off(base, stride_g, i as int, n_in as int + j2 as int + 1));
                }
                j2 = j2 + 1;
            }
            proof {
                assert(w_off(base, stride_g, i as int, n_in as int + n_pub as int) == w_off(
                    base,
                    stride_g,
                    i as int + 1,
                    0,
                )) by (nonlinear_arith)
                    requires
                        stride_g == n_in as int + n_pub as int,
                        base == base,
                ;
            }
            i = i + 1;
        }
        let mut k: usize = 0;
        let npc = self.pub_coefs.len();
        while k < npc
            invariant
                self == old(self),
                data == file_bytes@,
                sp_w_header(data) is Some,
                n_pub as int == sp_w_header(data)->Some_0.2,
                npc == self.pub_coefs@.len(),
                k <= npc,
                forall|t: int| 0 <= t < k ==> (#[trigger] self.pub_coefs@[t]).0 < n_pub,
            decreases npc - k,
        {
            if self.pub_coefs[k].0 >= n_pub {
                return Err(CircuitError::BadWitness);
            }
            k = k + 1;
        }
        let inputs = Self::vec_2d_to_vec_simd(&private_rows, n_in);
        let pubs = Self::vec_2d_to_vec_simd(&public_rows, n_pub);
        proof {
            assert(w_all_parse(data, base, stride_g, nwr_g)) by {
                assert forall|t: int, u: int|
                    0 <= t < nwr_g && 0 <= u < stride_g implies crate::gate::sp_ecc_m31(
                    data,
                    #[trigger] w_off(base, stride_g, t, u),
                ) is Some by {
                    if u < n_in {
                    } else {
                        assert(w_off(base, stride_g, t, n_in + (u - n_in)) == w_off(
                            base,
                            stride_g,
                            t,
                            u,
                        ));
                    }
                }
            }
        }
        self.set_inputs(inputs);
        self.fill_pub_coefs(&pubs);
        proof {
            assert forall|j: int| 0 <= j < n_in implies (#[trigger] self.layers@[0].input_vals@[j]).as_ints()
                =~= w_simd(data, base, stride_g, nwr_g, j) by {
                assert(self.layers@[0].input_vals@[j] == inputs@[j]);
            }
            assert forall|kk: int| 0 <= kk < old(self).pub_coefs@.len() implies coef_at(
                self.layers@,
                (#[trigger] old(self).pub_coefs@[kk]).1,
            ) =~= w_simd(
                data,
                base,
                stride_g,
                nwr_g,
                n_in as int + old(self).pub_coefs@[kk].0,
            ) by {
                assert(coef_at(self.layers@, old(self).pub_coefs@[kk].1)
                    == pubs@[old(self).pub_coefs@[kk].0 as int].as_ints());
            }
            lemma_shape_eq_trans(old(self).layers@, old(self).layers@, self.layers@);
        }
        Ok(())
    }
}

/// A row of field zeros.
fn make_zero_row(n: usize) -> (r: Vec<M31>)
    ensures
        r@.len() == n,
        forall|t: int| 0 <= t < n ==> (#[trigger] r@[t]).wf() && r@[t].as_int() == 0,
{
    let mut v: Vec<M31> = Vec::new();
    let mut i: usize = 0;
    while i < n
        invariant
            i <= n,
            v@.len() == i,
            forall|t: int| 0 <= t < i ==> (#[trigger] v@[t]).wf() && v@[t].as_int() == 0,
        decreases n - i,
    {
        v.push(M31 { v: 0 });
        i = i + 1;
    }
    v
}


impl Circuit {
    /// Decodes a circuit file, flattens the segment DAG, and indexes
    /// the coefficients that are filled in after loading.
    pub fn load_circuit(bytes: &[u8]) -> (out: Result<Circuit, CircuitError>)
        ensures
            out is Ok ==> {
                let (sm, lm) = crate::ecc_circuit::sp_circuit(bytes@)->Some_0;
                &&& crate::ecc_circuit::sp_circuit(bytes@) is Some
                &&& crate::ecc_circuit::flatten_ok(sm, lm)
                &&& out->Ok_0.wf()
                &&& out->Ok_0.special_coefs_identified
                &&& out->Ok_0.layers@.len() == lm.len()
                &&& (forall|l: int|
                    0 <= l < lm.len() ==> crate::ecc_circuit::layer_matches(
                        sm,
                        lm[l],
                        (#[trigger] out->Ok_0.layers@[l]).model(),
                    ) && out->Ok_0.layers@[l].wf())
            },
            out is Err ==> crate::ecc_circuit::sp_circuit(bytes@) is None
                || !crate::ecc_circuit::flatten_ok(
                crate::ecc_circuit::sp_circuit(bytes@)->Some_0.0,
                crate::ecc_circuit::sp_circuit(bytes@)->Some_0.1,
            ),
    {
        let rc = match crate::ecc_circuit::RecursiveCircuit::load(bytes) {
            Ok(v) => v,
            Err(e) => {
                return Err(e);
            },
        };
        let c = match rc.flatten() {
            Ok(v) => v,
            Err(e) => {
                return Err(e);
            },
        };
        Ok(c)
    }
}

} // verus!
