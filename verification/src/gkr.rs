//! The GKR driver: reduces an output claim to an input claim, layer by
//! layer, through the per-layer sumcheck.

use vstd::prelude::*;
use vstd::arithmetic::power2::pow2;
use crate::expander_circuit::{Circuit, CircuitLayer};
use crate::m31_ext::M31Ext3;
use crate::scratchpad::GkrScratchpad;
use crate::simd_ext::{v_zero, SimdM31Ext3};
use crate::sumcheck_helper::{ext_views, fold_pair, simd_views};
use crate::transcript::{absorbed_after, ext_of_hash, sha256_of, Transcript};

verus! {

/// One multilinear fold: the lowest variable bound to `r`.
pub open spec fn fold_once(v: Seq<Seq<Seq<int>>>, r: Seq<int>) -> Seq<Seq<Seq<int>>> {
    Seq::new((v.len() / 2) as nat, |i: int| fold_pair(v[2 * i], v[2 * i + 1], r))
}

/// The multilinear extension of a table, evaluated at a point, lowest
/// variable first.
pub open spec fn ml_eval(v: Seq<Seq<Seq<int>>>, pt: Seq<Seq<int>>) -> Seq<Seq<int>>
    decreases pt.len(),
{
    if pt.len() == 0 {
        if v.len() > 0 {
            v[0]
        } else {
            v_zero()
        }
    } else {
        ml_eval(fold_once(v, pt[0]), pt.drop_first())
    }
}

/// A table folded by a sequence of challenges, lowest variable first.
pub open spec fn fold_seq(v: Seq<Seq<Seq<int>>>, rs: Seq<Seq<int>>) -> Seq<Seq<Seq<int>>>
    decreases rs.len(),
{
    if rs.len() == 0 {
        v
    } else {
        fold_seq(fold_once(v, rs[0]), rs.drop_first())
    }
}

/// Folding is evaluation: the head of the fully folded table is the
/// multilinear evaluation at the challenge point.
pub proof fn lemma_fold_seq_is_ml_eval(v: Seq<Seq<Seq<int>>>, rs: Seq<Seq<int>>)
    ensures
        ml_eval(v, rs) == if fold_seq(v, rs).len() > 0 {
            fold_seq(v, rs)[0]
        } else {
            crate::simd_ext::v_zero()
        },
    decreases rs.len(),
{
    if rs.len() > 0 {
        lemma_fold_seq_is_ml_eval(fold_once(v, rs[0]), rs.drop_first());
    }
}

/// One more challenge folds the already folded table once more.
pub proof fn lemma_fold_seq_push(v: Seq<Seq<Seq<int>>>, rs: Seq<Seq<int>>, r: Seq<int>)
    ensures
        fold_seq(v, rs.push(r)) == fold_once(fold_seq(v, rs), r),
    decreases rs.len(),
{
    if rs.len() == 0 {
        assert(rs.push(r).drop_first() =~= Seq::<Seq<int>>::empty());
        assert(rs.push(r)[0] == r);
        assert(fold_seq(v, rs.push(r)) == fold_seq(fold_once(v, r), rs.push(r).drop_first()));
        assert(fold_seq(fold_once(v, r), Seq::<Seq<int>>::empty()) == fold_once(v, r));
        assert(fold_seq(v, rs) == v);
    } else {
        assert(rs.push(r).drop_first() =~= rs.drop_first().push(r));
        assert(rs.push(r)[0] == rs[0]);
        assert(fold_seq(v, rs.push(r)) == fold_seq(
            fold_once(v, rs[0]),
            rs.drop_first().push(r),
        ));
        lemma_fold_seq_push(fold_once(v, rs[0]), rs.drop_first(), r);
        assert(fold_seq(v, rs) == fold_seq(fold_once(v, rs[0]), rs.drop_first()));
    }
}

/// The challenge scalars a transcript in a given state hands out next.
pub open spec fn drawn_challenges(a0: Seq<u8>, n: nat) -> Seq<Seq<int>> {
    Seq::new(n, |k: int| ext_of_hash(sha256_of(absorbed_after(a0, k as nat))))
}

/// Evaluates the multilinear extension of a packed table at a point by
/// repeated folding.
pub fn eval_multilinear(vals: &Vec<SimdM31Ext3>, point: &Vec<M31Ext3>) -> (r: SimdM31Ext3)
    requires
        vals@.len() == pow2(point@.len()),
        pow2(point@.len()) <= usize::MAX as nat,
        forall|i: int| 0 <= i < vals@.len() ==> (#[trigger] vals@[i]).wf(),
        forall|i: int| 0 <= i < point@.len() ==> (#[trigger] point@[i]).wf(),
    ensures
        r.wf(),
        r.as_lanes() == ml_eval(simd_views(vals@), ext_views(point@)),
{
    let mut buf: Vec<SimdM31Ext3> = Vec::new();
    let n = vals.len();
    let mut t: usize = 0;
    while t < n
        invariant
            n == vals@.len(),
            t <= n,
            buf@.len() == t,
            forall|i: int| 0 <= i < vals@.len() ==> (#[trigger] vals@[i]).wf(),
            forall|i: int| 0 <= i < t ==> #[trigger] buf@[i] == vals@[i],
        decreases n - t,
    {
        buf.push(vals[t]);
        t = t + 1;
    }
    proof {
        assert(buf@ =~= vals@);
    }
    let mut cur = n;
    let rounds = point.len();
    let mut k: usize = 0;
    proof {
        assert(simd_views(buf@.take(cur as int)) =~= simd_views(vals@));
        assert(ext_views(point@).skip(0int) =~= ext_views(point@));
    }
    while k < rounds
        invariant
            rounds == point@.len(),
            forall|i: int| 0 <= i < point@.len() ==> (#[trigger] point@[i]).wf(),
            k <= rounds,
            cur == pow2((rounds - k) as nat),
            cur <= buf@.len(),
            buf@.len() == pow2(rounds as nat),
            forall|i: int| 0 <= i < buf@.len() ==> (#[trigger] buf@[i]).wf(),
            ml_eval(simd_views(buf@.take(cur as int)), ext_views(point@).skip(k as int))
                == ml_eval(simd_views(vals@), ext_views(point@)),
        decreases rounds - k,
    {
        proof {
            vstd::arithmetic::power2::lemma_pow2_adds((rounds - k - 1) as nat, 1);
            vstd::arithmetic::power2::lemma2_to64();
        }
        let half = cur / 2;
        let rk = point[k];
        let ghost pre = buf@;
        let mut i: usize = 0;
        while i < half
            invariant
                rk.wf(),
                2 * half == cur,
                cur <= buf@.len(),
                buf@.len() == pre.len(),
                i <= half,
                forall|u: int| 0 <= u < buf@.len() ==> (#[trigger] buf@[u]).wf(),
                forall|u: int| i <= u < buf@.len() ==> #[trigger] buf@[u] == pre[u],
                forall|u: int|
                    0 <= u < i ==> (#[trigger] buf@[u]).as_lanes() == fold_pair(
                        pre[2 * u].as_lanes(),
                        pre[2 * u + 1].as_lanes(),
                        rk.as_ints(),
                    ),
            decreases half - i,
        {
            let a = buf[2 * i];
            let b = buf[2 * i + 1];
            let folded = a.add(&b.sub(&a).scale(&rk));
            buf[i] = folded;
            i = i + 1;
        }
        proof {
            assert(simd_views(buf@.take(half as int)) =~~= fold_once(
                simd_views(pre.take(cur as int)),
                rk.as_ints(),
            ));
            assert(ext_views(point@).skip(k as int)[0] == rk.as_ints());
            assert(ext_views(point@).skip(k as int).drop_first() =~= ext_views(point@).skip(
                k + 1,
            ));
        }
        cur = half;
        k = k + 1;
    }
    proof {
        vstd::arithmetic::power2::lemma2_to64();
        assert(cur == 1);
        assert(ext_views(point@).skip(rounds as int) =~= Seq::<Seq<int>>::empty());
        assert(simd_views(buf@.take(1int))[0] == buf@[0].as_lanes());
    }
    buf[0]
}


/// The bytes the prover emits for the first `k` layers: two phases of
/// `288` bytes per round and the two `96`-byte claims, per layer.
pub open spec fn total_proof_bytes(layers: Seq<CircuitLayer>, k: nat) -> int
    decreases k,
{
    if k == 0 || k > layers.len() {
        0
    } else {
        total_proof_bytes(layers, (k - 1) as nat) + 2 * layers[k - 1].input_var_num * 288 + 192
    }
}

/// The bytes the transcript absorbs for the first `k` layers: the
/// emitted bytes, one digest per round, and the two combining draws.
pub open spec fn total_absorbed_bytes(layers: Seq<CircuitLayer>, k: nat) -> int
    decreases k,
{
    if k == 0 || k > layers.len() {
        0
    } else {
        total_absorbed_bytes(layers, (k - 1) as nat) + 2 * layers[k - 1].input_var_num * 320
            + 192 + 64
    }
}

/// The emitted and absorbed byte counts are nonnegative and grow with
/// the layer count.
proof fn lemma_total_bytes_mono(layers: Seq<CircuitLayer>, i: nat, k: nat)
    requires
        i <= k,
        k <= layers.len(),
    ensures
        total_proof_bytes(layers, i) <= total_proof_bytes(layers, k),
        total_absorbed_bytes(layers, i) <= total_absorbed_bytes(layers, k),
        total_proof_bytes(layers, i) >= 0,
        total_absorbed_bytes(layers, i) >= 0,
    decreases k,
{
    if k > 0 {
        assert(2 * layers[k - 1].input_var_num * 288 >= 0) by (nonlinear_arith);
        assert(2 * layers[k - 1].input_var_num * 320 >= 0) by (nonlinear_arith);
        if i == k {
            lemma_total_bytes_mono(layers, (i - 1) as nat, (k - 1) as nat);
        } else {
            lemma_total_bytes_mono(layers, i, (k - 1) as nat);
        }
    }
}

/// The scratchpad is large enough for every layer of the circuit.
pub open spec fn sp_fits(sp: GkrScratchpad, c: Circuit) -> bool {
    forall|i: int|
        0 <= i < c.layers@.len() ==> {
            let l = #[trigger] c.layers@[i];
            &&& sp.v_evals@.len() >= pow2(l.input_var_num as nat)
            &&& sp.hg_evals_5@.len() >= pow2(l.input_var_num as nat)
            &&& sp.gate_exists_5@.len() >= pow2(l.input_var_num as nat)
            &&& sp.eq_evals_at_rx@.len() >= pow2(l.input_var_num as nat)
            &&& sp.eq_evals_at_rz0@.len() >= pow2(l.output_var_num as nat)
            &&& sp.eq_evals_at_rz1@.len() >= pow2(l.output_var_num as nat)
            &&& sp.eq_evals_first_half@.len() >= pow2((l.output_var_num / 2) as nat)
            &&& sp.eq_evals_second_half@.len() >= pow2(
                (l.output_var_num - l.output_var_num / 2) as nat,
            )
            &&& sp.eq_evals_first_half@.len() >= pow2((l.input_var_num / 2) as nat)
            &&& sp.eq_evals_second_half@.len() >= pow2(
                (l.input_var_num - l.input_var_num / 2) as nat,
            )
        }
}

/// Proves an evaluated circuit: draws the output point, computes the
/// claimed output evaluation, and reduces the claim layer by layer to
/// an input claim at the two returned points.
#[verifier::rlimit(100)]
pub fn gkr_prove(circuit: &Circuit, sp: &mut GkrScratchpad, transcript: &mut Transcript) -> (out: (
    SimdM31Ext3,
    Vec<M31Ext3>,
    Vec<M31Ext3>,
))
    requires
        circuit.wf(),
        circuit.layers@.len() > 0,
        forall|i: int|
            0 <= i < circuit.layers@.len() ==> pow2(
                (#[trigger] circuit.layers@[i]).input_var_num as nat,
            ) <= usize::MAX as nat && pow2(circuit.layers@[i].output_var_num as nat)
                <= usize::MAX as nat,
        forall|i: int|
            0 <= i < circuit.layers@.len() ==> (#[trigger] circuit.layers@[i]).input_vals@.len()
                == pow2(circuit.layers@[i].input_var_num as nat),
        forall|i: int|
            0 <= i < circuit.layers@.len() - 1
                ==> (#[trigger] circuit.layers@[i + 1].input_var_num)
                == circuit.layers@[i].output_var_num,
        circuit.layers@[circuit.layers@.len() - 1].output_vals@.len() == pow2(
            circuit.layers@[circuit.layers@.len() - 1].output_var_num as nat,
        ),
        old(sp).wf(),
        sp_fits(*old(sp), *circuit),
    ensures
        out.0.wf(),
        out.0.as_lanes() == ml_eval(
            crate::sumcheck_helper::promoted_views(
                circuit.layers@[circuit.layers@.len() - 1].output_vals@,
            ),
            drawn_challenges(
                old(transcript).absorbed@,
                circuit.layers@[circuit.layers@.len() - 1].output_var_num as nat,
            ),
        ),
        out.1@.len() == circuit.layers@[0].input_var_num,
        out.2@.len() == circuit.layers@[0].input_var_num,
        forall|i: int| 0 <= i < out.1@.len() ==> (#[trigger] out.1@[i]).wf(),
        forall|i: int| 0 <= i < out.2@.len() ==> (#[trigger] out.2@[i]).wf(),
        final(sp).wf(),
        final(transcript).proof@.len() == old(transcript).proof@.len() + total_proof_bytes(
            circuit.layers@,
            circuit.layers@.len(),
        ),
        final(transcript).absorbed@.len() == old(transcript).absorbed@.len() + 32 * (
        circuit.layers@[circuit.layers@.len() - 1].output_var_num as int) + total_absorbed_bytes(
            circuit.layers@,
            circuit.layers@.len(),
        ),
        final(transcript).proof@.subrange(0, old(transcript).proof@.len() as int) == old(
            transcript,
        ).proof@,
        final(transcript).absorbed@.subrange(0, old(transcript).absorbed@.len() as int) == old(
            transcript,
        ).absorbed@,
{
    let ghost a0 = transcript.absorbed@;
    let ghost proof_base = transcript.proof@;
    let layer_num = circuit.layers.len();
    let last = layer_num - 1;
    let ovn_last = circuit.layers[last].output_var_num;
    let mut rz0: Vec<M31Ext3> = Vec::new();
    let mut rz1: Vec<M31Ext3> = Vec::new();
    let zero = M31Ext3::zero();
    let mut k: usize = 0;
    while k < ovn_last
        invariant
            k <= ovn_last,
            rz0@.len() == k,
            rz1@.len() == k,
            zero.wf(),
            a0 == old(transcript).absorbed@,
            proof_base == old(transcript).proof@,
            transcript.absorbed@ == absorbed_after(a0, k as nat),
            transcript.absorbed@.len() == a0.len() + 32 * k,
            transcript.absorbed@.subrange(0, a0.len() as int) == a0,
            transcript.proof@ == old(transcript).proof@,
            forall|i: int| 0 <= i < k ==> (#[trigger] rz0@[i]).wf(),
            forall|i: int| 0 <= i < k ==> (#[trigger] rz1@[i]).wf(),
            forall|i: int|
                0 <= i < k ==> (#[trigger] rz0@[i]).as_ints() == drawn_challenges(
                    a0,
                    ovn_last as nat,
                )[i],
        decreases ovn_last - k,
    {
        let c = transcript.challenge_f();
        rz0.push(c);
        rz1.push(zero);
        proof {
            let ak = absorbed_after(a0, k as nat);
            assert(absorbed_after(ak, 0) == ak);
            assert(absorbed_after(ak, 1) == ak + sha256_of(ak));
            assert(absorbed_after(a0, (k + 1) as nat) == absorbed_after(a0, k as nat)
                + sha256_of(absorbed_after(a0, k as nat)));
            assert(transcript.absorbed@.subrange(0, a0.len() as int) =~= a0);
        }
        k = k + 1;
    }
    let mut alpha = M31Ext3::one();
    let mut beta = M31Ext3::zero();
    let mut output_vals_field: Vec<SimdM31Ext3> = Vec::new();
    let out_len = circuit.layers[last].output_vals.len();
    let mut t: usize = 0;
    while t < out_len
        invariant
            last == circuit.layers@.len() - 1,
            circuit.wf(),
            out_len == circuit.layers@[last as int].output_vals@.len(),
            t <= out_len,
            output_vals_field@.len() == t,
            forall|i: int| 0 <= i < t ==> (#[trigger] output_vals_field@[i]).wf(),
            forall|i: int|
                0 <= i < t ==> (#[trigger] output_vals_field@[i]).as_lanes()
                    == crate::sumcheck_helper::promoted_views(
                    circuit.layers@[last as int].output_vals@,
                )[i],
        decreases out_len - t,
    {
        proof {
            assert(circuit.layers@[last as int].wf());
        }
        let p = SimdM31Ext3::promote(&circuit.layers[last].output_vals[t]);
        output_vals_field.push(p);
        t = t + 1;
    }
    proof {
        assert(ext_views(rz0@) =~= drawn_challenges(a0, ovn_last as nat));
        assert(simd_views(output_vals_field@) =~~= crate::sumcheck_helper::promoted_views(
            circuit.layers@[last as int].output_vals@,
        ));
    }
    let claimed_v = eval_multilinear(&output_vals_field, &rz0);
    let mut i: usize = layer_num;
    while i > 0
        invariant
            circuit.wf(),
            layer_num == circuit.layers@.len(),
            i <= layer_num,
            forall|t2: int|
                0 <= t2 < circuit.layers@.len() ==> pow2(
                    (#[trigger] circuit.layers@[t2]).input_var_num as nat,
                ) <= usize::MAX as nat && pow2(circuit.layers@[t2].output_var_num as nat)
                    <= usize::MAX as nat,
            forall|t2: int|
                0 <= t2 < circuit.layers@.len() ==> (
                #[trigger] circuit.layers@[t2]).input_vals@.len() == pow2(
                    circuit.layers@[t2].input_var_num as nat,
                ),
            forall|t2: int|
                0 <= t2 < circuit.layers@.len() - 1 ==> (#[trigger] circuit.layers@[t2
                    + 1].input_var_num) == circuit.layers@[t2].output_var_num,
            sp.wf(),
            sp_fits(*sp, *circuit),
            sp.v_evals@.len() == old(sp).v_evals@.len(),
            sp.hg_evals_5@.len() == old(sp).hg_evals_5@.len(),
            sp.gate_exists_5@.len() == old(sp).gate_exists_5@.len(),
            sp.eq_evals_at_rx@.len() == old(sp).eq_evals_at_rx@.len(),
            sp.eq_evals_at_rz0@.len() == old(sp).eq_evals_at_rz0@.len(),
            sp.eq_evals_at_rz1@.len() == old(sp).eq_evals_at_rz1@.len(),
            sp.eq_evals_first_half@.len() == old(sp).eq_evals_first_half@.len(),
            sp.eq_evals_second_half@.len() == old(sp).eq_evals_second_half@.len(),
            alpha.wf(),
            beta.wf(),
            a0 == old(transcript).absorbed@,
            proof_base == old(transcript).proof@,
            ovn_last as int == circuit.layers@[layer_num - 1].output_var_num,
            transcript.proof@.len() == proof_base.len() + total_proof_bytes(
                circuit.layers@,
                layer_num as nat,
            ) - total_proof_bytes(circuit.layers@, i as nat),
            transcript.absorbed@.len() == a0.len() + 32 * (ovn_last as int)
                + total_absorbed_bytes(circuit.layers@, layer_num as nat)
                - total_absorbed_bytes(circuit.layers@, i as nat),
            transcript.proof@.subrange(0, proof_base.len() as int) == proof_base,
            transcript.absorbed@.subrange(0, a0.len() as int) == a0,
            i > 0 ==> rz0@.len() == circuit.layers@[i - 1].output_var_num,
            i > 0 ==> rz1@.len() == circuit.layers@[i - 1].output_var_num,
            i == 0 ==> rz0@.len() == circuit.layers@[0].input_var_num,
            i == 0 ==> rz1@.len() == circuit.layers@[0].input_var_num,
            forall|u: int| 0 <= u < rz0@.len() ==> (#[trigger] rz0@[u]).wf(),
            forall|u: int| 0 <= u < rz1@.len() ==> (#[trigger] rz1@[u]).wf(),
        decreases i,
    {
        i = i - 1;
        proof {
            assert(circuit.layers@[i as int].wf());
        }
        let ghost pre_proof = transcript.proof@;
        let ghost pre_abs = transcript.absorbed@;
        let (nrz0, nrz1) = crate::sumcheck::sumcheck_prove_gkr_layer(
            &circuit.layers[i],
            rz0,
            rz1,
            &alpha,
            &beta,
            transcript,
            sp,
        );
        rz0 = nrz0;
        rz1 = nrz1;
        proof {
            lemma_total_bytes_mono(circuit.layers@, (i + 1) as nat, layer_num as nat);
            lemma_total_bytes_mono(circuit.layers@, 0, (i + 1) as nat);
            assert(proof_base.len() <= pre_proof.len());
            assert(a0.len() <= pre_abs.len());
            assert(transcript.proof@.subrange(0, pre_proof.len() as int) == pre_proof);
            assert(transcript.absorbed@.subrange(0, pre_abs.len() as int) == pre_abs);
            assert forall|t: int| 0 <= t < proof_base.len() implies #[trigger] transcript.proof@[t]
                == proof_base[t] by {
                assert(transcript.proof@[t] == transcript.proof@.subrange(
                    0,
                    pre_proof.len() as int,
                )[t]);
                assert(pre_proof[t] == pre_proof.subrange(0, proof_base.len() as int)[t]);
            }
            assert(transcript.proof@.subrange(0, proof_base.len() as int) =~= proof_base);
            assert forall|t: int| 0 <= t < a0.len() implies #[trigger] transcript.absorbed@[t]
                == a0[t] by {
                assert(transcript.absorbed@[t] == transcript.absorbed@.subrange(
                    0,
                    pre_abs.len() as int,
                )[t]);
                assert(pre_abs[t] == pre_abs.subrange(0, a0.len() as int)[t]);
            }
            assert(transcript.absorbed@.subrange(0, a0.len() as int) =~= a0);
        }
        let ghost mid_abs = transcript.absorbed@;
        alpha = transcript.challenge_f();
        proof {
            assert(crate::transcript::absorbed_after(mid_abs, 0) == mid_abs);
            assert(transcript.absorbed@ == mid_abs + sha256_of(mid_abs));
        }
        let ghost mid_abs2 = transcript.absorbed@;
        beta = transcript.challenge_f();
        proof {
            assert(crate::transcript::absorbed_after(mid_abs2, 0) == mid_abs2);
            assert(transcript.absorbed@ == mid_abs2 + sha256_of(mid_abs2));
            assert forall|t: int| 0 <= t < a0.len() implies #[trigger] transcript.absorbed@[t]
                == a0[t] by {
                assert(transcript.absorbed@[t] == mid_abs2[t]);
                assert(mid_abs2[t] == mid_abs[t]);
                assert(mid_abs[t] == mid_abs.subrange(0, a0.len() as int)[t]);
            }
            assert(transcript.absorbed@.subrange(0, a0.len() as int) =~= a0);
            assert(total_proof_bytes(circuit.layers@, (i + 1) as nat) == total_proof_bytes(
                circuit.layers@,
                i as nat,
            ) + 2 * circuit.layers@[i as int].input_var_num * 288 + 192);
            assert(total_absorbed_bytes(circuit.layers@, (i + 1) as nat)
                == total_absorbed_bytes(circuit.layers@, i as nat) + 2 * circuit.layers@[
                i as int
            ].input_var_num * 320 + 192 + 64);
            if i > 0 {
                assert(circuit.layers@[i - 1 + 1].input_var_num == circuit.layers@[
                    i - 1
                ].output_var_num);
            }
        }
    }
    (claimed_v, rz0, rz1)
}

} // verus!
