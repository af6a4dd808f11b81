//! The per-layer sumcheck: two phases of `input_var_num` rounds each,
//! every round emitting three evaluations into the transcript and
//! folding on the returned challenge; the two claimed values follow
//! the rounds into the stream.

use vstd::prelude::*;
use vstd::arithmetic::power2::pow2;
use crate::expander_circuit::CircuitLayer;
use crate::m31_ext::M31Ext3;
use crate::scratchpad::GkrScratchpad;
use crate::simd_ext::{simd_ext_bytes, SimdM31Ext3};
use crate::gkr::{fold_once, fold_seq, ml_eval};
use crate::sumcheck_helper::{
    ext_views, fold_pair, phase_round, promoted_views, simd_views, src_table, SumcheckGkrHelper,
};
use crate::transcript::{ext_of_hash, sha256_of, Transcript};

verus! {



/// Emits one round's three evaluations into the transcript: a lean
/// view for the driver; the emitted values' exact sums stand on
/// `SumcheckGkrHelper::poly_evals_at`.
fn emit_round_polys(
    helper: &SumcheckGkrHelper,
    var_idx: usize,
    layer: &CircuitLayer,
    transcript: &mut Transcript,
    sp: &GkrScratchpad,
)
    requires
        helper.wf(),
        var_idx < 2 * helper.input_var_num,
        layer.input_vals@.len() == pow2(helper.input_var_num as nat),
        forall|i: int| 0 <= i < layer.input_vals@.len() ==> (#[trigger] layer.input_vals@[i]).wf(),
        sp.wf(),
        var_idx < helper.input_var_num ==> helper.x_helper.sumcheck_var_idx == var_idx,
        var_idx >= helper.input_var_num ==> helper.y_helper.sumcheck_var_idx == var_idx
            - helper.input_var_num,
        sp.v_evals@.len() >= pow2(helper.input_var_num as nat),
        sp.hg_evals_5@.len() >= pow2(helper.input_var_num as nat),
        sp.gate_exists_5@.len() >= pow2(helper.input_var_num as nat),
    ensures
        final(transcript).proof@.len() == old(transcript).proof@.len() + 288,
        final(transcript).absorbed@.len() == old(transcript).absorbed@.len() + 288,
        ({
            let ch = final(transcript).absorbed@.subrange(
                old(transcript).absorbed@.len() as int,
                old(transcript).absorbed@.len() as int + 288,
            );
            final(transcript).proof@ == old(transcript).proof@ + ch
                && final(transcript).absorbed@ == old(transcript).absorbed@ + ch
        }),
{
    let ps = helper.poly_evals_at(var_idx, 2, layer, sp);
    transcript.append_f(&ps[0]);
    transcript.append_f(&ps[1]);
    transcript.append_f(&ps[2]);
    proof {
        let ch = simd_ext_bytes(ps[0]) + simd_ext_bytes(ps[1]) + simd_ext_bytes(ps[2]);
        assert(transcript.proof@ =~= old(transcript).proof@ + ch);
        assert(transcript.absorbed@ =~= old(transcript).absorbed@ + ch);
        assert(transcript.absorbed@.subrange(
            old(transcript).absorbed@.len() as int,
            old(transcript).absorbed@.len() as int + 288,
        ) =~= ch);
    }
}

/// Folds the tables on one challenge: a lean view for the driver; the
/// exact fold stands on `SumcheckGkrHelper::receive_challenge`.
fn fold_on_challenge(
    helper: &mut SumcheckGkrHelper,
    var_idx: usize,
    r: M31Ext3,
    layer: &CircuitLayer,
    sp: &mut GkrScratchpad,
)
    requires
        old(helper).wf(),
        r.wf(),
        var_idx < 2 * old(helper).input_var_num,
        layer.input_vals@.len() == pow2(old(helper).input_var_num as nat),
        forall|i: int| 0 <= i < layer.input_vals@.len() ==> (#[trigger] layer.input_vals@[i]).wf(),
        old(sp).wf(),
        var_idx < old(helper).input_var_num ==> old(helper).x_helper.sumcheck_var_idx == var_idx,
        var_idx >= old(helper).input_var_num ==> old(helper).y_helper.sumcheck_var_idx == var_idx
            - old(helper).input_var_num,
        old(sp).v_evals@.len() >= pow2(old(helper).input_var_num as nat),
        old(sp).hg_evals_5@.len() >= pow2(old(helper).input_var_num as nat),
        old(sp).gate_exists_5@.len() >= pow2(old(helper).input_var_num as nat),
    ensures
        final(helper).wf(),
        final(helper).input_var_num == old(helper).input_var_num,
        final(helper).output_var_num == old(helper).output_var_num,
        var_idx < old(helper).input_var_num
            ==> final(helper).rx@ == old(helper).rx@.push(r)
            && final(helper).ry@ == old(helper).ry@
            && final(helper).x_helper.sumcheck_var_idx == var_idx + 1
            && final(helper).y_helper == old(helper).y_helper,
        var_idx >= old(helper).input_var_num
            ==> final(helper).ry@ == old(helper).ry@.push(r)
            && final(helper).rx@ == old(helper).rx@
            && final(helper).y_helper.sumcheck_var_idx == var_idx - old(helper).input_var_num
            + 1 && final(helper).x_helper == old(helper).x_helper,
        final(sp).wf(),
        final(sp).v_evals@.len() == old(sp).v_evals@.len(),
        final(sp).hg_evals_5@.len() == old(sp).hg_evals_5@.len(),
        final(sp).gate_exists_5@.len() == old(sp).gate_exists_5@.len(),
        final(sp).eq_evals_at_rx@.len() == old(sp).eq_evals_at_rx@.len(),
        final(sp).eq_evals_at_rz0@.len() == old(sp).eq_evals_at_rz0@.len(),
        final(sp).eq_evals_at_rz1@.len() == old(sp).eq_evals_at_rz1@.len(),
        final(sp).eq_evals_first_half@.len() == old(sp).eq_evals_first_half@.len(),
        final(sp).eq_evals_second_half@.len() == old(sp).eq_evals_second_half@.len(),
        final(sp).hg_evals_1@ == old(sp).hg_evals_1@,
        final(sp).gate_exists_1@ == old(sp).gate_exists_1@,
        ({
            let vi = phase_round(var_idx as int, old(helper).input_var_num as int);
            let half = pow2((old(helper).input_var_num - vi - 1) as nat);
            let src = src_table(vi, old(sp).v_evals@, layer.input_vals@);
            forall|i: int|
                0 <= i < half ==> (#[trigger] final(sp).v_evals@[i]).as_lanes() == fold_pair(
                    src[2 * i],
                    src[2 * i + 1],
                    r.as_ints(),
                )
        }),
{
    helper.receive_challenge(var_idx, r, layer, sp);
}

/// One sumcheck round: emits the three evaluations, draws the
/// challenge, and folds. The 288 emitted bytes land identically in
/// both streams, the digest goes to the absorbed stream alone, and
/// the drawn challenge is the digest of everything absorbed so far.
#[verifier::rlimit(100)]
fn sumcheck_round(
    helper: &mut SumcheckGkrHelper,
    var_idx: usize,
    layer: &CircuitLayer,
    transcript: &mut Transcript,
    sp: &mut GkrScratchpad,
)
    requires
        old(helper).wf(),
        layer.wf(),
        var_idx < 2 * old(helper).input_var_num,
        old(helper).input_var_num == layer.input_var_num,
        layer.input_vals@.len() == pow2(old(helper).input_var_num as nat),
        forall|i: int| 0 <= i < layer.input_vals@.len() ==> (#[trigger] layer.input_vals@[i]).wf(),
        old(sp).wf(),
        var_idx < old(helper).input_var_num ==> old(helper).x_helper.sumcheck_var_idx == var_idx,
        var_idx >= old(helper).input_var_num ==> old(helper).y_helper.sumcheck_var_idx == var_idx
            - old(helper).input_var_num,
        old(sp).v_evals@.len() >= pow2(old(helper).input_var_num as nat),
        old(sp).hg_evals_5@.len() >= pow2(old(helper).input_var_num as nat),
        old(sp).gate_exists_5@.len() >= pow2(old(helper).input_var_num as nat),
    ensures
        final(helper).wf(),
        final(helper).input_var_num == old(helper).input_var_num,
        final(helper).output_var_num == old(helper).output_var_num,
        var_idx < old(helper).input_var_num
            ==> final(helper).rx@.len() == old(helper).rx@.len() + 1
            && final(helper).rx@.subrange(0, old(helper).rx@.len() as int) == old(helper).rx@
            && final(helper).ry@ == old(helper).ry@
            && final(helper).x_helper.sumcheck_var_idx == var_idx + 1
            && final(helper).y_helper == old(helper).y_helper,
        var_idx >= old(helper).input_var_num
            ==> final(helper).ry@.len() == old(helper).ry@.len() + 1
            && final(helper).ry@.subrange(0, old(helper).ry@.len() as int) == old(helper).ry@
            && final(helper).rx@ == old(helper).rx@
            && final(helper).y_helper.sumcheck_var_idx == var_idx - old(helper).input_var_num
            + 1 && final(helper).x_helper == old(helper).x_helper,
        final(sp).wf(),
        final(sp).v_evals@.len() == old(sp).v_evals@.len(),
        final(sp).hg_evals_5@.len() == old(sp).hg_evals_5@.len(),
        final(sp).gate_exists_5@.len() == old(sp).gate_exists_5@.len(),
        final(sp).eq_evals_at_rx@.len() == old(sp).eq_evals_at_rx@.len(),
        final(sp).eq_evals_at_rz0@.len() == old(sp).eq_evals_at_rz0@.len(),
        final(sp).eq_evals_at_rz1@.len() == old(sp).eq_evals_at_rz1@.len(),
        final(sp).eq_evals_first_half@.len() == old(sp).eq_evals_first_half@.len(),
        final(sp).eq_evals_second_half@.len() == old(sp).eq_evals_second_half@.len(),
        final(sp).hg_evals_1@ == old(sp).hg_evals_1@,
        final(sp).gate_exists_1@ == old(sp).gate_exists_1@,
        ({
            let vi = phase_round(var_idx as int, old(helper).input_var_num as int);
            let half = pow2((old(helper).input_var_num - vi - 1) as nat);
            let src = src_table(vi, old(sp).v_evals@, layer.input_vals@);
            let r = if var_idx < old(helper).input_var_num {
                final(helper).rx@.last()
            } else {
                final(helper).ry@.last()
            };
            forall|i: int|
                0 <= i < half ==> (#[trigger] final(sp).v_evals@[i]).as_lanes() == fold_pair(
                    src[2 * i],
                    src[2 * i + 1],
                    r.as_ints(),
                )
        }),
        final(transcript).proof@.len() == old(transcript).proof@.len() + 288,
        final(transcript).absorbed@.len() == old(transcript).absorbed@.len() + 320,
        ({
            let ch = final(transcript).absorbed@.subrange(
                old(transcript).absorbed@.len() as int,
                old(transcript).absorbed@.len() as int + 288,
            );
            &&& final(transcript).proof@ == old(transcript).proof@ + ch
            &&& final(transcript).absorbed@ == old(transcript).absorbed@ + ch + sha256_of(
                old(transcript).absorbed@ + ch,
            )
            &&& ({
                let drawn = if var_idx < old(helper).input_var_num {
                    final(helper).rx@.last()
                } else {
                    final(helper).ry@.last()
                };
                drawn.as_ints() == ext_of_hash(
                    sha256_of(old(transcript).absorbed@ + ch),
                )
            })
        }),
{
    let ghost pre_proof = transcript.proof@;
    let ghost pre_abs = transcript.absorbed@;
    emit_round_polys(helper, var_idx, layer, transcript, sp);
    let ghost ch = transcript.absorbed@.subrange(
        pre_abs.len() as int,
        pre_abs.len() as int + 288,
    );
    let r = transcript.challenge_f();
    fold_on_challenge(helper, var_idx, r, layer, sp);
    proof {
        let mid = pre_abs + ch;
        assert(crate::transcript::absorbed_after(mid, 0) == mid);
        assert(crate::transcript::absorbed_after(mid, 1) == mid + sha256_of(mid));
        assert(transcript.absorbed@ =~= pre_abs + ch + sha256_of(pre_abs + ch));
        assert(transcript.absorbed@.subrange(pre_abs.len() as int, pre_abs.len() as int + 288)
            =~= ch);
        if var_idx < helper.input_var_num {
            assert(helper.rx@.subrange(0, helper.rx@.len() - 1) =~= old(helper).rx@);
        } else {
            assert(helper.ry@.subrange(0, helper.ry@.len() - 1) =~= old(helper).ry@);
        }
    }
}

/// Runs the two sumcheck phases over one layer: the x half then the y
/// half of the input indices. Every round emits three evaluations and
/// draws one challenge; after both phases the two claimed values are
/// absorbed. Hands back the two challenge points. The proof stream
/// grows by exactly the absorbed prover messages — `288` bytes per
/// round and the two `96`-byte claims — and each returned challenge is
/// the digest of the absorbed stream up to its round.
#[verifier::rlimit(100)]
pub fn sumcheck_prove_gkr_layer(
    layer: &CircuitLayer,
    rz0: Vec<M31Ext3>,
    rz1: Vec<M31Ext3>,
    alpha: &M31Ext3,
    beta: &M31Ext3,
    transcript: &mut Transcript,
    sp: &mut GkrScratchpad,
) -> (out: (Vec<M31Ext3>, Vec<M31Ext3>))
    requires
        layer.wf(),
        pow2(layer.input_var_num as nat) <= usize::MAX as nat,
        pow2(layer.output_var_num as nat) <= usize::MAX as nat,
        layer.input_vals@.len() == pow2(layer.input_var_num as nat),
        rz0@.len() == layer.output_var_num,
        rz1@.len() == layer.output_var_num,
        forall|i: int| 0 <= i < rz0@.len() ==> (#[trigger] rz0@[i]).wf(),
        forall|i: int| 0 <= i < rz1@.len() ==> (#[trigger] rz1@[i]).wf(),
        alpha.wf(),
        beta.wf(),
        old(sp).wf(),
        old(sp).v_evals@.len() >= pow2(layer.input_var_num as nat),
        old(sp).hg_evals_5@.len() >= pow2(layer.input_var_num as nat),
        old(sp).gate_exists_5@.len() >= pow2(layer.input_var_num as nat),
        old(sp).eq_evals_at_rx@.len() >= pow2(layer.input_var_num as nat),
        old(sp).eq_evals_at_rz0@.len() >= pow2(layer.output_var_num as nat),
        old(sp).eq_evals_at_rz1@.len() >= pow2(layer.output_var_num as nat),
        old(sp).eq_evals_first_half@.len() >= pow2((layer.output_var_num / 2) as nat),
        old(sp).eq_evals_second_half@.len() >= pow2(
            (layer.output_var_num - layer.output_var_num / 2) as nat,
        ),
        old(sp).eq_evals_first_half@.len() >= pow2((layer.input_var_num / 2) as nat),
        old(sp).eq_evals_second_half@.len() >= pow2(
            (layer.input_var_num - layer.input_var_num / 2) as nat,
        ),
    ensures
        out.0@.len() == layer.input_var_num,
        out.1@.len() == layer.input_var_num,
        forall|i: int| 0 <= i < out.0@.len() ==> (#[trigger] out.0@[i]).wf(),
        forall|i: int| 0 <= i < out.1@.len() ==> (#[trigger] out.1@[i]).wf(),
        final(sp).wf(),
        final(sp).v_evals@.len() == old(sp).v_evals@.len(),
        final(sp).hg_evals_5@.len() == old(sp).hg_evals_5@.len(),
        final(sp).gate_exists_5@.len() == old(sp).gate_exists_5@.len(),
        final(sp).eq_evals_at_rx@.len() == old(sp).eq_evals_at_rx@.len(),
        final(sp).eq_evals_at_rz0@.len() == old(sp).eq_evals_at_rz0@.len(),
        final(sp).eq_evals_at_rz1@.len() == old(sp).eq_evals_at_rz1@.len(),
        final(sp).eq_evals_first_half@.len() == old(sp).eq_evals_first_half@.len(),
        final(sp).eq_evals_second_half@.len() == old(sp).eq_evals_second_half@.len(),
        final(sp).hg_evals_1@ == old(sp).hg_evals_1@,
        final(sp).gate_exists_1@ == old(sp).gate_exists_1@,
        ({
            let n = layer.input_var_num as int;
            let p0 = old(transcript).proof@.len() as int;
            let a0 = old(transcript).absorbed@.len() as int;
            &&& final(transcript).proof@.len() == p0 + 2 * n * 288 + 192
            &&& final(transcript).absorbed@.len() == a0 + 2 * n * 320 + 192
            &&& final(transcript).proof@.subrange(0, p0) == old(transcript).proof@
            &&& final(transcript).absorbed@.subrange(0, a0) == old(transcript).absorbed@
            // every emitted proof chunk is the chunk the transcript
            // absorbed at the same round
            &&& (forall|j: int|
                0 <= j < 2 * n ==> #[trigger] final(transcript).proof@.subrange(
                    p0 + j * 288,
                    p0 + j * 288 + 288,
                ) == final(transcript).absorbed@.subrange(
                    a0 + j * 320,
                    a0 + j * 320 + 288,
                ))
            // each returned challenge is the digest of the absorbed
            // stream up to its own round
            &&& (forall|j: int|
                0 <= j < n ==> (#[trigger] out.0@[j]).as_ints() == ext_of_hash(
                    sha256_of(final(transcript).absorbed@.take(a0 + j * 320 + 288)),
                ))
            &&& (forall|j: int|
                0 <= j < n ==> (#[trigger] out.1@[j]).as_ints() == ext_of_hash(
                    sha256_of(
                        final(transcript).absorbed@.take(a0 + (n + j) * 320 + 288),
                    ),
                ))
            // the two terminal claims follow the rounds into both
            // streams; the second one is the head of the folded table
            &&& final(transcript).proof@.subrange(p0 + 2 * n * 288, p0 + 2 * n * 288 + 192)
                == final(transcript).absorbed@.subrange(
                a0 + 2 * n * 320,
                a0 + 2 * n * 320 + 192,
            )
            &&& final(sp).v_evals@.len() > 0
            &&& final(transcript).proof@.subrange(
                p0 + 2 * n * 288 + 96,
                p0 + 2 * n * 288 + 192,
            ) == simd_ext_bytes(final(sp).v_evals@[0])
            // for a layer with rounds, each claim is the direct
            // multilinear evaluation of the bound inputs at the
            // phase's challenge point
            &&& (layer.input_var_num > 0 ==> (#[trigger] final(sp).v_evals@[0]).as_lanes()
                == ml_eval(promoted_views(layer.input_vals@), ext_views(out.1@)))
            &&& (layer.input_var_num > 0 ==> exists|vx: SimdM31Ext3|
                (#[trigger] vx.as_lanes()) == ml_eval(
                    promoted_views(layer.input_vals@),
                    ext_views(out.0@),
                ) && final(transcript).proof@.subrange(
                    p0 + 2 * n * 288,
                    p0 + 2 * n * 288 + 96,
                ) == simd_ext_bytes(vx))
        }),
{
    let ghost proof0 = transcript.proof@;
    let ghost abs0 = transcript.absorbed@;
    let ghost p0 = proof0.len() as int;
    let ghost a0 = abs0.len() as int;
    proof {
        if layer.input_var_num >= 64 {
            vstd::arithmetic::power2::lemma2_to64_rest();
            if layer.input_var_num > 64 {
                vstd::arithmetic::power2::lemma_pow2_strictly_increases(
                    64,
                    layer.input_var_num as nat,
                );
            }
        }
    }
    let mut helper = SumcheckGkrHelper::new(layer, rz0, rz1, alpha, beta);
    helper.prepare_g_x_vals(layer, sp);
    let ivn = layer.input_var_num;
    let mut i: usize = 0;
    while i < ivn
        invariant
            layer.wf(),
            ivn == layer.input_var_num,
            ivn < 64,
            pow2(layer.input_var_num as nat) <= usize::MAX as nat,
            layer.input_vals@.len() == pow2(layer.input_var_num as nat),
            i <= ivn,
            helper.wf(),
            helper.input_var_num == ivn,
            helper.output_var_num == layer.output_var_num,
            helper.x_helper.sumcheck_var_idx == i,
            helper.y_helper.sumcheck_var_idx == 0,
            helper.rx@.len() == i,
            helper.ry@.len() == 0,
            sp.wf(),
            sp.v_evals@.len() == old(sp).v_evals@.len() >= pow2(layer.input_var_num as nat),
            sp.hg_evals_5@.len() == old(sp).hg_evals_5@.len() >= pow2(
                layer.input_var_num as nat,
            ),
            sp.gate_exists_5@.len() == old(sp).gate_exists_5@.len() >= pow2(
                layer.input_var_num as nat,
            ),
            sp.eq_evals_at_rx@.len() == old(sp).eq_evals_at_rx@.len() >= pow2(
                layer.input_var_num as nat,
            ),
            sp.eq_evals_at_rz0@.len() == old(sp).eq_evals_at_rz0@.len() >= pow2(
                layer.output_var_num as nat,
            ),
            sp.eq_evals_at_rz1@.len() == old(sp).eq_evals_at_rz1@.len(),
            sp.eq_evals_first_half@.len() == old(sp).eq_evals_first_half@.len() >= pow2(
                (layer.input_var_num / 2) as nat,
            ),
            sp.eq_evals_second_half@.len() == old(sp).eq_evals_second_half@.len() >= pow2(
                (layer.input_var_num - layer.input_var_num / 2) as nat,
            ),
            sp.hg_evals_1@ == old(sp).hg_evals_1@,
            sp.gate_exists_1@ == old(sp).gate_exists_1@,
            proof0 == old(transcript).proof@,
            abs0 == old(transcript).absorbed@,
            p0 == proof0.len() as int,
            a0 == abs0.len() as int,
            transcript.proof@.len() == p0 + i * 288,
            transcript.absorbed@.len() == a0 + i * 320,
            transcript.proof@.subrange(0, p0) == proof0,
            transcript.absorbed@.subrange(0, a0) == abs0,
            forall|j: int|
                0 <= j < i ==> #[trigger] transcript.proof@.subrange(
                    p0 + j * 288,
                    p0 + j * 288 + 288,
                ) == transcript.absorbed@.subrange(a0 + j * 320, a0 + j * 320 + 288),
            forall|j: int|
                0 <= j < i ==> (#[trigger] helper.rx@[j]).as_ints() == ext_of_hash(
                    sha256_of(transcript.absorbed@.take(a0 + j * 320 + 288)),
                ),
            i > 0 ==> simd_views(sp.v_evals@.take(pow2((ivn - i) as nat) as int)) == fold_seq(
                promoted_views(layer.input_vals@),
                ext_views(helper.rx@),
            ),
        decreases ivn - i,
    {
        let ghost pre_proof = transcript.proof@;
        let ghost pre_abs = transcript.absorbed@;
        let ghost pre_rx = helper.rx@;
        let ghost pre_vt = sp.v_evals@;
        sumcheck_round(&mut helper, i, layer, transcript, sp);
        proof {
            lemma_fold_invariant_step(
                pre_vt,
                sp.v_evals@,
                layer.input_vals@,
                pre_rx,
                helper.rx@,
                ivn as int,
                i as int,
            );
            let ch = transcript.absorbed@.subrange(pre_abs.len() as int, pre_abs.len() as int + 288);
            lemma_round_streams(
                pre_proof,
                pre_abs,
                transcript.proof@,
                transcript.absorbed@,
                ch,
                p0,
                a0,
                i as int,
            );
            assert forall|j: int| 0 <= j < i + 1 implies (#[trigger] helper.rx@[j]).as_ints()
                == ext_of_hash(
                sha256_of(transcript.absorbed@.take(a0 + j * 320 + 288)),
            ) by {
                if j < i {
                    assert(helper.rx@[j] == helper.rx@.subrange(0, pre_rx.len() as int)[j]);
                    assert(transcript.absorbed@.take(a0 + j * 320 + 288) == pre_abs.take(
                        a0 + j * 320 + 288,
                    ));
                } else {
                    assert(helper.rx@[j] == helper.rx@.last());
                    assert(transcript.absorbed@.take(a0 + i * 320 + 288) == pre_abs + ch);
                }
            }
        }
        i = i + 1;
    }
    proof {
        vstd::arithmetic::power2::lemma_pow2_pos(layer.input_var_num as nat);
    }
    let v_rx = helper.vx_claim(sp);
    let ghost rx_frozen = helper.rx@;
    proof {
        if ivn > 0 {
            vstd::arithmetic::power2::lemma2_to64();
            assert(simd_views(sp.v_evals@.take(1int))[0] == v_rx.as_lanes());
            crate::gkr::lemma_fold_seq_is_ml_eval(
                promoted_views(layer.input_vals@),
                ext_views(helper.rx@),
            );
            assert(fold_seq(promoted_views(layer.input_vals@), ext_views(helper.rx@)).len()
                == 1);
            assert(v_rx.as_lanes() == ml_eval(
                promoted_views(layer.input_vals@),
                ext_views(helper.rx@),
            ));
        }
    }
    helper.prepare_h_y_vals(&v_rx, layer, sp);
    let mut i2: usize = 0;
    while i2 < ivn
        invariant
            layer.wf(),
            ivn == layer.input_var_num,
            ivn < 64,
            pow2(layer.input_var_num as nat) <= usize::MAX as nat,
            layer.input_vals@.len() == pow2(layer.input_var_num as nat),
            i2 <= ivn,
            helper.wf(),
            helper.input_var_num == ivn,
            helper.output_var_num == layer.output_var_num,
            helper.y_helper.sumcheck_var_idx == i2,
            helper.rx@.len() == ivn,
            helper.ry@.len() == i2,
            sp.wf(),
            sp.v_evals@.len() == old(sp).v_evals@.len() >= pow2(layer.input_var_num as nat),
            sp.hg_evals_5@.len() == old(sp).hg_evals_5@.len() >= pow2(
                layer.input_var_num as nat,
            ),
            sp.gate_exists_5@.len() == old(sp).gate_exists_5@.len() >= pow2(
                layer.input_var_num as nat,
            ),
            sp.eq_evals_at_rx@.len() == old(sp).eq_evals_at_rx@.len(),
            sp.eq_evals_at_rz0@.len() == old(sp).eq_evals_at_rz0@.len(),
            sp.eq_evals_at_rz1@.len() == old(sp).eq_evals_at_rz1@.len(),
            sp.eq_evals_first_half@.len() == old(sp).eq_evals_first_half@.len(),
            sp.eq_evals_second_half@.len() == old(sp).eq_evals_second_half@.len(),
            sp.hg_evals_1@ == old(sp).hg_evals_1@,
            sp.gate_exists_1@ == old(sp).gate_exists_1@,
            proof0 == old(transcript).proof@,
            abs0 == old(transcript).absorbed@,
            p0 == proof0.len() as int,
            a0 == abs0.len() as int,
            transcript.proof@.len() == p0 + (ivn + i2) * 288,
            transcript.absorbed@.len() == a0 + (ivn + i2) * 320,
            transcript.proof@.subrange(0, p0) == proof0,
            transcript.absorbed@.subrange(0, a0) == abs0,
            forall|j: int|
                0 <= j < ivn + i2 ==> #[trigger] transcript.proof@.subrange(
                    p0 + j * 288,
                    p0 + j * 288 + 288,
                ) == transcript.absorbed@.subrange(a0 + j * 320, a0 + j * 320 + 288),
            forall|j: int|
                0 <= j < ivn ==> (#[trigger] helper.rx@[j]).as_ints() == ext_of_hash(
                    sha256_of(transcript.absorbed@.take(a0 + j * 320 + 288)),
                ),
            forall|j: int|
                0 <= j < i2 ==> (#[trigger] helper.ry@[j]).as_ints() == ext_of_hash(
                    sha256_of(transcript.absorbed@.take(a0 + (ivn + j) * 320 + 288)),
                ),
            helper.rx@ == rx_frozen,
            i2 > 0 ==> simd_views(sp.v_evals@.take(pow2((ivn - i2) as nat) as int)) == fold_seq(
                promoted_views(layer.input_vals@),
                ext_views(helper.ry@),
            ),
        decreases ivn - i2,
    {
        let ghost pre_proof = transcript.proof@;
        let ghost pre_abs = transcript.absorbed@;
        let ghost pre_rx = helper.rx@;
        let ghost pre_ry = helper.ry@;
        let ghost pre_vt = sp.v_evals@;
        sumcheck_round(&mut helper, ivn + i2, layer, transcript, sp);
        proof {
            lemma_fold_invariant_step(
                pre_vt,
                sp.v_evals@,
                layer.input_vals@,
                pre_ry,
                helper.ry@,
                ivn as int,
                i2 as int,
            );
            let ch = transcript.absorbed@.subrange(pre_abs.len() as int, pre_abs.len() as int + 288);
            lemma_round_streams(
                pre_proof,
                pre_abs,
                transcript.proof@,
                transcript.absorbed@,
                ch,
                p0,
                a0,
                ivn + i2 as int,
            );
            assert forall|j: int| 0 <= j < ivn implies (#[trigger] helper.rx@[j]).as_ints()
                == ext_of_hash(
                sha256_of(transcript.absorbed@.take(a0 + j * 320 + 288)),
            ) by {
                assert(helper.rx@[j] == pre_rx[j]);
                assert(a0 + j * 320 + 288 <= pre_abs.len()) by {
                    assert(j * 320 + 320 <= (ivn + i2) * 320) by (nonlinear_arith)
                        requires
                            j + 1 <= ivn,
                            0 <= i2,
                    ;
                }
                assert(transcript.absorbed@.take(a0 + j * 320 + 288) == pre_abs.take(
                    a0 + j * 320 + 288,
                ));
            }
            assert forall|j: int| 0 <= j < i2 + 1 implies (#[trigger] helper.ry@[j]).as_ints()
                == ext_of_hash(
                sha256_of(transcript.absorbed@.take(a0 + (ivn + j) * 320 + 288)),
            ) by {
                if j < i2 {
                    assert(helper.ry@[j] == helper.ry@.subrange(0, pre_ry.len() as int)[j]);
                    assert(a0 + (ivn + j) * 320 + 288 <= pre_abs.len()) by {
                        assert((ivn + j) * 320 + 320 <= (ivn + i2) * 320) by (nonlinear_arith)
                            requires
                                j + 1 <= i2,
                                0 <= ivn,
                        ;
                    }
                    assert(transcript.absorbed@.take(a0 + (ivn + j) * 320 + 288)
                        == pre_abs.take(a0 + (ivn + j) * 320 + 288));
                } else {
                    assert(helper.ry@[j] == helper.ry@.last());
                    assert(transcript.absorbed@.take(a0 + (ivn + i2) * 320 + 288) == pre_abs
                        + ch);
                }
            }
        }
        i2 = i2 + 1;
    }
    // the two claimed values close the layer's stream
    let v_ry = helper.vy_claim(sp);
    let ghost pre_tail_proof = transcript.proof@;
    let ghost pre_tail_abs = transcript.absorbed@;
    transcript.append_f(&v_rx);
    transcript.append_f(&v_ry);
    proof {
        lemma_tail_streams(
            pre_tail_proof,
            pre_tail_abs,
            transcript.proof@,
            transcript.absorbed@,
            simd_ext_bytes(v_rx),
            simd_ext_bytes(v_ry),
            p0,
            a0,
            ivn as int,
        );
        if ivn > 0 {
            vstd::arithmetic::power2::lemma2_to64();
            assert(simd_views(sp.v_evals@.take(1int))[0] == v_ry.as_lanes());
            crate::gkr::lemma_fold_seq_is_ml_eval(
                promoted_views(layer.input_vals@),
                ext_views(helper.ry@),
            );
            assert(fold_seq(promoted_views(layer.input_vals@), ext_views(helper.ry@)).len()
                == 1);
            assert(v_ry == sp.v_evals@[0]);
            assert(sp.v_evals@[0].as_lanes() == ml_eval(
                promoted_views(layer.input_vals@),
                ext_views(helper.ry@),
            ));
        }
    }
    let SumcheckGkrHelper { rx, ry, .. } = helper;
    (rx, ry)
}


/// The two claim appends close the layer's streams: the 192 bytes land
/// identically in both, everything older keeps its place, and the
/// second claim's bytes sit last.
proof fn lemma_tail_streams(
    pre_proof: Seq<u8>,
    pre_abs: Seq<u8>,
    cur_proof: Seq<u8>,
    cur_abs: Seq<u8>,
    bx: Seq<u8>,
    by: Seq<u8>,
    p0: int,
    a0: int,
    n: int,
)
    requires
        bx.len() == 96,
        by.len() == 96,
        n >= 0,
        p0 >= 0,
        a0 >= 0,
        pre_proof.len() == p0 + 2 * n * 288,
        pre_abs.len() == a0 + 2 * n * 320,
        cur_proof == pre_proof + bx + by,
        cur_abs == pre_abs + bx + by,
        pre_proof.subrange(0, p0) == pre_proof.take(p0),
        pre_abs.subrange(0, a0) == pre_abs.take(a0),
    ensures
        cur_proof.len() == p0 + 2 * n * 288 + 192,
        cur_abs.len() == a0 + 2 * n * 320 + 192,
        cur_proof.subrange(0, p0) == pre_proof.subrange(0, p0),
        cur_abs.subrange(0, a0) == pre_abs.subrange(0, a0),
        cur_proof.subrange(p0 + 2 * n * 288, p0 + 2 * n * 288 + 192) == cur_abs.subrange(
            a0 + 2 * n * 320,
            a0 + 2 * n * 320 + 192,
        ),
        cur_proof.subrange(p0 + 2 * n * 288 + 96, p0 + 2 * n * 288 + 192) == by,
        forall|t: int|
            0 <= t < 2 * n ==> #[trigger] cur_proof.subrange(p0 + t * 288, p0 + t * 288 + 288)
                == pre_proof.subrange(p0 + t * 288, p0 + t * 288 + 288) && cur_abs.subrange(
                a0 + t * 320,
                a0 + t * 320 + 288,
            ) == pre_abs.subrange(a0 + t * 320, a0 + t * 320 + 288),
        forall|k: int| 0 <= k <= pre_abs.len() ==> #[trigger] cur_abs.take(k) == pre_abs.take(
            k,
        ),
{
    assert(cur_proof.subrange(0, p0) =~= pre_proof.subrange(0, p0));
    assert(cur_abs.subrange(0, a0) =~= pre_abs.subrange(0, a0));
    assert(cur_proof.subrange(p0 + 2 * n * 288, p0 + 2 * n * 288 + 192) =~= bx + by);
    assert(cur_abs.subrange(a0 + 2 * n * 320, a0 + 2 * n * 320 + 192) =~= bx + by);
    assert(cur_proof.subrange(p0 + 2 * n * 288 + 96, p0 + 2 * n * 288 + 192) =~= by);
    assert forall|t: int| 0 <= t < 2 * n implies #[trigger] cur_proof.subrange(
        p0 + t * 288,
        p0 + t * 288 + 288,
    ) == pre_proof.subrange(p0 + t * 288, p0 + t * 288 + 288) && cur_abs.subrange(
        a0 + t * 320,
        a0 + t * 320 + 288,
    ) == pre_abs.subrange(a0 + t * 320, a0 + t * 320 + 288) by {
        assert((t + 1) * 288 <= 2 * n * 288) by (nonlinear_arith)
            requires
                t + 1 <= 2 * n,
        ;
        assert((t + 1) * 320 <= 2 * n * 320) by (nonlinear_arith)
            requires
                t + 1 <= 2 * n,
        ;
        assert(cur_proof.subrange(p0 + t * 288, p0 + t * 288 + 288) =~= pre_proof.subrange(
            p0 + t * 288,
            p0 + t * 288 + 288,
        ));
        assert(cur_abs.subrange(a0 + t * 320, a0 + t * 320 + 288) =~= pre_abs.subrange(
            a0 + t * 320,
            a0 + t * 320 + 288,
        ));
    }
    assert forall|k: int| 0 <= k <= pre_abs.len() implies #[trigger] cur_abs.take(k)
        == pre_abs.take(k) by {
        assert(cur_abs.take(k) =~= pre_abs.take(k));
    }
}

/// One round's effect on the two streams: the emitted chunk lands
/// identically in both, the digest goes to the absorbed stream alone,
/// and everything older keeps its place.
proof fn lemma_round_streams(
    pre_proof: Seq<u8>,
    pre_abs: Seq<u8>,
    cur_proof: Seq<u8>,
    cur_abs: Seq<u8>,
    ch: Seq<u8>,
    p0: int,
    a0: int,
    j: int,
)
    requires
        ch.len() == 288,
        j >= 0,
        pre_proof.len() == p0 + j * 288,
        pre_abs.len() == a0 + j * 320,
        p0 >= 0,
        a0 >= 0,
        cur_proof == pre_proof + ch,
        cur_abs.len() == pre_abs.len() + 320,
        cur_abs == pre_abs + ch + sha256_of(pre_abs + ch),
    ensures
        cur_proof.len() == p0 + (j + 1) * 288,
        cur_abs.len() == a0 + (j + 1) * 320,
        cur_proof.subrange(0, p0) == pre_proof.subrange(0, p0),
        cur_abs.subrange(0, a0) == pre_abs.subrange(0, a0),
        cur_proof.subrange(p0 + j * 288, p0 + j * 288 + 288) == cur_abs.subrange(
            a0 + j * 320,
            a0 + j * 320 + 288,
        ),
        cur_abs.take(a0 + j * 320 + 288) == pre_abs + ch,
        forall|k: int| 0 <= k <= pre_proof.len() ==> #[trigger] cur_proof.take(k)
            == pre_proof.take(k),
        forall|k: int| 0 <= k <= pre_abs.len() ==> #[trigger] cur_abs.take(k) == pre_abs.take(
            k,
        ),
        forall|t: int|
            0 <= t < j ==> #[trigger] cur_proof.subrange(p0 + t * 288, p0 + t * 288 + 288)
                == pre_proof.subrange(p0 + t * 288, p0 + t * 288 + 288) && cur_abs.subrange(
                a0 + t * 320,
                a0 + t * 320 + 288,
            ) == pre_abs.subrange(a0 + t * 320, a0 + t * 320 + 288),
{
    assert(cur_proof.subrange(0, p0) =~= pre_proof.subrange(0, p0));
    assert(cur_abs.subrange(0, a0) =~= pre_abs.subrange(0, a0));
    assert(cur_proof.subrange(p0 + j * 288, p0 + j * 288 + 288) =~= ch);
    assert(cur_abs.subrange(a0 + j * 320, a0 + j * 320 + 288) =~= ch);
    assert(cur_abs.take(a0 + j * 320 + 288) =~= pre_abs + ch);
    assert forall|k: int| 0 <= k <= pre_proof.len() implies #[trigger] cur_proof.take(k)
        == pre_proof.take(k) by {
        assert(cur_proof.take(k) =~= pre_proof.take(k));
    }
    assert forall|k: int| 0 <= k <= pre_abs.len() implies #[trigger] cur_abs.take(k)
        == pre_abs.take(k) by {
        assert(cur_abs.take(k) =~= pre_abs.take(k));
    }
    assert forall|t: int| 0 <= t < j implies #[trigger] cur_proof.subrange(
        p0 + t * 288,
        p0 + t * 288 + 288,
    ) == pre_proof.subrange(p0 + t * 288, p0 + t * 288 + 288) && cur_abs.subrange(
        a0 + t * 320,
        a0 + t * 320 + 288,
    ) == pre_abs.subrange(a0 + t * 320, a0 + t * 320 + 288) by {
        assert((t + 1) * 288 <= j * 288) by (nonlinear_arith)
            requires
                t + 1 <= j,
        ;
        assert((t + 1) * 320 <= j * 320) by (nonlinear_arith)
            requires
                t + 1 <= j,
        ;
        assert(cur_proof.subrange(p0 + t * 288, p0 + t * 288 + 288) =~= pre_proof.subrange(
            p0 + t * 288,
            p0 + t * 288 + 288,
        ));
        assert(cur_abs.subrange(a0 + t * 320, a0 + t * 320 + 288) =~= pre_abs.subrange(
            a0 + t * 320,
            a0 + t * 320 + 288,
        ));
    }
}


/// One fold step advances the table-versus-challenges relation: after
/// the round, the live prefix is the input table folded by all the
/// challenges received so far.
proof fn lemma_fold_invariant_step(
    pre_v: Seq<SimdM31Ext3>,
    cur_v: Seq<SimdM31Ext3>,
    inputs: Seq<crate::simd_m31::AVXM31>,
    pre_rs: Seq<M31Ext3>,
    cur_rs: Seq<M31Ext3>,
    ivn: int,
    i: int,
)
    requires
        0 <= i < ivn,
        inputs.len() == pow2(ivn as nat),
        pre_rs.len() == i,
        cur_rs.len() == i + 1,
        cur_rs.subrange(0, i) == pre_rs,
        cur_v.len() == pre_v.len() >= pow2(ivn as nat),
        i > 0 ==> simd_views(pre_v.take(pow2((ivn - i) as nat) as int)) == fold_seq(
            promoted_views(inputs),
            ext_views(pre_rs),
        ),
        forall|t: int|
            0 <= t < pow2((ivn - i - 1) as nat) ==> (#[trigger] cur_v[t]).as_lanes()
                == fold_pair(
                src_table(i, pre_v, inputs)[2 * t],
                src_table(i, pre_v, inputs)[2 * t + 1],
                cur_rs.last().as_ints(),
            ),
    ensures
        simd_views(cur_v.take(pow2((ivn - i - 1) as nat) as int)) == fold_seq(
            promoted_views(inputs),
            ext_views(cur_rs),
        ),
{
    let r = cur_rs.last();
    let half = pow2((ivn - i - 1) as nat) as int;
    vstd::arithmetic::power2::lemma_pow2_adds((ivn - i - 1) as nat, 1);
    vstd::arithmetic::power2::lemma2_to64();
    assert(2 * half == pow2((ivn - i) as nat));
    if i == 0 {
        let v0 = promoted_views(inputs);
        assert(src_table(0, pre_v, inputs) == v0);
        assert(simd_views(cur_v.take(half)) =~~= fold_once(v0, r.as_ints()));
        assert(ext_views(cur_rs) =~= Seq::<Seq<int>>::empty().push(r.as_ints()));
        assert(ext_views(cur_rs)[0] == r.as_ints());
        assert(ext_views(cur_rs).drop_first() =~= Seq::<Seq<int>>::empty());
        assert(fold_seq(v0, ext_views(cur_rs)) == fold_seq(
            fold_once(v0, r.as_ints()),
            ext_views(cur_rs).drop_first(),
        ));
    } else {
        let lp = pow2((ivn - i) as nat) as int;
        vstd::arithmetic::power2::lemma_pow2_strictly_increases((ivn - i) as nat, ivn as nat);
        assert(lp <= pre_v.len());
        let prev = simd_views(pre_v.take(lp));
        assert(prev.len() == lp);
        assert(lp == 2 * half);
        assert(src_table(i, pre_v, inputs) == simd_views(pre_v));
        assert forall|t: int| 0 <= t < half implies #[trigger] simd_views(cur_v.take(half))[t]
            == fold_once(prev, r.as_ints())[t] by {
            assert(2 * t + 1 < lp);
            assert(prev[2 * t] == pre_v.take(lp)[2 * t].as_lanes());
            assert(pre_v.take(lp)[2 * t] == pre_v[2 * t]);
            assert(prev[2 * t + 1] == pre_v.take(lp)[2 * t + 1].as_lanes());
            assert(pre_v.take(lp)[2 * t + 1] == pre_v[2 * t + 1]);
            assert(simd_views(pre_v)[2 * t] == pre_v[2 * t].as_lanes());
            assert(simd_views(pre_v)[2 * t + 1] == pre_v[2 * t + 1].as_lanes());
            assert(simd_views(cur_v.take(half))[t] == cur_v[t].as_lanes());
        }
        assert(simd_views(cur_v.take(half)) =~~= fold_once(prev, r.as_ints()));
        assert(ext_views(cur_rs) =~= ext_views(pre_rs).push(r.as_ints()));
        crate::gkr::lemma_fold_seq_push(
            promoted_views(inputs),
            ext_views(pre_rs),
            r.as_ints(),
        );
    }
}

} // verus!
