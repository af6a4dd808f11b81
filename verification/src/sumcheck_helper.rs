//! The per-layer sumcheck state machine: equality-table expansion, the
//! per-round degree-two evaluations, and the fold on each challenge.

use vstd::prelude::*;
use vstd::arithmetic::power2::pow2;
use crate::m31_ext::{e_add, e_mul, e_neg, e_one, e_zero, ext_wf, M31Ext3};
use crate::simd_ext::{v_add, v_mul, v_neg, v_promote, v_scale, v_zero, SimdM31Ext3};
use crate::simd_m31::AVXM31;
use crate::expander_circuit::CircuitLayer;
use crate::gate::GateModel;
use crate::scratchpad::GkrScratchpad;

verus! {

/// `1 - x` in the challenge field.
pub open spec fn e_one_minus(x: Seq<int>) -> Seq<int> {
    e_add(e_one(), e_neg(x))
}

/// The weighted equality table: `f * eq(r, j)`, with the product
/// accumulated bit by bit, the last coordinate of `r` on the highest
/// bit of `j`.
pub open spec fn eq_weighted(r: Seq<Seq<int>>, f: Seq<int>, j: int) -> Seq<int>
    decreases r.len(),
{
    if r.len() == 0 {
        f
    } else {
        let half = pow2((r.len() - 1) as nat) as int;
        let low = eq_weighted(r.drop_last(), f, j % half);
        if (j / half) % 2 == 1 {
            e_mul(low, r.last())
        } else {
            e_mul(low, e_one_minus(r.last()))
        }
    }
}

/// `x * y + (1 - x) * (1 - y)`, computed as `xy + xy - x - y + 1`.
pub fn _eq(x: &M31Ext3, y: &M31Ext3) -> (r: M31Ext3)
    requires
        x.wf(),
        y.wf(),
    ensures
        r.wf(),
        r.as_ints() == e_add(
            e_add(
                e_add(e_mul(x.as_ints(), y.as_ints()), e_mul(x.as_ints(), y.as_ints())),
                e_neg(e_add(x.as_ints(), y.as_ints())),
            ),
            seq![1int, 0int, 0int],
        ),
{
    let xy = x.mul(y);
    let r = xy.add(&xy).sub(&x.add(y)).add(&M31Ext3::one());
    proof {
        assert(r.as_ints() =~= e_add(
            e_add(
                e_add(e_mul(x.as_ints(), y.as_ints()), e_mul(x.as_ints(), y.as_ints())),
                e_neg(e_add(x.as_ints(), y.as_ints())),
            ),
            seq![1int, 0int, 0int],
        ));
    }
    r
}

/// Expands the weighted equality table of `r` into the first `2^r.len()`
/// slots of `eq_evals`, by doubling: each new coordinate splits every
/// slot into a `(1 - r_i)` copy and an `r_i` copy.
pub fn eq_evals_at_primitive(r: &Vec<M31Ext3>, mul_factor: &M31Ext3, eq_evals: &mut Vec<M31Ext3>)
    requires
        forall|i: int| 0 <= i < r@.len() ==> (#[trigger] r@[i]).wf(),
        mul_factor.wf(),
        pow2(r@.len()) <= usize::MAX as nat,
        old(eq_evals)@.len() >= pow2(r@.len()),
        forall|i: int| 0 <= i < old(eq_evals)@.len() ==> (#[trigger] old(eq_evals)@[i]).wf(),
    ensures
        final(eq_evals)@.len() == old(eq_evals)@.len(),
        forall|i: int| 0 <= i < final(eq_evals)@.len() ==> (#[trigger] final(eq_evals)@[i]).wf(),
        forall|j: int|
            0 <= j < pow2(r@.len()) ==> (#[trigger] final(eq_evals)@[j]).as_ints() == eq_weighted(
                r@.map_values(|x: M31Ext3| x.as_ints()),
                mul_factor.as_ints(),
                j,
            ),
        forall|j: int|
            pow2(r@.len()) <= j < final(eq_evals)@.len() ==> #[trigger] final(eq_evals)@[j]
                == old(eq_evals)@[j],
{
    let ghost rm = r@.map_values(|x: M31Ext3| x.as_ints());
    let n = r.len();
    proof {
        vstd::arithmetic::power2::lemma2_to64();
        vstd::arithmetic::power2::lemma_pow2_pos(n as nat);
        if n > 0 {
            vstd::arithmetic::power2::lemma_pow2_strictly_increases(0, n as nat);
        }
        assert(rm.take(0int) =~= Seq::<Seq<int>>::empty());
        assert(eq_weighted(rm.take(0int), mul_factor.as_ints(), 0) == mul_factor.as_ints());
    }
    eq_evals[0] = *mul_factor;
    let mut cur_eval_num: usize = 1;
    let mut i: usize = 0;
    while i < n
        invariant
            rm == r@.map_values(|x: M31Ext3| x.as_ints()),
            forall|t: int| 0 <= t < r@.len() ==> (#[trigger] r@[t]).wf(),
            mul_factor.wf(),
            n == r@.len(),
            pow2(n as nat) <= usize::MAX as nat,
            i <= n,
            cur_eval_num == pow2(i as nat),
            eq_evals@.len() == old(eq_evals)@.len(),
            old(eq_evals)@.len() >= pow2(n as nat),
            forall|t: int| 0 <= t < eq_evals@.len() ==> (#[trigger] eq_evals@[t]).wf(),
            forall|j: int|
                0 <= j < pow2(i as nat) ==> (#[trigger] eq_evals@[j]).as_ints() == eq_weighted(
                    rm.take(i as int),
                    mul_factor.as_ints(),
                    j,
                ),
            forall|j: int|
                pow2(n as nat) <= j < eq_evals@.len() ==> #[trigger] eq_evals@[j] == old(
                    eq_evals,
                )@[j],
        decreases n - i,
    {
        proof {
            vstd::arithmetic::power2::lemma_pow2_adds(i as nat, 1);
            vstd::arithmetic::power2::lemma2_to64();
            if i + 1 < n {
                vstd::arithmetic::power2::lemma_pow2_strictly_increases((i + 1) as nat, n as nat);
            }
        }
        let r_i = r[i];
        let one_minus = M31Ext3::one().sub(&r_i);
        let mut j: usize = 0;
        while j < cur_eval_num
            invariant
                rm == r@.map_values(|x: M31Ext3| x.as_ints()),
                forall|t: int| 0 <= t < r@.len() ==> (#[trigger] r@[t]).wf(),
                mul_factor.wf(),
                n == r@.len(),
                i < n,
                r_i == r@[i as int],
                r_i.wf(),
                one_minus.wf(),
                one_minus.as_ints() == e_one_minus(rm[i as int]),
                cur_eval_num == pow2(i as nat),
                2 * cur_eval_num == pow2((i + 1) as nat),
                pow2((i + 1) as nat) <= pow2(n as nat) <= usize::MAX as nat,
                eq_evals@.len() == old(eq_evals)@.len(),
                old(eq_evals)@.len() >= pow2(n as nat),
                j <= cur_eval_num,
                forall|t: int| 0 <= t < eq_evals@.len() ==> (#[trigger] eq_evals@[t]).wf(),
                forall|t: int|
                    j <= t < pow2(i as nat) ==> (#[trigger] eq_evals@[t]).as_ints()
                        == eq_weighted(rm.take(i as int), mul_factor.as_ints(), t),
                forall|t: int|
                    0 <= t < j ==> (#[trigger] eq_evals@[t]).as_ints() == eq_weighted(
                        rm.take(i as int + 1),
                        mul_factor.as_ints(),
                        t,
                    ),
                forall|t: int|
                    pow2(i as nat) <= t < pow2(i as nat) + j ==> (
                    #[trigger] eq_evals@[t]).as_ints() == eq_weighted(
                        rm.take(i as int + 1),
                        mul_factor.as_ints(),
                        t,
                    ),
                forall|t: int|
                    pow2(n as nat) <= t < eq_evals@.len() ==> #[trigger] eq_evals@[t] == old(
                        eq_evals,
                    )@[t],
            decreases cur_eval_num - j,
        {
            let base = eq_evals[j];
            let hi = base.mul(&r_i);
            let lo = base.mul(&one_minus);
            eq_evals[j + cur_eval_num] = hi;
            eq_evals[j] = lo;
            proof {
                let half = pow2(i as nat) as int;
                let jj = j as int;
                assert(rm.take(i as int + 1).drop_last() =~= rm.take(i as int));
                assert(rm.take(i as int + 1).last() == rm[i as int]);
                // the low copy: bit i clear
                assert(jj % half == jj) by {
                    vstd::arithmetic::div_mod::lemma_small_mod(jj as nat, half as nat);
                }
                assert(jj / half == 0) by {
                    vstd::arithmetic::div_mod::lemma_basic_div(jj, half);
                }
                // the high copy: bit i set
                assert((jj + half) % half == jj) by {
                    vstd::arithmetic::div_mod::lemma_mod_add_multiples_vanish(jj, half);
                    vstd::arithmetic::div_mod::lemma_small_mod(jj as nat, half as nat);
                }
                assert((jj + half) / half == 1) by {
                    vstd::arithmetic::div_mod::lemma_div_plus_one(jj, half);
                    vstd::arithmetic::div_mod::lemma_basic_div(jj, half);
                }
            }
            j = j + 1;
        }
        cur_eval_num = cur_eval_num * 2;
        i = i + 1;
        proof {
            assert(rm.take(i as int) =~= rm.take(i as int));
        }
    }
    proof {
        assert(rm.take(n as int) =~= rm);
    }
}


/// Expands the weighted equality table of `r` by the split-halves
/// trick: the low half of the coordinates into one table, the high half
/// into another, the full table their outer product.
pub fn eq_eval_at(
    r: &Vec<M31Ext3>,
    mul_factor: &M31Ext3,
    eq_evals: &mut Vec<M31Ext3>,
    sqrt_n_1st: &mut Vec<M31Ext3>,
    sqrt_n_2nd: &mut Vec<M31Ext3>,
)
    requires
        forall|i: int| 0 <= i < r@.len() ==> (#[trigger] r@[i]).wf(),
        mul_factor.wf(),
        pow2(r@.len()) <= usize::MAX as nat,
        old(eq_evals)@.len() >= pow2(r@.len()),
        old(sqrt_n_1st)@.len() >= pow2((r@.len() / 2) as nat),
        old(sqrt_n_2nd)@.len() >= pow2((r@.len() - r@.len() / 2) as nat),
        forall|i: int| 0 <= i < old(eq_evals)@.len() ==> (#[trigger] old(eq_evals)@[i]).wf(),
        forall|i: int| 0 <= i < old(sqrt_n_1st)@.len() ==> (#[trigger] old(sqrt_n_1st)@[i]).wf(),
        forall|i: int| 0 <= i < old(sqrt_n_2nd)@.len() ==> (#[trigger] old(sqrt_n_2nd)@[i]).wf(),
    ensures
        final(eq_evals)@.len() == old(eq_evals)@.len(),
        final(sqrt_n_1st)@.len() == old(sqrt_n_1st)@.len(),
        final(sqrt_n_2nd)@.len() == old(sqrt_n_2nd)@.len(),
        forall|i: int| 0 <= i < final(eq_evals)@.len() ==> (#[trigger] final(eq_evals)@[i]).wf(),
        forall|i: int|
            0 <= i < final(sqrt_n_1st)@.len() ==> (#[trigger] final(sqrt_n_1st)@[i]).wf(),
        forall|i: int|
            0 <= i < final(sqrt_n_2nd)@.len() ==> (#[trigger] final(sqrt_n_2nd)@[i]).wf(),
        forall|i: int|
            0 <= i < pow2(r@.len()) ==> (#[trigger] final(eq_evals)@[i]).as_ints() == e_mul(
                eq_weighted(
                    r@.map_values(|x: M31Ext3| x.as_ints()).take((r@.len() / 2) as int),
                    mul_factor.as_ints(),
                    i % (pow2((r@.len() / 2) as nat) as int),
                ),
                eq_weighted(
                    r@.map_values(|x: M31Ext3| x.as_ints()).skip((r@.len() / 2) as int),
                    e_one(),
                    i / (pow2((r@.len() / 2) as nat) as int),
                ),
            ),
        forall|i: int|
            pow2(r@.len()) <= i < final(eq_evals)@.len() ==> #[trigger] final(eq_evals)@[i]
                == old(eq_evals)@[i],
{
    let ghost rm = r@.map_values(|x: M31Ext3| x.as_ints());
    let n = r.len();
    let first_half_bits = n / 2;
    let ghost h = first_half_bits as int;
    let mut r_first: Vec<M31Ext3> = Vec::new();
    let mut t: usize = 0;
    while t < first_half_bits
        invariant
            forall|i: int| 0 <= i < r@.len() ==> (#[trigger] r@[i]).wf(),
            first_half_bits == r@.len() / 2,
            n == r@.len(),
            t <= first_half_bits,
            r_first@.len() == t,
            forall|i: int| 0 <= i < t ==> #[trigger] r_first@[i] == r@[i],
        decreases first_half_bits - t,
    {
        r_first.push(r[t]);
        t = t + 1;
    }
    let mut r_second: Vec<M31Ext3> = Vec::new();
    let mut t2: usize = first_half_bits;
    while t2 < n
        invariant
            forall|i: int| 0 <= i < r@.len() ==> (#[trigger] r@[i]).wf(),
            first_half_bits == r@.len() / 2,
            n == r@.len(),
            first_half_bits <= t2 <= n,
            r_second@.len() == t2 - first_half_bits,
            forall|i: int|
                0 <= i < t2 - first_half_bits ==> #[trigger] r_second@[i] == r@[
                    i + first_half_bits
                ],
        decreases n - t2,
    {
        r_second.push(r[t2]);
        t2 = t2 + 1;
    }
    proof {
        assert(r_first@.map_values(|x: M31Ext3| x.as_ints()) =~= rm.take(h));
        assert(r_second@.map_values(|x: M31Ext3| x.as_ints()) =~= rm.skip(h));
        vstd::arithmetic::power2::lemma_pow2_adds(
            first_half_bits as nat,
            (n - first_half_bits) as nat,
        );
        vstd::arithmetic::power2::lemma_pow2_pos(first_half_bits as nat);
        vstd::arithmetic::power2::lemma_pow2_pos((n - first_half_bits) as nat);
        vstd::arithmetic::power2::lemma_pow2_pos(n as nat);
        assert(pow2(first_half_bits as nat) <= pow2(n as nat)) by {
            if first_half_bits < n {
                vstd::arithmetic::power2::lemma_pow2_strictly_increases(
                    first_half_bits as nat,
                    n as nat,
                );
            }
        }
        assert(pow2((n - first_half_bits) as nat) <= pow2(n as nat)) by {
            if first_half_bits > 0 {
                vstd::arithmetic::power2::lemma_pow2_strictly_increases(
                    (n - first_half_bits) as nat,
                    n as nat,
                );
            }
        }
    }
    let one = M31Ext3::one();
    eq_evals_at_primitive(&r_first, mul_factor, sqrt_n_1st);
    eq_evals_at_primitive(&r_second, &one, sqrt_n_2nd);
    let total = crate::bytes::pow2_exact(n);
    let half_size = crate::bytes::pow2_exact(first_half_bits);
    let mut i: usize = 0;
    while i < total
        invariant
            rm == r@.map_values(|x: M31Ext3| x.as_ints()),
            mul_factor.wf(),
            n == r@.len(),
            h == n as int / 2,
            first_half_bits as int == h,
            total == pow2(n as nat),
            half_size == pow2(first_half_bits as nat),
            half_size > 0,
            i <= total,
            eq_evals@.len() == old(eq_evals)@.len(),
            old(eq_evals)@.len() >= pow2(n as nat),
            sqrt_n_1st@.len() == old(sqrt_n_1st)@.len(),
            sqrt_n_2nd@.len() == old(sqrt_n_2nd)@.len(),
            sqrt_n_1st@.len() >= pow2(first_half_bits as nat),
            sqrt_n_2nd@.len() >= pow2((n - first_half_bits) as nat),
            pow2(first_half_bits as nat) * pow2((n - first_half_bits) as nat) == pow2(n as nat),
            forall|u: int| 0 <= u < sqrt_n_1st@.len() ==> (#[trigger] sqrt_n_1st@[u]).wf(),
            forall|u: int| 0 <= u < sqrt_n_2nd@.len() ==> (#[trigger] sqrt_n_2nd@[u]).wf(),
            forall|u: int|
                0 <= u < pow2(first_half_bits as nat) ==> (#[trigger] sqrt_n_1st@[u]).as_ints()
                    == eq_weighted(rm.take(h), mul_factor.as_ints(), u),
            forall|u: int|
                0 <= u < pow2((n - first_half_bits) as nat) ==> (
                #[trigger] sqrt_n_2nd@[u]).as_ints() == eq_weighted(rm.skip(h), e_one(), u),
            forall|u: int| 0 <= u < eq_evals@.len() ==> (#[trigger] eq_evals@[u]).wf(),
            forall|u: int|
                0 <= u < i ==> (#[trigger] eq_evals@[u]).as_ints() == e_mul(
                    eq_weighted(rm.take(h), mul_factor.as_ints(), u % (half_size as int)),
                    eq_weighted(rm.skip(h), e_one(), u / (half_size as int)),
                ),
            forall|u: int|
                pow2(n as nat) <= u < eq_evals@.len() ==> #[trigger] eq_evals@[u] == old(
                    eq_evals,
                )@[u],
        decreases total - i,
    {
        let lowi = i % half_size;
        let highi = i / half_size;
        proof {
            vstd::arithmetic::div_mod::lemma_mod_bound(i as int, half_size as int);
            assert(highi < pow2((n - first_half_bits) as nat)) by {
                vstd::arithmetic::div_mod::lemma_multiply_divide_lt(
                    i as int,
                    half_size as int,
                    pow2((n - first_half_bits) as nat) as int,
                );
            }
        }
        let v = sqrt_n_1st[lowi].mul(&sqrt_n_2nd[highi]);
        eq_evals[i] = v;
        i = i + 1;
    }
}


/// The models of a packed-value table.
pub open spec fn simd_views(v: Seq<SimdM31Ext3>) -> Seq<Seq<Seq<int>>> {
    v.map_values(|x: SimdM31Ext3| x.as_lanes())
}

/// The models of a base-field table promoted into the combined field.
pub open spec fn promoted_views(v: Seq<AVXM31>) -> Seq<Seq<Seq<int>>> {
    v.map_values(|x: AVXM31| v_promote(x.as_ints()))
}

/// The evaluation at zero: the masked sum of `src[2i] * hg[2i]`.
pub open spec fn p0_sum(
    src: Seq<Seq<Seq<int>>>,
    hg: Seq<Seq<Seq<int>>>,
    ge: Seq<bool>,
    n: nat,
) -> Seq<Seq<int>>
    decreases n,
{
    if n == 0 {
        v_zero()
    } else {
        let prev = p0_sum(src, hg, ge, (n - 1) as nat);
        if ge[2 * (n - 1)] || ge[2 * (n - 1) + 1] {
            v_add(prev, v_mul(src[2 * (n - 1)], hg[2 * (n - 1)]))
        } else {
            prev
        }
    }
}

/// The evaluation at one: the masked sum of `src[2i+1] * hg[2i+1]`.
pub open spec fn p1_sum(
    src: Seq<Seq<Seq<int>>>,
    hg: Seq<Seq<Seq<int>>>,
    ge: Seq<bool>,
    n: nat,
) -> Seq<Seq<int>>
    decreases n,
{
    if n == 0 {
        v_zero()
    } else {
        let prev = p1_sum(src, hg, ge, (n - 1) as nat);
        if ge[2 * (n - 1)] || ge[2 * (n - 1) + 1] {
            v_add(prev, v_mul(src[2 * (n - 1) + 1], hg[2 * (n - 1) + 1]))
        } else {
            prev
        }
    }
}

/// The raw evaluation at two's place: the masked sum of
/// `(src[2i] + src[2i+1]) * (hg[2i] + hg[2i+1])`.
pub open spec fn p2_sum(
    src: Seq<Seq<Seq<int>>>,
    hg: Seq<Seq<Seq<int>>>,
    ge: Seq<bool>,
    n: nat,
) -> Seq<Seq<int>>
    decreases n,
{
    if n == 0 {
        v_zero()
    } else {
        let prev = p2_sum(src, hg, ge, (n - 1) as nat);
        if ge[2 * (n - 1)] || ge[2 * (n - 1) + 1] {
            v_add(
                prev,
                v_mul(
                    v_add(src[2 * (n - 1)], src[2 * (n - 1) + 1]),
                    v_add(hg[2 * (n - 1)], hg[2 * (n - 1) + 1]),
                ),
            )
        } else {
            prev
        }
    }
}

/// The source table a round folds from: the bound inputs on the first
/// round, the folded table afterwards.
pub open spec fn src_table(
    var_idx: int,
    bk_f: Seq<SimdM31Ext3>,
    init_v: Seq<AVXM31>,
) -> Seq<Seq<Seq<int>>> {
    if var_idx == 0 {
        promoted_views(init_v)
    } else {
        simd_views(bk_f)
    }
}

/// One fold step: `x[2i] + (x[2i+1] - x[2i]) * r`.
pub open spec fn fold_pair(x0: Seq<Seq<int>>, x1: Seq<Seq<int>>, r: Seq<int>) -> Seq<Seq<int>> {
    v_add(x0, v_scale(v_add(x1, v_neg(x0)), r))
}


/// The active round index of the dispatched phase.
pub open spec fn phase_round(var_idx: int, ivn: int) -> int {
    if var_idx < ivn {
        var_idx
    } else {
        var_idx - ivn
    }
}

/// The transformed third evaluation `p1*6 + p0*3 - p2*2` of one round.
pub open spec fn p2_transformed(
    src: Seq<Seq<Seq<int>>>,
    hg: Seq<Seq<Seq<int>>>,
    ge: Seq<bool>,
    n: nat,
) -> Seq<Seq<int>> {
    v_add(
        v_add(
            v_scale(p1_sum(src, hg, ge, n), seq![6int, 0int, 0int]),
            v_scale(p0_sum(src, hg, ge, n), seq![3int, 0int, 0int]),
        ),
        v_neg(v_scale(p2_sum(src, hg, ge, n), seq![2int, 0int, 0int])),
    )
}

/// The state of one sumcheck half: how many variables it walks, which
/// round it is in, and how long the live prefix of the tables is.
pub struct SumcheckMultilinearProdHelper {
    pub var_num: usize,
    pub sumcheck_var_idx: usize,
    pub cur_eval_size: usize,
}

impl SumcheckMultilinearProdHelper {
    /// The round counter and the live table length agree.
    pub open spec fn wf(self) -> bool {
        &&& self.sumcheck_var_idx <= self.var_num
        &&& pow2(self.var_num as nat) <= usize::MAX as nat
        &&& self.cur_eval_size == pow2((self.var_num - self.sumcheck_var_idx) as nat)
    }

    /// A fresh half over `var_num` variables.
    pub fn new(var_num: usize) -> (r: Self)
        requires
            pow2(var_num as nat) <= usize::MAX as nat,
        ensures
            r.wf(),
            r.var_num == var_num,
            r.sumcheck_var_idx == 0,
            r.cur_eval_size == pow2(var_num as nat),
    {
        let sz = crate::bytes::pow2_exact(var_num);
        SumcheckMultilinearProdHelper { var_num, sumcheck_var_idx: 0, cur_eval_size: sz }
    }

    /// One round's degree-two evaluations: the masked sums at zero and
    /// one, and the transformed value `p1*6 + p0*3 - p2*2` in the
    /// third slot.
    pub fn poly_eval_at(
        &self,
        var_idx: usize,
        degree: usize,
        bk_f: &Vec<SimdM31Ext3>,
        bk_hg: &Vec<SimdM31Ext3>,
        init_v: &Vec<AVXM31>,
        gate_exists: &Vec<bool>,
    ) -> (out: [SimdM31Ext3; 3])
        requires
            self.wf(),
            degree == 2,
            var_idx < self.var_num,
            var_idx == 0 ==> init_v@.len() >= pow2(self.var_num as nat),
            var_idx > 0 ==> bk_f@.len() >= pow2((self.var_num - var_idx) as nat),
            bk_hg@.len() >= pow2((self.var_num - var_idx) as nat),
            gate_exists@.len() >= pow2((self.var_num - var_idx) as nat),
            forall|i: int| 0 <= i < bk_f@.len() ==> (#[trigger] bk_f@[i]).wf(),
            forall|i: int| 0 <= i < bk_hg@.len() ==> (#[trigger] bk_hg@[i]).wf(),
            forall|i: int| 0 <= i < init_v@.len() ==> (#[trigger] init_v@[i]).wf(),
        ensures
            out@.len() == 3,
            forall|t: int| 0 <= t < 3 ==> (#[trigger] out@[t]).wf(),
            out@[0].as_lanes() == p0_sum(
                src_table(var_idx as int, bk_f@, init_v@),
                simd_views(bk_hg@),
                gate_exists@,
                pow2((self.var_num - var_idx - 1) as nat),
            ),
            out@[1].as_lanes() == p1_sum(
                src_table(var_idx as int, bk_f@, init_v@),
                simd_views(bk_hg@),
                gate_exists@,
                pow2((self.var_num - var_idx - 1) as nat),
            ),
            out@[2].as_lanes() == v_add(
                v_add(
                    v_scale(
                        p1_sum(
                            src_table(var_idx as int, bk_f@, init_v@),
                            simd_views(bk_hg@),
                            gate_exists@,
                            pow2((self.var_num - var_idx - 1) as nat),
                        ),
                        seq![6int, 0int, 0int],
                    ),
                    v_scale(
                        p0_sum(
                            src_table(var_idx as int, bk_f@, init_v@),
                            simd_views(bk_hg@),
                            gate_exists@,
                            pow2((self.var_num - var_idx - 1) as nat),
                        ),
                        seq![3int, 0int, 0int],
                    ),
                ),
                v_neg(
                    v_scale(
                        p2_sum(
                            src_table(var_idx as int, bk_f@, init_v@),
                            simd_views(bk_hg@),
                            gate_exists@,
                            pow2((self.var_num - var_idx - 1) as nat),
                        ),
                        seq![2int, 0int, 0int],
                    ),
                ),
            ),
    {
        let ghost src = src_table(var_idx as int, bk_f@, init_v@);
        let ghost hg = simd_views(bk_hg@);
        let ghost ge = gate_exists@;
        let mut p0 = SimdM31Ext3::zero();
        let mut p1 = SimdM31Ext3::zero();
        let mut p2 = SimdM31Ext3::zero();
        proof {
            vstd::arithmetic::power2::lemma_pow2_adds((self.var_num - var_idx - 1) as nat, 1);
            vstd::arithmetic::power2::lemma2_to64();
            vstd::arithmetic::power2::lemma_pow2_strictly_increases(
                (self.var_num - var_idx - 1) as nat,
                self.var_num as nat,
            );
            if var_idx > 0 {
                vstd::arithmetic::power2::lemma_pow2_strictly_increases(
                    (self.var_num - var_idx) as nat,
                    self.var_num as nat,
                );
            }
        }
        let eval_size = crate::bytes::pow2_exact(self.var_num - var_idx - 1);
        let mut i: usize = 0;
        while i < eval_size
            invariant
                self.wf(),
                var_idx < self.var_num,
                src == src_table(var_idx as int, bk_f@, init_v@),
                hg == simd_views(bk_hg@),
                ge == gate_exists@,
                eval_size == pow2((self.var_num - var_idx - 1) as nat),
                2 * eval_size == pow2((self.var_num - var_idx) as nat),
                2 * eval_size <= usize::MAX,
                var_idx == 0 ==> init_v@.len() >= 2 * eval_size,
                var_idx > 0 ==> bk_f@.len() >= 2 * eval_size,
                bk_hg@.len() >= 2 * eval_size,
                gate_exists@.len() >= 2 * eval_size,
                forall|t: int| 0 <= t < bk_f@.len() ==> (#[trigger] bk_f@[t]).wf(),
                forall|t: int| 0 <= t < bk_hg@.len() ==> (#[trigger] bk_hg@[t]).wf(),
                forall|t: int| 0 <= t < init_v@.len() ==> (#[trigger] init_v@[t]).wf(),
                i <= eval_size,
                p0.wf(),
                p1.wf(),
                p2.wf(),
                p0.as_lanes() == p0_sum(src, hg, ge, i as nat),
                p1.as_lanes() == p1_sum(src, hg, ge, i as nat),
                p2.as_lanes() == p2_sum(src, hg, ge, i as nat),
            decreases eval_size - i,
        {
            if gate_exists[2 * i] || gate_exists[2 * i + 1] {
                let f_v_0: SimdM31Ext3;
                let f_v_1: SimdM31Ext3;
                if var_idx == 0 {
                    f_v_0 = SimdM31Ext3::promote(&init_v[2 * i]);
                    f_v_1 = SimdM31Ext3::promote(&init_v[2 * i + 1]);
                } else {
                    f_v_0 = bk_f[2 * i];
                    f_v_1 = bk_f[2 * i + 1];
                }
                proof {
                    assert(f_v_0.as_lanes() == src[2 * i as int]);
                    assert(f_v_1.as_lanes() == src[2 * i as int + 1]);
                }
                let hg_v_0 = bk_hg[2 * i];
                let hg_v_1 = bk_hg[2 * i + 1];
                p0 = p0.add(&f_v_0.mul(&hg_v_0));
                p1 = p1.add(&f_v_1.mul(&hg_v_1));
                p2 = p2.add(&f_v_0.add(&f_v_1).mul(&hg_v_0.add(&hg_v_1)));
            }
            i = i + 1;
        }
        let six = M31Ext3::from_u32(6);
        let three = M31Ext3::from_u32(3);
        let two = M31Ext3::from_u32(2);
        let p2t = p1.scale(&six).add(&p0.scale(&three)).sub(&p2.scale(&two));
        proof {
            vstd::arithmetic::div_mod::lemma_small_mod(6nat, crate::m31::p() as nat);
            vstd::arithmetic::div_mod::lemma_small_mod(3nat, crate::m31::p() as nat);
            vstd::arithmetic::div_mod::lemma_small_mod(2nat, crate::m31::p() as nat);
            assert(six.as_ints() =~= seq![6int, 0int, 0int]);
            assert(three.as_ints() =~= seq![3int, 0int, 0int]);
            assert(two.as_ints() =~= seq![2int, 0int, 0int]);
        }
        [p0, p1, p2t]
    }

    /// Receives one challenge: folds the live prefixes of the input and
    /// weight tables to half their length and merges the slot masks.
    pub fn receive_challenge(
        &mut self,
        var_idx: usize,
        r: M31Ext3,
        bk_f: &mut Vec<SimdM31Ext3>,
        bk_hg: &mut Vec<SimdM31Ext3>,
        init_v: &Vec<AVXM31>,
        gate_exists: &mut Vec<bool>,
    )
        requires
            old(self).wf(),
            var_idx == old(self).sumcheck_var_idx,
            var_idx < old(self).var_num,
            r.wf(),
            old(bk_f)@.len() >= pow2((old(self).var_num - var_idx) as nat),
            var_idx == 0 ==> init_v@.len() >= pow2(old(self).var_num as nat),
            old(bk_hg)@.len() >= pow2((old(self).var_num - var_idx) as nat),
            old(gate_exists)@.len() >= pow2((old(self).var_num - var_idx) as nat),
            forall|i: int| 0 <= i < old(bk_f)@.len() ==> (#[trigger] old(bk_f)@[i]).wf(),
            forall|i: int| 0 <= i < old(bk_hg)@.len() ==> (#[trigger] old(bk_hg)@[i]).wf(),
            forall|i: int| 0 <= i < init_v@.len() ==> (#[trigger] init_v@[i]).wf(),
        ensures
            final(self).wf(),
            final(self).var_num == old(self).var_num,
            final(self).sumcheck_var_idx == var_idx + 1,
            final(self).cur_eval_size == pow2((old(self).var_num - var_idx - 1) as nat),
            final(bk_f)@.len() == old(bk_f)@.len(),
            final(bk_hg)@.len() == old(bk_hg)@.len(),
            final(gate_exists)@.len() == old(gate_exists)@.len(),
            forall|i: int| 0 <= i < final(bk_f)@.len() ==> (#[trigger] final(bk_f)@[i]).wf(),
            forall|i: int| 0 <= i < final(bk_hg)@.len() ==> (#[trigger] final(bk_hg)@[i]).wf(),
            forall|i: int|
                0 <= i < pow2((old(self).var_num - var_idx - 1) as nat)
                    ==> (#[trigger] final(bk_f)@[i]).as_lanes() == fold_pair(
                    src_table(var_idx as int, old(bk_f)@, init_v@)[2 * i],
                    src_table(var_idx as int, old(bk_f)@, init_v@)[2 * i + 1],
                    r.as_ints(),
                ),
            forall|i: int|
                0 <= i < pow2((old(self).var_num - var_idx - 1) as nat)
                    ==> #[trigger] final(gate_exists)@[i] == (old(gate_exists)@[2 * i] || old(
                    gate_exists,
                )@[2 * i + 1]),
            forall|i: int|
                0 <= i < pow2((old(self).var_num - var_idx - 1) as nat)
                    ==> (#[trigger] final(bk_hg)@[i]).as_lanes() == if (old(gate_exists)@[2 * i]
                    || old(gate_exists)@[2 * i + 1]) {
                    fold_pair(
                        simd_views(old(bk_hg)@)[2 * i],
                        simd_views(old(bk_hg)@)[2 * i + 1],
                        r.as_ints(),
                    )
                } else {
                    v_zero()
                },
            forall|i: int|
                pow2((old(self).var_num - var_idx - 1) as nat) <= i < final(bk_f)@.len()
                    ==> #[trigger] final(bk_f)@[i] == old(bk_f)@[i],
            forall|i: int|
                pow2((old(self).var_num - var_idx - 1) as nat) <= i < final(bk_hg)@.len()
                    ==> #[trigger] final(bk_hg)@[i] == old(bk_hg)@[i],
            forall|i: int|
                pow2((old(self).var_num - var_idx - 1) as nat) <= i < final(gate_exists)@.len()
                    ==> #[trigger] final(gate_exists)@[i] == old(gate_exists)@[i],
    {
        let ghost src = src_table(var_idx as int, bk_f@, init_v@);
        let ghost hg0 = simd_views(bk_hg@);
        let ghost ge0 = gate_exists@;
        proof {
            vstd::arithmetic::power2::lemma_pow2_adds((self.var_num - var_idx - 1) as nat, 1);
            vstd::arithmetic::power2::lemma2_to64();
            vstd::arithmetic::power2::lemma_pow2_strictly_increases(
                (self.var_num - var_idx - 1) as nat,
                self.var_num as nat,
            );
            if var_idx > 0 {
                vstd::arithmetic::power2::lemma_pow2_strictly_increases(
                    (self.var_num - var_idx) as nat,
                    self.var_num as nat,
                );
            }
        }
        let half = crate::bytes::pow2_exact(self.var_num - var_idx - 1);
        let zero = SimdM31Ext3::zero();
        let mut i: usize = 0;
        while i < half
            invariant
                var_idx < self.var_num,
                self.wf(),
                self == old(self),
                r.wf(),
                zero.wf(),
                zero.as_lanes() == v_zero(),
                src == src_table(var_idx as int, old(bk_f)@, init_v@),
                hg0 == simd_views(old(bk_hg)@),
                ge0 == old(gate_exists)@,
                half == pow2((self.var_num - var_idx - 1) as nat),
                2 * half == pow2((self.var_num - var_idx) as nat),
                2 * half <= usize::MAX,
                var_idx == 0 ==> init_v@.len() >= 2 * half,
                bk_f@.len() == old(bk_f)@.len() >= 2 * half,
                bk_hg@.len() == old(bk_hg)@.len() >= 2 * half,
                gate_exists@.len() == old(gate_exists)@.len() >= 2 * half,
                forall|t: int| 0 <= t < bk_f@.len() ==> (#[trigger] bk_f@[t]).wf(),
                forall|t: int| 0 <= t < bk_hg@.len() ==> (#[trigger] bk_hg@[t]).wf(),
                forall|t: int| 0 <= t < init_v@.len() ==> (#[trigger] init_v@[t]).wf(),
                i <= half,
                forall|t: int|
                    0 <= t < i ==> (#[trigger] bk_f@[t]).as_lanes() == fold_pair(
                        src[2 * t],
                        src[2 * t + 1],
                        r.as_ints(),
                    ),
                forall|t: int| 0 <= t < i ==> #[trigger] gate_exists@[t] == (ge0[2 * t] || ge0[2 * t + 1]),
                forall|t: int|
                    0 <= t < i ==> (#[trigger] bk_hg@[t]).as_lanes() == if (ge0[2 * t] || ge0[2
                        * t + 1]) {
                        fold_pair(hg0[2 * t], hg0[2 * t + 1], r.as_ints())
                    } else {
                        v_zero()
                    },
                forall|t: int|
                    i <= t < bk_f@.len() ==> #[trigger] bk_f@[t] == old(bk_f)@[t],
                forall|t: int|
                    i <= t < bk_hg@.len() ==> #[trigger] bk_hg@[t] == old(bk_hg)@[t],
                forall|t: int|
                    i <= t < gate_exists@.len() ==> #[trigger] gate_exists@[t] == old(
                        gate_exists,
                    )@[t],
            decreases half - i,
        {
            let f0: SimdM31Ext3;
            let f1: SimdM31Ext3;
            if var_idx == 0 {
                f0 = SimdM31Ext3::promote(&init_v[2 * i]);
                f1 = SimdM31Ext3::promote(&init_v[2 * i + 1]);
            } else {
                f0 = bk_f[2 * i];
                f1 = bk_f[2 * i + 1];
            }
            proof {
                assert(f0.as_lanes() == src[2 * i as int]);
                assert(f1.as_lanes() == src[2 * i as int + 1]);
            }
            let folded_f = f0.add(&f1.sub(&f0).scale(&r));
            let both_gone = !gate_exists[2 * i] && !gate_exists[2 * i + 1];
            let h0 = bk_hg[2 * i];
            let h1 = bk_hg[2 * i + 1];
            let folded_hg = if both_gone {
                zero
            } else {
                h0.add(&h1.sub(&h0).scale(&r))
            };
            bk_f[i] = folded_f;
            bk_hg[i] = folded_hg;
            gate_exists[i] = !both_gone;
            i = i + 1;
        }
        self.cur_eval_size = half;
        self.sumcheck_var_idx = self.sumcheck_var_idx + 1;
    }
}



/// A weighted equality value is canonical whenever the factor is.
pub proof fn lemma_eq_weighted_wf(r: Seq<Seq<int>>, f: Seq<int>, j: int)
    requires
        ext_wf(f),
    ensures
        ext_wf(eq_weighted(r, f, j)),
    decreases r.len(),
{
    if r.len() == 0 {
    } else {
        let half = pow2((r.len() - 1) as nat) as int;
        lemma_eq_weighted_wf(r.drop_last(), f, j % half);
        let low = eq_weighted(r.drop_last(), f, j % half);
        let fac = if (j / half) % 2 == 1 {
            r.last()
        } else {
            e_one_minus(r.last())
        };
        vstd::arithmetic::div_mod::lemma_mod_bound(
            low[0] * fac[0] + 5 * (low[1] * fac[2] + low[2] * fac[1]),
            crate::m31::p(),
        );
        vstd::arithmetic::div_mod::lemma_mod_bound(
            low[0] * fac[1] + low[1] * fac[0] + 5 * (low[2] * fac[2]),
            crate::m31::p(),
        );
        vstd::arithmetic::div_mod::lemma_mod_bound(
            low[0] * fac[2] + low[1] * fac[1] + low[2] * fac[0],
            crate::m31::p(),
        );
    }
}

/// Law: the split-halves expansion is exact — the product of the
/// weighted low-half table and the unweighted high-half table is the
/// weighted equality table of the whole point.
pub proof fn lemma_eq_split(r: Seq<Seq<int>>, f: Seq<int>, h: int, j: int)
    requires
        ext_wf(f),
        forall|i: int| 0 <= i < r.len() ==> (#[trigger] r[i]).len() == 3,
        0 <= h <= r.len(),
        0 <= j < pow2(r.len() as nat),
    ensures
        e_mul(
            eq_weighted(r.take(h), f, j % (pow2(h as nat) as int)),
            eq_weighted(r.skip(h), e_one(), j / (pow2(h as nat) as int)),
        ) == eq_weighted(r, f, j),
    decreases r.len() - h,
{
    let n = r.len() as int;
    vstd::arithmetic::power2::lemma_pow2_pos(h as nat);
    vstd::arithmetic::power2::lemma_pow2_pos(r.len());
    if h == n {
        assert(r.take(h) =~= r);
        assert(r.skip(h) =~= Seq::<Seq<int>>::empty());
        vstd::arithmetic::div_mod::lemma_small_mod(j as nat, pow2(h as nat));
        vstd::arithmetic::div_mod::lemma_basic_div(j, pow2(h as nat) as int);
        lemma_eq_weighted_wf(r, f, j);
        crate::m31_ext::lemma_e_identities(eq_weighted(r, f, j));
    } else {
        let half = pow2((n - 1) as nat) as int;
        let hh = pow2(h as nat) as int;
        let rest = pow2((n - 1 - h) as nat) as int;
        vstd::arithmetic::power2::lemma_pow2_pos((n - 1) as nat);
        vstd::arithmetic::power2::lemma_pow2_pos((n - 1 - h) as nat);
        vstd::arithmetic::power2::lemma_pow2_adds(h as nat, (n - 1 - h) as nat);
        assert(hh * rest == half);
        vstd::arithmetic::power2::lemma_pow2_adds((n - 1) as nat, 1);
        vstd::arithmetic::power2::lemma2_to64();
        // the high bit seen from the upper half is the high bit of `j`
        vstd::arithmetic::div_mod::lemma_div_denominator(j, hh, rest);
        assert((j / hh) / rest == j / half);
        // the middle bits seen from the upper half are those of `j % half`
        vstd::arithmetic::div_mod::lemma_breakdown(j, hh, rest);
        assert(j % half == hh * ((j / hh) % rest) + j % hh);
        vstd::arithmetic::div_mod::lemma_mod_bound(j, hh);
        vstd::arithmetic::div_mod::lemma_mod_bound(j / hh, rest);
        vstd::arithmetic::div_mod::lemma_div_multiples_vanish_fancy(
            (j / hh) % rest,
            j % hh,
            hh,
        );
        assert((j % half) / hh == (j / hh) % rest);
        // the low bits agree
        vstd::arithmetic::div_mod::lemma_mod_mod(j, hh, rest);
        assert((j % half) % hh == j % hh);
        // the halves of the shorter point are the same sequences
        assert(r.skip(h).drop_last() =~= r.drop_last().skip(h));
        assert(r.skip(h).last() == r[n - 1]);
        assert(r.take(h) =~= r.drop_last().take(h));
        vstd::arithmetic::div_mod::lemma_mod_bound(j, half);
        lemma_eq_split(r.drop_last(), f, h, j % half);
        let low = eq_weighted(r.take(h), f, j % hh);
        let mid = eq_weighted(r.drop_last().skip(h), e_one(), (j % half) / hh);
        let fac = if (j / half) % 2 == 1 {
            r.last()
        } else {
            e_one_minus(r.last())
        };
        assert(eq_weighted(r.skip(h), e_one(), j / hh) == e_mul(mid, fac)) by {
            assert(r.skip(h).len() == n - h);
            assert(pow2((r.skip(h).len() - 1) as nat) as int == rest);
        }
        lemma_eq_weighted_wf(r.take(h), f, j % hh);
        lemma_eq_weighted_wf(r.drop_last().skip(h), e_one(), (j % half) / hh);
        assert(low.len() == 3 && mid.len() == 3 && fac.len() == 3);
        crate::m31_ext::lemma_e_mul_assoc(low, mid, fac);
        assert(e_mul(low, mid) == eq_weighted(r.drop_last(), f, j % half));
        assert(eq_weighted(r, f, j) == e_mul(eq_weighted(r.drop_last(), f, j % half), fac));
    }
}

/// The product-form weighted equality table the split-halves expansion
/// materializes: low-half coordinates carry the factor, high-half
/// coordinates are unweighted.
pub open spec fn eq_prod_form(rm: Seq<Seq<int>>, f: Seq<int>, i: int) -> Seq<int> {
    let h = rm.len() as int / 2;
    e_mul(
        eq_weighted(rm.take(h), f, i % (pow2(h as nat) as int)),
        eq_weighted(rm.skip(h), e_one(), i / (pow2(h as nat) as int)),
    )
}

/// The model of a challenge vector.
pub open spec fn ext_views(v: Seq<M31Ext3>) -> Seq<Seq<int>> {
    v.map_values(|x: M31Ext3| x.as_ints())
}

/// One multiplication gate's weight: the combined equality value at its
/// output, times its coefficient lane, times the other input's value
/// lane.
pub open spec fn hg_mul_term(g: GateModel, vals: Seq<Seq<int>>, eq0: Seq<Seq<int>>) -> Seq<
    Seq<int>,
> {
    Seq::new(
        8nat,
        |l: int|
            e_mul(e_mul(eq0[g.o_id], seq![g.coef[l], 0int, 0int]), seq![
                vals[g.i_ids[1]][l],
                0int,
                0int,
            ]),
    )
}

/// One addition gate's weight: the combined equality value at its
/// output times its coefficient lane.
pub open spec fn hg_add_term(g: GateModel, eq0: Seq<Seq<int>>) -> Seq<Seq<int>> {
    Seq::new(8nat, |l: int| e_mul(eq0[g.o_id], seq![g.coef[l], 0int, 0int]))
}

/// Folds the multiplication gates into the phase-x weight table.
pub open spec fn hg_x_muls(
    gs: Seq<GateModel>,
    vals: Seq<Seq<int>>,
    eq0: Seq<Seq<int>>,
    acc: Seq<Seq<Seq<int>>>,
) -> Seq<Seq<Seq<int>>>
    decreases gs.len(),
{
    if gs.len() == 0 {
        acc
    } else {
        let g = gs[0];
        hg_x_muls(
            gs.drop_first(),
            vals,
            eq0,
            acc.update(g.i_ids[0], v_add(acc[g.i_ids[0]], hg_mul_term(g, vals, eq0))),
        )
    }
}

/// Folds the addition gates into the phase-x weight table.
pub open spec fn hg_x_adds(
    gs: Seq<GateModel>,
    eq0: Seq<Seq<int>>,
    acc: Seq<Seq<Seq<int>>>,
) -> Seq<Seq<Seq<int>>>
    decreases gs.len(),
{
    if gs.len() == 0 {
        acc
    } else {
        let g = gs[0];
        hg_x_adds(
            gs.drop_first(),
            eq0,
            acc.update(g.i_ids[0], v_add(acc[g.i_ids[0]], hg_add_term(g, eq0))),
        )
    }
}

/// A table of packed zeros in the combined field.
pub open spec fn zero_simd_table(n: nat) -> Seq<Seq<Seq<int>>> {
    Seq::new(n, |i: int| v_zero())
}

/// One multiplication gate's phase-y weight: the claimed x-value times
/// the combined output equality, the x-side input equality, and the
/// coefficient lane.
pub open spec fn hg_y_term(
    g: GateModel,
    vrx: Seq<Seq<int>>,
    eq0: Seq<Seq<int>>,
    eqx: Seq<Seq<int>>,
) -> Seq<Seq<int>> {
    Seq::new(
        8nat,
        |l: int|
            e_mul(vrx[l], e_mul(e_mul(eq0[g.o_id], eqx[g.i_ids[0]]), seq![
                g.coef[l],
                0int,
                0int,
            ])),
    )
}

/// Folds the multiplication gates into the phase-y weight table.
pub open spec fn hg_y_muls(
    gs: Seq<GateModel>,
    vrx: Seq<Seq<int>>,
    eq0: Seq<Seq<int>>,
    eqx: Seq<Seq<int>>,
    acc: Seq<Seq<Seq<int>>>,
) -> Seq<Seq<Seq<int>>>
    decreases gs.len(),
{
    if gs.len() == 0 {
        acc
    } else {
        let g = gs[0];
        hg_y_muls(
            gs.drop_first(),
            vrx,
            eq0,
            eqx,
            acc.update(g.i_ids[1], v_add(acc[g.i_ids[1]], hg_y_term(g, vrx, eq0, eqx))),
        )
    }
}

/// The per-layer sumcheck state: the collected challenges of both
/// phases, the carried output points and combining scalars, and the
/// two fold state machines.
pub struct SumcheckGkrHelper {
    pub rx: Vec<M31Ext3>,
    pub ry: Vec<M31Ext3>,
    pub rz0: Vec<M31Ext3>,
    pub rz1: Vec<M31Ext3>,
    pub alpha: M31Ext3,
    pub beta: M31Ext3,
    pub input_var_num: usize,
    pub output_var_num: usize,
    pub x_helper: SumcheckMultilinearProdHelper,
    pub y_helper: SumcheckMultilinearProdHelper,
}

impl SumcheckGkrHelper {
    /// The carried data are canonical and the two halves walk the
    /// layer's input variables.
    pub open spec fn wf(self) -> bool {
        &&& forall|i: int| 0 <= i < self.rx@.len() ==> (#[trigger] self.rx@[i]).wf()
        &&& forall|i: int| 0 <= i < self.ry@.len() ==> (#[trigger] self.ry@[i]).wf()
        &&& forall|i: int| 0 <= i < self.rz0@.len() ==> (#[trigger] self.rz0@[i]).wf()
        &&& forall|i: int| 0 <= i < self.rz1@.len() ==> (#[trigger] self.rz1@[i]).wf()
        &&& self.alpha.wf()
        &&& self.beta.wf()
        &&& self.x_helper.wf()
        &&& self.y_helper.wf()
        &&& self.x_helper.var_num == self.input_var_num
        &&& self.y_helper.var_num == self.input_var_num
        &&& pow2(self.input_var_num as nat) <= usize::MAX as nat
    }

    /// A fresh helper for one layer and its carried points.
    pub fn new(
        layer: &CircuitLayer,
        rz0: Vec<M31Ext3>,
        rz1: Vec<M31Ext3>,
        alpha: &M31Ext3,
        beta: &M31Ext3,
    ) -> (r: Self)
        requires
            pow2(layer.input_var_num as nat) <= usize::MAX as nat,
            forall|i: int| 0 <= i < rz0@.len() ==> (#[trigger] rz0@[i]).wf(),
            forall|i: int| 0 <= i < rz1@.len() ==> (#[trigger] rz1@[i]).wf(),
            alpha.wf(),
            beta.wf(),
        ensures
            r.wf(),
            r.rx@.len() == 0,
            r.ry@.len() == 0,
            r.rz0@ == rz0@,
            r.rz1@ == rz1@,
            r.alpha == alpha,
            r.beta == beta,
            r.input_var_num == layer.input_var_num,
            r.output_var_num == layer.output_var_num,
            r.x_helper.sumcheck_var_idx == 0,
            r.y_helper.sumcheck_var_idx == 0,
    {
        SumcheckGkrHelper {
            rx: Vec::new(),
            ry: Vec::new(),
            rz0,
            rz1,
            alpha: *alpha,
            beta: *beta,
            input_var_num: layer.input_var_num,
            output_var_num: layer.output_var_num,
            x_helper: SumcheckMultilinearProdHelper::new(layer.input_var_num),
            y_helper: SumcheckMultilinearProdHelper::new(layer.input_var_num),
        }
    }

    /// The input polynomial's claimed value after the running phase:
    /// the head of the folded table.
    pub fn vx_claim(&self, sp: &GkrScratchpad) -> (r: SimdM31Ext3)
        requires
            sp.v_evals@.len() > 0,
            sp.wf(),
        ensures
            r == sp.v_evals@[0],
            r.wf(),
    {
        sp.v_evals[0]
    }

    /// The claimed value after the second phase; the folded table's
    /// head again, once the y rounds have run.
    pub fn vy_claim(&self, sp: &GkrScratchpad) -> (r: SimdM31Ext3)
        requires
            sp.v_evals@.len() > 0,
            sp.wf(),
        ensures
            r == sp.v_evals@[0],
            r.wf(),
    {
        sp.v_evals[0]
    }
}



/// The combined output equality table:
/// `alpha * eq(rz0, o) + beta * eq(rz1, o)` in product form.
pub open spec fn combined_eq(
    rz0m: Seq<Seq<int>>,
    rz1m: Seq<Seq<int>>,
    am: Seq<int>,
    bm: Seq<int>,
    n: nat,
) -> Seq<Seq<int>> {
    Seq::new(n, |o: int| e_add(eq_prod_form(rz0m, am, o), eq_prod_form(rz1m, bm, o)))
}

impl SumcheckGkrHelper {
    /// Materializes the combined equality table
    /// `alpha * eq(rz0, .) + beta * eq(rz1, .)` over the output space
    /// and the phase-x gate weights: every multiplication gate adds the
    /// other input's value under its weight at its first input's slot,
    /// every addition gate its plain weight, and the touched slots are
    /// marked.
    pub fn prepare_g_x_vals(&self, layer: &CircuitLayer, sp: &mut GkrScratchpad)
        requires
            self.wf(),
            layer.wf(),
            self.input_var_num == layer.input_var_num,
            self.output_var_num == layer.output_var_num,
            self.rz0@.len() == layer.output_var_num,
            self.rz1@.len() == layer.output_var_num,
            pow2(layer.output_var_num as nat) <= usize::MAX as nat,
            layer.input_vals@.len() == pow2(layer.input_var_num as nat),
            old(sp).wf(),
            old(sp).hg_evals_5@.len() >= pow2(layer.input_var_num as nat),
            old(sp).gate_exists_5@.len() >= pow2(layer.input_var_num as nat),
            old(sp).eq_evals_at_rz0@.len() >= pow2(layer.output_var_num as nat),
            old(sp).eq_evals_at_rz1@.len() >= pow2(layer.output_var_num as nat),
            old(sp).eq_evals_first_half@.len() >= pow2((layer.output_var_num / 2) as nat),
            old(sp).eq_evals_second_half@.len() >= pow2(
                (layer.output_var_num - layer.output_var_num / 2) as nat,
            ),
        ensures
            final(sp).wf(),
            final(sp).v_evals@ == old(sp).v_evals@,
            final(sp).hg_evals_1@ == old(sp).hg_evals_1@,
            final(sp).gate_exists_1@ == old(sp).gate_exists_1@,
            final(sp).eq_evals_at_rx@ == old(sp).eq_evals_at_rx@,
            final(sp).hg_evals_5@.len() == old(sp).hg_evals_5@.len(),
            final(sp).gate_exists_5@.len() == old(sp).gate_exists_5@.len(),
            final(sp).eq_evals_at_rz0@.len() == old(sp).eq_evals_at_rz0@.len(),
            final(sp).eq_evals_at_rz1@.len() == old(sp).eq_evals_at_rz1@.len(),
            final(sp).eq_evals_first_half@.len() == old(sp).eq_evals_first_half@.len(),
            final(sp).eq_evals_second_half@.len() == old(sp).eq_evals_second_half@.len(),
            forall|o: int|
                0 <= o < pow2(layer.output_var_num as nat)
                    ==> (#[trigger] final(sp).eq_evals_at_rz0@[o]).as_ints() == combined_eq(
                    ext_views(self.rz0@),
                    ext_views(self.rz1@),
                    self.alpha.as_ints(),
                    self.beta.as_ints(),
                    pow2(layer.output_var_num as nat),
                )[o],
            forall|i: int|
                0 <= i < pow2(layer.input_var_num as nat)
                    ==> #[trigger] final(sp).gate_exists_5@[i] == ((exists|t: int|
                    0 <= t < layer.model().mul.len() && (#[trigger] layer.model().mul[t]).i_ids[0]
                        == i) || (exists|t: int|
                    0 <= t < layer.model().add.len() && (#[trigger] layer.model().add[t]).i_ids[0]
                        == i)),
            simd_views(final(sp).hg_evals_5@.take(pow2(layer.input_var_num as nat) as int))
                == hg_x_adds(
                layer.model().add,
                combined_eq(
                    ext_views(self.rz0@),
                    ext_views(self.rz1@),
                    self.alpha.as_ints(),
                    self.beta.as_ints(),
                    pow2(layer.output_var_num as nat),
                ),
                hg_x_muls(
                    layer.model().mul,
                    crate::expander_circuit::lane_views(layer.input_vals@),
                    combined_eq(
                        ext_views(self.rz0@),
                        ext_views(self.rz1@),
                        self.alpha.as_ints(),
                        self.beta.as_ints(),
                        pow2(layer.output_var_num as nat),
                    ),
                    zero_simd_table(pow2(layer.input_var_num as nat)),
                ),
            ),
    {
        let ghost psize = pow2(layer.input_var_num as nat) as int;
        let ghost eqc = combined_eq(
            ext_views(self.rz0@),
            ext_views(self.rz1@),
            self.alpha.as_ints(),
            self.beta.as_ints(),
            pow2(layer.output_var_num as nat),
        );
        let ghost vals_m = crate::expander_circuit::lane_views(layer.input_vals@);
        let ghost mgs = layer.model().mul;
        let ghost ags = layer.model().add;
        let vals_len = layer.input_vals.len();
        let zero = SimdM31Ext3::zero();
        let mut zi: usize = 0;
        while zi < vals_len
            invariant
                zi <= vals_len,
                vals_len as int == psize,
                zero.wf(),
                zero.as_lanes() == v_zero(),
                old(sp).wf(),
                sp.wf(),
                sp.v_evals@ == old(sp).v_evals@,
                sp.hg_evals_1@ == old(sp).hg_evals_1@,
                sp.gate_exists_1@ == old(sp).gate_exists_1@,
                sp.eq_evals_at_rx@ == old(sp).eq_evals_at_rx@,
                sp.eq_evals_at_rz0@ == old(sp).eq_evals_at_rz0@,
                sp.eq_evals_at_rz1@ == old(sp).eq_evals_at_rz1@,
                sp.eq_evals_first_half@ == old(sp).eq_evals_first_half@,
                sp.eq_evals_second_half@ == old(sp).eq_evals_second_half@,
                sp.hg_evals_5@.len() == old(sp).hg_evals_5@.len() >= psize,
                sp.gate_exists_5@.len() == old(sp).gate_exists_5@.len() >= psize,
                forall|t: int|
                    0 <= t < zi ==> (#[trigger] sp.hg_evals_5@[t]).as_lanes() == v_zero(),
                forall|t: int| 0 <= t < zi ==> !(#[trigger] sp.gate_exists_5@[t]),
            decreases vals_len - zi,
        {
            sp.hg_evals_5[zi] = zero;
            sp.gate_exists_5[zi] = false;
            zi = zi + 1;
        }
        eq_eval_at(
            &self.rz0,
            &self.alpha,
            &mut sp.eq_evals_at_rz0,
            &mut sp.eq_evals_first_half,
            &mut sp.eq_evals_second_half,
        );
        eq_eval_at(
            &self.rz1,
            &self.beta,
            &mut sp.eq_evals_at_rz1,
            &mut sp.eq_evals_first_half,
            &mut sp.eq_evals_second_half,
        );
        let out_size = crate::bytes::pow2_exact(layer.output_var_num);
        let mut oi: usize = 0;
        while oi < out_size
            invariant
                self.wf(),
                self.rz0@.len() == self.output_var_num,
                self.rz1@.len() == self.output_var_num,
                out_size == pow2(self.output_var_num as nat),
                eqc == combined_eq(
                    ext_views(self.rz0@),
                    ext_views(self.rz1@),
                    self.alpha.as_ints(),
                    self.beta.as_ints(),
                    pow2(self.output_var_num as nat),
                ),
                oi <= out_size,
                old(sp).wf(),
                sp.wf(),
                sp.v_evals@ == old(sp).v_evals@,
                sp.hg_evals_1@ == old(sp).hg_evals_1@,
                sp.gate_exists_1@ == old(sp).gate_exists_1@,
                sp.eq_evals_at_rx@ == old(sp).eq_evals_at_rx@,
                sp.hg_evals_5@.len() == old(sp).hg_evals_5@.len() >= psize,
                sp.gate_exists_5@.len() == old(sp).gate_exists_5@.len() >= psize,
                sp.eq_evals_at_rz0@.len() == old(sp).eq_evals_at_rz0@.len() >= out_size,
                sp.eq_evals_at_rz1@.len() == old(sp).eq_evals_at_rz1@.len() >= out_size,
                sp.eq_evals_first_half@.len() == old(sp).eq_evals_first_half@.len(),
                sp.eq_evals_second_half@.len() == old(sp).eq_evals_second_half@.len(),
                forall|t: int|
                    0 <= t < psize ==> (#[trigger] sp.hg_evals_5@[t]).as_lanes() == v_zero(),
                forall|t: int| 0 <= t < psize ==> !(#[trigger] sp.gate_exists_5@[t]),
                forall|t: int|
                    oi <= t < out_size ==> (#[trigger] sp.eq_evals_at_rz0@[t]).as_ints()
                        == eq_prod_form(ext_views(self.rz0@), self.alpha.as_ints(), t),
                forall|t: int|
                    0 <= t < out_size ==> (#[trigger] sp.eq_evals_at_rz1@[t]).as_ints()
                        == eq_prod_form(ext_views(self.rz1@), self.beta.as_ints(), t),
                forall|t: int|
                    0 <= t < oi ==> (#[trigger] sp.eq_evals_at_rz0@[t]).as_ints() == eqc[t],
            decreases out_size - oi,
        {
            let a = sp.eq_evals_at_rz0[oi];
            let b = sp.eq_evals_at_rz1[oi];
            sp.eq_evals_at_rz0[oi] = a.add(&b);
            oi = oi + 1;
        }
        let nm = layer.mul.len();
        let mut gi: usize = 0;
        proof {
            assert(simd_views(sp.hg_evals_5@.take(psize)) =~~= zero_simd_table(
                pow2(layer.input_var_num as nat),
            ));
            assert(mgs.skip(0int) =~= mgs);
        }
        while gi < nm
            invariant
                self.wf(),
                layer.wf(),
                self.input_var_num == layer.input_var_num,
                self.output_var_num == layer.output_var_num,
                layer.input_vals@.len() == pow2(layer.input_var_num as nat),
                psize == pow2(layer.input_var_num as nat) as int,
                nm == layer.mul@.len(),
                mgs == layer.model().mul,
                vals_m == crate::expander_circuit::lane_views(layer.input_vals@),
                gi <= nm,
                old(sp).wf(),
                sp.wf(),
                sp.v_evals@ == old(sp).v_evals@,
                sp.hg_evals_1@ == old(sp).hg_evals_1@,
                sp.gate_exists_1@ == old(sp).gate_exists_1@,
                sp.eq_evals_at_rx@ == old(sp).eq_evals_at_rx@,
                sp.hg_evals_5@.len() == old(sp).hg_evals_5@.len() >= psize,
                sp.gate_exists_5@.len() == old(sp).gate_exists_5@.len() >= psize,
                sp.eq_evals_at_rz0@.len() == old(sp).eq_evals_at_rz0@.len() >= pow2(
                    self.output_var_num as nat,
                ),
                sp.eq_evals_at_rz1@.len() == old(sp).eq_evals_at_rz1@.len(),
                sp.eq_evals_first_half@.len() == old(sp).eq_evals_first_half@.len(),
                sp.eq_evals_second_half@.len() == old(sp).eq_evals_second_half@.len(),
                forall|o: int|
                    0 <= o < pow2(self.output_var_num as nat) ==> (
                    #[trigger] sp.eq_evals_at_rz0@[o]).as_ints() == eqc[o],
                eqc.len() == pow2(self.output_var_num as nat),
                forall|t: int|
                    0 <= t < psize ==> #[trigger] sp.gate_exists_5@[t] == exists|u: int|
                        0 <= u < gi && (#[trigger] mgs[u]).i_ids[0] == t,
                hg_x_muls(mgs.skip(gi as int), vals_m, eqc, simd_views(
                    sp.hg_evals_5@.take(psize),
                )) == hg_x_muls(mgs, vals_m, eqc, zero_simd_table(pow2(layer.input_var_num as nat))),
            decreases nm - gi,
        {
            let g = &layer.mul[gi];
            let ghost pre_tab = simd_views(sp.hg_evals_5@.take(psize));
            let ghost pre_ge = sp.gate_exists_5@;
            proof {
                assert(mgs[gi as int] == g.model());
                crate::simd_m31::lemma_s_wf_to_wf(g.coef);
            }
            let w = crate::simd_ext::challenge_mul_circuit(&sp.eq_evals_at_rz0[g.o_id], &g.coef);
            let term = w.mul_by_circuit(&layer.input_vals[g.i_ids[1]]);
            let cur = sp.hg_evals_5[g.i_ids[0]];
            sp.hg_evals_5[g.i_ids[0]] = cur.add(&term);
            sp.gate_exists_5[g.i_ids[0]] = true;
            proof {
                let gm = mgs[gi as int];
                assert(term.as_lanes() =~~= hg_mul_term(gm, vals_m, eqc));
                assert(simd_views(sp.hg_evals_5@.take(psize)) =~~= pre_tab.update(
                    gm.i_ids[0],
                    v_add(pre_tab[gm.i_ids[0]], hg_mul_term(gm, vals_m, eqc)),
                ));
                assert(mgs.skip(gi as int).drop_first() =~= mgs.skip(gi + 1));
                assert(mgs.skip(gi as int)[0] == gm);
                assert forall|t: int| 0 <= t < psize implies #[trigger] sp.gate_exists_5@[t]
                    == exists|u: int| 0 <= u < gi + 1 && (#[trigger] mgs[u]).i_ids[0] == t by {
                    if t == gm.i_ids[0] {
                        assert(mgs[gi as int].i_ids[0] == t);
                    } else {
                        assert(sp.gate_exists_5@[t] == pre_ge[t]);
                        if exists|u: int| 0 <= u < gi + 1 && (#[trigger] mgs[u]).i_ids[0] == t {
                            let u = choose|u: int|
                                0 <= u < gi + 1 && (#[trigger] mgs[u]).i_ids[0] == t;
                            assert(u < gi);
                        }
                    }
                }
            }
            gi = gi + 1;
        }
        proof {
            assert(mgs.skip(nm as int) =~= Seq::<GateModel>::empty());
            assert(ags.skip(0int) =~= ags);
        }
        let na = layer.add.len();
        let mut ai: usize = 0;
        while ai < na
            invariant
                self.wf(),
                layer.wf(),
                self.input_var_num == layer.input_var_num,
                self.output_var_num == layer.output_var_num,
                psize == pow2(layer.input_var_num as nat) as int,
                na == layer.add@.len(),
                ags == layer.model().add,
                mgs == layer.model().mul,
                vals_m == crate::expander_circuit::lane_views(layer.input_vals@),
                ai <= na,
                old(sp).wf(),
                sp.wf(),
                sp.v_evals@ == old(sp).v_evals@,
                sp.hg_evals_1@ == old(sp).hg_evals_1@,
                sp.gate_exists_1@ == old(sp).gate_exists_1@,
                sp.eq_evals_at_rx@ == old(sp).eq_evals_at_rx@,
                sp.hg_evals_5@.len() == old(sp).hg_evals_5@.len() >= psize,
                sp.gate_exists_5@.len() == old(sp).gate_exists_5@.len() >= psize,
                sp.eq_evals_at_rz0@.len() == old(sp).eq_evals_at_rz0@.len() >= pow2(
                    self.output_var_num as nat,
                ),
                sp.eq_evals_at_rz1@.len() == old(sp).eq_evals_at_rz1@.len(),
                sp.eq_evals_first_half@.len() == old(sp).eq_evals_first_half@.len(),
                sp.eq_evals_second_half@.len() == old(sp).eq_evals_second_half@.len(),
                forall|o: int|
                    0 <= o < pow2(self.output_var_num as nat) ==> (
                    #[trigger] sp.eq_evals_at_rz0@[o]).as_ints() == eqc[o],
                eqc.len() == pow2(self.output_var_num as nat),
                forall|t: int|
                    0 <= t < psize ==> #[trigger] sp.gate_exists_5@[t] == ((exists|u: int|
                        0 <= u < mgs.len() && (#[trigger] mgs[u]).i_ids[0] == t) || (exists|u: int|
                        0 <= u < ai && (#[trigger] ags[u]).i_ids[0] == t)),
                hg_x_adds(ags.skip(ai as int), eqc, simd_views(sp.hg_evals_5@.take(psize)))
                    == hg_x_adds(
                    ags,
                    eqc,
                    hg_x_muls(mgs, vals_m, eqc, zero_simd_table(pow2(layer.input_var_num as nat))),
                ),
            decreases na - ai,
        {
            let g = &layer.add[ai];
            let ghost pre_tab = simd_views(sp.hg_evals_5@.take(psize));
            let ghost pre_ge = sp.gate_exists_5@;
            proof {
                assert(ags[ai as int] == g.model());
                crate::simd_m31::lemma_s_wf_to_wf(g.coef);
            }
            let term = crate::simd_ext::challenge_mul_circuit(
                &sp.eq_evals_at_rz0[g.o_id],
                &g.coef,
            );
            let cur = sp.hg_evals_5[g.i_ids[0]];
            sp.hg_evals_5[g.i_ids[0]] = cur.add(&term);
            sp.gate_exists_5[g.i_ids[0]] = true;
            proof {
                let gm = ags[ai as int];
                assert(term.as_lanes() =~~= hg_add_term(gm, eqc));
                assert(simd_views(sp.hg_evals_5@.take(psize)) =~~= pre_tab.update(
                    gm.i_ids[0],
                    v_add(pre_tab[gm.i_ids[0]], hg_add_term(gm, eqc)),
                ));
                assert(ags.skip(ai as int).drop_first() =~= ags.skip(ai + 1));
                assert(ags.skip(ai as int)[0] == gm);
                assert forall|t: int| 0 <= t < psize implies #[trigger] sp.gate_exists_5@[t] == ((
                exists|u: int| 0 <= u < mgs.len() && (#[trigger] mgs[u]).i_ids[0] == t) || (
                exists|u: int| 0 <= u < ai + 1 && (#[trigger] ags[u]).i_ids[0] == t)) by {
                    if t == gm.i_ids[0] {
                        assert(ags[ai as int].i_ids[0] == t);
                    } else {
                        assert(sp.gate_exists_5@[t] == pre_ge[t]);
                        if exists|u: int| 0 <= u < ai + 1 && (#[trigger] ags[u]).i_ids[0] == t {
                            let u = choose|u: int|
                                0 <= u < ai + 1 && (#[trigger] ags[u]).i_ids[0] == t;
                            assert(u < ai);
                        }
                    }
                }
            }
            ai = ai + 1;
        }
        proof {
            assert(ags.skip(na as int) =~= Seq::<GateModel>::empty());
        }
    }
}


impl SumcheckGkrHelper {
    /// Materializes the equality table at the phase-x point and the
    /// phase-y gate weights: every multiplication gate adds the claimed
    /// x-value under its combined weight at its second input's slot.
    /// Addition and constant gates do not reach this phase.
    pub fn prepare_h_y_vals(&self, v_rx: &SimdM31Ext3, layer: &CircuitLayer, sp: &mut GkrScratchpad)
        requires
            self.wf(),
            layer.wf(),
            v_rx.wf(),
            self.input_var_num == layer.input_var_num,
            self.output_var_num == layer.output_var_num,
            self.rx@.len() == layer.input_var_num,
            layer.input_vals@.len() == pow2(layer.input_var_num as nat),
            pow2(layer.output_var_num as nat) <= usize::MAX as nat,
            old(sp).wf(),
            old(sp).hg_evals_5@.len() >= pow2(layer.input_var_num as nat),
            old(sp).gate_exists_5@.len() >= pow2(layer.input_var_num as nat),
            old(sp).eq_evals_at_rx@.len() >= pow2(layer.input_var_num as nat),
            old(sp).eq_evals_at_rz0@.len() >= pow2(layer.output_var_num as nat),
            old(sp).eq_evals_first_half@.len() >= pow2((layer.input_var_num / 2) as nat),
            old(sp).eq_evals_second_half@.len() >= pow2(
                (layer.input_var_num - layer.input_var_num / 2) as nat,
            ),
        ensures
            final(sp).wf(),
            final(sp).v_evals@ == old(sp).v_evals@,
            final(sp).hg_evals_1@ == old(sp).hg_evals_1@,
            final(sp).gate_exists_1@ == old(sp).gate_exists_1@,
            final(sp).eq_evals_at_rz0@ == old(sp).eq_evals_at_rz0@,
            final(sp).eq_evals_at_rz1@ == old(sp).eq_evals_at_rz1@,
            final(sp).hg_evals_5@.len() == old(sp).hg_evals_5@.len(),
            final(sp).gate_exists_5@.len() == old(sp).gate_exists_5@.len(),
            final(sp).eq_evals_at_rx@.len() == old(sp).eq_evals_at_rx@.len(),
            final(sp).eq_evals_first_half@.len() == old(sp).eq_evals_first_half@.len(),
            final(sp).eq_evals_second_half@.len() == old(sp).eq_evals_second_half@.len(),
            forall|i: int|
                0 <= i < pow2(layer.input_var_num as nat)
                    ==> (#[trigger] final(sp).eq_evals_at_rx@[i]).as_ints() == eq_prod_form(
                    ext_views(self.rx@),
                    e_one(),
                    i,
                ),
            forall|i: int|
                0 <= i < pow2(layer.input_var_num as nat)
                    ==> #[trigger] final(sp).gate_exists_5@[i] == exists|t: int|
                    0 <= t < layer.model().mul.len() && (#[trigger] layer.model().mul[t]).i_ids[1]
                        == i,
            simd_views(final(sp).hg_evals_5@.take(pow2(layer.input_var_num as nat) as int))
                == hg_y_muls(
                layer.model().mul,
                v_rx.as_lanes(),
                old(sp).eq_evals_at_rz0@.map_values(|x: M31Ext3| x.as_ints()),
                Seq::new(
                    pow2(layer.input_var_num as nat),
                    |i: int| eq_prod_form(ext_views(self.rx@), e_one(), i),
                ),
                zero_simd_table(pow2(layer.input_var_num as nat)),
            ),
    {
        let ghost psize = pow2(layer.input_var_num as nat) as int;
        let ghost eq0 = old(sp).eq_evals_at_rz0@.map_values(|x: M31Ext3| x.as_ints());
        let ghost eqx = Seq::new(
            pow2(layer.input_var_num as nat),
            |i: int| eq_prod_form(ext_views(self.rx@), e_one(), i),
        );
        let ghost vrx = v_rx.as_lanes();
        let ghost mgs = layer.model().mul;
        let fill_len = crate::bytes::pow2_exact(self.input_var_num);
        let zero = SimdM31Ext3::zero();
        let mut zi: usize = 0;
        while zi < fill_len
            invariant
                zi <= fill_len,
                fill_len as int == psize,
                zero.wf(),
                zero.as_lanes() == v_zero(),
                old(sp).wf(),
                sp.wf(),
                sp.v_evals@ == old(sp).v_evals@,
                sp.hg_evals_1@ == old(sp).hg_evals_1@,
                sp.gate_exists_1@ == old(sp).gate_exists_1@,
                sp.eq_evals_at_rx@ == old(sp).eq_evals_at_rx@,
                sp.eq_evals_at_rz0@ == old(sp).eq_evals_at_rz0@,
                sp.eq_evals_at_rz1@ == old(sp).eq_evals_at_rz1@,
                sp.eq_evals_first_half@ == old(sp).eq_evals_first_half@,
                sp.eq_evals_second_half@ == old(sp).eq_evals_second_half@,
                sp.hg_evals_5@.len() == old(sp).hg_evals_5@.len() >= psize,
                sp.gate_exists_5@.len() == old(sp).gate_exists_5@.len() >= psize,
                forall|t: int|
                    0 <= t < zi ==> (#[trigger] sp.hg_evals_5@[t]).as_lanes() == v_zero(),
                forall|t: int| 0 <= t < zi ==> !(#[trigger] sp.gate_exists_5@[t]),
            decreases fill_len - zi,
        {
            sp.hg_evals_5[zi] = zero;
            sp.gate_exists_5[zi] = false;
            zi = zi + 1;
        }
        let one = M31Ext3::one();
        eq_eval_at(
            &self.rx,
            &one,
            &mut sp.eq_evals_at_rx,
            &mut sp.eq_evals_first_half,
            &mut sp.eq_evals_second_half,
        );
        let nm = layer.mul.len();
        let mut gi: usize = 0;
        proof {
            assert(simd_views(sp.hg_evals_5@.take(psize)) =~~= zero_simd_table(
                pow2(layer.input_var_num as nat),
            ));
            assert(mgs.skip(0int) =~= mgs);
        }
        while gi < nm
            invariant
                self.wf(),
                layer.wf(),
                v_rx.wf(),
                self.input_var_num == layer.input_var_num,
                self.output_var_num == layer.output_var_num,
                self.rx@.len() == layer.input_var_num,
                psize == pow2(layer.input_var_num as nat) as int,
                nm == layer.mul@.len(),
                mgs == layer.model().mul,
                vrx == v_rx.as_lanes(),
                eq0 == old(sp).eq_evals_at_rz0@.map_values(|x: M31Ext3| x.as_ints()),
                eqx == Seq::new(
                    pow2(layer.input_var_num as nat),
                    |i: int| eq_prod_form(ext_views(self.rx@), e_one(), i),
                ),
                gi <= nm,
                old(sp).wf(),
                sp.wf(),
                sp.v_evals@ == old(sp).v_evals@,
                sp.hg_evals_1@ == old(sp).hg_evals_1@,
                sp.gate_exists_1@ == old(sp).gate_exists_1@,
                sp.eq_evals_at_rz0@ == old(sp).eq_evals_at_rz0@,
                sp.eq_evals_at_rz1@ == old(sp).eq_evals_at_rz1@,
                sp.hg_evals_5@.len() == old(sp).hg_evals_5@.len() >= psize,
                sp.gate_exists_5@.len() == old(sp).gate_exists_5@.len() >= psize,
                sp.eq_evals_at_rx@.len() == old(sp).eq_evals_at_rx@.len() >= psize,
                sp.eq_evals_first_half@.len() == old(sp).eq_evals_first_half@.len(),
                sp.eq_evals_second_half@.len() == old(sp).eq_evals_second_half@.len(),
                old(sp).eq_evals_at_rz0@.len() >= pow2(layer.output_var_num as nat),
                forall|t: int|
                    0 <= t < psize ==> (#[trigger] sp.eq_evals_at_rx@[t]).as_ints() == eqx[t],
                forall|t: int|
                    0 <= t < psize ==> #[trigger] sp.gate_exists_5@[t] == exists|u: int|
                        0 <= u < gi && (#[trigger] mgs[u]).i_ids[1] == t,
                hg_y_muls(mgs.skip(gi as int), vrx, eq0, eqx, simd_views(
                    sp.hg_evals_5@.take(psize),
                )) == hg_y_muls(
                    mgs,
                    vrx,
                    eq0,
                    eqx,
                    zero_simd_table(pow2(layer.input_var_num as nat)),
                ),
            decreases nm - gi,
        {
            let g = &layer.mul[gi];
            let ghost pre_tab = simd_views(sp.hg_evals_5@.take(psize));
            let ghost pre_ge = sp.gate_exists_5@;
            proof {
                assert(mgs[gi as int] == g.model());
                crate::simd_m31::lemma_s_wf_to_wf(g.coef);
            }
            let e = sp.eq_evals_at_rz0[g.o_id].mul(&sp.eq_evals_at_rx[g.i_ids[0]]);
            let w = crate::simd_ext::challenge_mul_circuit(&e, &g.coef);
            let term = v_rx.mul(&w);
            let cur = sp.hg_evals_5[g.i_ids[1]];
            sp.hg_evals_5[g.i_ids[1]] = cur.add(&term);
            sp.gate_exists_5[g.i_ids[1]] = true;
            proof {
                let gm = mgs[gi as int];
                assert(term.as_lanes() =~~= hg_y_term(gm, vrx, eq0, eqx));
                assert(simd_views(sp.hg_evals_5@.take(psize)) =~~= pre_tab.update(
                    gm.i_ids[1],
                    v_add(pre_tab[gm.i_ids[1]], hg_y_term(gm, vrx, eq0, eqx)),
                ));
                assert(mgs.skip(gi as int).drop_first() =~= mgs.skip(gi + 1));
                assert(mgs.skip(gi as int)[0] == gm);
                assert forall|t: int| 0 <= t < psize implies #[trigger] sp.gate_exists_5@[t]
                    == exists|u: int| 0 <= u < gi + 1 && (#[trigger] mgs[u]).i_ids[1] == t by {
                    if t == gm.i_ids[1] {
                        assert(mgs[gi as int].i_ids[1] == t);
                    } else {
                        assert(sp.gate_exists_5@[t] == pre_ge[t]);
                        if exists|u: int| 0 <= u < gi + 1 && (#[trigger] mgs[u]).i_ids[1] == t {
                            let u = choose|u: int|
                                0 <= u < gi + 1 && (#[trigger] mgs[u]).i_ids[1] == t;
                            assert(u < gi);
                        }
                    }
                }
            }
            gi = gi + 1;
        }
        proof {
            assert(mgs.skip(nm as int) =~= Seq::<GateModel>::empty());
        }
    }

    /// One round's degree-two evaluations, dispatched to the running
    /// phase.
    pub fn poly_evals_at(
        &self,
        var_idx: usize,
        degree: usize,
        layer: &CircuitLayer,
        sp: &GkrScratchpad,
    ) -> (out: [SimdM31Ext3; 3])
        requires
            self.wf(),
            degree == 2,
            var_idx < 2 * self.input_var_num,
            layer.input_vals@.len() == pow2(self.input_var_num as nat),
            forall|i: int| 0 <= i < layer.input_vals@.len() ==> (#[trigger] layer.input_vals@[i]).wf(),
            sp.wf(),
            var_idx < self.input_var_num ==> self.x_helper.sumcheck_var_idx == var_idx,
            var_idx >= self.input_var_num ==> self.y_helper.sumcheck_var_idx == var_idx
                - self.input_var_num,
            sp.v_evals@.len() >= pow2(self.input_var_num as nat),
            sp.hg_evals_5@.len() >= pow2(self.input_var_num as nat),
            sp.gate_exists_5@.len() >= pow2(self.input_var_num as nat),
        ensures
            out@.len() == 3,
            forall|t: int| 0 <= t < 3 ==> (#[trigger] out@[t]).wf(),
            ({
                let vi = phase_round(var_idx as int, self.input_var_num as int);
                let n = pow2((self.input_var_num - vi - 1) as nat);
                let src = src_table(vi, sp.v_evals@, layer.input_vals@);
                let hg = simd_views(sp.hg_evals_5@);
                let ge = sp.gate_exists_5@;
                &&& out@[0].as_lanes() == p0_sum(src, hg, ge, n)
                &&& out@[1].as_lanes() == p1_sum(src, hg, ge, n)
                &&& out@[2].as_lanes() == p2_transformed(src, hg, ge, n)
            }),
    {
        proof {
            if var_idx < self.input_var_num {
                if self.input_var_num - var_idx < self.input_var_num {
                    vstd::arithmetic::power2::lemma_pow2_strictly_increases(
                        (self.input_var_num - var_idx) as nat,
                        self.input_var_num as nat,
                    );
                }
            } else {
                let vi = var_idx - self.input_var_num;
                if self.input_var_num - vi < self.input_var_num {
                    vstd::arithmetic::power2::lemma_pow2_strictly_increases(
                        (self.input_var_num - vi) as nat,
                        self.input_var_num as nat,
                    );
                }
            }
        }
        if var_idx < self.input_var_num {
            self.x_helper.poly_eval_at(
                var_idx,
                degree,
                &sp.v_evals,
                &sp.hg_evals_5,
                &layer.input_vals,
                &sp.gate_exists_5,
            )
        } else {
            self.y_helper.poly_eval_at(
                var_idx - self.input_var_num,
                degree,
                &sp.v_evals,
                &sp.hg_evals_5,
                &layer.input_vals,
                &sp.gate_exists_5,
            )
        }
    }

    /// Receives one challenge: folds the running phase's tables and
    /// records the challenge in `rx` or `ry`.
    pub fn receive_challenge(
        &mut self,
        var_idx: usize,
        r: M31Ext3,
        layer: &CircuitLayer,
        sp: &mut GkrScratchpad,
    )
        requires
            old(self).wf(),
            r.wf(),
            var_idx < 2 * old(self).input_var_num,
            layer.input_vals@.len() == pow2(old(self).input_var_num as nat),
            forall|i: int| 0 <= i < layer.input_vals@.len() ==> (#[trigger] layer.input_vals@[i]).wf(),
            old(sp).wf(),
            var_idx < old(self).input_var_num ==> old(self).x_helper.sumcheck_var_idx == var_idx,
            var_idx >= old(self).input_var_num ==> old(self).y_helper.sumcheck_var_idx == var_idx
                - old(self).input_var_num,
            old(sp).v_evals@.len() >= pow2(old(self).input_var_num as nat),
            old(sp).hg_evals_5@.len() >= pow2(old(self).input_var_num as nat),
            old(sp).gate_exists_5@.len() >= pow2(old(self).input_var_num as nat),
        ensures
            final(self).wf(),
            final(self).input_var_num == old(self).input_var_num,
            final(self).output_var_num == old(self).output_var_num,
            final(self).rz0@ == old(self).rz0@,
            final(self).rz1@ == old(self).rz1@,
            final(self).alpha == old(self).alpha,
            final(self).beta == old(self).beta,
            var_idx < old(self).input_var_num ==> final(self).rx@ == old(self).rx@.push(r)
                && final(self).ry@ == old(self).ry@ && final(self).x_helper.sumcheck_var_idx
                == var_idx + 1 && final(self).y_helper == old(self).y_helper,
            var_idx >= old(self).input_var_num ==> final(self).ry@ == old(self).ry@.push(r)
                && final(self).rx@ == old(self).rx@ && final(self).y_helper.sumcheck_var_idx
                == var_idx - old(self).input_var_num + 1 && final(self).x_helper == old(
                self,
            ).x_helper,
            final(sp).wf(),
            final(sp).v_evals@.len() == old(sp).v_evals@.len(),
            final(sp).hg_evals_5@.len() == old(sp).hg_evals_5@.len(),
            final(sp).gate_exists_5@.len() == old(sp).gate_exists_5@.len(),
            final(sp).hg_evals_1@ == old(sp).hg_evals_1@,
            final(sp).gate_exists_1@ == old(sp).gate_exists_1@,
            final(sp).eq_evals_at_rx@ == old(sp).eq_evals_at_rx@,
            final(sp).eq_evals_at_rz0@ == old(sp).eq_evals_at_rz0@,
            final(sp).eq_evals_at_rz1@ == old(sp).eq_evals_at_rz1@,
            final(sp).eq_evals_first_half@ == old(sp).eq_evals_first_half@,
            final(sp).eq_evals_second_half@ == old(sp).eq_evals_second_half@,
            ({
                let vi = phase_round(var_idx as int, old(self).input_var_num as int);
                let half = pow2((old(self).input_var_num - vi - 1) as nat);
                let src = src_table(vi, old(sp).v_evals@, layer.input_vals@);
                let hg0 = simd_views(old(sp).hg_evals_5@);
                let ge0 = old(sp).gate_exists_5@;
                &&& (forall|i: int|
                    0 <= i < half ==> (#[trigger] final(sp).v_evals@[i]).as_lanes() == fold_pair(
                        src[2 * i],
                        src[2 * i + 1],
                        r.as_ints(),
                    ))
                &&& (forall|i: int|
                    0 <= i < half ==> #[trigger] final(sp).gate_exists_5@[i] == (ge0[2 * i]
                        || ge0[2 * i + 1]))
                &&& (forall|i: int|
                    0 <= i < half ==> (#[trigger] final(sp).hg_evals_5@[i]).as_lanes() == if (
                    ge0[2 * i] || ge0[2 * i + 1]) {
                        fold_pair(hg0[2 * i], hg0[2 * i + 1], r.as_ints())
                    } else {
                        v_zero()
                    })
                &&& (forall|i: int|
                    half <= i < final(sp).v_evals@.len() ==> #[trigger] final(sp).v_evals@[i]
                        == old(sp).v_evals@[i])
                &&& (forall|i: int|
                    half <= i < final(sp).hg_evals_5@.len()
                        ==> #[trigger] final(sp).hg_evals_5@[i] == old(sp).hg_evals_5@[i])
                &&& (forall|i: int|
                    half <= i < final(sp).gate_exists_5@.len()
                        ==> #[trigger] final(sp).gate_exists_5@[i] == old(sp).gate_exists_5@[i])
            }),
    {
        proof {
            if var_idx < self.input_var_num {
                if self.input_var_num - var_idx < self.input_var_num {
                    vstd::arithmetic::power2::lemma_pow2_strictly_increases(
                        (self.input_var_num - var_idx) as nat,
                        self.input_var_num as nat,
                    );
                }
            } else {
                let vi = var_idx - self.input_var_num;
                if self.input_var_num - vi < self.input_var_num {
                    vstd::arithmetic::power2::lemma_pow2_strictly_increases(
                        (self.input_var_num - vi) as nat,
                        self.input_var_num as nat,
                    );
                }
            }
        }
        if var_idx < self.input_var_num {
            self.x_helper.receive_challenge(
                var_idx,
                r,
                &mut sp.v_evals,
                &mut sp.hg_evals_5,
                &layer.input_vals,
                &mut sp.gate_exists_5,
            );
            self.rx.push(r);
        } else {
            self.y_helper.receive_challenge(
                var_idx - self.input_var_num,
                r,
                &mut sp.v_evals,
                &mut sp.hg_evals_5,
                &layer.input_vals,
                &mut sp.gate_exists_5,
            );
            self.ry.push(r);
        }
    }
}

} // verus!
