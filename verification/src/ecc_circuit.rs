//! The recursive circuit file: a DAG of reusable segments, each a
//! sub-circuit instantiated at offsets in its parent's wire space, and
//! its flattening into plain per-layer gate lists.

use vstd::prelude::*;
use vstd::arithmetic::power2::{lemma_pow2_strictly_increases, pow2};
use crate::bytes::{le8, ByteReader, CircuitError};
use crate::gate::{
    sp_gate, sp_coef_type, sp_ecc_m31, sp_usize, CoefType, Gate, GateAdd, GateConst, GateKind,
    GateModel, GateMul, GateUni,
};
use crate::expander_circuit::{gates_in_range, Circuit, CircuitLayer, LayerModel};
use crate::simd_m31::{s_broadcast, AVXM31};

verus! {

/// The index of a segment within the circuit's segment list.
pub type SegmentId = usize;

/// Where a child segment is instantiated inside its parent: offsets
/// added to the child's input and output wire indices.
#[derive(Clone, Copy, PartialEq, Eq, Structural, Debug)]
pub struct Allocation {
    pub i_offset: usize,
    pub o_offset: usize,
}

/// A reusable sub-circuit: its padded input and output sizes as logs,
/// the children it instantiates, and its own gates.
pub struct Segment {
    pub i_var_num: usize,
    pub o_var_num: usize,
    pub child_segs: Vec<(SegmentId, Vec<Allocation>)>,
    pub gate_muls: Vec<GateMul>,
    pub gate_adds: Vec<GateAdd>,
    pub gate_csts: Vec<GateConst>,
    pub gate_unis: Vec<GateUni>,
}

/// The mathematical content of a segment.
pub struct SegmentModel {
    pub i_var_num: int,
    pub o_var_num: int,
    pub child_segs: Seq<(int, Seq<(int, int)>)>,
    pub gate_muls: Seq<GateModel>,
    pub gate_adds: Seq<GateModel>,
    pub gate_csts: Seq<GateModel>,
    pub gate_unis: Seq<GateModel>,
}

/// An indexable collection of segments plus the ordered root segment
/// of every circuit layer.
pub struct RecursiveCircuit {
    pub segments: Vec<Segment>,
    pub layers: Vec<SegmentId>,
}

impl Segment {
    /// The segment's mathematical content.
    pub open spec fn model(self) -> SegmentModel {
        SegmentModel {
            i_var_num: self.i_var_num as int,
            o_var_num: self.o_var_num as int,
            child_segs: self.child_segs@.map_values(
                |c: (usize, Vec<Allocation>)|
                    (
                        c.0 as int,
                        c.1@.map_values(|a: Allocation| (a.i_offset as int, a.o_offset as int)),
                    ),
            ),
            gate_muls: self.gate_muls@.map_values(|g: GateMul| g.model()),
            gate_adds: self.gate_adds@.map_values(|g: GateAdd| g.model()),
            gate_csts: self.gate_csts@.map_values(|g: GateConst| g.model()),
            gate_unis: self.gate_unis@.map_values(|g: GateUni| g.model()),
        }
    }

    /// All gate coefficients canonical.
    pub open spec fn wf(self) -> bool {
        &&& forall|i: int|
            0 <= i < self.gate_muls@.len() ==> (#[trigger] self.gate_muls@[i]).wf()
        &&& forall|i: int|
            0 <= i < self.gate_adds@.len() ==> (#[trigger] self.gate_adds@[i]).wf()
        &&& forall|i: int|
            0 <= i < self.gate_csts@.len() ==> (#[trigger] self.gate_csts@[i]).wf()
        &&& forall|i: int|
            0 <= i < self.gate_unis@.len() ==> (#[trigger] self.gate_unis@[i]).wf()
    }

    /// Whether the segment is a leaf: it carries gates of its own.
    pub fn contain_gates(&self) -> (r: bool)
        ensures
            r == seg_has_gates(self.model()),
    {
        self.gate_muls.len() > 0 || self.gate_adds.len() > 0 || self.gate_csts.len() > 0
            || self.gate_unis.len() > 0
    }
}

/// Whether a segment carries gates of its own.
pub open spec fn seg_has_gates(s: SegmentModel) -> bool {
    s.gate_muls.len() > 0 || s.gate_adds.len() > 0 || s.gate_csts.len() > 0 || s.gate_unis.len()
        > 0
}

/// Whether `v` is a power of two.
pub open spec fn is_pot(v: int) -> bool
    decreases v,
{
    if v == 1 {
        true
    } else if v < 1 || v % 2 != 0 {
        false
    } else {
        is_pot(v / 2)
    }
}

/// The floor base-two logarithm.
pub open spec fn log2_of(v: int) -> nat
    decreases v,
{
    if v <= 1 {
        0
    } else {
        1 + log2_of(v / 2)
    }
}

/// A power of two is the power of its logarithm.
pub proof fn lemma_pot_log2(v: int)
    requires
        is_pot(v),
    ensures
        pow2(log2_of(v)) == v,
    decreases v,
{
    if v == 1 {
        vstd::arithmetic::power2::lemma2_to64();
    } else {
        lemma_pot_log2(v / 2);
        vstd::arithmetic::power2::lemma_pow2_adds(1, log2_of(v / 2));
        vstd::arithmetic::power2::lemma2_to64();
        assert(pow2(1) * pow2(log2_of(v / 2)) == 2 * (v / 2));
    }
}

/// Computes the exact base-two logarithm of a power of two, or reports
/// that the argument is none.
pub fn log2_exact(v: usize) -> (r: Option<usize>)
    ensures
        match r {
            Some(k) => is_pot(v as int) && k as nat == log2_of(v as int) && pow2(k as nat)
                == v as int && k < 64,
            None => !is_pot(v as int),
        },
{
    if v == 0 {
        return None;
    }
    let mut t = v;
    let mut k: usize = 0;
    proof {
        vstd::arithmetic::power2::lemma2_to64();
        assert(v as int == t as int * pow2(0)) by (nonlinear_arith)
            requires
                t == v,
                pow2(0) == 1,
        ;
    }
    while t > 1
        invariant
            t >= 1,
            v as int == t as int * pow2(k as nat),
            is_pot(v as int) <==> is_pot(t as int),
            log2_of(v as int) == k + log2_of(t as int),
            k < 64,
        decreases t,
    {
        if t % 2 == 1 {
            return None;
        }
        proof {
            vstd::arithmetic::power2::lemma_pow2_adds(k as nat, 1);
            vstd::arithmetic::power2::lemma2_to64();
            assert(t as int * pow2(k as nat) == (t as int / 2) * (pow2(k as nat) * 2))
                by (nonlinear_arith)
                requires
                    t % 2 == 0,
            ;
            assert(k + 1 < 64) by {
                if k + 1 >= 64 {
                    assert(pow2(k as nat + 1) <= v as int) by (nonlinear_arith)
                        requires
                            v as int == (t as int / 2) * pow2(k as nat + 1),
                            t as int / 2 >= 1,
                            pow2(k as nat + 1) > 0,
                    ;
                    if (k as nat + 1) > 64 {
                        lemma_pow2_strictly_increases(64, k as nat + 1);
                    }
                    vstd::arithmetic::power2::lemma2_to64_rest();
                }
            }
        }
        t = t / 2;
        k = k + 1;
    }
    proof {
        assert(v as int == t as int * pow2(k as nat));
        assert(t == 1);
        assert(v as int == pow2(k as nat)) by (nonlinear_arith)
            requires
                v as int == 1 * pow2(k as nat),
        ;
    }
    Some(k)
}

/// Parses `n` allocation offset pairs.
pub open spec fn sp_allocs(data: Seq<u8>, pos: int, n: nat) -> Option<(Seq<(int, int)>, int)>
    decreases n,
{
    if n == 0 {
        Some((Seq::empty(), pos))
    } else {
        match sp_usize(data, pos) {
            Some((io, q0)) => match sp_usize(data, q0) {
                Some((oo, q1)) => match sp_allocs(data, q1, (n - 1) as nat) {
                    Some((rest, q2)) => Some((seq![(io, oo)] + rest, q2)),
                    None => None,
                },
                None => None,
            },
            None => None,
        }
    }
}

/// Parses one child block: the child id, its allocation count, and the
/// allocations, handed back as one `(id, [allocation])` entry per
/// allocation.
pub open spec fn sp_child(data: Seq<u8>, pos: int) -> Option<
    (Seq<(int, Seq<(int, int)>)>, int),
> {
    match sp_usize(data, pos) {
        Some((cid, q0)) => match sp_usize(data, q0) {
            Some((cnt, q1)) => match sp_allocs(data, q1, cnt as nat) {
                Some((allocs, q2)) => Some(
                    (Seq::new(allocs.len(), |i: int| (cid, seq![allocs[i]])), q2),
                ),
                None => None,
            },
            None => None,
        },
        None => None,
    }
}

/// Parses `n` child blocks.
pub open spec fn sp_children(data: Seq<u8>, pos: int, n: nat) -> Option<
    (Seq<(int, Seq<(int, int)>)>, int),
>
    decreases n,
{
    if n == 0 {
        Some((Seq::empty(), pos))
    } else {
        match sp_child(data, pos) {
            Some((entries, q0)) => match sp_children(data, q0, (n - 1) as nat) {
                Some((rest, q1)) => Some((entries + rest, q1)),
                None => None,
            },
            None => None,
        }
    }
}

/// Parses `k` gate records of `n` inputs each.
pub open spec fn sp_gates(data: Seq<u8>, pos: int, k: nat, n: nat) -> Option<
    (Seq<GateModel>, int),
>
    decreases k,
{
    if k == 0 {
        Some((Seq::empty(), pos))
    } else {
        match sp_gate(data, pos, n) {
            Some((g, q0)) => match sp_gates(data, q0, (k - 1) as nat, n) {
                Some((rest, q1)) => Some((seq![g] + rest, q1)),
                None => None,
            },
            None => None,
        }
    }
}

/// Parses one custom gate record: its type tag, its input count and
/// indices (only the first is kept; at least one must be present), the
/// output index, and the coefficient.
pub open spec fn sp_uni_gate(data: Seq<u8>, pos: int) -> Option<(GateModel, int)> {
    match sp_usize(data, pos) {
        Some((gt, q0)) => match sp_usize(data, q0) {
            Some((in_len, q1)) => if in_len < 1 {
                None
            } else {
                match crate::gate::sp_ids(data, q1, in_len as nat) {
                    Some((ids, q2)) => match sp_usize(data, q2) {
                        Some((o, q3)) => match sp_coef_type(data, q3) {
                            Some((ct, q4)) => if ct is Constant {
                                match sp_ecc_m31(data, q4) {
                                    Some((c, q5)) => Some(
                                        (
                                            GateModel {
                                                i_ids: seq![ids[0]],
                                                o_id: o,
                                                coef: s_broadcast(c),
                                                coef_type: ct,
                                                gate_type: gt,
                                            },
                                            q5,
                                        ),
                                    ),
                                    None => None,
                                }
                            } else {
                                Some(
                                    (
                                        GateModel {
                                            i_ids: seq![ids[0]],
                                            o_id: o,
                                            coef: s_broadcast(0),
                                            coef_type: ct,
                                            gate_type: gt,
                                        },
                                        q4,
                                    ),
                                )
                            },
                            None => None,
                        },
                        None => None,
                    },
                    None => None,
                }
            },
            None => None,
        },
        None => None,
    }
}

/// Parses `k` custom gate records.
pub open spec fn sp_unis(data: Seq<u8>, pos: int, k: nat) -> Option<(Seq<GateModel>, int)>
    decreases k,
{
    if k == 0 {
        Some((Seq::empty(), pos))
    } else {
        match sp_uni_gate(data, pos) {
            Some((g, q0)) => match sp_unis(data, q0, (k - 1) as nat) {
                Some((rest, q1)) => Some((seq![g] + rest, q1)),
                None => None,
            },
            None => None,
        }
    }
}

/// Parses one full segment record.
pub open spec fn sp_segment(data: Seq<u8>, pos: int) -> Option<(SegmentModel, int)> {
    match sp_usize(data, pos) {
        Some((i_len, q0)) => match sp_usize(data, q0) {
            Some((o_len, q1)) => if !is_pot(i_len) || !is_pot(o_len) {
                None
            } else {
                match sp_usize(data, q1) {
                    Some((ncs, q2)) => match sp_children(data, q2, ncs as nat) {
                        Some((children, q3)) => match sp_usize(data, q3) {
                            Some((nm, q4)) => match sp_gates(data, q4, nm as nat, 2) {
                                Some((muls, q5)) => match sp_usize(data, q5) {
                                    Some((na, q6)) => match sp_gates(data, q6, na as nat, 1) {
                                        Some((adds, q7)) => match sp_usize(data, q7) {
                                            Some((nc, q8)) => match sp_gates(
                                                data,
                                                q8,
                                                nc as nat,
                                                0,
                                            ) {
                                                Some((csts, q9)) => match sp_usize(data, q9) {
                                                    Some((nu, q10)) => match sp_unis(
                                                        data,
                                                        q10,
                                                        nu as nat,
                                                    ) {
                                                        Some((unis, q11)) => Some(
                                                            (
                                                                SegmentModel {
                                                                    i_var_num: log2_of(i_len) as int,
                                                                    o_var_num: log2_of(o_len) as int,
                                                                    child_segs: children,
                                                                    gate_muls: muls,
                                                                    gate_adds: adds,
                                                                    gate_csts: csts,
                                                                    gate_unis: unis,
                                                                },
                                                                q11,
                                                            ),
                                                        ),
                                                        None => None,
                                                    },
                                                    None => None,
                                                },
                                                None => None,
                                            },
                                            None => None,
                                        },
                                        None => None,
                                    },
                                    None => None,
                                },
                                None => None,
                            },
                            None => None,
                        },
                        None => None,
                    },
                    None => None,
                }
            },
            None => None,
        },
        None => None,
    }
}

/// The models of a mul-gate list.
pub open spec fn models2(s: Seq<GateMul>) -> Seq<GateModel> {
    s.map_values(|g: GateMul| g.model())
}

/// The models of an add- or uni-gate list.
pub open spec fn models1(s: Seq<GateAdd>) -> Seq<GateModel> {
    s.map_values(|g: GateAdd| g.model())
}

/// The models of a const-gate list.
pub open spec fn models0(s: Seq<GateConst>) -> Seq<GateModel> {
    s.map_values(|g: GateConst| g.model())
}

/// The models of the child instantiation list.
pub open spec fn models_children(s: Seq<(usize, Vec<Allocation>)>) -> Seq<
    (int, Seq<(int, int)>),
> {
    s.map_values(
        |c: (usize, Vec<Allocation>)|
            (c.0 as int, c.1@.map_values(|a: Allocation| (a.i_offset as int, a.o_offset as int))),
    )
}


/// Reads `n` allocation offset pairs.
fn read_allocs(r: &mut ByteReader, n: usize) -> (out: Result<Vec<Allocation>, CircuitError>)
    requires
        old(r).wf(),
    ensures
        final(r).wf(),
        final(r).data@ == old(r).data@,
        match sp_allocs(old(r).data@, old(r).pos as int, n as nat) {
            Some((als, e)) => out is Ok && out->Ok_0@.map_values(
                |a: Allocation| (a.i_offset as int, a.o_offset as int),
            ) == als && final(r).pos == e,
            None => out is Err,
        },
{
    let ghost data = old(r).data@;
    let ghost pos0 = old(r).pos as int;
    let mut out: Vec<Allocation> = Vec::new();
    let mut i: usize = 0;
    while i < n
        invariant
            r.wf(),
            r.data@ == data,
            data == old(r).data@,
            pos0 == old(r).pos as int,
            i <= n,
            out@.len() == i,
            match sp_allocs(data, r.pos as int, (n - i) as nat) {
                Some((rest, e)) => sp_allocs(data, pos0, n as nat) == Some(
                    (
                        out@.map_values(|a: Allocation| (a.i_offset as int, a.o_offset as int))
                            + rest,
                        e,
                    ),
                ),
                None => sp_allocs(data, pos0, n as nat) is None,
            },
        decreases n - i,
    {
        let ghost pre = r.pos as int;
        let io = match r.read_usize() {
            Ok(v) => v,
            Err(e) => {
                proof {
                    assert(sp_allocs(data, pre, (n - i) as nat) is None);
                }
                return Err(e);
            },
        };
        let oo = match r.read_usize() {
            Ok(v) => v,
            Err(e) => {
                proof {
                    assert(sp_allocs(data, pre, (n - i) as nat) is None);
                }
                return Err(e);
            },
        };
        let a = Allocation { i_offset: io, o_offset: oo };
        proof {
            let f = |a: Allocation| (a.i_offset as int, a.o_offset as int);
            match sp_allocs(data, r.pos as int, (n - i - 1) as nat) {
                Some((rest2, e2)) => {
                    assert(out@.push(a).map_values(f) =~= out@.map_values(f) + seq![
                        (io as int, oo as int),
                    ]);
                    assert((out@.map_values(f) + seq![(io as int, oo as int)]) + rest2
                        =~= out@.map_values(f) + (seq![(io as int, oo as int)] + rest2));
                },
                None => {},
            }
        }
        out.push(a);
        i = i + 1;
    }
    proof {
        let f = |a: Allocation| (a.i_offset as int, a.o_offset as int);
        assert(out@.map_values(f) + Seq::<(int, int)>::empty() =~= out@.map_values(f));
    }
    Ok(out)
}

/// Reads `n` child blocks, one `(id, [allocation])` entry per
/// allocation, as the flattener expects them.
fn read_children(r: &mut ByteReader, n: usize) -> (out: Result<
    Vec<(SegmentId, Vec<Allocation>)>,
    CircuitError,
>)
    requires
        old(r).wf(),
    ensures
        final(r).wf(),
        final(r).data@ == old(r).data@,
        match sp_children(old(r).data@, old(r).pos as int, n as nat) {
            Some((cs, e)) => out is Ok && models_children(out->Ok_0@) == cs && final(r).pos == e,
            None => out is Err,
        },
{
    let ghost data = old(r).data@;
    let ghost pos0 = old(r).pos as int;
    let mut out: Vec<(SegmentId, Vec<Allocation>)> = Vec::new();
    let mut i: usize = 0;
    while i < n
        invariant
            r.wf(),
            r.data@ == data,
            data == old(r).data@,
            pos0 == old(r).pos as int,
            i <= n,
            match sp_children(data, r.pos as int, (n - i) as nat) {
                Some((rest, e)) => sp_children(data, pos0, n as nat) == Some(
                    (models_children(out@) + rest, e),
                ),
                None => sp_children(data, pos0, n as nat) is None,
            },
        decreases n - i,
    {
        let ghost pre = r.pos as int;
        let cid = match r.read_usize() {
            Ok(v) => v,
            Err(e) => {
                proof {
                    assert(sp_child(data, pre) is None);
                }
                return Err(e);
            },
        };
        let cnt = match r.read_usize() {
            Ok(v) => v,
            Err(e) => {
                proof {
                    assert(sp_child(data, pre) is None);
                }
                return Err(e);
            },
        };
        let allocs = match read_allocs(r, cnt) {
            Ok(v) => v,
            Err(e) => {
                proof {
                    assert(sp_child(data, pre) is None);
                }
                return Err(e);
            },
        };
        let ghost entries = sp_child(data, pre)->Some_0.0;
        let ghost out_before = out@;
        proof {
            assert(entries.len() == allocs@.len());
        }
        let mut j: usize = 0;
        while j < allocs.len()
            invariant
                j <= allocs@.len(),
                entries.len() == allocs@.len(),
                forall|t: int|
                    0 <= t < allocs@.len() ==> #[trigger] entries[t] == (
                        cid as int,
                        seq![(allocs@[t].i_offset as int, allocs@[t].o_offset as int)],
                    ),
                models_children(out@) == models_children(out_before) + entries.take(j as int),
            decreases allocs@.len() - j,
        {
            let mut one: Vec<Allocation> = Vec::new();
            one.push(allocs[j]);
            let ghost pre_out = out@;
            out.push((cid, one));
            proof {
                let f = |c: (usize, Vec<Allocation>)|
                    (
                        c.0 as int,
                        c.1@.map_values(|a: Allocation| (a.i_offset as int, a.o_offset as int)),
                    );
                assert(one@.map_values(|a: Allocation| (a.i_offset as int, a.o_offset as int))
                    =~= seq![(allocs@[j as int].i_offset as int, allocs@[j as int].o_offset as int)]);
                assert(models_children(out@) =~= models_children(pre_out).push(
                    entries[j as int],
                ));
                assert(models_children(out_before) + entries.take(j as int + 1)
                    =~= (models_children(out_before) + entries.take(j as int)).push(
                    entries[j as int],
                ));
            }
            j = j + 1;
        }
        proof {
            assert(entries.take(allocs@.len() as int) =~= entries);
            match sp_children(data, r.pos as int, (n - i - 1) as nat) {
                Some((rest2, e2)) => {
                    assert((models_children(out_before) + entries) + rest2
                        =~= models_children(out_before) + (entries + rest2));
                },
                None => {},
            }
        }
        i = i + 1;
    }
    proof {
        assert(models_children(out@) + Seq::<(int, Seq<(int, int)>)>::empty() =~= models_children(
            out@,
        ));
    }
    Ok(out)
}

/// Reads `k` two-input gate records.
fn read_gates2(r: &mut ByteReader, k: usize) -> (out: Result<Vec<GateMul>, CircuitError>)
    requires
        old(r).wf(),
    ensures
        final(r).wf(),
        final(r).data@ == old(r).data@,
        match sp_gates(old(r).data@, old(r).pos as int, k as nat, 2) {
            Some((ms, e)) => out is Ok && models2(out->Ok_0@) == ms && final(r).pos == e && forall|
                i: int,
            |
                0 <= i < out->Ok_0@.len() ==> (#[trigger] out->Ok_0@[i]).wf(),
            None => out is Err,
        },
{
    let ghost data = old(r).data@;
    let ghost pos0 = old(r).pos as int;
    let mut out: Vec<GateMul> = Vec::new();
    let mut i: usize = 0;
    while i < k
        invariant
            r.wf(),
            r.data@ == data,
            data == old(r).data@,
            pos0 == old(r).pos as int,
            i <= k,
            out@.len() == i,
            forall|j: int| 0 <= j < out@.len() ==> (#[trigger] out@[j]).wf(),
            match sp_gates(data, r.pos as int, (k - i) as nat, 2) {
                Some((rest, e)) => sp_gates(data, pos0, k as nat, 2) == Some(
                    (models2(out@) + rest, e),
                ),
                None => sp_gates(data, pos0, k as nat, 2) is None,
            },
        decreases k - i,
    {
        let ghost pre = r.pos as int;
        match GateMul::read(r) {
            Ok(g) => {
                proof {
                    let (gm, q) = sp_gate(data, pre, 2)->Some_0;
                    match sp_gates(data, q, (k - i - 1) as nat, 2) {
                        Some((rest2, e2)) => {
                            assert(models2(out@.push(g)) + rest2 =~= models2(out@) + (seq![gm]
                                + rest2));
                        },
                        None => {},
                    }
                }
                out.push(g);
            },
            Err(e) => {
                return Err(e);
            },
        }
        i = i + 1;
    }
    proof {
        assert(models2(out@) + Seq::<GateModel>::empty() =~= models2(out@));
    }
    Ok(out)
}

/// Reads `k` one-input gate records.
fn read_gates1(r: &mut ByteReader, k: usize) -> (out: Result<Vec<GateAdd>, CircuitError>)
    requires
        old(r).wf(),
    ensures
        final(r).wf(),
        final(r).data@ == old(r).data@,
        match sp_gates(old(r).data@, old(r).pos as int, k as nat, 1) {
            Some((ms, e)) => out is Ok && models1(out->Ok_0@) == ms && final(r).pos == e && forall|
                i: int,
            |
                0 <= i < out->Ok_0@.len() ==> (#[trigger] out->Ok_0@[i]).wf(),
            None => out is Err,
        },
{
    let ghost data = old(r).data@;
    let ghost pos0 = old(r).pos as int;
    let mut out: Vec<GateAdd> = Vec::new();
    let mut i: usize = 0;
    while i < k
        invariant
            r.wf(),
            r.data@ == data,
            data == old(r).data@,
            pos0 == old(r).pos as int,
            i <= k,
            out@.len() == i,
            forall|j: int| 0 <= j < out@.len() ==> (#[trigger] out@[j]).wf(),
            match sp_gates(data, r.pos as int, (k - i) as nat, 1) {
                Some((rest, e)) => sp_gates(data, pos0, k as nat, 1) == Some(
                    (models1(out@) + rest, e),
                ),
                None => sp_gates(data, pos0, k as nat, 1) is None,
            },
        decreases k - i,
    {
        let ghost pre = r.pos as int;
        match GateAdd::read(r) {
            Ok(g) => {
                proof {
                    let (gm, q) = sp_gate(data, pre, 1)->Some_0;
                    match sp_gates(data, q, (k - i - 1) as nat, 1) {
                        Some((rest2, e2)) => {
                            assert(models1(out@.push(g)) + rest2 =~= models1(out@) + (seq![gm]
                                + rest2));
                        },
                        None => {},
                    }
                }
                out.push(g);
            },
            Err(e) => {
                return Err(e);
            },
        }
        i = i + 1;
    }
    proof {
        assert(models1(out@) + Seq::<GateModel>::empty() =~= models1(out@));
    }
    Ok(out)
}

/// Reads `k` zero-input gate records.
fn read_gates0(r: &mut ByteReader, k: usize) -> (out: Result<Vec<GateConst>, CircuitError>)
    requires
        old(r).wf(),
    ensures
        final(r).wf(),
        final(r).data@ == old(r).data@,
        match sp_gates(old(r).data@, old(r).pos as int, k as nat, 0) {
            Some((ms, e)) => out is Ok && models0(out->Ok_0@) == ms && final(r).pos == e && forall|
                i: int,
            |
                0 <= i < out->Ok_0@.len() ==> (#[trigger] out->Ok_0@[i]).wf(),
            None => out is Err,
        },
{
    let ghost data = old(r).data@;
    let ghost pos0 = old(r).pos as int;
    let mut out: Vec<GateConst> = Vec::new();
    let mut i: usize = 0;
    while i < k
        invariant
            r.wf(),
            r.data@ == data,
            data == old(r).data@,
            pos0 == old(r).pos as int,
            i <= k,
            out@.len() == i,
            forall|j: int| 0 <= j < out@.len() ==> (#[trigger] out@[j]).wf(),
            match sp_gates(data, r.pos as int, (k - i) as nat, 0) {
                Some((rest, e)) => sp_gates(data, pos0, k as nat, 0) == Some(
                    (models0(out@) + rest, e),
                ),
                None => sp_gates(data, pos0, k as nat, 0) is None,
            },
        decreases k - i,
    {
        let ghost pre = r.pos as int;
        match GateConst::read(r) {
            Ok(g) => {
                proof {
                    let (gm, q) = sp_gate(data, pre, 0)->Some_0;
                    match sp_gates(data, q, (k - i - 1) as nat, 0) {
                        Some((rest2, e2)) => {
                            assert(models0(out@.push(g)) + rest2 =~= models0(out@) + (seq![gm]
                                + rest2));
                        },
                        None => {},
                    }
                }
                out.push(g);
            },
            Err(e) => {
                return Err(e);
            },
        }
        i = i + 1;
    }
    proof {
        assert(models0(out@) + Seq::<GateModel>::empty() =~= models0(out@));
    }
    Ok(out)
}

/// Reads `n` wire indices and keeps only the first.
fn read_ids_first(r: &mut ByteReader, n: usize) -> (out: Result<usize, CircuitError>)
    requires
        old(r).wf(),
        n >= 1,
    ensures
        final(r).wf(),
        final(r).data@ == old(r).data@,
        match crate::gate::sp_ids(old(r).data@, old(r).pos as int, n as nat) {
            Some((ids, e)) => out is Ok && out->Ok_0 as int == ids[0] && final(r).pos == e,
            None => out is Err,
        },
{
    let ghost data = old(r).data@;
    let ghost pos0 = old(r).pos as int;
    let ghost mut collected: Seq<int> = Seq::empty();
    let mut first: usize = 0;
    let mut j: usize = 0;
    while j < n
        invariant
            r.wf(),
            r.data@ == data,
            data == old(r).data@,
            pos0 == old(r).pos as int,
            j <= n,
            collected.len() == j,
            j > 0 ==> first as int == collected[0],
            match crate::gate::sp_ids(data, r.pos as int, (n - j) as nat) {
                Some((rest, e)) => crate::gate::sp_ids(data, pos0, n as nat) == Some(
                    (collected + rest, e),
                ),
                None => crate::gate::sp_ids(data, pos0, n as nat) is None,
            },
        decreases n - j,
    {
        let ghost pre = r.pos as int;
        match r.read_usize() {
            Ok(v) => {
                if j == 0 {
                    first = v;
                }
                proof {
                    match crate::gate::sp_ids(data, r.pos as int, (n - j - 1) as nat) {
                        Some((rest2, e2)) => {
                            assert((collected + seq![v as int]) + rest2 =~= collected + (seq![
                                v as int,
                            ] + rest2));
                        },
                        None => {},
                    }
                    collected = collected + seq![v as int];
                }
            },
            Err(e) => {
                proof {
                    assert(crate::gate::sp_ids(data, pre, (n - j) as nat) is None);
                }
                return Err(e);
            },
        }
        j = j + 1;
    }
    proof {
        assert(collected + Seq::<int>::empty() =~= collected);
    }
    Ok(first)
}

/// Reads one custom gate record, keeping only the first input index.
fn read_uni_gate(r: &mut ByteReader) -> (out: Result<GateUni, CircuitError>)
    requires
        old(r).wf(),
    ensures
        final(r).wf(),
        final(r).data@ == old(r).data@,
        match sp_uni_gate(old(r).data@, old(r).pos as int) {
            Some((m, q)) => out is Ok && out->Ok_0.wf() && out->Ok_0.model() == m && final(r).pos
                == q,
            None => out is Err,
        },
{
    let ghost data = old(r).data@;
    let gt = match r.read_usize() {
        Ok(v) => v,
        Err(e) => {
            return Err(e);
        },
    };
    let in_len = match r.read_usize() {
        Ok(v) => v,
        Err(e) => {
            return Err(e);
        },
    };
    if in_len < 1 {
        return Err(CircuitError::Truncated);
    }
    let first = match read_ids_first(r, in_len) {
        Ok(v) => v,
        Err(e) => {
            return Err(e);
        },
    };
    let o = match r.read_usize() {
        Ok(v) => v,
        Err(e) => {
            return Err(e);
        },
    };
    let ct = match r.read_coef_type() {
        Ok(v) => v,
        Err(e) => {
            return Err(e);
        },
    };
    let coef = match ct {
        CoefType::Constant => {
            match r.read_ecc_m31() {
                Ok(m) => AVXM31::pack_full(&m),
                Err(e) => {
                    return Err(e);
                },
            }
        },
        _ => AVXM31::zero(),
    };
    let g = GateUni { i_ids: [first], o_id: o, coef, coef_type: ct, gate_type: gt };
    proof {
        let m = sp_uni_gate(data, old(r).pos as int)->Some_0.0;
        assert(g.model().i_ids =~= m.i_ids);
    }
    Ok(g)
}

/// Reads `k` custom gate records.
fn read_unis(r: &mut ByteReader, k: usize) -> (out: Result<Vec<GateUni>, CircuitError>)
    requires
        old(r).wf(),
    ensures
        final(r).wf(),
        final(r).data@ == old(r).data@,
        match sp_unis(old(r).data@, old(r).pos as int, k as nat) {
            Some((ms, e)) => out is Ok && models1(out->Ok_0@) == ms && final(r).pos == e && forall|
                i: int,
            |
                0 <= i < out->Ok_0@.len() ==> (#[trigger] out->Ok_0@[i]).wf(),
            None => out is Err,
        },
{
    let ghost data = old(r).data@;
    let ghost pos0 = old(r).pos as int;
    let mut out: Vec<GateUni> = Vec::new();
    let mut i: usize = 0;
    while i < k
        invariant
            r.wf(),
            r.data@ == data,
            data == old(r).data@,
            pos0 == old(r).pos as int,
            i <= k,
            out@.len() == i,
            forall|j: int| 0 <= j < out@.len() ==> (#[trigger] out@[j]).wf(),
            match sp_unis(data, r.pos as int, (k - i) as nat) {
                Some((rest, e)) => sp_unis(data, pos0, k as nat) == Some(
                    (models1(out@) + rest, e),
                ),
                None => sp_unis(data, pos0, k as nat) is None,
            },
        decreases k - i,
    {
        let ghost pre = r.pos as int;
        match read_uni_gate(r) {
            Ok(g) => {
                proof {
                    let (gm, q) = sp_uni_gate(data, pre)->Some_0;
                    match sp_unis(data, q, (k - i - 1) as nat) {
                        Some((rest2, e2)) => {
                            assert(models1(out@.push(g)) + rest2 =~= models1(out@) + (seq![gm]
                                + rest2));
                        },
                        None => {},
                    }
                }
                out.push(g);
            },
            Err(e) => {
                return Err(e);
            },
        }
        i = i + 1;
    }
    proof {
        assert(models1(out@) + Seq::<GateModel>::empty() =~= models1(out@));
    }
    Ok(out)
}



/// A table assigning to every segment its list of composed allocation
/// offsets, one entry per instantiation of that segment as a leaf.
pub open spec fn table_empty(n: nat) -> Seq<Seq<(int, int)>> {
    Seq::new(n, |i: int| Seq::<(int, int)>::empty())
}

/// Entry-wise concatenation of two allocation tables.
pub open spec fn table_concat(a: Seq<Seq<(int, int)>>, b: Seq<Seq<(int, int)>>) -> Seq<
    Seq<(int, int)>,
> {
    Seq::new(a.len(), |i: int| a[i] + b[i])
}

/// One allocation list shifted by an offset pair.
pub open spec fn row_shift(row: Seq<(int, int)>, off: (int, int)) -> Seq<(int, int)> {
    row.map_values(|al: (int, int)| (al.0 + off.0, al.1 + off.1))
}

/// Whether every shifted offset still fits the address space.
pub open spec fn row_fits(row: Seq<(int, int)>, off: (int, int)) -> bool {
    forall|j: int|
        0 <= j < row.len() ==> (#[trigger] row[j]).0 + off.0 <= usize::MAX as int && row[j].1
            + off.1 <= usize::MAX as int
}

/// A whole table shifted by an offset pair, when it fits.
pub open spec fn shift_opt(t: Seq<Seq<(int, int)>>, off: (int, int)) -> Option<
    Seq<Seq<(int, int)>>,
> {
    if forall|i: int| 0 <= i < t.len() ==> row_fits(#[trigger] t[i], off) {
        Some(Seq::new(t.len(), |i: int| row_shift(t[i], off)))
    } else {
        None
    }
}

/// A table shifted by every offset of a list in turn, the copies
/// concatenated in order.
pub open spec fn tsm_opt(t: Seq<Seq<(int, int)>>, offs: Seq<(int, int)>) -> Option<
    Seq<Seq<(int, int)>>,
>
    decreases offs.len(),
{
    if offs.len() == 0 {
        Some(table_empty(t.len()))
    } else {
        match tsm_opt(t, offs.drop_last()) {
            Some(acc) => match shift_opt(t, offs.last()) {
                Some(sh) => Some(table_concat(acc, sh)),
                None => None,
            },
            None => None,
        }
    }
}

/// The leaf table of one segment: itself, when it carries gates, at
/// offset zero, plus every leaf of every child, shifted by the child's
/// allocations. `None` when a composed offset leaves the address space.
pub open spec fn leaf_allocs_opt(segs: Seq<SegmentModel>, id: int) -> Option<Seq<Seq<(int, int)>>>
    decreases id, 2int, 0int,
{
    if !(0 <= id < segs.len()) {
        Some(table_empty(segs.len() as nat))
    } else {
        let base = if seg_has_gates(segs[id]) {
            Seq::new(
                segs.len() as nat,
                |i: int|
                    if i == id {
                        seq![(0int, 0int)]
                    } else {
                        Seq::<(int, int)>::empty()
                    },
            )
        } else {
            table_empty(segs.len() as nat)
        };
        match leaf_children_opt(segs, id, segs[id].child_segs.len() as nat) {
            Some(ch) => Some(table_concat(base, ch)),
            None => None,
        }
    }
}

/// The leaf tables contributed by the first `k` child instantiations.
pub open spec fn leaf_children_opt(segs: Seq<SegmentModel>, id: int, k: nat) -> Option<
    Seq<Seq<(int, int)>>,
>
    decreases id, 1int, k,
{
    if !(0 <= id < segs.len()) || k == 0 || k > segs[id].child_segs.len() {
        Some(table_empty(segs.len() as nat))
    } else {
        match leaf_children_opt(segs, id, (k - 1) as nat) {
            Some(acc) => {
                let (cid, offs) = segs[id].child_segs[k - 1];
                if offs.len() == 0 {
                    Some(acc)
                } else if 0 <= cid < id {
                    match leaf_allocs_opt(segs, cid) {
                        Some(sub) => match tsm_opt(sub, offs) {
                            Some(contribution) => Some(table_concat(acc, contribution)),
                            None => None,
                        },
                        None => None,
                    }
                } else {
                    Some(acc)
                }
            },
            None => None,
        }
    }
}

/// The model of an executable allocation table.
pub open spec fn table_model(t: Seq<Vec<Allocation>>) -> Seq<Seq<(int, int)>> {
    t.map_values(
        |v: Vec<Allocation>| v@.map_values(|a: Allocation| (a.i_offset as int, a.o_offset as int)),
    )
}

/// A `Some` child table spans all segments.
pub proof fn lemma_leaf_children_len(segs: Seq<SegmentModel>, id: int, k: nat)
    ensures
        leaf_children_opt(segs, id, k) is Some ==> leaf_children_opt(segs, id, k)->Some_0.len()
            == segs.len(),
    decreases k,
{
    if !(!(0 <= id < segs.len()) || k == 0 || k > segs[id].child_segs.len()) {
        lemma_leaf_children_len(segs, id, (k - 1) as nat);
    }
}

/// A `Some` leaf table spans all segments.
pub proof fn lemma_leaf_allocs_len(segs: Seq<SegmentModel>, id: int)
    ensures
        leaf_allocs_opt(segs, id) is Some ==> leaf_allocs_opt(segs, id)->Some_0.len()
            == segs.len(),
{
}

/// Entry-wise concatenation is associative on tables of one span.
pub proof fn lemma_table_concat_assoc(
    a: Seq<Seq<(int, int)>>,
    b: Seq<Seq<(int, int)>>,
    c: Seq<Seq<(int, int)>>,
)
    requires
        a.len() == b.len(),
        b.len() == c.len(),
    ensures
        table_concat(table_concat(a, b), c) == table_concat(a, table_concat(b, c)),
{
    assert forall|i: int| 0 <= i < a.len() implies table_concat(table_concat(a, b), c)[i]
        == table_concat(a, table_concat(b, c))[i] by {
        assert((a[i] + b[i]) + c[i] =~= a[i] + (b[i] + c[i]));
    }
    assert(table_concat(table_concat(a, b), c) =~= table_concat(a, table_concat(b, c)));
}

/// Concatenating an empty table changes nothing.
pub proof fn lemma_table_concat_empty(a: Seq<Seq<(int, int)>>)
    ensures
        table_concat(a, table_empty(a.len() as nat)) == a,
{
    assert forall|i: int| 0 <= i < a.len() implies table_concat(
        a,
        table_empty(a.len() as nat),
    )[i] == a[i] by {
        assert(a[i] + Seq::<(int, int)>::empty() =~= a[i]);
    }
    assert(table_concat(a, table_empty(a.len() as nat)) =~= a);
}

/// Appends a shifted copy of every row of `sub` to the matching row of
/// `ret`, checking every composed offset against the address space.
fn append_shifted(
    ret: &mut Vec<Vec<Allocation>>,
    sub: &Vec<Vec<Allocation>>,
    off: &Allocation,
) -> (out: Result<(), CircuitError>)
    requires
        old(ret)@.len() == sub@.len(),
    ensures
        final(ret)@.len() == old(ret)@.len(),
        match shift_opt(table_model(sub@), (off.i_offset as int, off.o_offset as int)) {
            Some(sh) => out is Ok && table_model(final(ret)@) == table_concat(
                table_model(old(ret)@),
                sh,
            ),
            None => out is Err,
        },
{
    let ghost off_m = (off.i_offset as int, off.o_offset as int);
    let ghost sub_t = table_model(sub@);
    let ghost ret0 = table_model(old(ret)@);
    let n = sub.len();
    let mut leaf: usize = 0;
    while leaf < n
        invariant
            n == sub@.len(),
            ret@.len() == n,
            old(ret)@.len() == n,
            sub_t == table_model(sub@),
            ret0 == table_model(old(ret)@),
            off_m == (off.i_offset as int, off.o_offset as int),
            leaf <= n,
            forall|i: int| 0 <= i < leaf ==> row_fits(#[trigger] sub_t[i], off_m),
            table_model(ret@) == Seq::new(
                n as nat,
                |i: int|
                    if i < leaf {
                        ret0[i] + row_shift(sub_t[i], off_m)
                    } else {
                        ret0[i]
                    },
            ),
        decreases n - leaf,
    {
        let row = &sub[leaf];
        let m = row.len();
        let ghost ret_pre = table_model(ret@);
        let mut t: usize = 0;
        while t < m
            invariant
                n == sub@.len(),
                ret@.len() == n,
                old(ret)@.len() == n,
                leaf < n,
                m == row@.len(),
                row == &sub[leaf as int],
                sub_t == table_model(sub@),
                off_m == (off.i_offset as int, off.o_offset as int),
                ret_pre == table_model(ret@).update(
                    leaf as int,
                    ret_pre[leaf as int],
                ),
                t <= m,
                forall|j: int|
                    0 <= j < t ==> (#[trigger] sub_t[leaf as int][j]).0 + off_m.0
                        <= usize::MAX as int && sub_t[leaf as int][j].1 + off_m.1
                        <= usize::MAX as int,
                table_model(ret@)[leaf as int] == ret_pre[leaf as int] + row_shift(
                    sub_t[leaf as int].take(t as int),
                    off_m,
                ),
                forall|i: int|
                    0 <= i < n && i != leaf ==> #[trigger] table_model(ret@)[i] == ret_pre[i],
            decreases m - t,
        {
            let la = row[t];
            if la.i_offset > usize::MAX - off.i_offset || la.o_offset > usize::MAX
                - off.o_offset {
                proof {
                    assert(sub_t[leaf as int][t as int] == (
                        la.i_offset as int,
                        la.o_offset as int,
                    ));
                    assert(!row_fits(sub_t[leaf as int], off_m));
                }
                return Err(CircuitError::SizeTooLarge);
            }
            let na = Allocation {
                i_offset: la.i_offset + off.i_offset,
                o_offset: la.o_offset + off.o_offset,
            };
            let ghost before = table_model(ret@);
            let rl = &mut ret[leaf];
            rl.push(na);
            proof {
                assert(table_model(ret@) =~~= before.update(
                    leaf as int,
                    before[leaf as int].push((na.i_offset as int, na.o_offset as int)),
                ));
                assert(sub_t[leaf as int].take(t + 1) =~= sub_t[leaf as int].take(
                    t as int,
                ).push(sub_t[leaf as int][t as int]));
                assert(row_shift(sub_t[leaf as int].take(t + 1), off_m) =~= row_shift(
                    sub_t[leaf as int].take(t as int),
                    off_m,
                ).push((na.i_offset as int, na.o_offset as int)));
                assert(table_model(ret@)[leaf as int] =~= ret_pre[leaf as int] + row_shift(
                    sub_t[leaf as int].take(t + 1),
                    off_m,
                ));
                assert(ret_pre =~= table_model(ret@).update(leaf as int, ret_pre[leaf as int]));
            }
            t = t + 1;
        }
        proof {
            assert(sub_t[leaf as int].take(m as int) =~= sub_t[leaf as int]);
            assert(row_fits(sub_t[leaf as int], off_m));
            assert(table_model(ret@) =~= Seq::new(
                n as nat,
                |i: int|
                    if i < leaf + 1 {
                        ret0[i] + row_shift(sub_t[i], off_m)
                    } else {
                        ret0[i]
                    },
            ));
        }
        leaf = leaf + 1;
    }
    proof {
        assert(shift_opt(sub_t, off_m) is Some);
        assert(table_model(ret@) =~= table_concat(ret0, shift_opt(sub_t, off_m)->Some_0));
    }
    Ok(())
}

impl Segment {
    /// Decodes one segment record: sizes, child instantiations, and the
    /// four gate lists.
    pub fn read(r: &mut ByteReader) -> (out: Result<Segment, CircuitError>)
        requires
            old(r).wf(),
        ensures
            final(r).wf(),
            final(r).data@ == old(r).data@,
            match sp_segment(old(r).data@, old(r).pos as int) {
                Some((m, q)) => out is Ok && out->Ok_0.model() == m && out->Ok_0.wf()
                    && final(r).pos == q && out->Ok_0.i_var_num < 64 && out->Ok_0.o_var_num < 64,
                None => out is Err,
            },
    {
        let i_len = match r.read_usize() {
            Ok(v) => v,
            Err(e) => {
                return Err(e);
            },
        };
        let o_len = match r.read_usize() {
            Ok(v) => v,
            Err(e) => {
                return Err(e);
            },
        };
        let i_var_num = match log2_exact(i_len) {
            Some(k) => k,
            None => {
                return Err(CircuitError::NotPowerOfTwo);
            },
        };
        let o_var_num = match log2_exact(o_len) {
            Some(k) => k,
            None => {
                return Err(CircuitError::NotPowerOfTwo);
            },
        };
        let ncs = match r.read_usize() {
            Ok(v) => v,
            Err(e) => {
                return Err(e);
            },
        };
        let child_segs = match read_children(r, ncs) {
            Ok(v) => v,
            Err(e) => {
                return Err(e);
            },
        };
        let nm = match r.read_usize() {
            Ok(v) => v,
            Err(e) => {
                return Err(e);
            },
        };
        let gate_muls = match read_gates2(r, nm) {
            Ok(v) => v,
            Err(e) => {
                return Err(e);
            },
        };
        let na = match r.read_usize() {
            Ok(v) => v,
            Err(e) => {
                return Err(e);
            },
        };
        let gate_adds = match read_gates1(r, na) {
            Ok(v) => v,
            Err(e) => {
                return Err(e);
            },
        };
        let nc = match r.read_usize() {
            Ok(v) => v,
            Err(e) => {
                return Err(e);
            },
        };
        let gate_csts = match read_gates0(r, nc) {
            Ok(v) => v,
            Err(e) => {
                return Err(e);
            },
        };
        let nu = match r.read_usize() {
            Ok(v) => v,
            Err(e) => {
                return Err(e);
            },
        };
        let gate_unis = match read_unis(r, nu) {
            Ok(v) => v,
            Err(e) => {
                return Err(e);
            },
        };
        let seg = Segment {
            i_var_num,
            o_var_num,
            child_segs,
            gate_muls,
            gate_adds,
            gate_csts,
            gate_unis,
        };
        proof {
            let m = sp_segment(old(r).data@, old(r).pos as int)->Some_0.0;
            assert(seg.model() == m);
        }
        Ok(seg)
    }
}


/// The first eight bytes of every circuit file.
pub const MAGIC_NUM: u64 = 3770719418566461763;

/// Parses one raw little-endian u64.
pub open spec fn sp_u64(data: Seq<u8>, pos: int) -> Option<(int, int)> {
    if pos + 8 <= data.len() {
        Some((le8(data.subrange(pos, pos + 8)), pos + 8))
    } else {
        None
    }
}

/// Every child of a segment refers to a strictly earlier segment.
pub open spec fn seg_children_ok(m: SegmentModel, idx: int) -> bool {
    forall|j: int|
        0 <= j < m.child_segs.len() ==> 0 <= (#[trigger] m.child_segs[j]).0 < idx
}

/// Parses `k` segment records, `idx` the index of the first; each must
/// point only at earlier segments.
pub open spec fn sp_segments(data: Seq<u8>, pos: int, k: nat, idx: int) -> Option<
    (Seq<SegmentModel>, int),
>
    decreases k,
{
    if k == 0 {
        Some((Seq::empty(), pos))
    } else {
        match sp_segment(data, pos) {
            Some((m, q)) => if seg_children_ok(m, idx) {
                match sp_segments(data, q, (k - 1) as nat, idx + 1) {
                    Some((rest, e)) => Some((seq![m] + rest, e)),
                    None => None,
                }
            } else {
                None
            },
            None => None,
        }
    }
}

/// Parses `k` layer root ids, each under the segment count.
pub open spec fn sp_layer_ids(data: Seq<u8>, pos: int, k: nat, nseg: int) -> Option<
    (Seq<int>, int),
>
    decreases k,
{
    if k == 0 {
        Some((Seq::empty(), pos))
    } else {
        match sp_usize(data, pos) {
            Some((v, q)) => if 0 <= v < nseg {
                match sp_layer_ids(data, q, (k - 1) as nat, nseg) {
                    Some((rest, e)) => Some((seq![v] + rest, e)),
                    None => None,
                }
            } else {
                None
            },
            None => None,
        }
    }
}

/// Parses a whole circuit file: the magic number, the field modulus
/// limbs and the three public counters, then the segments and the
/// layer roots.
pub open spec fn sp_circuit(data: Seq<u8>) -> Option<(Seq<SegmentModel>, Seq<int>)> {
    match sp_u64(data, 0) {
        Some((magic, q0)) => if magic != MAGIC_NUM as int {
            None
        } else {
            if q0 + 56 <= data.len() {
                let q1 = q0 + 56;
                match sp_usize(data, q1) {
                    Some((nseg, q2)) => match sp_segments(data, q2, nseg as nat, 0) {
                        Some((segs, q3)) => match sp_usize(data, q3) {
                            Some((nlay, q4)) => match sp_layer_ids(
                                data,
                                q4,
                                nlay as nat,
                                segs.len() as int,
                            ) {
                                Some((lays, _)) => Some((segs, lays)),
                                None => None,
                            },
                            None => None,
                        },
                        None => None,
                    },
                    None => None,
                }
            } else {
                None
            }
        },
        None => None,
    }
}


/// Unfolds the circuit parse around its segment section: with the magic
/// matched and the counters read, the whole parse stands or falls with
/// the segment and layer sections.
proof fn lemma_sp_circuit_shape(data: Seq<u8>, nseg: int, segs_pos: int)
    requires
        data.len() >= 72,
        le8(data.subrange(0, 8)) == MAGIC_NUM as int,
        sp_usize(data, 64) == Some((nseg, segs_pos)),
        segs_pos == 72,
    ensures
        sp_circuit(data) == (match sp_segments(data, segs_pos, nseg as nat, 0) {
            Some((segs, q3)) => match sp_usize(data, q3) {
                Some((nlay, q4)) => match sp_layer_ids(data, q4, nlay as nat, segs.len() as int) {
                    Some((lays, _)) => Some((segs, lays)),
                    None => None,
                },
                None => None,
            },
            None => None::<(Seq<SegmentModel>, Seq<int>)>,
        }),
{
    assert(sp_u64(data, 0) == Some((le8(data.subrange(0, 8)), 8int)));
}

impl RecursiveCircuit {
    /// The models of the segments.
    pub open spec fn segs_model(self) -> Seq<SegmentModel> {
        self.segments@.map_values(|s: Segment| s.model())
    }

    /// The layer root ids.
    pub open spec fn layers_model(self) -> Seq<int> {
        self.layers@.map_values(|x: usize| x as int)
    }

    /// The DAG invariant the loader establishes: gates canonical, sizes
    /// bounded, children strictly earlier, layer roots in range.
    pub open spec fn wf(self) -> bool {
        &&& forall|i: int|
            0 <= i < self.segments@.len() ==> (#[trigger] self.segments@[i]).wf()
        &&& forall|i: int|
            0 <= i < self.segments@.len() ==> seg_children_ok(
                (#[trigger] self.segments@[i]).model(),
                i,
            )
        &&& forall|i: int|
            0 <= i < self.segments@.len() ==> (#[trigger] self.segments@[i]).i_var_num < 64 && (
            self.segments@[i]).o_var_num < 64
        &&& forall|i: int|
            0 <= i < self.layers@.len() ==> (#[trigger] self.layers@[i]) < self.segments@.len()
    }

    /// Decodes a whole circuit file from its bytes.
    #[verifier::rlimit(100)]
    pub fn load(bytes: &[u8]) -> (out: Result<RecursiveCircuit, CircuitError>)
        ensures
            match sp_circuit(bytes@) {
                Some((sm, lm)) => out is Ok && out->Ok_0.segs_model() == sm && out->Ok_0.layers_model()
                    == lm && out->Ok_0.wf(),
                None => out is Err,
            },
            bytes@.len() >= 8 && le8(bytes@.subrange(0, 8)) != MAGIC_NUM as int ==> out
                == Err::<RecursiveCircuit, CircuitError>(CircuitError::BadMagic),
    {
        let ghost data = bytes@;
        let mut r = ByteReader::new(bytes);
        let magic = match r.read_u64() {
            Ok(v) => v,
            Err(e) => {
                return Err(e);
            },
        };
        if magic != MAGIC_NUM {
            return Err(CircuitError::BadMagic);
        }
        // the field modulus limbs and the three counters are recorded
        // for the verifier and not consumed here
        let mut skipped: usize = 0;
        while skipped < 7
            invariant
                r.wf(),
                r.data@ == data,
                data == bytes@,
                data.len() >= 8,
                le8(data.subrange(0, 8)) == MAGIC_NUM as int,
                skipped <= 7,
                r.pos == 8 + 8 * skipped,
            decreases 7 - skipped,
        {
            match r.read_u64() {
                Ok(_) => (),
                Err(e) => {
                    return Err(e);
                },
            }
            skipped = skipped + 1;
        }
        let nseg = match r.read_usize() {
            Ok(v) => v,
            Err(e) => {
                return Err(e);
            },
        };
        let ghost segs_pos = r.pos as int;
        let mut segments: Vec<Segment> = Vec::new();
        let mut i: usize = 0;
        while i < nseg
            invariant
                r.wf(),
                r.data@ == data,
                data == bytes@,
                data.len() >= 72,
                le8(data.subrange(0, 8)) == MAGIC_NUM as int,
                sp_usize(data, 64) == Some((nseg as int, segs_pos)),
                segs_pos == 72,
                i <= nseg,
                segments@.len() == i,
                forall|t: int| 0 <= t < i ==> (#[trigger] segments@[t]).wf(),
                forall|t: int|
                    0 <= t < i ==> seg_children_ok((#[trigger] segments@[t]).model(), t),
                forall|t: int|
                    0 <= t < i ==> (#[trigger] segments@[t]).i_var_num < 64 && (
                    segments@[t]).o_var_num < 64,
                match sp_segments(data, r.pos as int, (nseg - i) as nat, i as int) {
                    Some((rest, e)) => sp_segments(data, segs_pos, nseg as nat, 0) == Some(
                        (segments@.map_values(|s: Segment| s.model()) + rest, e),
                    ),
                    None => sp_segments(data, segs_pos, nseg as nat, 0) is None,
                },
            decreases nseg - i,
        {
            let ghost pre = r.pos as int;
            let seg = match Segment::read(&mut r) {
                Ok(v) => v,
                Err(e) => {
                    proof {
                        lemma_sp_circuit_shape(data, nseg as int, segs_pos);
                    }
                    return Err(e);
                },
            };
            let mut ok = true;
            let mut c: usize = 0;
            while c < seg.child_segs.len()
                invariant
                    c <= seg.child_segs@.len(),
                    ok == forall|t: int|
                        0 <= t < c ==> 0 <= (#[trigger] seg.child_segs@[t]).0 < i as int,
                    i == segments@.len(),
                decreases seg.child_segs@.len() - c,
            {
                if seg.child_segs[c].0 >= i {
                    ok = false;
                }
                c = c + 1;
            }
            if !ok {
                proof {
                    let m = sp_segment(data, pre)->Some_0.0;
                    assert(!seg_children_ok(m, i as int)) by {
                        let t = choose|t: int|
                            0 <= t < seg.child_segs@.len() && !(0 <= (
                            #[trigger] seg.child_segs@[t]).0 < i as int);
                        assert(m.child_segs[t] == (
                            seg.child_segs@[t].0 as int,
                            seg.child_segs@[t].1@.map_values(
                                |a: Allocation| (a.i_offset as int, a.o_offset as int),
                            ),
                        ));
                    }
                    lemma_sp_circuit_shape(data, nseg as int, segs_pos);
                }
                return Err(CircuitError::BadChildSegment);
            }
            proof {
                let m = sp_segment(data, pre)->Some_0.0;
                assert(seg_children_ok(m, i as int)) by {
                    assert(forall|j: int|
                        0 <= j < m.child_segs.len() ==> (#[trigger] m.child_segs[j]).0
                            == seg.child_segs@[j].0 as int);
                }
                match sp_segments(data, r.pos as int, (nseg - i - 1) as nat, i + 1) {
                    Some((rest2, e2)) => {
                        assert(segments@.push(seg).map_values(|s: Segment| s.model()) + rest2
                            =~= segments@.map_values(|s: Segment| s.model()) + (seq![m] + rest2));
                    },
                    None => {},
                }
            }
            segments.push(seg);
            i = i + 1;
        }
        proof {
            assert(segments@.map_values(|s: Segment| s.model()) + Seq::<SegmentModel>::empty()
                =~= segments@.map_values(|s: Segment| s.model()));
        }
        let ghost after_segs = r.pos as int;
        let nlay = match r.read_usize() {
            Ok(v) => v,
            Err(e) => {
                proof {
                    lemma_sp_circuit_shape(data, nseg as int, segs_pos);
                }
                return Err(e);
            },
        };
        let ghost lays_pos = r.pos as int;
        let mut layers: Vec<SegmentId> = Vec::new();
        let mut j: usize = 0;
        while j < nlay
            invariant
                r.wf(),
                r.data@ == data,
                data == bytes@,
                data.len() >= 72,
                le8(data.subrange(0, 8)) == MAGIC_NUM as int,
                sp_usize(data, 64) == Some((nseg as int, segs_pos)),
                segs_pos == 72,
                sp_segments(data, segs_pos, nseg as nat, 0) == Some(
                    (segments@.map_values(|s: Segment| s.model()), after_segs),
                ),
                sp_usize(data, after_segs) == Some((nlay as int, lays_pos)),
                forall|t: int| 0 <= t < segments@.len() ==> (#[trigger] segments@[t]).wf(),
                forall|t: int|
                    0 <= t < segments@.len() ==> seg_children_ok(
                        (#[trigger] segments@[t]).model(),
                        t,
                    ),
                forall|t: int|
                    0 <= t < segments@.len() ==> (#[trigger] segments@[t]).i_var_num < 64 && (
                    segments@[t]).o_var_num < 64,
                j <= nlay,
                layers@.len() == j,
                forall|t: int| 0 <= t < j ==> (#[trigger] layers@[t]) < segments@.len(),
                match sp_layer_ids(data, r.pos as int, (nlay - j) as nat, segments@.len() as int) {
                    Some((rest, e)) => sp_layer_ids(
                        data,
                        lays_pos,
                        nlay as nat,
                        segments@.len() as int,
                    ) == Some((layers@.map_values(|x: usize| x as int) + rest, e)),
                    None => sp_layer_ids(
                        data,
                        lays_pos,
                        nlay as nat,
                        segments@.len() as int,
                    ) is None,
                },
            decreases nlay - j,
        {
            let lid = match r.read_usize() {
                Ok(v) => v,
                Err(e) => {
                    proof {
                        lemma_sp_circuit_shape(data, nseg as int, segs_pos);
                    }
                    return Err(e);
                },
            };
            if lid >= segments.len() {
                proof {
                    lemma_sp_circuit_shape(data, nseg as int, segs_pos);
                }
                return Err(CircuitError::BadChildSegment);
            }
            proof {
                match sp_layer_ids(
                    data,
                    r.pos as int,
                    (nlay - j - 1) as nat,
                    segments@.len() as int,
                ) {
                    Some((rest2, e2)) => {
                        assert(layers@.push(lid).map_values(|x: usize| x as int) + rest2
                            =~= layers@.map_values(|x: usize| x as int) + (seq![lid as int]
                            + rest2));
                    },
                    None => {},
                }
            }
            layers.push(lid);
            j = j + 1;
        }
        proof {
            assert(layers@.map_values(|x: usize| x as int) + Seq::<int>::empty() =~= layers@.map_values(
                |x: usize| x as int,
            ));
            lemma_sp_circuit_shape(data, nseg as int, segs_pos);
        }
        let rc = RecursiveCircuit { segments, layers };
        proof {
            assert(rc.segs_model() == sp_circuit(data)->Some_0.0);
        }
        Ok(rc)
    }
}


/// A failed shift stays failed when more offsets follow.
proof fn lemma_tsm_none(t: Seq<Seq<(int, int)>>, offs: Seq<(int, int)>, k: nat)
    requires
        k <= offs.len(),
        tsm_opt(t, offs.take(k as int)) is None,
    ensures
        tsm_opt(t, offs) is None,
    decreases offs.len() - k,
{
    if k == offs.len() {
        assert(offs.take(k as int) =~= offs);
    } else {
        assert(offs.take(k as int + 1).drop_last() =~= offs.take(k as int));
        lemma_tsm_none(t, offs, (k + 1) as nat);
    }
}

/// A failed child contribution stays failed when more children follow.
proof fn lemma_children_none(segs: Seq<SegmentModel>, id: int, k1: nat, k2: nat)
    requires
        0 <= id < segs.len(),
        1 <= k1 <= k2 <= segs[id].child_segs.len(),
        leaf_children_opt(segs, id, k1) is None,
    ensures
        leaf_children_opt(segs, id, k2) is None,
    decreases k2 - k1,
{
    if k1 < k2 {
        lemma_children_none(segs, id, k1, (k2 - 1) as nat);
    }
}


/// One gate list of a segment, by kind.
pub open spec fn seg_gates(s: SegmentModel, k: GateKind) -> Seq<GateModel> {
    match k {
        GateKind::Mul => s.gate_muls,
        GateKind::Add => s.gate_adds,
        GateKind::Cst => s.gate_csts,
        GateKind::Uni => s.gate_unis,
    }
}

/// The arity of each gate kind.
pub open spec fn kind_arity(k: GateKind) -> int {
    match k {
        GateKind::Mul => 2,
        GateKind::Add => 1,
        GateKind::Cst => 0,
        GateKind::Uni => 1,
    }
}

/// A gate moved into a layer's wire space: its input indices shifted by
/// the allocation's input offset, its output index by the output offset.
pub open spec fn shift_gate(g: GateModel, al: (int, int)) -> GateModel {
    GateModel {
        i_ids: g.i_ids.map_values(|x: int| x + al.0),
        o_id: g.o_id + al.1,
        coef: g.coef,
        coef_type: g.coef_type,
        gate_type: g.gate_type,
    }
}

/// A whole gate list moved by one allocation.
pub open spec fn shifted_gates(gs: Seq<GateModel>, al: (int, int)) -> Seq<GateModel> {
    gs.map_values(|g: GateModel| shift_gate(g, al))
}

/// One leaf's gates, cloned once per composed allocation, in order.
pub open spec fn flat_leaf(gs: Seq<GateModel>, allocs: Seq<(int, int)>) -> Seq<GateModel>
    decreases allocs.len(),
{
    if allocs.len() == 0 {
        Seq::empty()
    } else {
        flat_leaf(gs, allocs.drop_last()) + shifted_gates(gs, allocs.last())
    }
}

/// The flat gate list of one layer and one kind: every leaf's gates,
/// at every composed allocation, leaf ids in order.
pub open spec fn flat_table(
    segs: Seq<SegmentModel>,
    table: Seq<Seq<(int, int)>>,
    k: GateKind,
    n: nat,
) -> Seq<GateModel>
    decreases n,
{
    if n == 0 || n > segs.len() {
        Seq::empty()
    } else {
        flat_table(segs, table, k, (n - 1) as nat) + flat_leaf(
            seg_gates(segs[n - 1], k),
            table[n - 1],
        )
    }
}

/// Range-checking splits over concatenation.
proof fn lemma_gir_concat(a: Seq<GateModel>, b: Seq<GateModel>, arity: int, nin: int, nout: int)
    ensures
        gates_in_range(a + b, arity, nin, nout) <==> gates_in_range(a, arity, nin, nout)
            && gates_in_range(b, arity, nin, nout),
{
    if gates_in_range(a + b, arity, nin, nout) {
        assert forall|i: int| 0 <= i < a.len() implies {
            let g = #[trigger] a[i];
            &&& g.i_ids.len() == arity
            &&& forall|j: int| 0 <= j < arity ==> 0 <= #[trigger] g.i_ids[j] < pow2(nin as nat)
            &&& 0 <= g.o_id < pow2(nout as nat)
            &&& g.coef.len() == 8
            &&& crate::simd_m31::s_wf(g.coef)
        } by {
            assert((a + b)[i] == a[i]);
        }
        assert forall|i: int| 0 <= i < b.len() implies {
            let g = #[trigger] b[i];
            &&& g.i_ids.len() == arity
            &&& forall|j: int| 0 <= j < arity ==> 0 <= #[trigger] g.i_ids[j] < pow2(nin as nat)
            &&& 0 <= g.o_id < pow2(nout as nat)
            &&& g.coef.len() == 8
            &&& crate::simd_m31::s_wf(g.coef)
        } by {
            assert((a + b)[a.len() + i] == b[i]);
        }
    }
    if gates_in_range(a, arity, nin, nout) && gates_in_range(b, arity, nin, nout) {
        assert forall|i: int| 0 <= i < (a + b).len() implies {
            let g = #[trigger] (a + b)[i];
            &&& g.i_ids.len() == arity
            &&& forall|j: int| 0 <= j < arity ==> 0 <= #[trigger] g.i_ids[j] < pow2(nin as nat)
            &&& 0 <= g.o_id < pow2(nout as nat)
            &&& g.coef.len() == 8
            &&& crate::simd_m31::s_wf(g.coef)
        } by {
            if i < a.len() {
                assert((a + b)[i] == a[i]);
            } else {
                assert((a + b)[i] == b[i - a.len()]);
            }
        }
    }
}

/// A range violation in a prefix of the allocations persists in the
/// whole leaf expansion.
proof fn lemma_flat_leaf_bad(
    gs: Seq<GateModel>,
    allocs: Seq<(int, int)>,
    k: nat,
    arity: int,
    nin: int,
    nout: int,
)
    requires
        k <= allocs.len(),
        !gates_in_range(flat_leaf(gs, allocs.take(k as int)), arity, nin, nout),
    ensures
        !gates_in_range(flat_leaf(gs, allocs), arity, nin, nout),
    decreases allocs.len() - k,
{
    if k == allocs.len() {
        assert(allocs.take(k as int) =~= allocs);
    } else {
        assert(allocs.take(k as int + 1).drop_last() =~= allocs.take(k as int));
        lemma_gir_concat(
            flat_leaf(gs, allocs.take(k as int)),
            shifted_gates(gs, allocs.take(k as int + 1).last()),
            arity,
            nin,
            nout,
        );
        lemma_flat_leaf_bad(gs, allocs, k + 1, arity, nin, nout);
    }
}

/// A range violation at one leaf persists in the whole layer list.
proof fn lemma_flat_table_bad(
    segs: Seq<SegmentModel>,
    table: Seq<Seq<(int, int)>>,
    kd: GateKind,
    k: nat,
    arity: int,
    nin: int,
    nout: int,
)
    requires
        k <= segs.len(),
        !gates_in_range(flat_table(segs, table, kd, k), arity, nin, nout),
    ensures
        !gates_in_range(flat_table(segs, table, kd, segs.len() as nat), arity, nin, nout),
    decreases segs.len() - k,
{
    if k < segs.len() {
        lemma_gir_concat(
            flat_table(segs, table, kd, k),
            flat_leaf(seg_gates(segs[k as int], kd), table[k as int]),
            arity,
            nin,
            nout,
        );
        lemma_flat_table_bad(segs, table, kd, k + 1, arity, nin, nout);
    }
}


/// Appends every gate of one leaf list, shifted by every allocation in
/// turn, checking each wire index against the layer's spaces.
fn append_flat2(
    dst: &mut Vec<GateMul>,
    gates: &Vec<GateMul>,
    allocs: &Vec<Allocation>,
    ivn: usize,
    ovn: usize,
) -> (out: Result<(), CircuitError>)
    requires
        forall|i: int| 0 <= i < gates@.len() ==> (#[trigger] gates@[i]).wf(),
        forall|i: int| 0 <= i < old(dst)@.len() ==> (#[trigger] old(dst)@[i]).wf(),
        pow2(ivn as nat) <= usize::MAX as nat,
        pow2(ovn as nat) <= usize::MAX as nat,
    ensures
        match out {
            Ok(()) => models2(final(dst)@) == models2(old(dst)@) + flat_leaf(
                models2(gates@),
                allocs@.map_values(|a: Allocation| (a.i_offset as int, a.o_offset as int)),
            ) && gates_in_range(
                flat_leaf(
                    models2(gates@),
                    allocs@.map_values(|a: Allocation| (a.i_offset as int, a.o_offset as int)),
                ),
                2,
                ivn as int,
                ovn as int,
            ) && (forall|i: int| 0 <= i < final(dst)@.len() ==> (#[trigger] final(dst)@[i]).wf()),
            Err(_) => !gates_in_range(
                flat_leaf(
                    models2(gates@),
                    allocs@.map_values(|a: Allocation| (a.i_offset as int, a.o_offset as int)),
                ),
                2,
                ivn as int,
                ovn as int,
            ),
        },
{
    let ghost gs = models2(gates@);
    let ghost alm = allocs@.map_values(|a: Allocation| (a.i_offset as int, a.o_offset as int));
    let ghost dst0 = models2(old(dst)@);
    let ibound = crate::bytes::pow2_exact(ivn);
    let obound = crate::bytes::pow2_exact(ovn);
    let na = allocs.len();
    let ng = gates.len();
    let mut oi: usize = 0;
    while oi < na
        invariant
            gs == models2(gates@),
            alm == allocs@.map_values(
                |a: Allocation| (a.i_offset as int, a.o_offset as int),
            ),
            dst0 == models2(old(dst)@),
            forall|i: int| 0 <= i < gates@.len() ==> (#[trigger] gates@[i]).wf(),
            forall|i: int| 0 <= i < dst@.len() ==> (#[trigger] dst@[i]).wf(),
            ibound as nat == pow2(ivn as nat),
            obound as nat == pow2(ovn as nat),
            na == allocs@.len(),
            ng == gates@.len(),
            oi <= na,
            gates_in_range(flat_leaf(gs, alm.take(oi as int)), 2, ivn as int, ovn as int),
            models2(dst@) == dst0 + flat_leaf(gs, alm.take(oi as int)),
        decreases na - oi,
    {
        let al = allocs[oi];
        let ghost pre = flat_leaf(gs, alm.take(oi as int));
        let mut gi: usize = 0;
        while gi < ng
            invariant
                gs == models2(gates@),
                alm == allocs@.map_values(
                    |a: Allocation| (a.i_offset as int, a.o_offset as int),
                ),
                dst0 == models2(old(dst)@),
                forall|i: int| 0 <= i < gates@.len() ==> (#[trigger] gates@[i]).wf(),
                forall|i: int| 0 <= i < dst@.len() ==> (#[trigger] dst@[i]).wf(),
                ibound as nat == pow2(ivn as nat),
                obound as nat == pow2(ovn as nat),
                na == allocs@.len(),
                ng == gates@.len(),
                oi < na,
                al == allocs@[oi as int],
                gates_in_range(
                    flat_leaf(gs, alm.take(oi as int)),
                    2,
                    ivn as int,
                    ovn as int,
                ),
                pre == flat_leaf(gs, alm.take(oi as int)),
                gi <= ng,
                gates_in_range(
                    shifted_gates(gs, alm[oi as int]).take(gi as int),
                    2,
                    ivn as int,
                    ovn as int,
                ),
                models2(dst@) == dst0 + pre + shifted_gates(gs, alm[oi as int]).take(
                    gi as int,
                ),
            decreases ng - gi,
    {
            let g = &gates[gi];
            let bad: bool = al.i_offset >= ibound || g.i_ids[0] >= ibound - al.i_offset || g.i_ids[1] >= ibound
                - al.i_offset || al.o_offset >= obound || g.o_id >= obound - al.o_offset;
            if bad {
                proof {
                    assert(alm[oi as int] == (al.i_offset as int, al.o_offset as int));
                    let sg = shifted_gates(gs, alm[oi as int]);
                    assert(sg[gi as int] == shift_gate(gs[gi as int], alm[oi as int]));
                    assert(gs[gi as int] == gates@[gi as int].model());
                    assert(gs[gi as int].i_ids[0] == g.i_ids[0] as int);
                    assert(gs[gi as int].i_ids[1] == g.i_ids[1] as int);
                    assert(sg[gi as int].i_ids[0] == gs[gi as int].i_ids[0] + al.i_offset);
                    assert(sg[gi as int].i_ids[1] == gs[gi as int].i_ids[1] + al.i_offset);
                    assert(sg[gi as int].o_id == g.o_id + al.o_offset);
                    assert(!gates_in_range(sg, 2, ivn as int, ovn as int)) by {
                        if gates_in_range(sg, 2, ivn as int, ovn as int) {
                            assert(0 <= sg[gi as int].i_ids[0] < pow2(ivn as nat));
                            assert(0 <= sg[gi as int].i_ids[1] < pow2(ivn as nat));
                            assert(0 <= sg[gi as int].o_id < pow2(ovn as nat));
                        }
                    }
                    assert(alm.take(oi as int + 1).drop_last() =~= alm.take(oi as int));
                    lemma_gir_concat(
                        flat_leaf(gs, alm.take(oi as int)),
                        sg,
                        2,
                        ivn as int,
                        ovn as int,
                    );
                    lemma_flat_leaf_bad(gs, alm, (oi + 1) as nat, 2, ivn as int, ovn as int);
                }
                return Err(CircuitError::WireOutOfRange);
            }
            let ng2 = GateMul {
                i_ids: [g.i_ids[0] + al.i_offset, g.i_ids[1] + al.i_offset],
                o_id: g.o_id + al.o_offset,
                coef: g.coef,
                coef_type: g.coef_type,
                gate_type: g.gate_type,
            };
            let ghost before = models2(dst@);
            dst.push(ng2);
            proof {
                assert(alm[oi as int] == (al.i_offset as int, al.o_offset as int));
                let sg = shifted_gates(gs, alm[oi as int]);
                assert(gs[gi as int] == gates@[gi as int].model());
                assert(ng2.model().i_ids =~= shift_gate(gs[gi as int], alm[oi as int]).i_ids);
                assert(ng2.model() == shift_gate(gs[gi as int], alm[oi as int]));
                assert(models2(dst@) =~= before.push(ng2.model()));
                assert(sg.take(gi as int + 1) =~= sg.take(gi as int).push(sg[gi as int]));
                assert(models2(dst@) =~= dst0 + pre + sg.take(gi as int + 1));
            }
            gi = gi + 1;
        }
        proof {
            let sg = shifted_gates(gs, alm[oi as int]);
            assert(sg.take(ng as int) =~= sg);
            assert(alm.take(oi as int + 1).drop_last() =~= alm.take(oi as int));
            assert(alm.take(oi as int + 1).last() == alm[oi as int]);
            assert(flat_leaf(gs, alm.take(oi as int + 1)) == flat_leaf(
                gs,
                alm.take(oi as int),
            ) + sg);
            lemma_gir_concat(
                flat_leaf(gs, alm.take(oi as int)),
                sg,
                2,
                ivn as int,
                ovn as int,
            );
            assert(dst0 + pre + sg =~= dst0 + (pre + sg));
        }
        oi = oi + 1;
    }
    proof {
        assert(alm.take(na as int) =~= alm);
    }
    Ok(())
}

/// Appends every gate of one leaf list, shifted by every allocation in
/// turn, checking each wire index against the layer's spaces.
fn append_flat1(
    dst: &mut Vec<GateAdd>,
    gates: &Vec<GateAdd>,
    allocs: &Vec<Allocation>,
    ivn: usize,
    ovn: usize,
) -> (out: Result<(), CircuitError>)
    requires
        forall|i: int| 0 <= i < gates@.len() ==> (#[trigger] gates@[i]).wf(),
        forall|i: int| 0 <= i < old(dst)@.len() ==> (#[trigger] old(dst)@[i]).wf(),
        pow2(ivn as nat) <= usize::MAX as nat,
        pow2(ovn as nat) <= usize::MAX as nat,
    ensures
        match out {
            Ok(()) => models1(final(dst)@) == models1(old(dst)@) + flat_leaf(
                models1(gates@),
                allocs@.map_values(|a: Allocation| (a.i_offset as int, a.o_offset as int)),
            ) && gates_in_range(
                flat_leaf(
                    models1(gates@),
                    allocs@.map_values(|a: Allocation| (a.i_offset as int, a.o_offset as int)),
                ),
                1,
                ivn as int,
                ovn as int,
            ) && (forall|i: int| 0 <= i < final(dst)@.len() ==> (#[trigger] final(dst)@[i]).wf()),
            Err(_) => !gates_in_range(
                flat_leaf(
                    models1(gates@),
                    allocs@.map_values(|a: Allocation| (a.i_offset as int, a.o_offset as int)),
                ),
                1,
                ivn as int,
                ovn as int,
            ),
        },
{
    let ghost gs = models1(gates@);
    let ghost alm = allocs@.map_values(|a: Allocation| (a.i_offset as int, a.o_offset as int));
    let ghost dst0 = models1(old(dst)@);
    let ibound = crate::bytes::pow2_exact(ivn);
    let obound = crate::bytes::pow2_exact(ovn);
    let na = allocs.len();
    let ng = gates.len();
    let mut oi: usize = 0;
    while oi < na
        invariant
            gs == models1(gates@),
            alm == allocs@.map_values(
                |a: Allocation| (a.i_offset as int, a.o_offset as int),
            ),
            dst0 == models1(old(dst)@),
            forall|i: int| 0 <= i < gates@.len() ==> (#[trigger] gates@[i]).wf(),
            forall|i: int| 0 <= i < dst@.len() ==> (#[trigger] dst@[i]).wf(),
            ibound as nat == pow2(ivn as nat),
            obound as nat == pow2(ovn as nat),
            na == allocs@.len(),
            ng == gates@.len(),
            oi <= na,
            gates_in_range(flat_leaf(gs, alm.take(oi as int)), 1, ivn as int, ovn as int),
            models1(dst@) == dst0 + flat_leaf(gs, alm.take(oi as int)),
        decreases na - oi,
    {
        let al = allocs[oi];
        let ghost pre = flat_leaf(gs, alm.take(oi as int));
        let mut gi: usize = 0;
        while gi < ng
            invariant
                gs == models1(gates@),
                alm == allocs@.map_values(
                    |a: Allocation| (a.i_offset as int, a.o_offset as int),
                ),
                dst0 == models1(old(dst)@),
                forall|i: int| 0 <= i < gates@.len() ==> (#[trigger] gates@[i]).wf(),
                forall|i: int| 0 <= i < dst@.len() ==> (#[trigger] dst@[i]).wf(),
                ibound as nat == pow2(ivn as nat),
                obound as nat == pow2(ovn as nat),
                na == allocs@.len(),
                ng == gates@.len(),
                oi < na,
                al == allocs@[oi as int],
                gates_in_range(
                    flat_leaf(gs, alm.take(oi as int)),
                    1,
                    ivn as int,
                    ovn as int,
                ),
                pre == flat_leaf(gs, alm.take(oi as int)),
                gi <= ng,
                gates_in_range(
                    shifted_gates(gs, alm[oi as int]).take(gi as int),
                    1,
                    ivn as int,
                    ovn as int,
                ),
                models1(dst@) == dst0 + pre + shifted_gates(gs, alm[oi as int]).take(
                    gi as int,
                ),
            decreases ng - gi,
    {
            let g = &gates[gi];
            let bad: bool = al.i_offset >= ibound || g.i_ids[0] >= ibound - al.i_offset || al.o_offset >= obound
                || g.o_id >= obound - al.o_offset;
            if bad {
                proof {
                    assert(alm[oi as int] == (al.i_offset as int, al.o_offset as int));
                    let sg = shifted_gates(gs, alm[oi as int]);
                    assert(sg[gi as int] == shift_gate(gs[gi as int], alm[oi as int]));
                    assert(gs[gi as int] == gates@[gi as int].model());
                    assert(gs[gi as int].i_ids[0] == g.i_ids[0] as int);
                    assert(sg[gi as int].i_ids[0] == gs[gi as int].i_ids[0] + al.i_offset);
                    assert(sg[gi as int].o_id == g.o_id + al.o_offset);
                    assert(!gates_in_range(sg, 1, ivn as int, ovn as int)) by {
                        if gates_in_range(sg, 1, ivn as int, ovn as int) {
                            assert(0 <= sg[gi as int].i_ids[0] < pow2(ivn as nat));
                            assert(0 <= sg[gi as int].o_id < pow2(ovn as nat));
                        }
                    }
                    assert(alm.take(oi as int + 1).drop_last() =~= alm.take(oi as int));
                    lemma_gir_concat(
                        flat_leaf(gs, alm.take(oi as int)),
                        sg,
                        1,
                        ivn as int,
                        ovn as int,
                    );
                    lemma_flat_leaf_bad(gs, alm, (oi + 1) as nat, 1, ivn as int, ovn as int);
                }
                return Err(CircuitError::WireOutOfRange);
            }
            let ng2 = GateAdd {
                i_ids: [g.i_ids[0] + al.i_offset],
                o_id: g.o_id + al.o_offset,
                coef: g.coef,
                coef_type: g.coef_type,
                gate_type: g.gate_type,
            };
            let ghost before = models1(dst@);
            dst.push(ng2);
            proof {
                assert(alm[oi as int] == (al.i_offset as int, al.o_offset as int));
                let sg = shifted_gates(gs, alm[oi as int]);
                assert(gs[gi as int] == gates@[gi as int].model());
                assert(ng2.model().i_ids =~= shift_gate(gs[gi as int], alm[oi as int]).i_ids);
                assert(ng2.model() == shift_gate(gs[gi as int], alm[oi as int]));
                assert(models1(dst@) =~= before.push(ng2.model()));
                assert(sg.take(gi as int + 1) =~= sg.take(gi as int).push(sg[gi as int]));
                assert(models1(dst@) =~= dst0 + pre + sg.take(gi as int + 1));
            }
            gi = gi + 1;
        }
        proof {
            let sg = shifted_gates(gs, alm[oi as int]);
            assert(sg.take(ng as int) =~= sg);
            assert(alm.take(oi as int + 1).drop_last() =~= alm.take(oi as int));
            assert(alm.take(oi as int + 1).last() == alm[oi as int]);
            assert(flat_leaf(gs, alm.take(oi as int + 1)) == flat_leaf(
                gs,
                alm.take(oi as int),
            ) + sg);
            lemma_gir_concat(
                flat_leaf(gs, alm.take(oi as int)),
                sg,
                1,
                ivn as int,
                ovn as int,
            );
            assert(dst0 + pre + sg =~= dst0 + (pre + sg));
        }
        oi = oi + 1;
    }
    proof {
        assert(alm.take(na as int) =~= alm);
    }
    Ok(())
}

/// Appends every gate of one leaf list, shifted by every allocation in
/// turn, checking each wire index against the layer's spaces.
fn append_flat0(
    dst: &mut Vec<GateConst>,
    gates: &Vec<GateConst>,
    allocs: &Vec<Allocation>,
    ivn: usize,
    ovn: usize,
) -> (out: Result<(), CircuitError>)
    requires
        forall|i: int| 0 <= i < gates@.len() ==> (#[trigger] gates@[i]).wf(),
        forall|i: int| 0 <= i < old(dst)@.len() ==> (#[trigger] old(dst)@[i]).wf(),
        pow2(ivn as nat) <= usize::MAX as nat,
        pow2(ovn as nat) <= usize::MAX as nat,
    ensures
        match out {
            Ok(()) => models0(final(dst)@) == models0(old(dst)@) + flat_leaf(
                models0(gates@),
                allocs@.map_values(|a: Allocation| (a.i_offset as int, a.o_offset as int)),
            ) && gates_in_range(
                flat_leaf(
                    models0(gates@),
                    allocs@.map_values(|a: Allocation| (a.i_offset as int, a.o_offset as int)),
                ),
                0,
                ivn as int,
                ovn as int,
            ) && (forall|i: int| 0 <= i < final(dst)@.len() ==> (#[trigger] final(dst)@[i]).wf()),
            Err(_) => !gates_in_range(
                flat_leaf(
                    models0(gates@),
                    allocs@.map_values(|a: Allocation| (a.i_offset as int, a.o_offset as int)),
                ),
                0,
                ivn as int,
                ovn as int,
            ),
        },
{
    let ghost gs = models0(gates@);
    let ghost alm = allocs@.map_values(|a: Allocation| (a.i_offset as int, a.o_offset as int));
    let ghost dst0 = models0(old(dst)@);
    let ibound = crate::bytes::pow2_exact(ivn);
    let obound = crate::bytes::pow2_exact(ovn);
    let na = allocs.len();
    let ng = gates.len();
    let mut oi: usize = 0;
    while oi < na
        invariant
            gs == models0(gates@),
            alm == allocs@.map_values(
                |a: Allocation| (a.i_offset as int, a.o_offset as int),
            ),
            dst0 == models0(old(dst)@),
            forall|i: int| 0 <= i < gates@.len() ==> (#[trigger] gates@[i]).wf(),
            forall|i: int| 0 <= i < dst@.len() ==> (#[trigger] dst@[i]).wf(),
            ibound as nat == pow2(ivn as nat),
            obound as nat == pow2(ovn as nat),
            na == allocs@.len(),
            ng == gates@.len(),
            oi <= na,
            gates_in_range(flat_leaf(gs, alm.take(oi as int)), 0, ivn as int, ovn as int),
            models0(dst@) == dst0 + flat_leaf(gs, alm.take(oi as int)),
        decreases na - oi,
    {
        let al = allocs[oi];
        let ghost pre = flat_leaf(gs, alm.take(oi as int));
        let mut gi: usize = 0;
        while gi < ng
            invariant
                gs == models0(gates@),
                alm == allocs@.map_values(
                    |a: Allocation| (a.i_offset as int, a.o_offset as int),
                ),
                dst0 == models0(old(dst)@),
                forall|i: int| 0 <= i < gates@.len() ==> (#[trigger] gates@[i]).wf(),
                forall|i: int| 0 <= i < dst@.len() ==> (#[trigger] dst@[i]).wf(),
                ibound as nat == pow2(ivn as nat),
                obound as nat == pow2(ovn as nat),
                na == allocs@.len(),
                ng == gates@.len(),
                oi < na,
                al == allocs@[oi as int],
                gates_in_range(
                    flat_leaf(gs, alm.take(oi as int)),
                    0,
                    ivn as int,
                    ovn as int,
                ),
                pre == flat_leaf(gs, alm.take(oi as int)),
                gi <= ng,
                gates_in_range(
                    shifted_gates(gs, alm[oi as int]).take(gi as int),
                    0,
                    ivn as int,
                    ovn as int,
                ),
                models0(dst@) == dst0 + pre + shifted_gates(gs, alm[oi as int]).take(
                    gi as int,
                ),
            decreases ng - gi,
    {
            let g = &gates[gi];
            let bad: bool = al.o_offset >= obound || g.o_id >= obound - al.o_offset;
            if bad {
                proof {
                    assert(alm[oi as int] == (al.i_offset as int, al.o_offset as int));
                    let sg = shifted_gates(gs, alm[oi as int]);
                    assert(sg[gi as int] == shift_gate(gs[gi as int], alm[oi as int]));
                    assert(gs[gi as int] == gates@[gi as int].model());
                    assert(sg[gi as int].o_id == g.o_id + al.o_offset);
                    assert(!gates_in_range(sg, 0, ivn as int, ovn as int)) by {
                        if gates_in_range(sg, 0, ivn as int, ovn as int) {
                            assert(0 <= sg[gi as int].o_id < pow2(ovn as nat));
                        }
                    }
                    assert(alm.take(oi as int + 1).drop_last() =~= alm.take(oi as int));
                    lemma_gir_concat(
                        flat_leaf(gs, alm.take(oi as int)),
                        sg,
                        0,
                        ivn as int,
                        ovn as int,
                    );
                    lemma_flat_leaf_bad(gs, alm, (oi + 1) as nat, 0, ivn as int, ovn as int);
                }
                return Err(CircuitError::WireOutOfRange);
            }
            let ng2 = GateConst {
                i_ids: [],
                o_id: g.o_id + al.o_offset,
                coef: g.coef,
                coef_type: g.coef_type,
                gate_type: g.gate_type,
            };
            let ghost before = models0(dst@);
            dst.push(ng2);
            proof {
                assert(alm[oi as int] == (al.i_offset as int, al.o_offset as int));
                let sg = shifted_gates(gs, alm[oi as int]);
                assert(gs[gi as int] == gates@[gi as int].model());
                assert(ng2.model().i_ids =~= shift_gate(gs[gi as int], alm[oi as int]).i_ids);
                assert(ng2.model() == shift_gate(gs[gi as int], alm[oi as int]));
                assert(models0(dst@) =~= before.push(ng2.model()));
                assert(sg.take(gi as int + 1) =~= sg.take(gi as int).push(sg[gi as int]));
                assert(models0(dst@) =~= dst0 + pre + sg.take(gi as int + 1));
            }
            gi = gi + 1;
        }
        proof {
            let sg = shifted_gates(gs, alm[oi as int]);
            assert(sg.take(ng as int) =~= sg);
            assert(alm.take(oi as int + 1).drop_last() =~= alm.take(oi as int));
            assert(alm.take(oi as int + 1).last() == alm[oi as int]);
            assert(flat_leaf(gs, alm.take(oi as int + 1)) == flat_leaf(
                gs,
                alm.take(oi as int),
            ) + sg);
            lemma_gir_concat(
                flat_leaf(gs, alm.take(oi as int)),
                sg,
                0,
                ivn as int,
                ovn as int,
            );
            assert(dst0 + pre + sg =~= dst0 + (pre + sg));
        }
        oi = oi + 1;
    }
    proof {
        assert(alm.take(na as int) =~= alm);
    }
    Ok(())
}

impl Segment {
    /// Collects, for every leaf segment reachable from this one, the
    /// composed allocation offsets of each of its instantiations.
    pub fn scan_leaf_segments(&self, rc: &RecursiveCircuit, cur_id: SegmentId) -> (out: Result<
        Vec<Vec<Allocation>>,
        CircuitError,
    >)
        requires
            rc.wf(),
            (cur_id as int) < rc.segments@.len(),
            *self == rc.segments@[cur_id as int],
        ensures
            match leaf_allocs_opt(rc.segs_model(), cur_id as int) {
                Some(t) => out is Ok && table_model(out->Ok_0@) == t && out->Ok_0@.len()
                    == rc.segments@.len(),
                None => out is Err,
            },
        decreases cur_id,
    {
        let ghost segs = rc.segs_model();
        let n = rc.segments.len();
        let mut ret: Vec<Vec<Allocation>> = Vec::new();
        let mut zi: usize = 0;
        while zi < n
            invariant
                zi <= n,
                ret@.len() == zi,
                forall|i: int| 0 <= i < zi ==> (#[trigger] ret@[i])@.len() == 0,
            decreases n - zi,
        {
            ret.push(Vec::new());
            zi = zi + 1;
        }
        let ghost base = if seg_has_gates(segs[cur_id as int]) {
            Seq::new(
                segs.len(),
                |i: int|
                    if i == cur_id as int {
                        seq![(0int, 0int)]
                    } else {
                        Seq::<(int, int)>::empty()
                    },
            )
        } else {
            table_empty(segs.len())
        };
        if self.contain_gates() {
            let rl = &mut ret[cur_id];
            rl.push(Allocation { i_offset: 0, o_offset: 0 });
        }
        proof {
            assert(segs[cur_id as int] == self.model());
            assert(table_model(ret@) =~~= base);
            assert(leaf_children_opt(segs, cur_id as int, 0) == Some(table_empty(segs.len())));
            lemma_table_concat_empty(base);
            assert(table_model(ret@) =~~= table_concat(
                base,
                leaf_children_opt(segs, cur_id as int, 0)->Some_0,
            ));
        }
        let nc = self.child_segs.len();
        let mut c: usize = 0;
        while c < nc
            invariant
                rc.wf(),
                (cur_id as int) < rc.segments@.len(),
                *self == rc.segments@[cur_id as int],
                segs == rc.segs_model(),
                base.len() == segs.len(),
                n == rc.segments@.len(),
                nc == self.child_segs@.len(),
                c <= nc,
                ret@.len() == n,
                leaf_children_opt(segs, cur_id as int, c as nat) is Some,
                table_model(ret@) == table_concat(
                    base,
                    leaf_children_opt(segs, cur_id as int, c as nat)->Some_0,
                ),
            decreases nc - c,
        {
            let cid = self.child_segs[c].0;
            proof {
                assert(seg_children_ok(self.model(), cur_id as int));
                assert(self.model().child_segs[c as int].0 == cid as int);
                assert(segs[cur_id as int].child_segs[c as int].0 == cid as int);
                assert((cid as int) < cur_id as int);
            }
            let ghost offs_m = segs[cur_id as int].child_segs[c as int].1;
            proof {
                assert(offs_m == self.child_segs@[c as int].1@.map_values(
                    |a: Allocation| (a.i_offset as int, a.o_offset as int),
                ));
            }
            if self.child_segs[c].1.len() > 0 {
                let sub = match rc.segments[cid].scan_leaf_segments(rc, cid) {
                    Ok(v) => v,
                    Err(e) => {
                        proof {
                            assert(leaf_children_opt(segs, cur_id as int, (c + 1) as nat) is None);
                            lemma_children_none(
                                segs,
                                cur_id as int,
                                (c + 1) as nat,
                                self.child_segs@.len() as nat,
                            );
                        }
                        return Err(e);
                    },
                };
                let ghost sub_t = table_model(sub@);
                proof {
                    lemma_leaf_allocs_len(segs, cid as int);
                }
                let ghost ret_c = table_model(ret@);
                let noffs = self.child_segs[c].1.len();
                let mut oi: usize = 0;
                while oi < noffs
                    invariant
                        rc.wf(),
                        (cur_id as int) < rc.segments@.len(),
                        *self == rc.segments@[cur_id as int],
                        segs == rc.segs_model(),
                        n == rc.segments@.len(),
                        c < self.child_segs@.len(),
                        noffs == self.child_segs@[c as int].1@.len(),
                        offs_m == self.child_segs@[c as int].1@.map_values(
                            |a: Allocation| (a.i_offset as int, a.o_offset as int),
                        ),
                        sub_t == table_model(sub@),
                        sub@.len() == n,
                        sub_t.len() == n,
                        (cid as int) < cur_id as int,
                        segs[cur_id as int].child_segs[c as int] == (cid as int, offs_m),
                        leaf_allocs_opt(segs, cid as int) == Some(sub_t),
                        leaf_children_opt(segs, cur_id as int, c as nat) is Some,
                        ret@.len() == n,
                        ret_c.len() == n,
                        oi <= noffs,
                        tsm_opt(sub_t, offs_m.take(oi as int)) is Some,
                        table_model(ret@) == table_concat(
                            ret_c,
                            tsm_opt(sub_t, offs_m.take(oi as int))->Some_0,
                        ),
                        tsm_opt(sub_t, offs_m.take(oi as int))->Some_0.len() == n,
                    decreases noffs - oi,
                {
                    let off = self.child_segs[c].1[oi];
                    match append_shifted(&mut ret, &sub, &off) {
                        Ok(()) => {},
                        Err(e) => {
                            proof {
                                assert(offs_m[oi as int] == (
                                    off.i_offset as int,
                                    off.o_offset as int,
                                ));
                                assert(offs_m.take(oi + 1).drop_last() =~= offs_m.take(
                                    oi as int,
                                ));
                                assert(offs_m.take(oi + 1).last() == offs_m[oi as int]);
                                assert(tsm_opt(sub_t, offs_m.take(oi + 1)) is None);
                                lemma_tsm_none(sub_t, offs_m, (oi + 1) as nat);
                                assert(offs_m.len() > 0);
                                assert(segs[cur_id as int] == self.model());
                                assert(segs[cur_id as int].child_segs[c as int] == (
                                    cid as int,
                                    offs_m,
                                ));
                                assert((c + 1) as nat <= segs[cur_id as int].child_segs.len());
                                assert(tsm_opt(sub_t, offs_m) is None);
                                assert(leaf_children_opt(segs, cur_id as int, (c + 1) as nat) is None);
                                lemma_children_none(
                                    segs,
                                    cur_id as int,
                                    (c + 1) as nat,
                                    self.child_segs@.len() as nat,
                                );
                            }
                            return Err(e);
                        },
                    }
                    proof {
                        assert(offs_m[oi as int] == (off.i_offset as int, off.o_offset as int));
                        assert(offs_m.take(oi + 1).drop_last() =~= offs_m.take(oi as int));
                        assert(offs_m.take(oi + 1).last() == offs_m[oi as int]);
                        let acc = tsm_opt(sub_t, offs_m.take(oi as int))->Some_0;
                        let sh = shift_opt(sub_t, offs_m[oi as int])->Some_0;
                        lemma_table_concat_assoc(ret_c, acc, sh);
                    }
                    oi = oi + 1;
                }
                proof {
                    assert(offs_m.take(noffs as int) =~= offs_m);
                    let acc_children = leaf_children_opt(segs, cur_id as int, c as nat)->Some_0;
                    let contribution = tsm_opt(sub_t, offs_m)->Some_0;
                    assert(leaf_children_opt(segs, cur_id as int, (c + 1) as nat) == Some(
                        table_concat(acc_children, contribution),
                    ));
                    lemma_leaf_children_len(segs, cur_id as int, c as nat);
                    lemma_table_concat_assoc(base, acc_children, contribution);
                }
            } else {
                proof {
                    assert(offs_m.len() == 0);
                    assert(leaf_children_opt(segs, cur_id as int, (c + 1) as nat) == leaf_children_opt(
                        segs,
                        cur_id as int,
                        c as nat,
                    ));
                }
            }
            c = c + 1;
        }
        proof {
            assert(segs[cur_id as int].child_segs.len() == nc);
            assert(leaf_allocs_opt(segs, cur_id as int) == Some(
                table_concat(base, leaf_children_opt(segs, cur_id as int, nc as nat)->Some_0),
            ));
        }
        Ok(ret)
    }
}


/// Whether one layer's flattening succeeds: the leaf scan fits the
/// address space, the layer's wire spaces fit it too, and every shifted
/// gate lands inside them.
pub open spec fn layer_ok(segs: Seq<SegmentModel>, root: int) -> bool {
    let t = leaf_allocs_opt(segs, root);
    &&& t is Some
    &&& pow2(segs[root].i_var_num as nat) <= usize::MAX as nat
    &&& pow2(segs[root].o_var_num as nat) <= usize::MAX as nat
    &&& gates_in_range(
        flat_table(segs, t->Some_0, GateKind::Mul, segs.len() as nat),
        2,
        segs[root].i_var_num,
        segs[root].o_var_num,
    )
    &&& gates_in_range(
        flat_table(segs, t->Some_0, GateKind::Add, segs.len() as nat),
        1,
        segs[root].i_var_num,
        segs[root].o_var_num,
    )
    &&& gates_in_range(
        flat_table(segs, t->Some_0, GateKind::Cst, segs.len() as nat),
        0,
        segs[root].i_var_num,
        segs[root].o_var_num,
    )
    &&& gates_in_range(
        flat_table(segs, t->Some_0, GateKind::Uni, segs.len() as nat),
        1,
        segs[root].i_var_num,
        segs[root].o_var_num,
    )
}

/// Whether flattening the whole circuit succeeds.
pub open spec fn flatten_ok(segs: Seq<SegmentModel>, lays: Seq<int>) -> bool {
    forall|l: int| 0 <= l < lays.len() ==> layer_ok(segs, #[trigger] lays[l])
}

/// What one flattened layer holds: the root segment's sizes and the
/// four flat gate lists, with no values bound yet.
pub open spec fn layer_matches(segs: Seq<SegmentModel>, root: int, lm: LayerModel) -> bool {
    let t = leaf_allocs_opt(segs, root)->Some_0;
    &&& lm.input_var_num == segs[root].i_var_num
    &&& lm.output_var_num == segs[root].o_var_num
    &&& lm.mul == flat_table(segs, t, GateKind::Mul, segs.len() as nat)
    &&& lm.add == flat_table(segs, t, GateKind::Add, segs.len() as nat)
    &&& lm.const_ == flat_table(segs, t, GateKind::Cst, segs.len() as nat)
    &&& lm.uni == flat_table(segs, t, GateKind::Uni, segs.len() as nat)
    &&& lm.input_vals.len() == 0
    &&& lm.output_vals.len() == 0
}

impl RecursiveCircuit {
    /// Resolves the segment DAG into a flat circuit: per layer, one gate
    /// list per kind, every wire index already globally offset and
    /// checked against the layer's input and output spaces.
    pub fn flatten(&self) -> (out: Result<Circuit, CircuitError>)
        requires
            self.wf(),
        ensures
            match out {
                Ok(c) => flatten_ok(self.segs_model(), self.layers_model()) && c.layers@.len()
                    == self.layers@.len() && c.special_coefs_identified && c.rnd_coefs@
                    == crate::expander_circuit::rnd_locs_upto(c.layers@, c.layers@.len() as nat)
                    && c.pub_coefs@ == crate::expander_circuit::pub_locs_upto(
                    c.layers@,
                    c.layers@.len() as nat,
                ) && c.wf() && forall|l: int|
                    0 <= l < self.layers@.len() ==> layer_matches(
                        self.segs_model(),
                        self.layers_model()[l],
                        (#[trigger] c.layers@[l]).model(),
                    ) && c.layers@[l].wf(),
                Err(_) => !flatten_ok(self.segs_model(), self.layers_model()),
            },
    {
        let ghost segs = self.segs_model();
        let ghost lays = self.layers_model();
        let nl = self.layers.len();
        let ns = self.segments.len();
        let mut layers: Vec<CircuitLayer> = Vec::new();
        let mut l: usize = 0;
        while l < nl
            invariant
                self.wf(),
                segs == self.segs_model(),
                lays == self.layers_model(),
                nl == self.layers@.len(),
                ns == self.segments@.len(),
                l <= nl,
                layers@.len() == l,
                forall|t: int| 0 <= t < l ==> layer_ok(segs, #[trigger] lays[t]),
                forall|t: int|
                    0 <= t < l ==> layer_matches(segs, lays[t], (#[trigger] layers@[t]).model())
                        && layers@[t].wf(),
            decreases nl - l,
        {
            let root = self.layers[l];
            let rootseg = &self.segments[root];
            let ghost rooti = root as int;
            let table = match rootseg.scan_leaf_segments(self, root) {
                Ok(v) => v,
                Err(e) => {
                    proof {
                        assert(!layer_ok(segs, lays[l as int]));
                    }
                    return Err(e);
                },
            };
            let ghost tt = leaf_allocs_opt(segs, rooti)->Some_0;
            let ivn = rootseg.i_var_num;
            let ovn = rootseg.o_var_num;
            proof {
                assert(segs[rooti] == rootseg.model());
            }
            if crate::bytes::pow2_checked(ivn).is_none() {
                proof {
                    assert(!layer_ok(segs, lays[l as int]));
                }
                return Err(CircuitError::SizeTooLarge);
            }
            if crate::bytes::pow2_checked(ovn).is_none() {
                proof {
                    assert(!layer_ok(segs, lays[l as int]));
                }
                return Err(CircuitError::SizeTooLarge);
            }
            let mut mulv: Vec<GateMul> = Vec::new();
            let mut leaf: usize = 0;
            while leaf < ns
                invariant
                    self.wf(),
                    segs == self.segs_model(),
                    lays == self.layers_model(),
                    ns == self.segments@.len(),
                    l < self.layers@.len(),
                    rooti == lays[l as int],
                    0 <= rooti < ns,
                    leaf_allocs_opt(segs, rooti) == Some(tt),
                    tt.len() == ns,
                    table@.len() == ns,
                    table_model(table@) == tt,
                    ivn as int == segs[rooti].i_var_num,
                    ovn as int == segs[rooti].o_var_num,
                    pow2(ivn as nat) <= usize::MAX as nat,
                    pow2(ovn as nat) <= usize::MAX as nat,
                    leaf <= ns,
                    forall|i: int| 0 <= i < mulv@.len() ==> (#[trigger] mulv@[i]).wf(),
                    models2(mulv@) == flat_table(segs, tt, GateKind::Mul, leaf as nat),
                    gates_in_range(
                        flat_table(segs, tt, GateKind::Mul, leaf as nat),
                        2,
                        ivn as int,
                        ovn as int,
                    ),
                decreases ns - leaf,
            {
                let ghost pre = flat_table(segs, tt, GateKind::Mul, leaf as nat);
                proof {
                    assert(segs[leaf as int] == self.segments@[leaf as int].model());
                    assert(table_model(table@)[leaf as int] == tt[leaf as int]);
                }
                match append_flat2(
                    &mut mulv,
                    &self.segments[leaf].gate_muls,
                    &table[leaf],
                    ivn,
                    ovn,
                ) {
                    Ok(()) => {
                        proof {
                            lemma_gir_concat(
                                pre,
                                flat_leaf(seg_gates(segs[leaf as int], GateKind::Mul), tt[leaf as int]),
                                2,
                                ivn as int,
                                ovn as int,
                            );
                        }
                    },
                    Err(e) => {
                        proof {
                            lemma_gir_concat(
                                pre,
                                flat_leaf(seg_gates(segs[leaf as int], GateKind::Mul), tt[leaf as int]),
                                2,
                                ivn as int,
                                ovn as int,
                            );
                            lemma_flat_table_bad(
                                segs,
                                tt,
                                GateKind::Mul,
                                (leaf + 1) as nat,
                                2,
                                ivn as int,
                                ovn as int,
                            );
                            assert(!layer_ok(segs, lays[l as int]));
                        }
                        return Err(e);
                    },
                }
                leaf = leaf + 1;
            }
            let mut addv: Vec<GateAdd> = Vec::new();
            let mut leaf: usize = 0;
            while leaf < ns
                invariant
                    self.wf(),
                    segs == self.segs_model(),
                    lays == self.layers_model(),
                    ns == self.segments@.len(),
                    l < self.layers@.len(),
                    rooti == lays[l as int],
                    0 <= rooti < ns,
                    leaf_allocs_opt(segs, rooti) == Some(tt),
                    tt.len() == ns,
                    table@.len() == ns,
                    table_model(table@) == tt,
                    ivn as int == segs[rooti].i_var_num,
                    ovn as int == segs[rooti].o_var_num,
                    pow2(ivn as nat) <= usize::MAX as nat,
                    pow2(ovn as nat) <= usize::MAX as nat,
                    leaf <= ns,
                    forall|i: int| 0 <= i < addv@.len() ==> (#[trigger] addv@[i]).wf(),
                    models1(addv@) == flat_table(segs, tt, GateKind::Add, leaf as nat),
                    gates_in_range(
                        flat_table(segs, tt, GateKind::Add, leaf as nat),
                        1,
                        ivn as int,
                        ovn as int,
                    ),
                decreases ns - leaf,
            {
                let ghost pre = flat_table(segs, tt, GateKind::Add, leaf as nat);
                proof {
                    assert(segs[leaf as int] == self.segments@[leaf as int].model());
                    assert(table_model(table@)[leaf as int] == tt[leaf as int]);
                }
                match append_flat1(
                    &mut addv,
                    &self.segments[leaf].gate_adds,
                    &table[leaf],
                    ivn,
                    ovn,
                ) {
                    Ok(()) => {
                        proof {
                            lemma_gir_concat(
                                pre,
                                flat_leaf(seg_gates(segs[leaf as int], GateKind::Add), tt[leaf as int]),
                                1,
                                ivn as int,
                                ovn as int,
                            );
                        }
                    },
                    Err(e) => {
                        proof {
                            lemma_gir_concat(
                                pre,
                                flat_leaf(seg_gates(segs[leaf as int], GateKind::Add), tt[leaf as int]),
                                1,
                                ivn as int,
                                ovn as int,
                            );
                            lemma_flat_table_bad(
                                segs,
                                tt,
                                GateKind::Add,
                                (leaf + 1) as nat,
                                1,
                                ivn as int,
                                ovn as int,
                            );
                            assert(!layer_ok(segs, lays[l as int]));
                        }
                        return Err(e);
                    },
                }
                leaf = leaf + 1;
            }
            let mut cstv: Vec<GateConst> = Vec::new();
            let mut leaf: usize = 0;
            while leaf < ns
                invariant
                    self.wf(),
                    segs == self.segs_model(),
                    lays == self.layers_model(),
                    ns == self.segments@.len(),
                    l < self.layers@.len(),
                    rooti == lays[l as int],
                    0 <= rooti < ns,
                    leaf_allocs_opt(segs, rooti) == Some(tt),
                    tt.len() == ns,
                    table@.len() == ns,
                    table_model(table@) == tt,
                    ivn as int == segs[rooti].i_var_num,
                    ovn as int == segs[rooti].o_var_num,
                    pow2(ivn as nat) <= usize::MAX as nat,
                    pow2(ovn as nat) <= usize::MAX as nat,
                    leaf <= ns,
                    forall|i: int| 0 <= i < cstv@.len() ==> (#[trigger] cstv@[i]).wf(),
                    models0(cstv@) == flat_table(segs, tt, GateKind::Cst, leaf as nat),
                    gates_in_range(
                        flat_table(segs, tt, GateKind::Cst, leaf as nat),
                        0,
                        ivn as int,
                        ovn as int,
                    ),
                decreases ns - leaf,
            {
                let ghost pre = flat_table(segs, tt, GateKind::Cst, leaf as nat);
                proof {
                    assert(segs[leaf as int] == self.segments@[leaf as int].model());
                    assert(table_model(table@)[leaf as int] == tt[leaf as int]);
                }
                match append_flat0(
                    &mut cstv,
                    &self.segments[leaf].gate_csts,
                    &table[leaf],
                    ivn,
                    ovn,
                ) {
                    Ok(()) => {
                        proof {
                            lemma_gir_concat(
                                pre,
                                flat_leaf(seg_gates(segs[leaf as int], GateKind::Cst), tt[leaf as int]),
                                0,
                                ivn as int,
                                ovn as int,
                            );
                        }
                    },
                    Err(e) => {
                        proof {
                            lemma_gir_concat(
                                pre,
                                flat_leaf(seg_gates(segs[leaf as int], GateKind::Cst), tt[leaf as int]),
                                0,
                                ivn as int,
                                ovn as int,
                            );
                            lemma_flat_table_bad(
                                segs,
                                tt,
                                GateKind::Cst,
                                (leaf + 1) as nat,
                                0,
                                ivn as int,
                                ovn as int,
                            );
                            assert(!layer_ok(segs, lays[l as int]));
                        }
                        return Err(e);
                    },
                }
                leaf = leaf + 1;
            }
            let mut univ: Vec<GateUni> = Vec::new();
            let mut leaf: usize = 0;
            while leaf < ns
                invariant
                    self.wf(),
                    segs == self.segs_model(),
                    lays == self.layers_model(),
                    ns == self.segments@.len(),
                    l < self.layers@.len(),
                    rooti == lays[l as int],
                    0 <= rooti < ns,
                    leaf_allocs_opt(segs, rooti) == Some(tt),
                    tt.len() == ns,
                    table@.len() == ns,
                    table_model(table@) == tt,
                    ivn as int == segs[rooti].i_var_num,
                    ovn as int == segs[rooti].o_var_num,
                    pow2(ivn as nat) <= usize::MAX as nat,
                    pow2(ovn as nat) <= usize::MAX as nat,
                    leaf <= ns,
                    forall|i: int| 0 <= i < univ@.len() ==> (#[trigger] univ@[i]).wf(),
                    models1(univ@) == flat_table(segs, tt, GateKind::Uni, leaf as nat),
                    gates_in_range(
                        flat_table(segs, tt, GateKind::Uni, leaf as nat),
                        1,
                        ivn as int,
                        ovn as int,
                    ),
                decreases ns - leaf,
            {
                let ghost pre = flat_table(segs, tt, GateKind::Uni, leaf as nat);
                proof {
                    assert(segs[leaf as int] == self.segments@[leaf as int].model());
                    assert(table_model(table@)[leaf as int] == tt[leaf as int]);
                }
                match append_flat1(
                    &mut univ,
                    &self.segments[leaf].gate_unis,
                    &table[leaf],
                    ivn,
                    ovn,
                ) {
                    Ok(()) => {
                        proof {
                            lemma_gir_concat(
                                pre,
                                flat_leaf(seg_gates(segs[leaf as int], GateKind::Uni), tt[leaf as int]),
                                1,
                                ivn as int,
                                ovn as int,
                            );
                        }
                    },
                    Err(e) => {
                        proof {
                            lemma_gir_concat(
                                pre,
                                flat_leaf(seg_gates(segs[leaf as int], GateKind::Uni), tt[leaf as int]),
                                1,
                                ivn as int,
                                ovn as int,
                            );
                            lemma_flat_table_bad(
                                segs,
                                tt,
                                GateKind::Uni,
                                (leaf + 1) as nat,
                                1,
                                ivn as int,
                                ovn as int,
                            );
                            assert(!layer_ok(segs, lays[l as int]));
                        }
                        return Err(e);
                    },
                }
                leaf = leaf + 1;
            }
            let layer = CircuitLayer {
                input_var_num: ivn,
                output_var_num: ovn,
                input_vals: Vec::new(),
                output_vals: Vec::new(),
                mul: mulv,
                add: addv,
                const_: cstv,
                uni: univ,
            };
            proof {
                assert(layer.model().input_vals =~= Seq::<Seq<int>>::empty());
                assert(layer.model().output_vals =~= Seq::<Seq<int>>::empty());
                assert(layer_matches(segs, lays[l as int], layer.model()));
                assert(layer_ok(segs, lays[l as int]));
                assert(layer.wf());
            }
            layers.push(layer);
            l = l + 1;
        }
        let mut c = Circuit {
            layers,
            special_coefs_identified: false,
            rnd_coefs: Vec::new(),
            pub_coefs: Vec::new(),
        };
        c.identify_special_coefs();
        Ok(c)
    }
}


/// The number of gates a leaf contributes: its gate count once per
/// composed allocation.
pub open spec fn gate_count_sum(
    segs: Seq<SegmentModel>,
    table: Seq<Seq<(int, int)>>,
    k: GateKind,
    n: nat,
) -> int
    decreases n,
{
    if n == 0 || n > segs.len() {
        0
    } else {
        gate_count_sum(segs, table, k, (n - 1) as nat) + table[n - 1].len() * seg_gates(
            segs[n - 1],
            k,
        ).len()
    }
}

/// One leaf's expansion holds its gate list once per allocation.
pub proof fn lemma_flat_leaf_count(gs: Seq<GateModel>, allocs: Seq<(int, int)>)
    ensures
        flat_leaf(gs, allocs).len() == allocs.len() * gs.len(),
    decreases allocs.len(),
{
    if allocs.len() == 0 {
        assert(0 * gs.len() == 0) by (nonlinear_arith);
    } else {
        lemma_flat_leaf_count(gs, allocs.drop_last());
        assert((allocs.len() - 1) * gs.len() + gs.len() == allocs.len() * gs.len())
            by (nonlinear_arith);
    }
}

/// Law: flattening preserves the total gate count — each layer's flat
/// list holds exactly the leaf gate counts summed over all leaf
/// instantiations.
pub proof fn lemma_flatten_preserves_gate_count(
    segs: Seq<SegmentModel>,
    table: Seq<Seq<(int, int)>>,
    k: GateKind,
    n: nat,
)
    ensures
        flat_table(segs, table, k, n).len() == gate_count_sum(segs, table, k, n),
    decreases n,
{
    if !(n == 0 || n > segs.len()) {
        lemma_flatten_preserves_gate_count(segs, table, k, (n - 1) as nat);
        lemma_flat_leaf_count(seg_gates(segs[n - 1], k), table[n - 1]);
    }
}

} // verus!
