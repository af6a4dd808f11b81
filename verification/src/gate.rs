//! Gates of a circuit layer and their wire decoding: a gate carries its
//! input and output wire indices, a packed coefficient, the
//! coefficient's provenance tag, and a semantic type tag.

use vstd::prelude::*;
use crate::bytes::{all_zero, le4, le8, ByteReader, CircuitError};
use crate::m31::{p, M31};
use crate::simd_m31::{s_broadcast, AVXM31};

verus! {

/// Where a gate coefficient comes from: a serialized literal, a fresh
/// transcript challenge, or a copy of one public input.
#[derive(Clone, Copy, PartialEq, Eq, Structural, Debug)]
pub enum CoefType {
    Constant,
    Random,
    PublicInput(usize),
}

/// A gate with `INPUT_NUM` input wires, one output wire, a packed
/// coefficient and its provenance, and a semantic type tag.
#[derive(Clone, Debug)]
pub struct Gate<const INPUT_NUM: usize> {
    pub i_ids: [usize; INPUT_NUM],
    pub o_id: usize,
    pub coef: AVXM31,
    pub coef_type: CoefType,
    pub gate_type: usize,
}

/// Which of a segment's four gate lists a gate lives in.
#[derive(Clone, Copy, PartialEq, Eq, Structural, Debug)]
pub enum GateKind {
    Mul,
    Add,
    Cst,
    Uni,
}

/// A two-input multiplication gate.
pub type GateMul = Gate<2>;

/// A one-input addition gate.
pub type GateAdd = Gate<1>;

/// A one-input custom gate, dispatched on its type tag.
pub type GateUni = Gate<1>;

/// A zero-input constant gate.
pub type GateConst = Gate<0>;

/// The mathematical content of a gate: wire indices, coefficient lanes,
/// provenance, type tag.
pub struct GateModel {
    pub i_ids: Seq<int>,
    pub o_id: int,
    pub coef: Seq<int>,
    pub coef_type: CoefType,
    pub gate_type: int,
}

impl<const INPUT_NUM: usize> Gate<INPUT_NUM> {
    /// The wire indices, coefficient lanes, tag, and type tag as
    /// mathematical values.
    pub open spec fn model(self) -> GateModel {
        GateModel {
            i_ids: self.i_ids@.map_values(|x: usize| x as int),
            o_id: self.o_id as int,
            coef: self.coef.as_ints(),
            coef_type: self.coef_type,
            gate_type: self.gate_type as int,
        }
    }

    /// The coefficient lanes are canonical.
    pub open spec fn wf(self) -> bool {
        self.coef.wf()
    }

    /// A zero gate: all wires at zero, coefficient zero, literal tag.
    pub fn new() -> (r: Self)
        ensures
            r.wf(),
            forall|i: int| 0 <= i < INPUT_NUM ==> #[trigger] r.i_ids@[i] == 0,
            r.o_id == 0,
            r.coef.as_ints() == s_broadcast(0),
            r.coef_type == CoefType::Constant,
            r.gate_type == 0,
    {
        let r = Gate {
            i_ids: [0; INPUT_NUM],
            o_id: 0,
            coef: AVXM31::zero(),
            coef_type: CoefType::Constant,
            gate_type: 0,
        };
        proof {
            vstd::array::axiom_spec_array_fill_for_copy_type::<usize, INPUT_NUM>(0);
        }
        r
    }
}

/// Parses one little-endian u64 that must fit an index.
pub open spec fn sp_usize(data: Seq<u8>, pos: int) -> Option<(int, int)> {
    if pos + 8 <= data.len() {
        let v = le8(data.subrange(pos, pos + 8));
        if v <= usize::MAX as int {
            Some((v, pos + 8))
        } else {
            None
        }
    } else {
        None
    }
}

/// Parses one coefficient provenance tag.
pub open spec fn sp_coef_type(data: Seq<u8>, pos: int) -> Option<(CoefType, int)> {
    if pos + 1 <= data.len() {
        let b = data[pos];
        if b == 1 {
            Some((CoefType::Constant, pos + 1))
        } else if b == 2 {
            Some((CoefType::Random, pos + 1))
        } else if b == 3 {
            match sp_usize(data, pos + 1) {
                Some((v, q)) => Some((CoefType::PublicInput(v as usize), q)),
                None => None,
            }
        } else {
            None
        }
    } else {
        None
    }
}

/// Parses one base-field element in the wire format: four value bytes,
/// little-endian, then twenty-eight bytes that must be zero.
pub open spec fn sp_ecc_m31(data: Seq<u8>, pos: int) -> Option<(int, int)> {
    if pos + 32 <= data.len() && all_zero(data.subrange(pos + 4, pos + 32)) {
        Some((le4(data.subrange(pos, pos + 4)) % p(), pos + 32))
    } else {
        None
    }
}

/// Parses `n` wire indices.
pub open spec fn sp_ids(data: Seq<u8>, pos: int, n: nat) -> Option<(Seq<int>, int)>
    decreases n,
{
    if n == 0 {
        Some((Seq::empty(), pos))
    } else {
        match sp_usize(data, pos) {
            Some((v, q)) => match sp_ids(data, q, (n - 1) as nat) {
                Some((rest, q2)) => Some((seq![v] + rest, q2)),
                None => None,
            },
            None => None,
        }
    }
}

/// Parses one gate record with `n` input wires: the wire indices, the
/// output index, the coefficient tag, and, for a literal tag, the
/// serialized coefficient broadcast into the lanes.
pub open spec fn sp_gate(data: Seq<u8>, pos: int, n: nat) -> Option<(GateModel, int)> {
    match sp_ids(data, pos, n) {
        Some((ids, q0)) => match sp_usize(data, q0) {
            Some((o, q1)) => match sp_coef_type(data, q1) {
                Some((ct, q2)) => if ct is Constant {
                    match sp_ecc_m31(data, q2) {
                        Some((c, q3)) => Some(
                            (
                                GateModel {
                                    i_ids: ids,
                                    o_id: o,
                                    coef: s_broadcast(c),
                                    coef_type: ct,
                                    gate_type: 0,
                                },
                                q3,
                            ),
                        ),
                        None => None,
                    }
                } else {
                    Some(
                        (
                            GateModel {
                                i_ids: ids,
                                o_id: o,
                                coef: s_broadcast(0),
                                coef_type: ct,
                                gate_type: 0,
                            },
                            q2,
                        ),
                    )
                },
                None => None,
            },
            None => None,
        },
        None => None,
    }
}

impl Gate<2> {
    /// Decodes one two-input gate record.
    pub fn read(r: &mut ByteReader) -> (g: Result<Self, CircuitError>)
        requires
            old(r).wf(),
        ensures
            final(r).wf(),
            final(r).data@ == old(r).data@,
            match sp_gate(old(r).data@, old(r).pos as int, 2) {
                Some((m, q)) => g is Ok && g->Ok_0.wf() && g->Ok_0.model() == m && final(r).pos
                    == q,
                None => g is Err,
            },
    {
        proof {
            reveal_with_fuel(sp_ids, 4);
        }
        let i0 = match r.read_usize() {
            Ok(v) => v,
            Err(e) => {
                return Err(e);
            },
        };
        let i1 = match r.read_usize() {
            Ok(v) => v,
            Err(e) => {
                return Err(e);
            },
        };
        let o = match r.read_usize() {
            Ok(v) => v,
            Err(e) => {
                return Err(e);
            },
        };
        let ct = match r.read_coef_type() {
            Ok(v) => v,
            Err(e) => {
                return Err(e);
            },
        };
        let coef = match ct {
            CoefType::Constant => {
                match r.read_ecc_m31() {
                    Ok(m) => AVXM31::pack_full(&m),
                    Err(e) => {
                        return Err(e);
                    },
                }
            },
            _ => AVXM31::zero(),
        };
        let g = Gate { i_ids: [i0, i1], o_id: o, coef, coef_type: ct, gate_type: 0 };
        proof {
            let mq = sp_gate(old(r).data@, old(r).pos as int, 2)->Some_0;
            assert(g.model().i_ids =~= mq.0.i_ids);
        }
        Ok(g)
    }
}

impl Gate<1> {
    /// Decodes one one-input gate record.
    pub fn read(r: &mut ByteReader) -> (g: Result<Self, CircuitError>)
        requires
            old(r).wf(),
        ensures
            final(r).wf(),
            final(r).data@ == old(r).data@,
            match sp_gate(old(r).data@, old(r).pos as int, 1) {
                Some((m, q)) => g is Ok && g->Ok_0.wf() && g->Ok_0.model() == m && final(r).pos
                    == q,
                None => g is Err,
            },
    {
        proof {
            reveal_with_fuel(sp_ids, 3);
        }
        let i0 = match r.read_usize() {
            Ok(v) => v,
            Err(e) => {
                return Err(e);
            },
        };
        let o = match r.read_usize() {
            Ok(v) => v,
            Err(e) => {
                return Err(e);
            },
        };
        let ct = match r.read_coef_type() {
            Ok(v) => v,
            Err(e) => {
                return Err(e);
            },
        };
        let coef = match ct {
            CoefType::Constant => {
                match r.read_ecc_m31() {
                    Ok(m) => AVXM31::pack_full(&m),
                    Err(e) => {
                        return Err(e);
                    },
                }
            },
            _ => AVXM31::zero(),
        };
        let g = Gate { i_ids: [i0], o_id: o, coef, coef_type: ct, gate_type: 0 };
        proof {
            let mq = sp_gate(old(r).data@, old(r).pos as int, 1)->Some_0;
            assert(g.model().i_ids =~= mq.0.i_ids);
        }
        Ok(g)
    }
}

impl Gate<0> {
    /// Decodes one zero-input gate record.
    pub fn read(r: &mut ByteReader) -> (g: Result<Self, CircuitError>)
        requires
            old(r).wf(),
        ensures
            final(r).wf(),
            final(r).data@ == old(r).data@,
            match sp_gate(old(r).data@, old(r).pos as int, 0) {
                Some((m, q)) => g is Ok && g->Ok_0.wf() && g->Ok_0.model() == m && final(r).pos
                    == q,
                None => g is Err,
            },
    {
        proof {
            reveal_with_fuel(sp_ids, 2);
        }
        let o = match r.read_usize() {
            Ok(v) => v,
            Err(e) => {
                return Err(e);
            },
        };
        let ct = match r.read_coef_type() {
            Ok(v) => v,
            Err(e) => {
                return Err(e);
            },
        };
        let coef = match ct {
            CoefType::Constant => {
                match r.read_ecc_m31() {
                    Ok(m) => AVXM31::pack_full(&m),
                    Err(e) => {
                        return Err(e);
                    },
                }
            },
            _ => AVXM31::zero(),
        };
        let g = Gate { i_ids: [], o_id: o, coef, coef_type: ct, gate_type: 0 };
        proof {
            let mq = sp_gate(old(r).data@, old(r).pos as int, 0)->Some_0;
            assert(g.model().i_ids =~= mq.0.i_ids);
        }
        Ok(g)
    }
}

impl<'a> ByteReader<'a> {
    /// Reads one little-endian u64 and narrows it to an index.
    pub fn read_usize(&mut self) -> (r: Result<usize, CircuitError>)
        requires
            old(self).wf(),
        ensures
            final(self).wf(),
            final(self).data@ == old(self).data@,
            match sp_usize(old(self).data@, old(self).pos as int) {
                Some((v, q)) => r is Ok && r->Ok_0 as int == v && final(self).pos == q,
                None => r is Err && final(self).pos == old(self).pos,
            },
    {
        let saved = self.pos;
        match self.read_u64() {
            Ok(v) => {
                if v <= usize::MAX as u64 {
                    Ok(v as usize)
                } else {
                    self.pos = saved;
                    Err(CircuitError::SizeTooLarge)
                }
            },
            Err(e) => Err(e),
        }
    }

    /// Reads one coefficient provenance tag.
    pub fn read_coef_type(&mut self) -> (r: Result<CoefType, CircuitError>)
        requires
            old(self).wf(),
        ensures
            final(self).wf(),
            final(self).data@ == old(self).data@,
            match sp_coef_type(old(self).data@, old(self).pos as int) {
                Some((ct, q)) => r == Ok::<CoefType, CircuitError>(ct) && final(self).pos == q,
                None => r is Err,
            },
    {
        match self.read_u8() {
            Ok(b) => {
                if b == 1 {
                    Ok(CoefType::Constant)
                } else if b == 2 {
                    Ok(CoefType::Random)
                } else if b == 3 {
                    match self.read_usize() {
                        Ok(idx) => Ok(CoefType::PublicInput(idx)),
                        Err(e) => Err(e),
                    }
                } else {
                    Err(CircuitError::BadCoefType)
                }
            },
            Err(e) => Err(e),
        }
    }

    /// Reads one base-field element in the wire format, rejecting
    /// nonzero padding.
    pub fn read_ecc_m31(&mut self) -> (r: Result<M31, CircuitError>)
        requires
            old(self).wf(),
        ensures
            final(self).wf(),
            final(self).data@ == old(self).data@,
            match sp_ecc_m31(old(self).data@, old(self).pos as int) {
                Some((v, q)) => r is Ok && r->Ok_0.wf() && r->Ok_0.as_int() == v
                    && final(self).pos == q,
                None => r is Err,
            },
    {
        match self.read_u32() {
            Ok(word) => {
                match self.read_zero_padding(28) {
                    Ok(()) => {
                        let m = M31::from_u32(word);
                        proof {
                            match sp_ecc_m31(old(self).data@, old(self).pos as int) {
                                Some((v, q)) => {
                                    assert(old(self).data@.subrange(
                                        old(self).pos as int,
                                        old(self).pos + 4,
                                    ) =~= old(self).data@.subrange(
                                        old(self).pos as int,
                                        old(self).pos + 4,
                                    ));
                                },
                                None => {
                                    assert(old(self).remaining() >= 32);
                                    assert(all_zero(
                                        old(self).data@.subrange(
                                            old(self).pos + 4,
                                            old(self).pos + 32,
                                        ),
                                    ));
                                },
                            }
                        }
                        Ok(m)
                    },
                    Err(e) => Err(e),
                }
            },
            Err(e) => Err(e),
        }
    }
}

} // verus!
