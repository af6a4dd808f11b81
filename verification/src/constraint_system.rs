//! A vanilla plonk constraint system over the Mersenne-31 field.
//!
//! Each row constrains `q_l*a + q_r*b + q_o*c + q_m*a*b + q_c = 0`,
//! where `a`, `b`, `c` are indices into the witness column and the
//! `q_*` are the row's selector coefficients.

use vstd::prelude::*;
use crate::m31::{fadd, fmul, fneg, fpow, M31, M31_MOD};

verus! {

/// The index of a witness variable.
pub type VariableIndex = usize;

/// The index of the constant-zero witness.
pub const VAR_ZERO: usize = 0;

/// The index of the constant-one witness.
pub const VAR_ONE: usize = 1;

/// The mathematical content of a constraint system: the five selector
/// columns, the three wiring columns, and the witness values.
pub struct CsModel {
    pub q_l: Seq<int>,
    pub q_r: Seq<int>,
    pub q_o: Seq<int>,
    pub q_m: Seq<int>,
    pub q_c: Seq<int>,
    pub a: Seq<int>,
    pub b: Seq<int>,
    pub c: Seq<int>,
    pub w: Seq<int>,
}

/// A model with one more row.
pub open spec fn push_row(
    m: CsModel,
    ql: int,
    qr: int,
    qo: int,
    qm: int,
    qc: int,
    a: int,
    b: int,
    c: int,
) -> CsModel {
    CsModel {
        q_l: m.q_l.push(ql),
        q_r: m.q_r.push(qr),
        q_o: m.q_o.push(qo),
        q_m: m.q_m.push(qm),
        q_c: m.q_c.push(qc),
        a: m.a.push(a),
        b: m.b.push(b),
        c: m.c.push(c),
        w: m.w,
    }
}

/// A model with one more witness.
pub open spec fn push_var(m: CsModel, v: int) -> CsModel {
    CsModel {
        q_l: m.q_l,
        q_r: m.q_r,
        q_o: m.q_o,
        q_m: m.q_m,
        q_c: m.q_c,
        a: m.a,
        b: m.b,
        c: m.c,
        w: m.w.push(v),
    }
}

/// One row's constraint value:
/// `q_l*a + q_r*b + q_o*c + q_m*a*b + q_c` in the field.
pub open spec fn row_val(m: CsModel, i: int) -> int {
    let av = m.w[m.a[i]];
    let bv = m.w[m.b[i]];
    let cv = m.w[m.c[i]];
    fadd(
        fadd(fadd(fadd(fmul(av, m.q_l[i]), fmul(bv, m.q_r[i])), fmul(cv, m.q_o[i])), fmul(
            fmul(av, bv),
            m.q_m[i],
        )),
        m.q_c[i],
    )
}

/// A plonk constraint system over the Mersenne-31 field.
pub struct ConstraintSystem {
    pub q_l: Vec<M31>,
    pub q_r: Vec<M31>,
    pub q_o: Vec<M31>,
    pub q_m: Vec<M31>,
    pub q_c: Vec<M31>,
    pub a: Vec<VariableIndex>,
    pub b: Vec<VariableIndex>,
    pub c: Vec<VariableIndex>,
    pub witnesses: Vec<M31>,
}

impl ConstraintSystem {
    /// The system's mathematical content.
    pub open spec fn model(self) -> CsModel {
        CsModel {
            q_l: self.q_l@.map_values(|x: M31| x.as_int()),
            q_r: self.q_r@.map_values(|x: M31| x.as_int()),
            q_o: self.q_o@.map_values(|x: M31| x.as_int()),
            q_m: self.q_m@.map_values(|x: M31| x.as_int()),
            q_c: self.q_c@.map_values(|x: M31| x.as_int()),
            a: self.a@.map_values(|x: usize| x as int),
            b: self.b@.map_values(|x: usize| x as int),
            c: self.c@.map_values(|x: usize| x as int),
            w: self.witnesses@.map_values(|x: M31| x.as_int()),
        }
    }

    /// All columns aligned, all wiring indices bound, all values
    /// canonical, and the two constant witnesses in place.
    pub open spec fn wf(self) -> bool {
        &&& self.q_r@.len() == self.q_l@.len()
        &&& self.q_o@.len() == self.q_l@.len()
        &&& self.q_m@.len() == self.q_l@.len()
        &&& self.q_c@.len() == self.q_l@.len()
        &&& self.a@.len() == self.q_l@.len()
        &&& self.b@.len() == self.q_l@.len()
        &&& self.c@.len() == self.q_l@.len()
        &&& forall|i: int| 0 <= i < self.q_l@.len() ==> (#[trigger] self.q_l@[i]).wf()
        &&& forall|i: int| 0 <= i < self.q_r@.len() ==> (#[trigger] self.q_r@[i]).wf()
        &&& forall|i: int| 0 <= i < self.q_o@.len() ==> (#[trigger] self.q_o@[i]).wf()
        &&& forall|i: int| 0 <= i < self.q_m@.len() ==> (#[trigger] self.q_m@[i]).wf()
        &&& forall|i: int| 0 <= i < self.q_c@.len() ==> (#[trigger] self.q_c@[i]).wf()
        &&& forall|i: int| 0 <= i < self.witnesses@.len() ==> (#[trigger] self.witnesses@[i]).wf()
        &&& forall|i: int|
            0 <= i < self.a@.len() ==> (#[trigger] self.a@[i]) < self.witnesses@.len()
        &&& forall|i: int|
            0 <= i < self.b@.len() ==> (#[trigger] self.b@[i]) < self.witnesses@.len()
        &&& forall|i: int|
            0 <= i < self.c@.len() ==> (#[trigger] self.c@[i]) < self.witnesses@.len()
        &&& self.witnesses@.len() >= 2
        &&& self.witnesses@[0].as_int() == 0
        &&& self.witnesses@[1].as_int() == 1
    }

    /// A fresh system: the constant-zero and constant-one witnesses,
    /// each pinned by its own row.
    pub fn init() -> (cs: Self)
        ensures
            cs.wf(),
            cs.model().w == seq![0int, 1int],
            cs.model().q_l == seq![1int, 1int],
            cs.model().q_r == seq![0int, 0int],
            cs.model().q_o == seq![0int, 0int],
            cs.model().q_m == seq![0int, 0int],
            cs.model().q_c == seq![0int, fneg(1)],
            cs.model().a == seq![VAR_ZERO as int, VAR_ONE as int],
            cs.model().b == seq![VAR_ZERO as int, VAR_ZERO as int],
            cs.model().c == seq![VAR_ZERO as int, VAR_ZERO as int],
            row_val(cs.model(), 0) == 0,
            row_val(cs.model(), 1) == 0,
    {
        let zero = M31::zero();
        let one = M31::one();
        let mut cs = ConstraintSystem {
            q_l: Vec::new(),
            q_r: Vec::new(),
            q_o: Vec::new(),
            q_m: Vec::new(),
            q_c: Vec::new(),
            a: Vec::new(),
            b: Vec::new(),
            c: Vec::new(),
            witnesses: Vec::new(),
        };
        cs.witnesses.push(zero);
        cs.witnesses.push(one);
        // the first witness is zero
        cs.q_l.push(one);
        cs.q_r.push(zero);
        cs.q_o.push(zero);
        cs.q_m.push(zero);
        cs.q_c.push(zero);
        cs.a.push(VAR_ZERO);
        cs.b.push(VAR_ZERO);
        cs.c.push(VAR_ZERO);
        // the second witness is one
        cs.q_l.push(one);
        cs.q_r.push(zero);
        cs.q_o.push(zero);
        cs.q_m.push(zero);
        cs.q_c.push(one.neg());
        cs.a.push(VAR_ONE);
        cs.b.push(VAR_ZERO);
        cs.c.push(VAR_ZERO);
        proof {
            let m = cs.model();
            assert(m.w =~= seq![0int, 1int]);
            assert(m.q_l =~= seq![1int, 1int]);
            assert(m.q_r =~= seq![0int, 0int]);
            assert(m.q_o =~= seq![0int, 0int]);
            assert(m.q_m =~= seq![0int, 0int]);
            assert(m.q_c =~= seq![0int, fneg(1)]);
            assert(m.a =~= seq![0int, 1int]);
            assert(m.b =~= seq![0int, 0int]);
            assert(m.c =~= seq![0int, 0int]);
            vstd::arithmetic::div_mod::lemma_small_mod(0nat, crate::m31::p() as nat);
            vstd::arithmetic::div_mod::lemma_small_mod(1nat, crate::m31::p() as nat);
            crate::m31::lemma_fadd_neg(1);
            assert(row_val(m, 0) == 0);
            assert(fmul(1, m.q_l[1]) == 1);
            assert(row_val(m, 1) == fadd(1, fneg(1)));
        }
        cs
    }

    /// Binds a new witness value; hands back its index.
    pub fn new_variable(&mut self, f: M31) -> (r: VariableIndex)
        requires
            old(self).wf(),
            f.wf(),
        ensures
            final(self).wf(),
            final(self).model() == push_var(old(self).model(), f.as_int()),
            r == old(self).witnesses@.len(),
            final(self).witnesses@ == old(self).witnesses@.push(f),
            final(self).q_l@ == old(self).q_l@,
            final(self).q_r@ == old(self).q_r@,
            final(self).q_o@ == old(self).q_o@,
            final(self).q_m@ == old(self).q_m@,
            final(self).q_c@ == old(self).q_c@,
            final(self).a@ == old(self).a@,
            final(self).b@ == old(self).b@,
            final(self).c@ == old(self).c@,
    {
        let r = self.witnesses.len();
        self.witnesses.push(f);
        proof {
            assert(self.model().w =~= old(self).model().w.push(f.as_int()));
        }
        r
    }

    /// The value a variable is bound to.
    pub fn get_value(&self, index: VariableIndex) -> (r: M31)
        requires
            self.wf(),
            (index as int) < self.witnesses@.len(),
        ensures
            r.wf(),
            r.as_int() == self.model().w[index as int],
    {
        self.witnesses[index]
    }
}


impl ConstraintSystem {
    /// Appends one row.
    fn push_plonk_row(
        &mut self,
        ql: M31,
        qr: M31,
        qo: M31,
        qm: M31,
        qc: M31,
        a: VariableIndex,
        b: VariableIndex,
        c: VariableIndex,
    )
        requires
            old(self).wf(),
            ql.wf(),
            qr.wf(),
            qo.wf(),
            qm.wf(),
            qc.wf(),
            (a as int) < old(self).witnesses@.len(),
            (b as int) < old(self).witnesses@.len(),
            (c as int) < old(self).witnesses@.len(),
        ensures
            final(self).wf(),
            final(self).model() == push_row(
                old(self).model(),
                ql.as_int(),
                qr.as_int(),
                qo.as_int(),
                qm.as_int(),
                qc.as_int(),
                a as int,
                b as int,
                c as int,
            ),
            final(self).witnesses@ == old(self).witnesses@,
    {
        self.q_l.push(ql);
        self.q_r.push(qr);
        self.q_o.push(qo);
        self.q_m.push(qm);
        self.q_c.push(qc);
        self.a.push(a);
        self.b.push(b);
        self.c.push(c);
        proof {
            let m = self.model();
            let e = push_row(
                old(self).model(),
                ql.as_int(),
                qr.as_int(),
                qo.as_int(),
                qm.as_int(),
                qc.as_int(),
                a as int,
                b as int,
                c as int,
            );
            assert(m.q_l =~= e.q_l);
            assert(m.q_r =~= e.q_r);
            assert(m.q_o =~= e.q_o);
            assert(m.q_m =~= e.q_m);
            assert(m.q_c =~= e.q_c);
            assert(m.a =~= e.a);
            assert(m.b =~= e.b);
            assert(m.c =~= e.c);
        }
    }

    /// Binds a constant: a new variable pinned to `c` by a fresh row.
    pub fn constant_gate(&mut self, c: &M31) -> (r: VariableIndex)
        requires
            old(self).wf(),
            c.wf(),
        ensures
            final(self).wf(),
            r == old(self).witnesses@.len(),
            final(self).model() == push_row(
                push_var(old(self).model(), c.as_int()),
                1,
                0,
                0,
                0,
                fneg(c.as_int()),
                r as int,
                VAR_ZERO as int,
                VAR_ZERO as int,
            ),
    {
        let var_c = self.new_variable(*c);
        self.push_plonk_row(
            M31::one(),
            M31::zero(),
            M31::zero(),
            M31::zero(),
            c.neg(),
            var_c,
            VAR_ZERO,
            VAR_ZERO,
        );
        var_c
    }

    /// Pins an existing variable to zero. The caller vouches that its
    /// value is zero; the new row makes the claim checkable.
    pub fn assert_zero(&mut self, a: &VariableIndex)
        requires
            old(self).wf(),
            (*a as int) < old(self).witnesses@.len(),
            old(self).model().w[*a as int] == 0,
        ensures
            final(self).wf(),
            final(self).model() == push_row(
                old(self).model(),
                1,
                0,
                0,
                0,
                0,
                *a as int,
                VAR_ZERO as int,
                VAR_ZERO as int,
            ),
    {
        self.push_plonk_row(
            M31::one(),
            M31::zero(),
            M31::zero(),
            M31::zero(),
            M31::zero(),
            *a,
            VAR_ZERO,
            VAR_ZERO,
        );
    }

    /// Pins an existing variable to one.
    pub fn assert_one(&mut self, a: &VariableIndex)
        requires
            old(self).wf(),
            (*a as int) < old(self).witnesses@.len(),
            old(self).model().w[*a as int] == 1,
        ensures
            final(self).wf(),
            final(self).model() == push_row(
                old(self).model(),
                1,
                0,
                fneg(1),
                0,
                0,
                *a as int,
                VAR_ZERO as int,
                VAR_ZERO as int,
            ),
    {
        self.push_plonk_row(
            M31::one(),
            M31::zero(),
            M31::one().neg(),
            M31::zero(),
            M31::zero(),
            *a,
            VAR_ZERO,
            VAR_ZERO,
        );
    }

    /// Pins a variable to be a bit, by the row `a*a - a = 0`.
    pub fn assert_binary(&mut self, a: &VariableIndex)
        requires
            old(self).wf(),
            (*a as int) < old(self).witnesses@.len(),
            old(self).model().w[*a as int] == 0 || old(self).model().w[*a as int] == 1,
        ensures
            final(self).wf(),
            final(self).model() == push_row(
                old(self).model(),
                fneg(1),
                0,
                0,
                1,
                0,
                *a as int,
                *a as int,
                VAR_ZERO as int,
            ),
    {
        self.push_plonk_row(
            M31::one().neg(),
            M31::zero(),
            M31::zero(),
            M31::one(),
            M31::zero(),
            *a,
            *a,
            VAR_ZERO,
        );
    }

    /// Pins a variable away from zero by binding its Fermat-power
    /// inverse and the row `a * a_inv = 1`. Succeeds exactly when the
    /// Fermat candidate is an inverse, which Fermat's little theorem
    /// makes every value the entry precondition admits.
    pub fn assert_none_zero(&mut self, a: &VariableIndex) -> (out: Result<(), crate::bytes::CircuitError>)
        requires
            old(self).wf(),
            (*a as int) < old(self).witnesses@.len(),
            old(self).model().w[*a as int] != 0,
        ensures
            out is Ok <==> fmul(
                old(self).model().w[*a as int],
                fpow(old(self).model().w[*a as int], (M31_MOD - 2) as nat),
            ) == 1,
            out is Ok ==> {
                &&& final(self).wf()
                &&& fmul(
                    old(self).model().w[*a as int],
                    fpow(old(self).model().w[*a as int], (M31_MOD - 2) as nat),
                ) == 1
                &&& final(self).model() == push_row(
                    push_var(
                        old(self).model(),
                        fpow(old(self).model().w[*a as int], (M31_MOD - 2) as nat),
                    ),
                    0,
                    0,
                    fneg(1),
                    1,
                    0,
                    *a as int,
                    old(self).witnesses@.len() as int,
                    VAR_ONE as int,
                )
            },
            out is Err ==> *final(self) == *old(self),
    {
        let a_val = self.get_value(*a);
        let a_inv = match a_val.inv() {
            Some(v) => v,
            None => {
                return Err(crate::bytes::CircuitError::BadWitness);
            },
        };
        let a_inv_var = self.new_variable(a_inv);
        self.push_plonk_row(
            M31::zero(),
            M31::zero(),
            M31::one().neg(),
            M31::one(),
            M31::zero(),
            *a,
            a_inv_var,
            VAR_ONE,
        );
        proof {
            assert(fmul(old(self).model().w[*a as int], a_inv.as_int()) == 1);
        }
        Ok(())
    }

    /// Binds `a + b` as a new variable with its defining row.
    pub fn addition_gate(&mut self, a: &VariableIndex, b: &VariableIndex) -> (r: VariableIndex)
        requires
            old(self).wf(),
            (*a as int) < old(self).witnesses@.len(),
            (*b as int) < old(self).witnesses@.len(),
        ensures
            final(self).wf(),
            r == old(self).witnesses@.len(),
            final(self).model() == push_row(
                push_var(
                    old(self).model(),
                    fadd(old(self).model().w[*a as int], old(self).model().w[*b as int]),
                ),
                1,
                1,
                fneg(1),
                0,
                0,
                *a as int,
                *b as int,
                r as int,
            ),
    {
        let a_val = self.get_value(*a);
        let b_val = self.get_value(*b);
        let c_val = a_val.add(&b_val);
        let c = self.new_variable(c_val);
        self.assert_addition(a, b, &c);
        c
    }

    /// The row `a + b - c = 0`.
    pub fn assert_addition(&mut self, a: &VariableIndex, b: &VariableIndex, c: &VariableIndex)
        requires
            old(self).wf(),
            (*a as int) < old(self).witnesses@.len(),
            (*b as int) < old(self).witnesses@.len(),
            (*c as int) < old(self).witnesses@.len(),
        ensures
            final(self).wf(),
            final(self).model() == push_row(
                old(self).model(),
                1,
                1,
                fneg(1),
                0,
                0,
                *a as int,
                *b as int,
                *c as int,
            ),
    {
        self.push_plonk_row(
            M31::one(),
            M31::one(),
            M31::one().neg(),
            M31::zero(),
            M31::zero(),
            *a,
            *b,
            *c,
        );
    }

    /// Binds `a - b` as a new variable; the defining row is the
    /// addition row `c + b = a`.
    pub fn subtraction_gate(&mut self, a: &VariableIndex, b: &VariableIndex) -> (r: VariableIndex)
        requires
            old(self).wf(),
            (*a as int) < old(self).witnesses@.len(),
            (*b as int) < old(self).witnesses@.len(),
        ensures
            final(self).wf(),
            r == old(self).witnesses@.len(),
            final(self).model() == push_row(
                push_var(
                    old(self).model(),
                    crate::m31::fsub(old(self).model().w[*a as int], old(self).model().w[*b as int]),
                ),
                1,
                1,
                fneg(1),
                0,
                0,
                r as int,
                *b as int,
                *a as int,
            ),
    {
        let a_val = self.get_value(*a);
        let b_val = self.get_value(*b);
        let c_val = a_val.sub(&b_val);
        let c = self.new_variable(c_val);
        self.assert_subtraction(a, b, &c);
        c
    }

    /// The row `c + b = a`, the subtraction claim.
    pub fn assert_subtraction(&mut self, a: &VariableIndex, b: &VariableIndex, c: &VariableIndex)
        requires
            old(self).wf(),
            (*a as int) < old(self).witnesses@.len(),
            (*b as int) < old(self).witnesses@.len(),
            (*c as int) < old(self).witnesses@.len(),
        ensures
            final(self).wf(),
            final(self).model() == push_row(
                old(self).model(),
                1,
                1,
                fneg(1),
                0,
                0,
                *c as int,
                *b as int,
                *a as int,
            ),
    {
        self.assert_addition(c, b, a);
    }

    /// Binds `a * b` as a new variable with its defining row.
    pub fn multiplication_gate(&mut self, a: &VariableIndex, b: &VariableIndex) -> (r:
        VariableIndex)
        requires
            old(self).wf(),
            (*a as int) < old(self).witnesses@.len(),
            (*b as int) < old(self).witnesses@.len(),
        ensures
            final(self).wf(),
            r == old(self).witnesses@.len(),
            final(self).model() == push_row(
                push_var(
                    old(self).model(),
                    fmul(old(self).model().w[*a as int], old(self).model().w[*b as int]),
                ),
                0,
                0,
                fneg(1),
                1,
                0,
                *a as int,
                *b as int,
                r as int,
            ),
    {
        let a_val = self.get_value(*a);
        let b_val = self.get_value(*b);
        let c_val = a_val.mul(&b_val);
        let c = self.new_variable(c_val);
        self.assert_multiplication(a, b, &c);
        c
    }

    /// The row `a * b - c = 0`.
    pub fn assert_multiplication(
        &mut self,
        a: &VariableIndex,
        b: &VariableIndex,
        c: &VariableIndex,
    )
        requires
            old(self).wf(),
            (*a as int) < old(self).witnesses@.len(),
            (*b as int) < old(self).witnesses@.len(),
            (*c as int) < old(self).witnesses@.len(),
        ensures
            final(self).wf(),
            final(self).model() == push_row(
                old(self).model(),
                0,
                0,
                fneg(1),
                1,
                0,
                *a as int,
                *b as int,
                *c as int,
            ),
    {
        self.push_plonk_row(
            M31::zero(),
            M31::zero(),
            M31::one().neg(),
            M31::one(),
            M31::zero(),
            *a,
            *b,
            *c,
        );
    }

    /// Binds `a / b` as a new variable: pins `b` away from zero, then
    /// the multiplication row `c * b = a`. Fails only if no inverse of
    /// `b` was found.
    pub fn division_gate(&mut self, a: &VariableIndex, b: &VariableIndex) -> (out: Result<
        VariableIndex,
        crate::bytes::CircuitError,
    >)
        requires
            old(self).wf(),
            (*a as int) < old(self).witnesses@.len(),
            (*b as int) < old(self).witnesses@.len(),
            old(self).model().w[*b as int] != 0,
        ensures
            out is Ok <==> fmul(
                old(self).model().w[*b as int],
                fpow(old(self).model().w[*b as int], (M31_MOD - 2) as nat),
            ) == 1,
            out is Ok ==> {
                let binv = fpow(old(self).model().w[*b as int], (M31_MOD - 2) as nat);
                &&& final(self).wf()
                &&& out->Ok_0 == old(self).witnesses@.len() + 1
                &&& fmul(old(self).model().w[*b as int], binv) == 1
                &&& final(self).model() == push_row(
                    push_var(
                        push_row(
                            push_var(old(self).model(), binv),
                            0,
                            0,
                            fneg(1),
                            1,
                            0,
                            *b as int,
                            old(self).witnesses@.len() as int,
                            VAR_ONE as int,
                        ),
                        fmul(old(self).model().w[*a as int], binv),
                    ),
                    0,
                    0,
                    fneg(1),
                    1,
                    0,
                    out->Ok_0 as int,
                    *b as int,
                    *a as int,
                )
                &&& fmul(
                    fmul(old(self).model().w[*a as int], binv),
                    old(self).model().w[*b as int],
                ) == old(self).model().w[*a as int]
            },
    {
        let b_val0 = self.get_value(*b);
        let b_inv = match b_val0.inv() {
            Some(v) => v,
            None => {
                return Err(crate::bytes::CircuitError::BadWitness);
            },
        };
        let a_val = self.get_value(*a);
        let b_inv_var = self.new_variable(b_inv);
        self.push_plonk_row(
            M31::zero(),
            M31::zero(),
            M31::one().neg(),
            M31::one(),
            M31::zero(),
            *b,
            b_inv_var,
            VAR_ONE,
        );
        let c_val = a_val.mul(&b_inv);
        let c = self.new_variable(c_val);
        self.assert_division(a, b, &c);
        proof {
            let av = old(self).model().w[*a as int];
            let bv = old(self).model().w[*b as int];
            let iv = b_inv.as_int();
            crate::m31::lemma_fmul_assoc(av, iv, bv);
            crate::m31::lemma_fmul_comm(iv, bv);
            crate::m31::lemma_fmul_comm(bv, iv);
            crate::m31::lemma_fidentities(av);
            assert(fmul(fmul(av, iv), bv) == fmul(av, fmul(iv, bv)));
            assert(fmul(iv, bv) == 1);
        }
        Ok(c)
    }

    /// The multiplication row `c * b = a`, the division claim.
    pub fn assert_division(&mut self, a: &VariableIndex, b: &VariableIndex, c: &VariableIndex)
        requires
            old(self).wf(),
            (*a as int) < old(self).witnesses@.len(),
            (*b as int) < old(self).witnesses@.len(),
            (*c as int) < old(self).witnesses@.len(),
        ensures
            final(self).wf(),
            final(self).model() == push_row(
                old(self).model(),
                0,
                0,
                fneg(1),
                1,
                0,
                *c as int,
                *b as int,
                *a as int,
            ),
    {
        self.assert_multiplication(c, b, a);
    }

    /// Whether every row's constraint holds of the bound witnesses.
    pub fn is_satisfied(&self) -> (r: bool)
        requires
            self.wf(),
        ensures
            r == forall|i: int| 0 <= i < self.model().q_l.len() ==> row_val(
                self.model(),
                i,
            ) == 0,
    {
        let ghost m = self.model();
        let length = self.q_l.len();
        let mut index: usize = 0;
        while index < length
            invariant
                self.wf(),
                m == self.model(),
                length == self.q_l@.len(),
                index <= length,
                forall|i: int| 0 <= i < index ==> row_val(m, i) == 0,
            decreases length - index,
        {
            let av = self.witnesses[self.a[index]];
            let bv = self.witnesses[self.b[index]];
            let cv = self.witnesses[self.c[index]];
            let ql = self.q_l[index];
            let qr = self.q_r[index];
            let qo = self.q_o[index];
            let qm = self.q_m[index];
            let qc = self.q_c[index];
            let rowv = av.mul(&ql).add(&bv.mul(&qr)).add(&cv.mul(&qo)).add(
                &av.mul(&bv).mul(&qm),
            ).add(&qc);
            if rowv.v != 0 {
                proof {
                    assert(row_val(m, index as int) == rowv.as_int());
                }
                return false;
            }
            proof {
                assert(row_val(m, index as int) == rowv.as_int());
            }
            index = index + 1;
        }
        true
    }
}

} // verus!
