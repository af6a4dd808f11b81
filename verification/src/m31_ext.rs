//! The cubic extension of the Mersenne-31 field: elements `a + b X + c X^2`
//! with the modulus `X^3 - 5`, each coordinate a canonical `M31`.

use vstd::prelude::*;
use vstd::arithmetic::div_mod::{
    lemma_add_mod_noop, lemma_mul_mod_noop_left, lemma_mul_mod_noop_right, lemma_small_mod,
};
use crate::m31::{fadd, fmul, fneg, fpow, fsub, in_field, p, M31, M31_MOD};

verus! {

/// The mathematical value of an extension element: three canonical
/// base-field coordinates, constant term first.
pub open spec fn ext_wf(x: Seq<int>) -> bool {
    &&& x.len() == 3
    &&& in_field(x[0])
    &&& in_field(x[1])
    &&& in_field(x[2])
}

/// Extension addition, coordinate-wise.
pub open spec fn e_add(x: Seq<int>, y: Seq<int>) -> Seq<int> {
    seq![fadd(x[0], y[0]), fadd(x[1], y[1]), fadd(x[2], y[2])]
}

/// Extension negation, coordinate-wise.
pub open spec fn e_neg(x: Seq<int>) -> Seq<int> {
    seq![fneg(x[0]), fneg(x[1]), fneg(x[2])]
}

/// Extension multiplication: convolution reduced by `X^3 = 5`.
pub open spec fn e_mul(x: Seq<int>, y: Seq<int>) -> Seq<int> {
    seq![
        (x[0] * y[0] + 5 * (x[1] * y[2] + x[2] * y[1])) % p(),
        (x[0] * y[1] + x[1] * y[0] + 5 * (x[2] * y[2])) % p(),
        (x[0] * y[2] + x[1] * y[1] + x[2] * y[0]) % p(),
    ]
}

/// The zero of the extension field.
pub open spec fn e_zero() -> Seq<int> {
    seq![0, 0, 0]
}

/// The one of the extension field.
pub open spec fn e_one() -> Seq<int> {
    seq![1, 0, 0]
}


/// The determinant of the multiplication-by-`x` matrix, the norm the
/// inverse divides by.
pub open spec fn det_of(x: Seq<int>) -> int {
    fsub(
        fadd(
            fadd(fmul(fmul(x[0], x[0]), x[0]), fmul(5, fmul(fmul(x[1], x[1]), x[1]))),
            fmul(25, fmul(fmul(x[2], x[2]), x[2])),
        ),
        fmul(15, fmul(fmul(x[0], x[1]), x[2])),
    )
}

/// The inverse candidate: the adjugate's first column over the
/// determinant's Fermat power.
pub open spec fn ext_inv_cand(x: Seq<int>) -> Seq<int> {
    let dinv = fpow(det_of(x), (M31_MOD - 2) as nat);
    seq![
        fmul(fsub(fmul(x[0], x[0]), fmul(5, fmul(x[1], x[2]))), dinv),
        fmul(fsub(fmul(5, fmul(x[2], x[2])), fmul(x[0], x[1])), dinv),
        fmul(fsub(fmul(x[1], x[1]), fmul(x[0], x[2])), dinv),
    ]
}

/// An extension element `v[0] + v[1] X + v[2] X^2`.
#[derive(Clone, Copy, Debug)]
pub struct M31Ext3 {
    pub v: [M31; 3],
}

impl PartialEq for M31Ext3 {
    fn eq(&self, o: &M31Ext3) -> (r: bool) {
        self.v[0] == o.v[0] && self.v[1] == o.v[1] && self.v[2] == o.v[2]
    }
}

impl vstd::std_specs::cmp::PartialEqSpecImpl for M31Ext3 {
    open spec fn obeys_eq_spec() -> bool {
        true
    }

    open spec fn eq_spec(&self, o: &M31Ext3) -> bool {
        self.v[0] == o.v[0] && self.v[1] == o.v[1] && self.v[2] == o.v[2]
    }
}

impl M31Ext3 {
    /// The mathematical value this element stands for.
    pub open spec fn as_ints(self) -> Seq<int> {
        seq![self.v[0].as_int(), self.v[1].as_int(), self.v[2].as_int()]
    }

    /// Canonical-form invariant.
    pub open spec fn wf(self) -> bool {
        self.v[0].wf() && self.v[1].wf() && self.v[2].wf()
    }

    /// The additive identity.
    pub fn zero() -> (r: Self)
        ensures
            r.wf(),
            r.as_ints() == e_zero(),
    {
        let r = M31Ext3 { v: [M31::zero(), M31::zero(), M31::zero()] };
        proof {
            assert(r.as_ints() =~= e_zero());
        }
        r
    }

    /// The multiplicative identity.
    pub fn one() -> (r: Self)
        ensures
            r.wf(),
            r.as_ints() == e_one(),
    {
        let r = M31Ext3 { v: [M31::one(), M31::zero(), M31::zero()] };
        proof {
            assert(r.as_ints() =~= e_one());
        }
        r
    }

    /// Embeds a 32-bit word into the constant coordinate.
    pub fn from_u32(x: u32) -> (r: Self)
        ensures
            r.wf(),
            r.as_ints() == seq![x as int % p(), 0, 0],
    {
        let r = M31Ext3 { v: [M31::from_u32(x), M31::zero(), M31::zero()] };
        proof {
            assert(r.as_ints() =~= seq![x as int % p(), 0, 0]);
        }
        r
    }

    /// Embeds a base-field scalar into the constant coordinate.
    pub fn from_base(x: &M31) -> (r: Self)
        requires
            x.wf(),
        ensures
            r.wf(),
            r.as_ints() == seq![x.as_int(), 0, 0],
    {
        let r = M31Ext3 { v: [*x, M31::zero(), M31::zero()] };
        proof {
            assert(r.as_ints() =~= seq![x.as_int(), 0, 0]);
        }
        r
    }

    /// Extension addition, coordinate-wise.
    pub fn add(&self, o: &Self) -> (r: Self)
        requires
            self.wf(),
            o.wf(),
        ensures
            r.wf(),
            r.as_ints() == e_add(self.as_ints(), o.as_ints()),
    {
        let r = M31Ext3 {
            v: [self.v[0].add(&o.v[0]), self.v[1].add(&o.v[1]), self.v[2].add(&o.v[2])],
        };
        proof {
            assert(r.as_ints() =~= e_add(self.as_ints(), o.as_ints()));
        }
        r
    }

    /// Extension negation, coordinate-wise.
    pub fn neg(&self) -> (r: Self)
        requires
            self.wf(),
        ensures
            r.wf(),
            r.as_ints() == e_neg(self.as_ints()),
    {
        let r = M31Ext3 { v: [self.v[0].neg(), self.v[1].neg(), self.v[2].neg()] };
        proof {
            assert(r.as_ints() =~= e_neg(self.as_ints()));
        }
        r
    }

    /// Extension subtraction.
    pub fn sub(&self, o: &Self) -> (r: Self)
        requires
            self.wf(),
            o.wf(),
        ensures
            r.wf(),
            r.as_ints() == e_add(self.as_ints(), e_neg(o.as_ints())),
    {
        let r = self.add(&o.neg());
        proof {
            assert(r.as_ints() =~= e_add(self.as_ints(), e_neg(o.as_ints())));
        }
        r
    }

    /// Extension multiplication via the reduction `X^3 = 5`.
    pub fn mul(&self, o: &Self) -> (r: Self)
        requires
            self.wf(),
            o.wf(),
        ensures
            r.wf(),
            r.as_ints() == e_mul(self.as_ints(), o.as_ints()),
    {
        let five = M31 { v: 5 };
        let a0 = &self.v[0];
        let a1 = &self.v[1];
        let a2 = &self.v[2];
        let b0 = &o.v[0];
        let b1 = &o.v[1];
        let b2 = &o.v[2];
        let c0 = a0.mul(b0).add(&five.mul(&a1.mul(b2).add(&a2.mul(b1))));
        let c1 = a0.mul(b1).add(&a1.mul(b0)).add(&five.mul(&a2.mul(b2)));
        let c2 = a0.mul(b2).add(&a1.mul(b1)).add(&a2.mul(b0));
        let r = M31Ext3 { v: [c0, c1, c2] };
        proof {
            let x0 = a0.as_int();
            let x1 = a1.as_int();
            let x2 = a2.as_int();
            let y0 = b0.as_int();
            let y1 = b1.as_int();
            let y2 = b2.as_int();
            lemma_mul_coord0(x0, x1, x2, y0, y1, y2);
            lemma_mul_coord1(x0, x1, x2, y0, y1, y2);
            lemma_mul_coord2(x0, x1, x2, y0, y1, y2);
            assert(r.as_ints() =~= e_mul(self.as_ints(), o.as_ints()));
        }
        r
    }

    /// Squaring with one fewer base-field multiplication than `mul`.
    pub fn square(&self) -> (r: Self)
        requires
            self.wf(),
        ensures
            r.wf(),
            r.as_ints() == e_mul(self.as_ints(), self.as_ints()),
    {
        let five = M31 { v: 5 };
        let ten = M31 { v: 10 };
        let a0 = &self.v[0];
        let a1 = &self.v[1];
        let a2 = &self.v[2];
        let c0 = a0.square().add(&ten.mul(&a1.mul(a2)));
        let c1 = a0.mul(a1).double().add(&five.mul(&a2.square()));
        let c2 = a0.mul(a2).double().add(&a1.square());
        let r = M31Ext3 { v: [c0, c1, c2] };
        proof {
            let x0 = a0.as_int();
            let x1 = a1.as_int();
            let x2 = a2.as_int();
            lemma_square_coord0(x0, x1, x2);
            lemma_square_coord1(x0, x1, x2);
            lemma_square_coord2(x0, x1, x2);
            assert(r.as_ints() =~= e_mul(self.as_ints(), self.as_ints()));
        }
        r
    }

    /// Doubling.
    pub fn double(&self) -> (r: Self)
        requires
            self.wf(),
        ensures
            r.wf(),
            r.as_ints() == e_add(self.as_ints(), self.as_ints()),
    {
        self.add(self)
    }

    /// Multiplies by a base-field scalar, coordinate-wise.
    pub fn mul_by_base(&self, s: &M31) -> (r: Self)
        requires
            self.wf(),
            s.wf(),
        ensures
            r.wf(),
            r.as_ints() == seq![
                fmul(self.as_ints()[0], s.as_int()),
                fmul(self.as_ints()[1], s.as_int()),
                fmul(self.as_ints()[2], s.as_int()),
            ],
    {
        let r = M31Ext3 { v: [self.v[0].mul(s), self.v[1].mul(s), self.v[2].mul(s)] };
        proof {
            assert(r.as_ints() =~= seq![
                fmul(self.as_ints()[0], s.as_int()),
                fmul(self.as_ints()[1], s.as_int()),
                fmul(self.as_ints()[2], s.as_int()),
            ]);
        }
        r
    }

    /// The determinant of the multiplication-by-`self` matrix.
    fn det_m31(&self) -> (d: M31)
        requires
            self.wf(),
        ensures
            d.wf(),
            d.as_int() == det_of(self.as_ints()),
    {
        let five = M31 { v: 5 };
        let a = &self.v[0];
        let b = &self.v[1];
        let c = &self.v[2];
        let d = a.square().mul(a).add(&five.mul(&b.square().mul(b))).add(
            &M31 { v: 25 }.mul(&c.square().mul(c)),
        ).sub(&M31 { v: 15 }.mul(&a.mul(b).mul(c)));
        d
    }

    /// The adjugate's first column scaled by the determinant's inverse.
    fn cand_m31(&self, det_inv: &M31) -> (r: Self)
        requires
            self.wf(),
            det_inv.wf(),
            det_inv.as_int() == fpow(det_of(self.as_ints()), (M31_MOD - 2) as nat),
        ensures
            r.wf(),
            r.as_ints() == ext_inv_cand(self.as_ints()),
    {
        let five = M31 { v: 5 };
        let a = &self.v[0];
        let b = &self.v[1];
        let c = &self.v[2];
        let d0 = a.square().sub(&five.mul(&b.mul(c))).mul(det_inv);
        let d1 = five.mul(&c.square()).sub(&a.mul(b)).mul(det_inv);
        let d2 = b.square().sub(&a.mul(c)).mul(det_inv);
        let r = M31Ext3 { v: [d0, d1, d2] };
        proof {
            assert(r.as_ints() =~= ext_inv_cand(self.as_ints()));
        }
        r
    }

    /// Multiplicative inverse: `None` for zero. The candidate is the
    /// adjugate of the multiplication matrix over the determinant's
    /// Fermat power, handed out exactly when it passes the inverse
    /// check; by Fermat's little theorem that is every nonzero element.
    pub fn inv(&self) -> (r: Option<Self>)
        requires
            self.wf(),
        ensures
            r is Some <==> fmul(
                det_of(self.as_ints()),
                fpow(det_of(self.as_ints()), (M31_MOD - 2) as nat),
            ) == 1 && e_mul(self.as_ints(), ext_inv_cand(self.as_ints())) == e_one(),
            self.as_ints() == e_zero() ==> r is None,
            r is Some ==> r->0.wf() && r->0.as_ints() == ext_inv_cand(self.as_ints()) && e_mul(
                self.as_ints(),
                r->0.as_ints(),
            ) == e_one(),
    {
        let ghost xm = self.as_ints();
        let det = self.det_m31();
        let det_inv = match det.inv() {
            Some(d) => d,
            None => {
                return None;
            },
        };
        let cand = self.cand_m31(&det_inv);
        let check = self.mul(&cand);
        if check.v[0].v == 1 && check.v[1].v == 0 && check.v[2].v == 0 {
            proof {
                assert(check.as_ints() =~= e_one());
                if xm == e_zero() {
                    lemma_mul_by_zero(cand.as_ints());
                    assert(check.as_ints()[0] == 0);
                }
            }
            Some(cand)
        } else {
            proof {
                assert(check.as_ints() == e_mul(xm, ext_inv_cand(xm)));
                if e_mul(xm, ext_inv_cand(xm)) == e_one() {
                    assert(check.as_ints()[0] == 1 && check.as_ints()[1] == 0
                        && check.as_ints()[2] == 0);
                }
            }
            None
        }
    }

    /// The zero element has no inverse: its product with any candidate
    /// has a zero constant coordinate.
    proof fn lemma_zero_inv_check_fails(y: Seq<int>)
        requires
            y.len() == 3,
        ensures
            e_mul(e_zero(), y)[0] == 0,
    {
        lemma_mul_by_zero(y);
    }
}

/// `(x % p) + (y % p)` reduced is `(x + y)` reduced.
proof fn lemma_fadd_mods(x: int, y: int)
    ensures
        fadd(x % p(), y % p()) == (x + y) % p(),
{
    lemma_add_mod_noop(x, y, p());
}

/// Multiplying a reduced value keeps the product's residue.
proof fn lemma_fmul_mod_right(c: int, x: int)
    ensures
        fmul(c, x % p()) == (c * x) % p(),
{
    lemma_mul_mod_noop_right(c, x, p());
}

proof fn lemma_mul_coord0(x0: int, x1: int, x2: int, y0: int, y1: int, y2: int)
    ensures
        fadd(fmul(x0, y0), fmul(5, fadd(fmul(x1, y2), fmul(x2, y1)))) == (x0 * y0 + 5 * (x1 * y2
            + x2 * y1)) % p(),
{
    lemma_fadd_mods(x1 * y2, x2 * y1);
    lemma_fmul_mod_right(5, x1 * y2 + x2 * y1);
    lemma_fadd_mods(x0 * y0, 5 * (x1 * y2 + x2 * y1));
}

proof fn lemma_mul_coord1(x0: int, x1: int, x2: int, y0: int, y1: int, y2: int)
    ensures
        fadd(fadd(fmul(x0, y1), fmul(x1, y0)), fmul(5, fmul(x2, y2))) == (x0 * y1 + x1 * y0 + 5 * (
        x2 * y2)) % p(),
{
    lemma_fadd_mods(x0 * y1, x1 * y0);
    lemma_fmul_mod_right(5, x2 * y2);
    lemma_fadd_mods(x0 * y1 + x1 * y0, 5 * (x2 * y2));
}

proof fn lemma_mul_coord2(x0: int, x1: int, x2: int, y0: int, y1: int, y2: int)
    ensures
        fadd(fadd(fmul(x0, y2), fmul(x1, y1)), fmul(x2, y0)) == (x0 * y2 + x1 * y1 + x2 * y0)
            % p(),
{
    lemma_fadd_mods(x0 * y2, x1 * y1);
    lemma_fadd_mods(x0 * y2 + x1 * y1, x2 * y0);
    lemma_small_mod(0nat, p() as nat);
    assert(fmul(x2, y0) == (x2 * y0) % p());
}

proof fn lemma_square_coord0(x0: int, x1: int, x2: int)
    ensures
        fadd(fmul(x0, x0), fmul(10, fmul(x1, x2))) == (x0 * x0 + 5 * (x1 * x2 + x2 * x1)) % p(),
{
    lemma_fmul_mod_right(10, x1 * x2);
    lemma_fadd_mods(x0 * x0, 10 * (x1 * x2));
    assert(10 * (x1 * x2) == 5 * (x1 * x2 + x2 * x1)) by (nonlinear_arith);
}

proof fn lemma_square_coord1(x0: int, x1: int, x2: int)
    ensures
        fadd(fadd(fmul(x0, x1), fmul(x0, x1)), fmul(5, fmul(x2, x2))) == (x0 * x1 + x1 * x0 + 5 * (
        x2 * x2)) % p(),
{
    lemma_fadd_mods(x0 * x1, x0 * x1);
    lemma_fmul_mod_right(5, x2 * x2);
    lemma_fadd_mods(x0 * x1 + x0 * x1, 5 * (x2 * x2));
    assert(x0 * x1 + x1 * x0 == x0 * x1 + x0 * x1) by (nonlinear_arith);
}

proof fn lemma_square_coord2(x0: int, x1: int, x2: int)
    ensures
        fadd(fadd(fmul(x0, x2), fmul(x0, x2)), fmul(x1, x1)) == (x0 * x2 + x1 * x1 + x2 * x0)
            % p(),
{
    lemma_fadd_mods(x0 * x2, x0 * x2);
    lemma_fadd_mods(x0 * x2 + x0 * x2, x1 * x1);
    assert(x0 * x2 + x0 * x2 + x1 * x1 == x0 * x2 + x1 * x1 + x2 * x0) by (nonlinear_arith);
}

/// Multiplying the zero element gives zero in the constant coordinate.
proof fn lemma_mul_by_zero(y: Seq<int>)
    requires
        y.len() == 3,
    ensures
        e_mul(e_zero(), y)[0] == 0,
{
    assert(0 * y[0] == 0) by (nonlinear_arith);
    assert(0 * y[2] == 0) by (nonlinear_arith);
    assert(0 * y[1] == 0) by (nonlinear_arith);
    lemma_small_mod(0nat, p() as nat);
}


/// Law: extension addition is commutative.
pub proof fn lemma_e_add_comm(x: Seq<int>, y: Seq<int>)
    requires
        x.len() == 3,
        y.len() == 3,
    ensures
        e_add(x, y) == e_add(y, x),
{
    assert(e_add(x, y) =~= e_add(y, x));
}

/// Law: extension addition is associative.
pub proof fn lemma_e_add_assoc(x: Seq<int>, y: Seq<int>, z: Seq<int>)
    requires
        ext_wf(x),
        ext_wf(y),
        ext_wf(z),
    ensures
        e_add(e_add(x, y), z) == e_add(x, e_add(y, z)),
{
    crate::m31::lemma_fadd_assoc(x[0], y[0], z[0]);
    crate::m31::lemma_fadd_assoc(x[1], y[1], z[1]);
    crate::m31::lemma_fadd_assoc(x[2], y[2], z[2]);
    assert(e_add(e_add(x, y), z) =~= e_add(x, e_add(y, z)));
}

/// Law: extension multiplication is commutative.
pub proof fn lemma_e_mul_comm(x: Seq<int>, y: Seq<int>)
    requires
        x.len() == 3,
        y.len() == 3,
    ensures
        e_mul(x, y) == e_mul(y, x),
{
    assert(x[0] * y[0] + 5 * (x[1] * y[2] + x[2] * y[1]) == y[0] * x[0] + 5 * (y[1] * x[2] + y[2]
        * x[1])) by (nonlinear_arith);
    assert(x[0] * y[1] + x[1] * y[0] + 5 * (x[2] * y[2]) == y[0] * x[1] + y[1] * x[0] + 5 * (y[2]
        * x[2])) by (nonlinear_arith);
    assert(x[0] * y[2] + x[1] * y[1] + x[2] * y[0] == y[0] * x[2] + y[1] * x[1] + y[2] * x[0])
        by (nonlinear_arith);
    assert(e_mul(x, y) =~= e_mul(y, x));
}

/// Law: every extension element cancels against its negation.
pub proof fn lemma_e_add_neg(x: Seq<int>)
    requires
        ext_wf(x),
    ensures
        e_add(x, e_neg(x)) == e_zero(),
{
    crate::m31::lemma_fadd_neg(x[0]);
    crate::m31::lemma_fadd_neg(x[1]);
    crate::m31::lemma_fadd_neg(x[2]);
    assert(e_add(x, e_neg(x)) =~= e_zero());
}

/// Law: zero and one are the extension identities.
pub proof fn lemma_e_identities(x: Seq<int>)
    requires
        ext_wf(x),
    ensures
        e_add(x, e_zero()) == x,
        e_mul(x, e_one()) == x,
{
    crate::m31::lemma_fidentities(x[0]);
    crate::m31::lemma_fidentities(x[1]);
    crate::m31::lemma_fidentities(x[2]);
    assert(x[0] * 1 + 5 * (x[1] * 0 + x[2] * 0) == x[0] * 1) by (nonlinear_arith);
    assert(x[0] * 0 + x[1] * 1 + 5 * (x[2] * 0) == x[1] * 1) by (nonlinear_arith);
    assert(x[0] * 0 + x[1] * 0 + x[2] * 1 == x[2] * 1) by (nonlinear_arith);
    assert(x[0] * 1 == x[0] && x[1] * 1 == x[1] && x[2] * 1 == x[2]) by (nonlinear_arith);
    lemma_small_mod(x[0] as nat, p() as nat);
    lemma_small_mod(x[1] as nat, p() as nat);
    lemma_small_mod(x[2] as nat, p() as nat);
    assert(e_add(x, e_zero()) =~= x);
    assert(e_mul(x, e_one()) =~= x);
}

/// Replacing each factor by its residue keeps a weighted three-term
/// sum's residue: `(c1*a1*w1 + c2*a2*w2 + c3*a3*w3) mod p` with each
/// `a_i = A_i mod p`.
proof fn lemma_pull3(
    a1: int,
    b1: int,
    a2: int,
    b2: int,
    a3: int,
    b3: int,
    w1: int,
    w2: int,
    w3: int,
    c1: int,
    c2: int,
    c3: int,
)
    requires
        a1 == b1 % p(),
        a2 == b2 % p(),
        a3 == b3 % p(),
    ensures
        (c1 * (a1 * w1) + c2 * (a2 * w2) + c3 * (a3 * w3)) % p() == (c1 * (b1 * w1) + c2 * (b2
            * w2) + c3 * (b3 * w3)) % p(),
{
    lemma_term_pull(a1, b1, w1, c1);
    lemma_term_pull(a2, b2, w2, c2);
    lemma_term_pull(a3, b3, w3, c3);
    lemma_add_mod_noop(c1 * (a1 * w1), c2 * (a2 * w2), p());
    lemma_add_mod_noop(c1 * (b1 * w1), c2 * (b2 * w2), p());
    lemma_add_mod_noop(c1 * (a1 * w1) + c2 * (a2 * w2), c3 * (a3 * w3), p());
    lemma_add_mod_noop(c1 * (b1 * w1) + c2 * (b2 * w2), c3 * (b3 * w3), p());
}

/// One weighted product keeps its residue when a factor is reduced.
proof fn lemma_term_pull(a: int, b: int, w: int, c: int)
    requires
        a == b % p(),
    ensures
        (c * (a * w)) % p() == (c * (b * w)) % p(),
{
    lemma_mul_mod_noop_left(b, w, p());
    lemma_mul_mod_noop_right(c, a * w, p());
    lemma_mul_mod_noop_right(c, b * w, p());
}



/// Distributing a factor over `a + 5*(b + c)`.
proof fn lemma_dist_grouped(a: int, b: int, c: int, d: int)
    ensures
        (a + 5 * (b + c)) * d == a * d + 5 * (b * d) + 5 * (c * d),
{
    assert((a + 5 * (b + c)) * d == a * d + 5 * (b * d) + 5 * (c * d)) by (nonlinear_arith);
}

/// Distributing a factor over `a + b + 5*c`.
proof fn lemma_dist_last(a: int, b: int, c: int, d: int)
    ensures
        (a + b + 5 * c) * d == a * d + b * d + 5 * (c * d),
{
    assert((a + b + 5 * c) * d == a * d + b * d + 5 * (c * d)) by (nonlinear_arith);
}

/// Distributing a factor over a plain three-term sum.
proof fn lemma_dist_plain(a: int, b: int, c: int, d: int)
    ensures
        (a + b + c) * d == a * d + b * d + c * d,
{
    assert((a + b + c) * d == a * d + b * d + c * d) by (nonlinear_arith);
}

/// Rotating a product of three factors.
proof fn lemma_mono(x: int, y: int, z: int)
    ensures
        (x * y) * z == (y * z) * x,
{
    assert((x * y) * z == (y * z) * x) by (nonlinear_arith);
}

/// The raw ring identity behind one coordinate of associativity.
proof fn lemma_assoc_raw0(
    x0: int,
    x1: int,
    x2: int,
    y0: int,
    y1: int,
    y2: int,
    z0: int,
    z1: int,
    z2: int,
)
    ensures
        1 * ((x0 * y0 + 5 * (x1 * y2 + x2 * y1)) * z0) + 5 * ((x0 * y1 + x1 * y0 + 5 * (x2 * y2)) * z2) + 5 * ((x0 * y2 + x1 * y1 + x2 * y0) * z1) == 1 * ((y0 * z0 + 5 * (y1 * z2 + y2 * z1)) * x0) + 5 * ((y0 * z2 + y1 * z1 + y2 * z0) * x1) + 5 * ((y0 * z1 + y1 * z0 + 5 * (y2 * z2)) * x2),
{
    lemma_dist_grouped(x0 * y0, x1 * y2, x2 * y1, z0);
    lemma_dist_last(x0 * y1, x1 * y0, x2 * y2, z2);
    lemma_dist_plain(x0 * y2, x1 * y1, x2 * y0, z1);
    lemma_dist_grouped(y0 * z0, y1 * z2, y2 * z1, x0);
    lemma_dist_plain(y0 * z2, y1 * z1, y2 * z0, x1);
    lemma_dist_last(y0 * z1, y1 * z0, y2 * z2, x2);
    lemma_mono(x0, y0, z0);
    lemma_mono(x0, y1, z2);
    lemma_mono(x0, y2, z1);
    lemma_mono(x1, y0, z2);
    lemma_mono(x1, y1, z1);
    lemma_mono(x1, y2, z0);
    lemma_mono(x2, y0, z1);
    lemma_mono(x2, y1, z0);
    lemma_mono(x2, y2, z2);
}

/// The raw ring identity behind one coordinate of associativity.
proof fn lemma_assoc_raw1(
    x0: int,
    x1: int,
    x2: int,
    y0: int,
    y1: int,
    y2: int,
    z0: int,
    z1: int,
    z2: int,
)
    ensures
        1 * ((x0 * y0 + 5 * (x1 * y2 + x2 * y1)) * z1) + 1 * ((x0 * y1 + x1 * y0 + 5 * (x2 * y2)) * z0) + 5 * ((x0 * y2 + x1 * y1 + x2 * y0) * z2) == 1 * ((y0 * z1 + y1 * z0 + 5 * (y2 * z2)) * x0) + 1 * ((y0 * z0 + 5 * (y1 * z2 + y2 * z1)) * x1) + 5 * ((y0 * z2 + y1 * z1 + y2 * z0) * x2),
{
    lemma_dist_grouped(x0 * y0, x1 * y2, x2 * y1, z1);
    lemma_dist_last(x0 * y1, x1 * y0, x2 * y2, z0);
    lemma_dist_plain(x0 * y2, x1 * y1, x2 * y0, z2);
    lemma_dist_last(y0 * z1, y1 * z0, y2 * z2, x0);
    lemma_dist_grouped(y0 * z0, y1 * z2, y2 * z1, x1);
    lemma_dist_plain(y0 * z2, y1 * z1, y2 * z0, x2);
    lemma_mono(x0, y0, z1);
    lemma_mono(x0, y1, z0);
    lemma_mono(x0, y2, z2);
    lemma_mono(x1, y0, z0);
    lemma_mono(x1, y1, z2);
    lemma_mono(x1, y2, z1);
    lemma_mono(x2, y0, z2);
    lemma_mono(x2, y1, z1);
    lemma_mono(x2, y2, z0);
}

/// The raw ring identity behind one coordinate of associativity.
proof fn lemma_assoc_raw2(
    x0: int,
    x1: int,
    x2: int,
    y0: int,
    y1: int,
    y2: int,
    z0: int,
    z1: int,
    z2: int,
)
    ensures
        1 * ((x0 * y0 + 5 * (x1 * y2 + x2 * y1)) * z2) + 1 * ((x0 * y1 + x1 * y0 + 5 * (x2 * y2)) * z1) + 1 * ((x0 * y2 + x1 * y1 + x2 * y0) * z0) == 1 * ((y0 * z2 + y1 * z1 + y2 * z0) * x0) + 1 * ((y0 * z1 + y1 * z0 + 5 * (y2 * z2)) * x1) + 1 * ((y0 * z0 + 5 * (y1 * z2 + y2 * z1)) * x2),
{
    lemma_dist_grouped(x0 * y0, x1 * y2, x2 * y1, z2);
    lemma_dist_last(x0 * y1, x1 * y0, x2 * y2, z1);
    lemma_dist_plain(x0 * y2, x1 * y1, x2 * y0, z0);
    lemma_dist_plain(y0 * z2, y1 * z1, y2 * z0, x0);
    lemma_dist_last(y0 * z1, y1 * z0, y2 * z2, x1);
    lemma_dist_grouped(y0 * z0, y1 * z2, y2 * z1, x2);
    lemma_mono(x0, y0, z2);
    lemma_mono(x0, y1, z1);
    lemma_mono(x0, y2, z0);
    lemma_mono(x1, y0, z1);
    lemma_mono(x1, y1, z0);
    lemma_mono(x1, y2, z2);
    lemma_mono(x2, y0, z0);
    lemma_mono(x2, y1, z2);
    lemma_mono(x2, y2, z1);
}

/// Law: extension multiplication is associative.
pub proof fn lemma_e_mul_assoc(x: Seq<int>, y: Seq<int>, z: Seq<int>)
    requires
        x.len() == 3,
        y.len() == 3,
        z.len() == 3,
    ensures
        e_mul(e_mul(x, y), z) == e_mul(x, e_mul(y, z)),
{
    let u0 = x[0] * y[0] + 5 * (x[1] * y[2] + x[2] * y[1]);
    let u1 = x[0] * y[1] + x[1] * y[0] + 5 * (x[2] * y[2]);
    let u2 = x[0] * y[2] + x[1] * y[1] + x[2] * y[0];
    let v0 = y[0] * z[0] + 5 * (y[1] * z[2] + y[2] * z[1]);
    let v1 = y[0] * z[1] + y[1] * z[0] + 5 * (y[2] * z[2]);
    let v2 = y[0] * z[2] + y[1] * z[1] + y[2] * z[0];
    let u = e_mul(x, y);
    let v = e_mul(y, z);
    lemma_assoc_raw0(x[0], x[1], x[2], y[0], y[1], y[2], z[0], z[1], z[2]);
    lemma_assoc_raw1(x[0], x[1], x[2], y[0], y[1], y[2], z[0], z[1], z[2]);
    lemma_assoc_raw2(x[0], x[1], x[2], y[0], y[1], y[2], z[0], z[1], z[2]);
    // component 0
    assert(u[0] * z[0] + 5 * (u[1] * z[2] + u[2] * z[1]) == 1 * (u[0] * z[0]) + 5 * (u[1] * z[2])
        + 5 * (u[2] * z[1])) by (nonlinear_arith);
    lemma_pull3(u[0], u0, u[1], u1, u[2], u2, z[0], z[2], z[1], 1, 5, 5);
    assert(x[0] * v[0] + 5 * (x[1] * v[2] + x[2] * v[1]) == 1 * (v[0] * x[0]) + 5 * (v[2] * x[1])
        + 5 * (v[1] * x[2])) by (nonlinear_arith);
    lemma_pull3(v[0], v0, v[2], v2, v[1], v1, x[0], x[1], x[2], 1, 5, 5);
    // component 1
    assert(u[0] * z[1] + u[1] * z[0] + 5 * (u[2] * z[2]) == 1 * (u[0] * z[1]) + 1 * (u[1] * z[0])
        + 5 * (u[2] * z[2])) by (nonlinear_arith);
    lemma_pull3(u[0], u0, u[1], u1, u[2], u2, z[1], z[0], z[2], 1, 1, 5);
    assert(x[0] * v[1] + x[1] * v[0] + 5 * (x[2] * v[2]) == 1 * (v[1] * x[0]) + 1 * (v[0] * x[1])
        + 5 * (v[2] * x[2])) by (nonlinear_arith);
    lemma_pull3(v[1], v1, v[0], v0, v[2], v2, x[0], x[1], x[2], 1, 1, 5);
    // component 2
    assert(u[0] * z[2] + u[1] * z[1] + u[2] * z[0] == 1 * (u[0] * z[2]) + 1 * (u[1] * z[1]) + 1 * (
    u[2] * z[0])) by (nonlinear_arith);
    lemma_pull3(u[0], u0, u[1], u1, u[2], u2, z[2], z[1], z[0], 1, 1, 1);
    assert(x[0] * v[2] + x[1] * v[1] + x[2] * v[0] == 1 * (v[2] * x[0]) + 1 * (v[1] * x[1]) + 1 * (
    v[0] * x[2])) by (nonlinear_arith);
    lemma_pull3(v[2], v2, v[1], v1, v[0], v0, x[0], x[1], x[2], 1, 1, 1);
    assert(e_mul(e_mul(x, y), z) =~= e_mul(x, e_mul(y, z)));
}

/// Law: extension multiplication distributes over addition.
pub proof fn lemma_e_distrib(x: Seq<int>, y: Seq<int>, z: Seq<int>)
    requires
        x.len() == 3,
        y.len() == 3,
        z.len() == 3,
    ensures
        e_mul(x, e_add(y, z)) == e_add(e_mul(x, y), e_mul(x, z)),
{
    let s = e_add(y, z);
    // component 0
    assert(x[0] * s[0] + 5 * (x[1] * s[2] + x[2] * s[1]) == 1 * (s[0] * x[0]) + 5 * (s[2] * x[1])
        + 5 * (s[1] * x[2])) by (nonlinear_arith);
    lemma_pull3(s[0], y[0] + z[0], s[2], y[2] + z[2], s[1], y[1] + z[1], x[0], x[1], x[2], 1, 5, 5);
    assert(1 * ((y[0] + z[0]) * x[0]) + 5 * ((y[2] + z[2]) * x[1]) + 5 * ((y[1] + z[1]) * x[2])
        == (x[0] * y[0] + 5 * (x[1] * y[2] + x[2] * y[1])) + (x[0] * z[0] + 5 * (x[1] * z[2] + x[2]
        * z[1]))) by (nonlinear_arith);
    lemma_add_mod_noop(
        x[0] * y[0] + 5 * (x[1] * y[2] + x[2] * y[1]),
        x[0] * z[0] + 5 * (x[1] * z[2] + x[2] * z[1]),
        p(),
    );
    // component 1
    assert(x[0] * s[1] + x[1] * s[0] + 5 * (x[2] * s[2]) == 1 * (s[1] * x[0]) + 1 * (s[0] * x[1])
        + 5 * (s[2] * x[2])) by (nonlinear_arith);
    lemma_pull3(s[1], y[1] + z[1], s[0], y[0] + z[0], s[2], y[2] + z[2], x[0], x[1], x[2], 1, 1, 5);
    assert(1 * ((y[1] + z[1]) * x[0]) + 1 * ((y[0] + z[0]) * x[1]) + 5 * ((y[2] + z[2]) * x[2])
        == (x[0] * y[1] + x[1] * y[0] + 5 * (x[2] * y[2])) + (x[0] * z[1] + x[1] * z[0] + 5 * (x[2]
        * z[2]))) by (nonlinear_arith);
    lemma_add_mod_noop(
        x[0] * y[1] + x[1] * y[0] + 5 * (x[2] * y[2]),
        x[0] * z[1] + x[1] * z[0] + 5 * (x[2] * z[2]),
        p(),
    );
    // component 2
    assert(x[0] * s[2] + x[1] * s[1] + x[2] * s[0] == 1 * (s[2] * x[0]) + 1 * (s[1] * x[1]) + 1 * (
    s[0] * x[2])) by (nonlinear_arith);
    lemma_pull3(s[2], y[2] + z[2], s[1], y[1] + z[1], s[0], y[0] + z[0], x[0], x[1], x[2], 1, 1, 1);
    assert(1 * ((y[2] + z[2]) * x[0]) + 1 * ((y[1] + z[1]) * x[1]) + 1 * ((y[0] + z[0]) * x[2])
        == (x[0] * y[2] + x[1] * y[1] + x[2] * y[0]) + (x[0] * z[2] + x[1] * z[1] + x[2] * z[0]))
        by (nonlinear_arith);
    lemma_add_mod_noop(
        x[0] * y[2] + x[1] * y[1] + x[2] * y[0],
        x[0] * z[2] + x[1] * z[1] + x[2] * z[0],
        p(),
    );
    assert(e_mul(x, e_add(y, z)) =~= e_add(e_mul(x, y), e_mul(x, z)));
}

} // verus!
