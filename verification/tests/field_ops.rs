use expander_rs::m31::{M31, M31_MOD};
use expander_rs::m31_ext::M31Ext3;
use expander_rs::simd_m31::AVXM31;
use expander_rs::simd_ext::SimdM31Ext3;

fn m(v: u32) -> M31 {
    M31::from_u32(v)
}

fn ext(a: u32, b: u32, c: u32) -> M31Ext3 {
    M31Ext3 { v: [m(a), m(b), m(c)] }
}

#[test]
fn m31_add_wraps() {
    let a = m(M31_MOD - 1);
    let b = m(5);
    assert_eq!(a.add(&b).v, 4);
    assert_eq!(b.add(&a).v, 4);
}

#[test]
fn m31_from_u32_reduces() {
    assert_eq!(m(M31_MOD).v, 0);
    assert_eq!(m(M31_MOD + 3).v, 3);
    assert_eq!(m(7).v, 7);
}

#[test]
fn m31_mul_exact() {
    assert_eq!(m(3).mul(&m(5)).v, 15);
    let big = m(1 << 30);
    // 2^30 * 2 = 2^31 = p + 1, so the product reduces to 1
    assert_eq!(big.mul(&m(2)).v, 1);
}

#[test]
fn m31_sub_neg() {
    assert_eq!(m(3).sub(&m(5)).v, M31_MOD - 2);
    assert_eq!(m(0).neg().v, 0);
    assert_eq!(m(1).neg().v, M31_MOD - 1);
    assert_eq!(m(4).add(&m(4).neg()).v, 0);
}

#[test]
fn m31_square_double() {
    assert_eq!(m(9).square().v, 81);
    assert_eq!(m(9).double().v, 18);
    let x = m(123456789);
    assert_eq!(x.square().v, x.mul(&x).v);
    assert_eq!(x.double().v, x.add(&x).v);
}

#[test]
fn m31_inv() {
    assert!(m(0).inv().is_none());
    for v in [1u32, 2, 3, 7, 1234567, M31_MOD - 1] {
        let x = m(v);
        let y = x.inv().expect("nonzero element has an inverse");
        assert_eq!(x.mul(&y).v, 1);
    }
}

#[test]
fn ext3_mul_exact() {
    let x = ext(1, 2, 0);
    let y = ext(3, 0, 1);
    let z = x.mul(&y);
    assert_eq!(z.v[0].v, 13);
    assert_eq!(z.v[1].v, 6);
    assert_eq!(z.v[2].v, 1);
    // commutativity on this pair
    let z2 = y.mul(&x);
    assert_eq!(z, z2);
}

#[test]
fn ext3_square_matches_mul() {
    let x = ext(5, 11, 23);
    assert_eq!(x.square(), x.mul(&x));
    assert_eq!(x.double(), x.add(&x));
}

#[test]
fn ext3_inv() {
    assert!(M31Ext3::zero().inv().is_none());
    let x = ext(5, 11, 23);
    let y = x.inv().expect("nonzero extension element has an inverse");
    assert_eq!(x.mul(&y), M31Ext3::one());
    let x2 = ext(0, 1, 0);
    let y2 = x2.inv().expect("X has an inverse");
    assert_eq!(x2.mul(&y2), M31Ext3::one());
}

#[test]
fn ext3_add_neg() {
    let x = ext(5, 11, 23);
    assert_eq!(x.add(&x.neg()), M31Ext3::zero());
    let y = ext(9, 1, 2);
    assert_eq!(x.add(&y), y.add(&x));
}

#[test]
fn simd_scale_of_broadcast_is_broadcast_of_product() {
    let s = m(12345);
    let t = m(678);
    let lhs = AVXM31::pack_full(&s).scale(&t);
    let rhs = AVXM31::pack_full(&s.mul(&t));
    assert_eq!(lhs, rhs);
}

#[test]
fn simd_ops_are_lane_wise() {
    let mut xs = Vec::new();
    let mut ys = Vec::new();
    for i in 0..8u32 {
        xs.push(m(i + 1));
        ys.push(m(100 + i));
    }
    let x = AVXM31::from_scalar_array(&xs);
    let y = AVXM31::from_scalar_array(&ys);
    let prod = x.mul(&y);
    let sum = x.add(&y);
    let lanes_p = prod.to_scalar_vec();
    let lanes_s = sum.to_scalar_vec();
    for i in 0..8usize {
        assert_eq!(lanes_p[i].v, xs[i].mul(&ys[i]).v);
        assert_eq!(lanes_s[i].v, xs[i].add(&ys[i]).v);
    }
}

#[test]
fn simd_inv_is_lane_wise() {
    let mut xs = Vec::new();
    for i in 0..8u32 {
        xs.push(m(i + 2));
    }
    let x = AVXM31::from_scalar_array(&xs);
    let y = x.inv().expect("all lanes nonzero");
    let one = AVXM31::one();
    assert_eq!(x.mul(&y), one);
    let mut with_zero = xs.clone();
    with_zero[3] = m(0);
    let z = AVXM31::from_scalar_array(&with_zero);
    assert!(z.inv().is_none());
}

#[test]
fn simd_ext_promote_and_scale() {
    let mut xs = Vec::new();
    for i in 0..8u32 {
        xs.push(m(i + 1));
    }
    let x = AVXM31::from_scalar_array(&xs);
    let p = SimdM31Ext3::promote(&x);
    let c = ext(2, 0, 0);
    let scaled = p.scale(&c);
    for i in 0..8usize {
        assert_eq!(scaled.v[i].v[0].v, xs[i].mul(&m(2)).v);
        assert_eq!(scaled.v[i].v[1].v, 0);
        assert_eq!(scaled.v[i].v[2].v, 0);
    }
}

#[test]
fn m31_ring_laws_on_values() {
    let a = m(123456789);
    let b = m(987654321);
    let c = m(555555555);
    assert_eq!(a.add(&b), b.add(&a));
    assert_eq!(a.add(&b).add(&c), a.add(&b.add(&c)));
    assert_eq!(a.mul(&b), b.mul(&a));
    assert_eq!(a.mul(&b).mul(&c), a.mul(&b.mul(&c)));
    assert_eq!(a.mul(&b.add(&c)), a.mul(&b).add(&a.mul(&c)));
}

#[test]
fn ext3_ring_laws_on_values() {
    let a = ext(3, 1, 4);
    let b = ext(1, 5, 9);
    let c = ext(2, 6, 5);
    assert_eq!(a.add(&b), b.add(&a));
    assert_eq!(a.add(&b).add(&c), a.add(&b.add(&c)));
    assert_eq!(a.mul(&b), b.mul(&a));
    assert_eq!(a.mul(&b).mul(&c), a.mul(&b.mul(&c)));
    assert_eq!(a.mul(&b.add(&c)), a.mul(&b).add(&a.mul(&c)));
    assert_eq!(a.mul(&M31Ext3::one()), a);
    assert_eq!(a.add(&M31Ext3::zero()), a);
}
