use expander_rs::constraint_system::ConstraintSystem;
use expander_rs::m31::M31;

fn m(v: u32) -> M31 {
    M31::from_u32(v)
}

#[test]
fn init_is_satisfied() {
    let cs = ConstraintSystem::init();
    assert!(cs.is_satisfied());
    assert_eq!(cs.witnesses.len(), 2);
    assert_eq!(cs.witnesses[0].v, 0);
    assert_eq!(cs.witnesses[1].v, 1);
}

#[test]
fn arithmetic_gates_stay_satisfied() {
    let mut cs = ConstraintSystem::init();
    let a = cs.new_variable(m(20));
    let b = cs.new_variable(m(22));
    let s = cs.addition_gate(&a, &b);
    assert_eq!(cs.get_value(s).v, 42);
    let d = cs.subtraction_gate(&a, &b);
    assert_eq!(cs.get_value(d).v, expander_rs::m31::M31_MOD - 2);
    let p = cs.multiplication_gate(&a, &b);
    assert_eq!(cs.get_value(p).v, 440);
    let q = cs.division_gate(&p, &b).expect("b is invertible");
    assert_eq!(cs.get_value(q).v, 20);
    let k = cs.constant_gate(&m(99));
    assert_eq!(cs.get_value(k).v, 99);
    assert!(cs.is_satisfied());
}

#[test]
fn assertions_stay_satisfied() {
    let mut cs = ConstraintSystem::init();
    let zero = cs.new_variable(m(0));
    let one = cs.new_variable(m(1));
    let bit = cs.new_variable(m(1));
    let nz = cs.new_variable(m(17));
    cs.assert_zero(&zero);
    cs.assert_binary(&bit);
    cs.assert_none_zero(&nz).expect("17 is invertible");
    let a = cs.new_variable(m(8));
    let b = cs.new_variable(m(9));
    let c = cs.new_variable(m(17));
    cs.assert_addition(&a, &b, &c);
    let p = cs.new_variable(m(72));
    cs.assert_multiplication(&a, &b, &p);
    cs.assert_subtraction(&b, &a, &one);
    cs.assert_division(&p, &b, &a);
    assert!(cs.is_satisfied());
}

#[test]
fn assert_one_appends_its_row() {
    let mut cs = ConstraintSystem::init();
    let one = cs.new_variable(m(1));
    let rows = cs.q_l.len();
    cs.assert_one(&one);
    assert_eq!(cs.q_l.len(), rows + 1);
    assert_eq!(cs.a[rows], one);
    assert_eq!(cs.q_l[rows].v, 1);
}

#[test]
fn a_broken_row_is_detected() {
    let mut cs = ConstraintSystem::init();
    let a = cs.new_variable(m(5));
    let b = cs.new_variable(m(6));
    let wrong = cs.new_variable(m(999));
    cs.assert_addition(&a, &b, &wrong);
    assert!(!cs.is_satisfied());
}
