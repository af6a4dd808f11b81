use expander_rs::bytes::CircuitError;
use expander_rs::expander_circuit::Circuit;
use expander_rs::gkr::{eval_multilinear, gkr_prove};
use expander_rs::m31::M31;
use expander_rs::m31_ext::M31Ext3;
use expander_rs::scratchpad::GkrScratchpad;
use expander_rs::simd_ext::SimdM31Ext3;
use expander_rs::transcript::Transcript;

const MAGIC: u64 = 3770719418566461763;

fn push_u64(buf: &mut Vec<u8>, v: u64) {
    for b in v.to_le_bytes() {
        buf.push(b);
    }
}

fn push_const_coef(buf: &mut Vec<u8>, v: u32) {
    buf.push(1u8);
    for b in v.to_le_bytes() {
        buf.push(b);
    }
    for _ in 0..28 {
        buf.push(0u8);
    }
}

fn file_header(buf: &mut Vec<u8>) {
    push_u64(buf, MAGIC);
    for _ in 0..4 {
        push_u64(buf, 0x7fffffff);
    }
    push_u64(buf, 0); // public inputs
    push_u64(buf, 0); // actual outputs
    push_u64(buf, 0); // expected zero outputs
}

/// One layer, one add gate `o_0 += 1 * i_0` over a single wire.
fn identity_circuit_bytes() -> Vec<u8> {
    let mut buf = Vec::new();
    file_header(&mut buf);
    push_u64(&mut buf, 1); // one segment
    push_u64(&mut buf, 1); // i_len
    push_u64(&mut buf, 1); // o_len
    push_u64(&mut buf, 0); // no children
    push_u64(&mut buf, 0); // no mul gates
    push_u64(&mut buf, 1); // one add gate
    push_u64(&mut buf, 0); // i_id
    push_u64(&mut buf, 0); // o_id
    push_const_coef(&mut buf, 1);
    push_u64(&mut buf, 0); // no const gates
    push_u64(&mut buf, 0); // no custom gates
    push_u64(&mut buf, 1); // one layer
    push_u64(&mut buf, 0); // rooted at segment 0
    buf
}

/// layer0: `o_0 = i_0 * i_1`; layer1: `o_0 = i_0 * i_0`.
fn two_layer_mul_bytes() -> Vec<u8> {
    let mut buf = Vec::new();
    file_header(&mut buf);
    push_u64(&mut buf, 2);
    // segment 0: two inputs, one output, one mul gate
    push_u64(&mut buf, 2);
    push_u64(&mut buf, 1);
    push_u64(&mut buf, 0);
    push_u64(&mut buf, 1);
    push_u64(&mut buf, 0); // i0
    push_u64(&mut buf, 1); // i1
    push_u64(&mut buf, 0); // o
    push_const_coef(&mut buf, 1);
    push_u64(&mut buf, 0);
    push_u64(&mut buf, 0);
    push_u64(&mut buf, 0);
    // segment 1: one input, one output, squaring gate
    push_u64(&mut buf, 1);
    push_u64(&mut buf, 1);
    push_u64(&mut buf, 0);
    push_u64(&mut buf, 1);
    push_u64(&mut buf, 0);
    push_u64(&mut buf, 0);
    push_u64(&mut buf, 0);
    push_const_coef(&mut buf, 1);
    push_u64(&mut buf, 0);
    push_u64(&mut buf, 0);
    push_u64(&mut buf, 0);
    push_u64(&mut buf, 2); // two layers
    push_u64(&mut buf, 0);
    push_u64(&mut buf, 1);
    buf
}

/// One layer whose single custom gate raises the input to the fifth
/// power, writing into a two-slot output space.
fn pow5_circuit_bytes() -> Vec<u8> {
    let mut buf = Vec::new();
    file_header(&mut buf);
    push_u64(&mut buf, 1);
    push_u64(&mut buf, 1); // i_len
    push_u64(&mut buf, 2); // o_len
    push_u64(&mut buf, 0);
    push_u64(&mut buf, 0);
    push_u64(&mut buf, 0);
    push_u64(&mut buf, 0);
    push_u64(&mut buf, 1); // one custom gate
    push_u64(&mut buf, 12345); // gate type: fifth power
    push_u64(&mut buf, 1); // one input
    push_u64(&mut buf, 0); // i_id
    push_u64(&mut buf, 0); // o_id
    push_const_coef(&mut buf, 1);
    push_u64(&mut buf, 1);
    push_u64(&mut buf, 0);
    buf
}

fn witness_bytes(values_per_witness: &[u32]) -> Vec<u8> {
    let mut buf = Vec::new();
    push_u64(&mut buf, 8); // eight witnesses, one per lane
    push_u64(&mut buf, values_per_witness.len() as u64);
    push_u64(&mut buf, 0); // no public inputs
    for _ in 0..4 {
        push_u64(&mut buf, 0x7fffffff);
    }
    for _ in 0..8 {
        for &v in values_per_witness {
            push_const_coef_value(&mut buf, v);
        }
    }
    buf
}

fn push_const_coef_value(buf: &mut Vec<u8>, v: u32) {
    for b in v.to_le_bytes() {
        buf.push(b);
    }
    for _ in 0..28 {
        buf.push(0u8);
    }
}

#[test]
fn identity_circuit_evaluates_and_proves() {
    let bytes = identity_circuit_bytes();
    let mut circuit = Circuit::load_circuit(&bytes).expect("circuit loads");
    assert_eq!(circuit.layers.len(), 1);
    circuit.load_witness_bytes(&witness_bytes(&[7])).expect("witness loads");
    circuit.evaluate().expect("evaluates");
    let out = &circuit.layers[0].output_vals;
    assert_eq!(out.len(), 1);
    for l in 0..8 {
        assert_eq!(out[0].v[l].v, 7);
    }
    let mut sp = GkrScratchpad::new(1, 1);
    let mut transcript = Transcript::new();
    let (claimed_v, rz0, rz1) = gkr_prove(&circuit, &mut sp, &mut transcript);
    // with a single output slot the claim is the output itself
    assert_eq!(claimed_v, SimdM31Ext3::promote(&out[0]));
    assert_eq!(rz0.len(), 0);
    assert_eq!(rz1.len(), 0);
}

#[test]
fn two_layer_multiplication_claims_square_of_product() {
    let bytes = two_layer_mul_bytes();
    let mut circuit = Circuit::load_circuit(&bytes).expect("circuit loads");
    assert_eq!(circuit.layers.len(), 2);
    circuit.load_witness_bytes(&witness_bytes(&[3, 5])).expect("witness loads");
    circuit.evaluate().expect("evaluates");
    let out = &circuit.layers[1].output_vals;
    for l in 0..8 {
        assert_eq!(out[0].v[l].v, 225);
    }
    let mut sp = GkrScratchpad::new(1, 1);
    let mut transcript = Transcript::new();
    let (claimed_v, rz0, rz1) = gkr_prove(&circuit, &mut sp, &mut transcript);
    assert_eq!(claimed_v, SimdM31Ext3::promote(&out[0]));
    assert_eq!(rz0.len(), 1);
    assert_eq!(rz1.len(), 1);
    // the outer layer walks one input variable over two phases and
    // appends its two claims; the input layer has a single slot,
    // contributing no rounds but still its two claims
    assert_eq!(transcript.proof.len(), (2 * 288 + 192) + 192);
}

#[test]
fn pow5_gate_claims_match_multilinear_evaluation() {
    let bytes = pow5_circuit_bytes();
    let mut circuit = Circuit::load_circuit(&bytes).expect("circuit loads");
    circuit.load_witness_bytes(&witness_bytes(&[2])).expect("witness loads");
    circuit.evaluate().expect("evaluates");
    let out = &circuit.layers[0].output_vals;
    assert_eq!(out.len(), 2);
    for l in 0..8 {
        assert_eq!(out[0].v[l].v, 32);
        assert_eq!(out[1].v[l].v, 0);
    }
    let mut sp = GkrScratchpad::new(1, 1);
    let mut transcript = Transcript::new();
    let (claimed_v, _, _) = gkr_prove(&circuit, &mut sp, &mut transcript);
    // the drawn point is deterministic: a fresh transcript draws it again
    let mut t2 = Transcript::new();
    let r0 = t2.challenge_f();
    let promoted = vec![
        SimdM31Ext3::promote(&out[0]),
        SimdM31Ext3::promote(&out[1]),
    ];
    let expected = eval_multilinear(&promoted, &vec![r0]);
    assert_eq!(claimed_v, expected);
}

#[test]
fn loader_rejects_bad_magic() {
    let mut bytes = identity_circuit_bytes();
    bytes[0] ^= 1;
    match Circuit::load_circuit(&bytes) {
        Err(CircuitError::BadMagic) => (),
        _ => panic!("a wrong magic number must be rejected as such"),
    }
}

#[test]
fn loader_rejects_truncation_and_bad_tags() {
    let bytes = identity_circuit_bytes();
    let truncated = &bytes[..bytes.len() - 10];
    assert!(Circuit::load_circuit(truncated).is_err());
    // a coefficient tag outside the known range
    let mut bad_tag = identity_circuit_bytes();
    // the tag byte follows sixteen u64 fields of header and counts
    let tag_pos = 8 * 16;
    assert_eq!(bad_tag[tag_pos], 1);
    bad_tag[tag_pos] = 9;
    assert!(Circuit::load_circuit(&bad_tag).is_err());
}

#[test]
fn loader_rejects_out_of_range_wires() {
    let mut bytes = Vec::new();
    file_header(&mut bytes);
    push_u64(&mut bytes, 1);
    push_u64(&mut bytes, 1); // i_len = 1: only wire 0 exists
    push_u64(&mut bytes, 1);
    push_u64(&mut bytes, 0);
    push_u64(&mut bytes, 0);
    push_u64(&mut bytes, 1); // one add gate reading wire 5
    push_u64(&mut bytes, 5);
    push_u64(&mut bytes, 0);
    push_const_coef(&mut bytes, 1);
    push_u64(&mut bytes, 0);
    push_u64(&mut bytes, 0);
    push_u64(&mut bytes, 1);
    push_u64(&mut bytes, 0);
    match Circuit::load_circuit(&bytes) {
        Err(CircuitError::WireOutOfRange) => (),
        other => panic!("an out-of-range wire must be rejected, got {:?}", other.is_ok()),
    }
}

#[test]
fn loader_rejects_non_power_of_two_sizes() {
    let mut bytes = Vec::new();
    file_header(&mut bytes);
    push_u64(&mut bytes, 1);
    push_u64(&mut bytes, 3); // not a power of two
    push_u64(&mut bytes, 1);
    match Circuit::load_circuit(&bytes) {
        Err(CircuitError::NotPowerOfTwo) => (),
        other => panic!("a non-power-of-two size must be rejected, got {:?}", other.is_ok()),
    }
}

#[test]
fn flatten_preserves_gate_count_over_child_instantiations() {
    // segment 0: a leaf with one add gate; segment 1: instantiates the
    // leaf at two offsets; the flat layer holds two add gates
    let mut bytes = Vec::new();
    file_header(&mut bytes);
    push_u64(&mut bytes, 2);
    // leaf
    push_u64(&mut bytes, 2);
    push_u64(&mut bytes, 2);
    push_u64(&mut bytes, 0);
    push_u64(&mut bytes, 0);
    push_u64(&mut bytes, 1);
    push_u64(&mut bytes, 0);
    push_u64(&mut bytes, 0);
    push_const_coef(&mut bytes, 1);
    push_u64(&mut bytes, 0);
    push_u64(&mut bytes, 0);
    // parent: four wires, two instantiations of the leaf
    push_u64(&mut bytes, 4);
    push_u64(&mut bytes, 4);
    push_u64(&mut bytes, 1); // one child block
    push_u64(&mut bytes, 0); // child id
    push_u64(&mut bytes, 2); // two allocations
    push_u64(&mut bytes, 0);
    push_u64(&mut bytes, 0);
    push_u64(&mut bytes, 2);
    push_u64(&mut bytes, 2);
    push_u64(&mut bytes, 0);
    push_u64(&mut bytes, 0);
    push_u64(&mut bytes, 0);
    push_u64(&mut bytes, 0);
    push_u64(&mut bytes, 1);
    push_u64(&mut bytes, 1);
    let circuit = Circuit::load_circuit(&bytes).expect("circuit loads");
    assert_eq!(circuit.layers.len(), 1);
    assert_eq!(circuit.layers[0].add.len(), 2);
    assert_eq!(circuit.layers[0].add[0].i_ids[0], 0);
    assert_eq!(circuit.layers[0].add[0].o_id, 0);
    assert_eq!(circuit.layers[0].add[1].i_ids[0], 2);
    assert_eq!(circuit.layers[0].add[1].o_id, 2);
}

#[test]
fn proof_stream_is_deterministic() {
    let bytes = two_layer_mul_bytes();
    let mut run = || {
        let mut circuit = Circuit::load_circuit(&bytes).expect("circuit loads");
        circuit.load_witness_bytes(&witness_bytes(&[3, 5])).expect("witness loads");
        circuit.evaluate().expect("evaluates");
        let mut sp = GkrScratchpad::new(1, 1);
        let mut transcript = Transcript::new();
        let _ = gkr_prove(&circuit, &mut sp, &mut transcript);
        transcript.proof
    };
    let p1 = run();
    let p2 = run();
    assert_eq!(p1, p2);
    assert!(!p1.is_empty());
}

#[test]
fn random_coefficients_are_filled_from_the_transcript() {
    // an add gate whose coefficient is a transcript challenge
    let mut bytes = Vec::new();
    file_header(&mut bytes);
    push_u64(&mut bytes, 1);
    push_u64(&mut bytes, 1);
    push_u64(&mut bytes, 1);
    push_u64(&mut bytes, 0);
    push_u64(&mut bytes, 0);
    push_u64(&mut bytes, 1);
    push_u64(&mut bytes, 0);
    push_u64(&mut bytes, 0);
    bytes.push(2u8); // Random tag, no payload
    push_u64(&mut bytes, 0);
    push_u64(&mut bytes, 0);
    push_u64(&mut bytes, 1);
    push_u64(&mut bytes, 0);
    let mut circuit = Circuit::load_circuit(&bytes).expect("circuit loads");
    assert_eq!(circuit.rnd_coefs.len(), 1);
    let mut transcript = Transcript::new();
    circuit.fill_rnd_coefs(&mut transcript);
    // the drawn scalar is deterministic: a fresh transcript draws it again
    let mut t2 = Transcript::new();
    let expect = t2.circuit_f();
    for l in 0..8 {
        assert_eq!(circuit.layers[0].add[0].coef.v[l], expect);
    }
}

#[test]
fn public_input_coefficients_copy_the_witness_stream() {
    // a const gate whose coefficient copies public input 0
    let mut bytes = Vec::new();
    file_header(&mut bytes);
    push_u64(&mut bytes, 1);
    push_u64(&mut bytes, 1);
    push_u64(&mut bytes, 1);
    push_u64(&mut bytes, 0);
    push_u64(&mut bytes, 0);
    push_u64(&mut bytes, 0);
    push_u64(&mut bytes, 1); // one const gate
    push_u64(&mut bytes, 0); // o_id
    bytes.push(3u8); // PublicInput tag
    push_u64(&mut bytes, 0); // input index 0
    push_u64(&mut bytes, 0);
    push_u64(&mut bytes, 1);
    push_u64(&mut bytes, 0);
    let mut circuit = Circuit::load_circuit(&bytes).expect("circuit loads");
    assert_eq!(circuit.pub_coefs.len(), 1);
    // witness stream: one private input, one public input per witness
    let mut wit = Vec::new();
    push_u64(&mut wit, 8);
    push_u64(&mut wit, 1);
    push_u64(&mut wit, 1);
    for _ in 0..4 {
        push_u64(&mut wit, 0x7fffffff);
    }
    for _ in 0..8 {
        push_const_coef_value(&mut wit, 4);
        push_const_coef_value(&mut wit, 42);
    }
    circuit.load_witness_bytes(&wit).expect("witness loads");
    for l in 0..8 {
        assert_eq!(circuit.layers[0].const_[0].coef.v[l], M31::from_u32(42));
    }
    circuit.evaluate().expect("evaluates");
    for l in 0..8 {
        assert_eq!(circuit.layers[0].output_vals[0].v[l].v, 42);
    }
}

#[test]
fn transcript_rounds_satisfy_sum_consistency() {
    // the helper type exists and challenges are well-formed scalars
    let mut t = Transcript::new();
    let c1 = t.challenge_f();
    let c2 = t.challenge_f();
    assert!(c1 != c2 || c1 == M31Ext3::zero());
}
