use expander_rs::m31::M31_MOD;
use expander_rs::transcript::Transcript;
use sha2::Digest;

#[test]
fn challenge_comes_from_the_hash_of_the_absorbed_stream() {
    let mut t = Transcript::new();
    let c = t.circuit_f();
    // replay the derivation by hand: the digest of the empty stream,
    // its first eight bytes little-endian, reduced
    let digest = sha2::Sha256::digest(&[] as &[u8]);
    let mut first8 = [0u8; 8];
    first8.copy_from_slice(&digest[0..8]);
    let expect = (u64::from_le_bytes(first8) % (M31_MOD as u64)) as u32;
    assert_eq!(c.v, expect);
    // the digest was mixed back in: the next draw differs
    let c2 = t.circuit_f();
    assert_ne!(c.v, c2.v);
}

#[test]
fn absorbing_changes_the_challenges() {
    let mut t1 = Transcript::new();
    let mut t2 = Transcript::new();
    let f = expander_rs::simd_ext::SimdM31Ext3::from_u32(9);
    t2.append_f(&f);
    let c1 = t1.challenge_f();
    let c2 = t2.challenge_f();
    assert_ne!(c1.v[0].v, c2.v[0].v);
    assert_eq!(t2.proof.len(), 96);
}
