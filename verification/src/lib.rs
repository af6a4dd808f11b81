pub mod bytes;
pub mod constraint_system;
pub mod ecc_circuit;
pub mod expander_circuit;
pub mod gate;
pub mod gkr;
pub mod m31;
pub mod m31_ext;
pub mod scratchpad;
pub mod simd_m31;
pub mod simd_ext;
pub mod simd_field;
pub mod sumcheck;
pub mod sumcheck_helper;
pub mod transcript;
