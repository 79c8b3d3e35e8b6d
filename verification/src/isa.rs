//! Kernels and table sequences, by machine family.
pub mod kernel;
pub mod portable;
pub mod grouped;
pub mod avx2;
pub mod avx512vnni;
pub mod neon;
pub mod neon_dotprod;
pub mod arm;
pub mod absent_arm;
pub mod absent_wasm;
pub mod absent_x86;
pub mod nibble;
pub mod reduce;
pub mod tropical;
pub mod packed;
pub mod tables;
