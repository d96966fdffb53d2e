//! Core logic of a quantum operating-system kernel and simulator: instruction
//! parsing, circuit rewriting, routing on a coupling map, error-correction
//! decoding, resource bookkeeping and the swap-file format.

pub mod text;
pub mod instruction;
pub mod transpiler;
pub mod qir;
pub mod mitigation;
pub mod scheduler;
pub mod vmm;
pub mod stabilizer;
pub mod surface_code;
pub mod cluster;
pub mod gpu_accel;
pub mod security;
pub mod quantum;
pub mod cli;
pub mod resource_estimator;
pub mod ecc;
pub mod tensor;
