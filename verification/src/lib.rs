//! Verified core of an asynchronous secure multi-party computation engine:
//! verifiable secret sharing with distributed zero-knowledge proofs, batched
//! multiplication, random sharings and neural-network inference over the
//! Mersenne-61 field.
pub mod acss;
pub mod field;
pub mod gpu_aes_ffi;
pub mod gpu_ffi;
pub mod gpu_mem;
pub mod mpc;
pub mod poly;
pub mod polynomial;
pub mod prime;
pub mod prime_cert;
pub mod profiler;
pub mod types;
pub mod wire;
