//! Verifiable secret sharing with distributed zero-knowledge proofs.
pub mod context;
pub mod dealer;
pub mod init_gpu;
