//! Secure computation: random sharings, batched multiplication and
//! neural-network inference.
pub mod context;
pub mod input;
pub mod input_phase;
pub mod lin_mult;
pub mod local_inputs;
pub mod mix_circuit_state;
pub mod mult_state;
pub mod nn_layers;
pub mod nn_reference;
pub mod nn_state;
pub mod rand_bit;
pub mod rand_sh;
pub mod weak_mult;
