//! Verified core of a spiking neural network engine: the CSR synapse
//! topology and its structural mutations, the deterministic topology
//! generator, the circular replay buffer, spike bitmasks, champion
//! selection and GPU launch planning.
//!
//! Every real-valued quantity of the engine (potentials, thresholds,
//! weights, rewards, learning rates) is a single-precision IEEE-754 value;
//! the library holds each of them by its 32-bit pattern (`u32`) and never
//! does arithmetic on them, so that every value it stores, moves or
//! compares is preserved bit for bit.

pub mod arena;
pub mod brain;
pub mod genesis;
pub mod gpu;
pub mod ieee;
pub mod selection;
pub mod state;
pub mod telemetry;
