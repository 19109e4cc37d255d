//! A 64-slot register of simulated qubits.
//!
//! Each slot is either collapsed to a classical bit or held in an
//! unresolved "superposed" state with a per-slot probability of measuring 1.
//! Slots may be entangled pairwise or in groups; collapsing an entangled
//! slot forces every still-superposed partner to the same value.

pub mod bits;
pub mod laws;
pub mod register;
mod rng;
