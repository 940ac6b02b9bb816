//! Binds a circuit's fingerprint to a proof and its public parameters in one
//! byte payload, recovers the three parts from such a payload, and picks out
//! of a list of records the ones that belong to the local circuit.

pub mod bytes;
pub mod fs;
pub mod hash;
pub mod payload;
pub mod records;
