//! Core of a decentralized private computation (DPC) system: group-based
//! record encryption, the compact byte format of encrypted records, the
//! public input of the inner circuit, a rank-one constraint system with the
//! benchmark circuit of the proof-system tests, integer gadgets, and the
//! ledger interface.

pub mod bits;
pub mod varint;
pub mod field;
pub mod group;
pub mod rng;
pub mod small;
pub mod encryption;
pub mod record;
pub mod r1cs;
pub mod gadgets;
pub mod verifier_input;
pub mod ledger;
