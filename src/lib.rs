//! Precompiles of a zero-knowledge virtual machine: twisted Edwards curve
//! addition and the external rounds of a Poseidon2 permutation, run against
//! a recorded memory, with the modular arithmetic gadgets that their
//! constraint columns are built from.
pub mod words;
pub mod bigint;
pub mod field;
pub mod memory;
pub mod cols;
pub mod ed_add;
pub mod poseidon2;
