//! Solver for a storage-layout puzzle against a simulated persistent ledger:
//! it walks a singly-linked chain of packed records held in key-derived
//! storage slots, sets the unlocked flag of every visited record, and collects
//! the ordered list of visited identifiers.

pub mod codec;
pub mod slot;
pub mod solver;
pub mod store;
pub mod word;
