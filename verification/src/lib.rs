//! An open-addressing hash table with linear probing and capacity doubling.

pub mod hashable;
pub mod laws;
pub mod lemmas;
pub mod probe;
pub mod table;
pub mod tally;
