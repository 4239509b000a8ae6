//! What a machine decides for its WebAssembly shards: which calls to make
//! and in what order, the entity writes they buffer, where a draining
//! machine sends its shards, and the steps of a player transfer.

pub mod abi;
pub mod data;
pub mod drain;
pub mod transfer;
pub mod writes;
