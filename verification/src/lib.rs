//! Transaction container of a multi-tenant block producer, and the codec of
//! the stake table contract.
//!
//! A block holds the transactions of many sub-chains, each tagged with the
//! namespace of its sub-chain and kept in namespace order. The block is
//! built over a namespaced Merkle tree: every node carries the digest of
//! its subtree and the range of namespaces below it. The tree lets anyone
//! prove that a transaction is in the block, and that a list of
//! transactions is all that the block holds of one namespace.
//!
//! - `transaction`, `node`, `tree`: the data and the tree itself.
//! - `inclusion`, `namespace`: proofs, how they are made and checked.
//! - `soundness`: what an accepted proof says of the tree behind a root.
//! - `block`, `vm`: the container that consensus and the query service use.
//! - `abi`, `shared_types`, `stake_table` and the modules beside it: calls,
//!   outputs, errors and events of the stake table contract as ABI words.
//! - `state`: seeds for the keys that sign light client states.
//! - `hash`, `bytes`, `error`: what the others share.

pub mod abi;
pub mod block;
pub mod bytes;
pub mod error;
pub mod hash;
pub mod inclusion;
pub mod namespace;
pub mod node;
pub mod shared_types;
pub mod soundness;
pub mod stake_table;
pub mod stake_table_calls;
pub mod stake_table_errors;
pub mod stake_table_events;
pub mod stake_table_returns;
pub mod state;
pub mod transaction;
pub mod tree;
pub mod vm;
