//! Sequencing and settlement logic of a Hyli node: the data model, contract
//! registration rules, transaction settlement and its bookkeeping, the
//! mempool's fee checks, the indexer's record layout and storage, and the
//! checks and filter of peer-to-peer messages.

pub mod indexer;
pub mod mempool;
pub mod model;
pub mod modules;
pub mod node_state;
pub mod p2p;
pub mod str_map;
