//! Storage of blobs, proofs, contract registrations and transactions for
//! queries.

pub mod block_rows;
pub mod blobs;
pub mod blocks;
pub mod codec;
pub mod contracts;
pub mod db;
pub mod keys;
pub mod model;
pub mod proofs;
pub mod table;
pub mod transactions;
