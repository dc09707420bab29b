//! Peer-to-peer messaging: message headers and the filter of recently seen
//! messages.

pub mod fifo_filter;
pub mod network;
