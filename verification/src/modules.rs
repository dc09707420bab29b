//! Messages exchanged with the node's modules.

pub mod websocket;
