//! State required for settling transactions: timeouts, the ordered map of
//! unsettled transactions, and the settlement of blob transactions.

pub mod block;
pub mod model;
pub mod ordered_tx_map;
pub mod settlement;
pub mod state;
pub mod timeouts;
pub mod unsettled;
pub mod verify_output;
