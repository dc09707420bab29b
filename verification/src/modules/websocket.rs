//! Messages received from and sent to websocket clients.

use vstd::prelude::*;

verus! {

/// A message received from a websocket client.
#[derive(Debug, Clone)]
pub struct WsInMessage<T> {
    pub message: T,
}

/// A message to send to websocket clients.
#[derive(Debug, Clone)]
pub struct WsOutMessage<T> {
    pub message: T,
}

impl<T> WsOutMessage<T> {
    pub fn new(message: T) -> (res: Self)
        ensures
            res.message == message,
    {
        WsOutMessage { message }
    }
}

} // verus!
