//! What a message handler offers to the dispatcher.
use crate::error::Error;
use crate::msg::{Msg, MsgIn, MsgInView, MsgView};
use vstd::prelude::*;

verus! {

/// How a handler presents itself.
pub struct BackendMetadata {
    pub identity: &'static str,
    pub name: &'static str,
    pub author: &'static str,
    pub version: &'static str,
    pub description: &'static str,
}

/// What a handler gave, apart from how the reply is stored.
pub open spec fn reply_view(r: Result<Msg, Error>) -> Result<MsgView, Error> {
    match r {
        Ok(m) => Ok(m@),
        Err(e) => Err(e),
    }
}

/// A message handler. `preview` decides by the inbound message alone
/// whether the handler takes it; `process` is called only for a message
/// that `preview` admits, and may fail.
pub trait Backend {
    /// Whether the handler takes the message.
    spec fn admits(&self, msg_in: MsgInView) -> bool;

    /// Whether `process` may end with `reply` on the message.
    spec fn may_reply(&self, msg_in: MsgInView, reply: Result<MsgView, Error>) -> bool;

    /// How the handler presents itself.
    fn metadata(&self) -> BackendMetadata;

    /// Whether the handler takes the message.
    fn preview(&self, msg_in: &MsgIn) -> (b: bool)
        ensures
            b == self.admits(msg_in@),
    ;

    /// Processes the message and gives a response.
    fn process(&self, msg_in: &MsgIn) -> (r: Result<Msg, Error>)
        requires
            self.admits(msg_in@),
        ensures
            self.may_reply(msg_in@, reply_view(r)),
    ;
}

} // verus!
