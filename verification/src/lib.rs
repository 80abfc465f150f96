//! Message handling for a chat bot: a structured message model, a
//! placeholder-template codec, a bracketed-tag wire codec and a dispatcher
//! that routes inbound messages through an ordered chain of handlers.
use vstd::prelude::*;

pub mod backend;
pub mod composer;
pub mod dispatcher;
pub mod error;
pub mod msg;
pub mod peripheral;
pub mod sys;
pub mod template;
pub mod template_laws;
pub mod text;

use crate::composer::Composer;
use crate::dispatcher::Dispatcher;
use crate::peripheral::coolq::{joined, CoolQComposer};

verus! {

/// Called when the host starts the bot. Nothing is to be done.
pub fn on_launch() {
}

/// Called when the host shuts the bot down. Nothing is to be done.
pub fn on_shutdown() {
}

/// Gives the dispatcher the bracketed-tag codec for the client whose base
/// directory is `local`; the handlers and the flag stay.
pub fn on_configure<C: Composer>(dispatcher: Dispatcher<C>, local: &str) -> (d: Dispatcher<
    CoolQComposer,
>)
    ensures
        d.codec().data_dir() == joined(local@, CoolQComposer::data_name()),
        d.handlers() == dispatcher.handlers(),
        d.enabled() == dispatcher.enabled(),
{
    dispatcher.use_composer(CoolQComposer::new(local))
}

} // verus!
