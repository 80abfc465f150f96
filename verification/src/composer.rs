//! What a wire codec offers: a message as wire text, and wire text as a
//! message.
use crate::error::Error;
use crate::msg::{Msg, MsgView};
use vstd::prelude::*;

verus! {

/// A wire codec. What it writes and reads is fixed by the two spec
/// functions, which the methods compute.
pub trait Composer {
    /// The name of the codec.
    spec fn label(&self) -> Seq<char>;

    /// The wire text of a message, or why it has none.
    spec fn composed(&self, msg: MsgView) -> Result<Seq<char>, Error>;

    /// The message that a wire text stands for, or why it stands for none.
    spec fn decomposed(&self, raw: Seq<char>) -> Result<MsgView, Error>;

    /// The name of the codec.
    fn name(&self) -> (r: &'static str)
        ensures
            r@ == self.label(),
    ;

    /// Writes a message as wire text.
    fn compose(&self, msg: &Msg) -> (r: Result<String, Error>)
        ensures
            match self.composed(msg@) {
                Ok(w) => r matches Ok(got) && got@ == w,
                Err(e) => r matches Err(got) && got == e,
            },
    ;

    /// Reads a message from wire text.
    fn decompose(&self, raw: &str) -> (r: Result<Msg, Error>)
        ensures
            match self.decomposed(raw@) {
                Ok(m) => r matches Ok(got) && got@ == m,
                Err(e) => r matches Err(got) && got == e,
            },
    ;
}

} // verus!
