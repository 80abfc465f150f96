//! The wire codecs of the chat clients that the bot can sit behind.
pub mod coolq;
pub mod coolq_laws;
pub mod coolq_wire_laws;
