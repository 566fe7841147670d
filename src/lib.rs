//! Replicated state of a peer-to-peer group chat: the message log, the
//! username directory, the merge of a foreign replica into the local one,
//! the wire encoding of envelopes and the routing of received payloads.

pub mod history;
pub mod directory;
pub mod state;
pub mod wire;
pub mod controller;
pub mod command;
