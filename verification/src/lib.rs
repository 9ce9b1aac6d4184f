//! The core of an editor's process bridge, with its behaviour stated in
//! contracts and proved.
//!
//! The bridge lets a front end talk to language servers and to shells that
//! run as child processes. This crate holds what the bridge decides: how
//! messages are framed on a server's streams (`framing`), what goes to the
//! server and what goes to which client (`bridge`), which servers there are
//! and how they are started and probed (`language`, `lsp`, `health`), which
//! project a path belongs to (`detect`), and what a terminal emits and which
//! sessions run (`terminal`, `registry`). Starting processes, reading and
//! writing their streams and serving sockets is left to the caller, who
//! hands over what happened as plain values.

pub mod bridge;
pub mod command;
pub mod detect;
pub mod error;
pub mod framing;
pub mod health;
pub mod language;
pub mod lsp;
pub mod registry;
pub mod terminal;
pub mod text;
