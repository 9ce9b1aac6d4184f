//! Content-Length framing, as spoken on a language server's standard streams.

pub mod codec;
pub mod decimal;
pub mod decoder;
pub mod header;
