//! A minimal HTTP file server: request parsing, resource resolution,
//! optional gzip compression and response serialization, each with a
//! machine-checked contract. Sockets and the file system stay with the caller.

pub mod bytes;
pub mod codec;
pub mod content;
pub mod listing;
pub mod request;
pub mod resolve;
pub mod response;
pub mod serve;
