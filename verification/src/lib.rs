//! Synchronization core for a reader application split across two
//! isolated domains that talk only over a narrow message channel: a
//! chunked frame codec with lock-step acknowledgments, the closed
//! request/response protocol built on it (catalog, document fetch,
//! state-file tree, state push), and the directory state-diff engine
//! that detects created and modified files without relying on change
//! notifications.
//!
//! Everything here works on plain values; the surrounding program owns
//! the channel, the sockets and the filesystem.

pub mod chunk;
pub mod client;
pub mod codec;
pub mod conf;
pub mod consts;
pub mod delim;
pub mod diff;
pub mod errors;
pub mod parser;
pub mod protocol;
pub mod records;
pub mod server;
pub mod state_tree;
