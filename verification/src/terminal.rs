//! Terminals: output chunks tagged with a sequence number, the bounded replay buffer
//! that a view reads when it reattaches, the table of live terminals, and the error type.
//!
//! The pseudo-terminals themselves (spawning the child, reading and writing its bytes,
//! resizing it) are I/O and run outside the library; every decision about what is kept,
//! what is numbered how, and which terminal a request reaches is made here.

pub mod error;
pub mod replay;
pub mod table;

pub use error::Error;
pub use replay::{Output, ReplayBuffer, MAX_CHUNKS, READ_CHUNK};
pub use table::TerminalTable;
