//! The engine behind a desktop canvas that runs coding agents in terminals.
//!
//! - [`terminal`]: the bookkeeping of live terminals, the sequence-numbered output ring
//!   that lets a view reattach without dropping or repeating a chunk, and the error type.
//! - [`canvas`]: where the board layout is stored inside a project.
//! - [`agents`]: which agent programs are installed.
//! - [`paths`]: joining path components.
//! - [`desktop`]: the choices of the desktop shell that are not I/O.

pub mod agents;
pub mod canvas;
pub mod desktop;
pub mod paths;
pub mod terminal;

pub use agents::{detect, AgentInfo};
pub use terminal::{Error, Output};
