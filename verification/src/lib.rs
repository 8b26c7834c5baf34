//! A cache of booted services: every rule and state machine of the manager,
//! the service hosts and the HTTP API, stated in contracts and proved.
//!
//! The library holds no file, socket or process. What the outside world says
//! comes in as plain values, and what has to be done next goes out the same
//! way; the program around the library performs it.

pub mod bytes;
pub mod cache;
pub mod cli;
pub mod path;
pub mod pattern;
pub mod logging;
pub mod manager;
pub mod manifest;
pub mod runtime;
pub mod serve;
pub mod text;
pub mod digest;
pub mod directives;
pub mod discovery;
pub mod host;
pub mod sort;
