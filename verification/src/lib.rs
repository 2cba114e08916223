//! Build-command capture library.
//!
//! A monitored build runs with an interceptor shim injected into every
//! process of its tree.  The shim decides, per attempted program execution,
//! whether to capture the invocation (a compiler call with an output flag)
//! or let it run untouched.  Captured invocations travel as self-delimiting
//! binary records over a socket to a collecting server, are filtered down to
//! single-source-file compiles, optionally rewritten for a different
//! compiler driver, and emitted as a compile-commands JSON array.
//!
//! This crate holds the verified logic of that pipeline: the interception
//! decision, the wire codec with its round-trip law, the invocation filter,
//! the driver-flag rewrite cache, and the JSON rendering of the output
//! records.  Process spawning, sockets and file handling live outside it.

pub mod clangize;
pub mod codec;
pub mod emit;
pub mod hook;
pub mod pattern;
pub mod server;
