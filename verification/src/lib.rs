//! A swappable log destination and the one line format written to it.
//!
//! A [`Registry`] holds at most one sink. [`init`] installs or replaces the
//! sink; [`log`] renders one line, `<file> line <number>: <message>` followed
//! by a line break, and appends it to the installed sink in a single call.
//! Both take the registry by `&mut`, so exclusive access is settled before
//! either runs: a program that logs from several threads keeps the registry
//! behind a lock and calls them while it holds that lock.

pub mod line;
pub mod sink;
pub mod registry;
pub mod emitter;

pub use emitter::{log, LogError};
pub use registry::{init, Registry};
pub use sink::{MemorySink, Sink};
