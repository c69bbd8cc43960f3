//! Byte-pattern matching and scanning for process memory.
//!
//! The library covers everything a memory scanner decides: how IDA-style
//! and code/mask patterns are parsed, where a pattern matches, which reads
//! a scan of a set of regions makes, which hits it reports and to which
//! module each hit belongs.  Reading another process's memory is left to
//! the caller.
mod error;
pub mod text;
pub mod pattern;
pub mod process;
pub mod scanner;

pub use error::Error;
pub use pattern::Pattern;
