use vstd::prelude::*;

verus! {

/// Every way an operation of the scanner can fail.
#[derive(Debug, Clone, PartialEq, Eq)]
pub enum Error {
    /// No running process has the given name.
    ProcessNotFound(String),
    /// The process could not be opened; the text names the process.
    OpenProcessFailed(String),
    /// Nothing could be read at the given address.
    ReadMemoryFailed(usize),
    /// A pattern's text or mask is malformed; the text says how.
    InvalidPattern(String),
    /// The modules of the process could not be listed.
    EnumModulesFailed,
    /// No module has the given name.
    ModuleNotFound(String),
    /// The operating system reported a failure, with this result code.
    WindowsApi(i32),
}

} // verus!
