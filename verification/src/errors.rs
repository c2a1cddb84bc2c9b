//! Errors reported by the library's operations.

use vstd::prelude::*;

verus! {

/// Why an operation failed.
#[derive(Debug)]
pub enum EnvError {
    /// Validation found keys of the template that the actual file lacks; the
    /// missing keys, in template order.
    MissingKeys(Vec<Vec<u8>>),
    /// The requested key has no entry in the file.
    KeyNotFound,
}

} // verus!
