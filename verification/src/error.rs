//! The error taxonomy of the library.

use vstd::prelude::*;

verus! {

/// Why an operation failed: template or value computation, source
/// composition, remote fetch, buffer management, or kernel dispatch.
/// Every error aborts the operation that raised it; nothing is retried.
#[derive(Debug)]
pub enum ClmanError {
    ValueCompute { message: String },
    Composition { message: String },
    Fetch { message: String },
    Buffer { message: String },
    Kernel { message: String },
}

impl ClmanError {
    /// The diagnostic text carried by the error.
    pub open spec fn spec_message(self) -> Seq<char> {
        match self {
            ClmanError::ValueCompute { message } => message@,
            ClmanError::Composition { message } => message@,
            ClmanError::Fetch { message } => message@,
            ClmanError::Buffer { message } => message@,
            ClmanError::Kernel { message } => message@,
        }
    }

    /// A human-readable description of the error.
    pub fn message(&self) -> (r: String)
        ensures
            r@ == self.spec_message(),
    {
        match self {
            ClmanError::ValueCompute { message } => message.clone(),
            ClmanError::Composition { message } => message.clone(),
            ClmanError::Fetch { message } => message.clone(),
            ClmanError::Buffer { message } => message.clone(),
            ClmanError::Kernel { message } => message.clone(),
        }
    }
}

pub type ClmanResult<T> = Result<T, ClmanError>;

} // verus!
