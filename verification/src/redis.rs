//! The errors of the Redis middleware.
use vstd::prelude::*;

verus! {

/// The errors that the middleware's connection handler reports.
#[derive(Debug, Clone, Copy, PartialEq, Eq)]
pub enum ConnectionHandlerError {
    Custom,
}

impl ConnectionHandlerError {
    /// The text that describes the error.
    pub fn message(&self) -> (r: String)
        ensures
            r@ == "Custom error"@,
    {
        match self {
            ConnectionHandlerError::Custom => "Custom error".to_string(),
        }
    }
}

} // verus!
