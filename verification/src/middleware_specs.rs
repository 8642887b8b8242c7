//! The interface of message interceptors and the configuration of a server.
use vstd::prelude::*;

verus! {

/// Turns a raw input into an output; implemented by message interceptors.
pub trait Interceptor {
    type Input;
    type Output;

    fn helper(input: Self::Input) -> Self::Output;

    fn intercept(input: Self::Input) -> Self::Output;
}

/// Where a server listens and how the conversation with it starts.
#[derive(Debug)]
pub struct ServerConfig {
    pub url: String,
    pub prefix: String,
    pub init_handle: Option<String>,
}

} // verus!
