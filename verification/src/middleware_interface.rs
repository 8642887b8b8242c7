//! The configuration of a node that a middleware connects to.
use vstd::prelude::*;

verus! {

/// Turns a raw input into an output; implemented by message interceptors.
pub trait Interceptor {
    type Input;
    type Output;

    fn helper(input: Self::Input) -> Self::Output;

    fn intercept(input: Self::Input) -> Self::Output;
}

/// Where a node lives and how the conversation with it starts.
#[derive(Debug, Clone)]
pub struct NodeConfig {
    pub url: String,
    pub prefix: String,
    pub init_handle: Option<String>,
}

impl NodeConfig {
    /// Builds a configuration from its three parts, each turned into a
    /// string by its `Display` rendering.
    pub fn from<T: core::fmt::Display>(url: T, prefix: T, init_handle: Option<T>) -> (r: NodeConfig)
        ensures
            vstd::string::to_string_from_display_ensures::<T>(&url, r.url),
            vstd::string::to_string_from_display_ensures::<T>(&prefix, r.prefix),
            r.init_handle.is_some() == init_handle.is_some(),
            init_handle.is_some() ==> vstd::string::to_string_from_display_ensures::<T>(
                &init_handle.unwrap(),
                r.init_handle.unwrap(),
            ),
    {
        NodeConfig {
            url: url.to_string(),
            prefix: prefix.to_string(),
            init_handle: match init_handle {
                Some(handle) => Some(handle.to_string()),
                None => None,
            },
        }
    }
}

} // verus!
