//! The protocols that a source can be served with, and order-book depth.
use vstd::prelude::*;

verus! {

/// The protocol of an interceptor.
#[derive(Debug, Clone, Copy, PartialEq, Eq)]
pub enum Interceptor {
    GRPC,
    Redis,
    Websockets,
}

/// A server of a source: where it listens and with which protocol.
pub struct ServerConfig {
    url: String,
    prefix: String,
    protocol: Interceptor,
}

/// The two sides of an order book.
pub trait Depth<T> {
    fn get_bids(&self) -> &Vec<T>;

    fn get_asks(&self) -> &Vec<T>;
}

} // verus!
