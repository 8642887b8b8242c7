//! Connection bookkeeping, middleware configuration and XOR-metric routing
//! for a scatter-gather network simulation.
pub mod connection;
pub mod dht;
pub mod grpc;
pub mod id_value;
pub mod middleware_interface;
pub mod middleware_specs;
pub mod pool;
pub mod redis;
pub mod source_specs;
pub mod websockets;
pub mod xor;
