use scatter_gather::grpc;
use scatter_gather::redis;
use scatter_gather::source_specs::Interceptor;
use scatter_gather::websockets;

#[test]
fn connection_handler_errors_describe_themselves() {
    assert_eq!(grpc::ConnectionHandlerError::Custom.message(), "Custom error");
    assert_eq!(redis::ConnectionHandlerError::Custom.message(), "Custom error");
    assert_eq!(websockets::ConnectionHandlerError::Custom.message(), "Custom error");
}

#[test]
fn interceptor_protocols_are_distinct() {
    assert_ne!(Interceptor::GRPC, Interceptor::Redis);
    assert_ne!(Interceptor::Redis, Interceptor::Websockets);
}
