# scatter_gather

A library for simulating scatter-gather networks: a connection pool that
numbers the connections it receives and moves them from pending to
established, the configuration of the nodes that middlewares connect to, and
routing over the XOR metric (routers, closest peers, routing tables, lookup
steps).

- `src/` is the library, with its contracts and proofs: `connection`,
  `id_value`, `middleware_interface`, `middleware_specs`, `source_specs`,
  `pool`, `xor`, `dht`, and the error types of the `grpc`, `redis` and
  `websockets` middlewares.
- `tests/` runs the library on concrete values.
- `app/` is the program around it: the asynchronous pool driver, the
  connection-handler and executor traits, the WebSocket middleware, the
  JSON depth messages of the exchanges, and the routing simulation.

Not included: the gRPC middleware (its order-book server and client, and the
channel forwarding between them) and the Redis middleware. The gRPC service
needs code generated from a protocol description by a build step, and no
Redis client is among the dependencies; only their error types are kept.
