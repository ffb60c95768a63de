# avalon

A client for a cluster of caching nodes that stand in front of an object store. A read asks the
nodes of the cluster for the chunks of an object, and goes past the cluster, to the store itself,
where the cluster does not answer.

- `src/` is the library, verified with Verus: endpoints and clusters and how they are written,
  consistent hashing of chunks over the nodes, and the decisions of the client as state machines
  from events to actions.
- `app/` is what runs it: connections, streams, the `object_store` interface, and providers that are
  loaded from libraries. The calls to a node go through the trait `AvalonService`, which a generated
  gRPC client implements.
- `tests/` runs the library on values.

What the library takes on trust are the calls into `siphasher`, `uuid`, `chrono` and `url`, each
behind a function of its own in `siphash`, `cluster_id`, `timestamp` and `provider`.
