# Gresse

Geo-replicated stateful serverless for the edge: an application defines its
state as a conflict-free replicated data type, and Gresse runs it as a
replicated server. This crate is the verified core of that runtime, written in
Rust and proved with Verus, and the ordinary Rust around it.

## What is proved

- Every executable function of the library meets its contract, does not panic
  and does not overflow.
- The observed-remove set converges: whatever replicas issue, pull and collect,
  those that have observed the same changes hold the same elements. What a
  replica is sent is in causal order and brings it up to date.
- Garbage collection drops only what every observer has observed, keeps every
  element, and lets a departed replica go only once its last change is stable.
- The durability journal gives back what was written. A crash loses a suffix of
  the log at most, and a log of an earlier snapshot is ignored.
- A replica that has departed is never connected to again, a peer is connected
  once at most, and of two replicas with different addresses exactly one begins.

Laws that relate several functions are public proof functions whose names begin
with `law_`.

## Layout

| Path | Contents |
| --- | --- |
| `src/crdt.rs` | The contract of replicated data types, the wrapper with the version matrix, messages. |
| `src/dots.rs`, `src/dots/` | Version vectors, the version matrix, logs of dotted values, their laws. |
| `src/orset.rs`, `src/orset/` | The observed-remove set, the order of what it sends, its laws, agreement of all replicas. |
| `src/replica.rs`, `src/replica/` | A replica in memory: events and actions, garbage-collection rounds, laws. |
| `src/journal.rs`, `src/journal/` | Framing and replay of the durability journal, laws. |
| `src/network.rs`, `src/network/` | Which peers to connect to, and the state of the network manager. |
| `src/object_storage.rs` | Credentials, bucket settings, what answers of the store mean. |
| `src/replica_config.rs`, `src/replica_helpers.rs` | Settings, membership descriptors, intervals. |
| `src/metrics.rs` | The rows that a replica reports. |
| `src/db/` | Weighted tables and indexed views. |
| `src/order.rs`, `src/multimap.rs`, `src/text.rs` | Ordered collections and text. |
| `src/http_client.rs`, `src/logging.rs`, `src/prelude.rs` | Requests, log levels, identities and addresses. |
| `tests/` | Tests that call the library from outside. |
| `app/` | Environment, files, sockets, object storage, JSON, and the programs that run a replica. |

## What is trusted

Random numbers come from `rand`. The hash that picks a shard, the test for white
space and `String::push` are those of the standard library. Each of these has
one small declaration whose comment says what is claimed of it. Nothing in
`app/` is verified.
