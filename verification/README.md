# iroh-rings

Ring-based, permission-typed access control for resources over iroh protocols, verified with
[Verus](https://github.com/verus-lang/verus).

A **ring** is a named group of peers. Resources, identified by arbitrary bytes, are associated
with rings together with a set of permissions (`Read`, `Write`, `Delete`). A peer holds a
permission on a resource only if it belongs to a ring that carries it there. The built-in ring
`"open"` grants `Read` to any peer and nothing else.

## Layout

| Where | What |
|---|---|
| `src/model.rs` | What a registry means, as mathematical values |
| `src/laws.rs` | What holds of every registry: implicit deny, additive permissions, expiry, eviction |
| `src/history.rs` | What holds after every sequence of calls |
| `src/registry.rs` | The `Registry` trait, with the contract every backend is proved to meet |
| `src/backends/memory.rs` | `InMemoryRegistry` |
| `src/backends/redb/` | `RedbRegistry`: the schema, its row formats, the transactions, the decisions, the migrations |
| `src/protocol/` | The wire format of requests, and `RingGate`, which decides them step by step |
| `src/transfers/` | Chunk-range negotiation, and the access check of the blob transfer |
| `app/` | The iroh protocol handler, the blob store, locks and serialisation |
| `tests/` | Tests that run the library with the real database and key types |

The library decides; `app/` opens streams, reads, writes, and reports back what happened.

## What is trusted

Contracts that are believed rather than proved stand next to the calls they describe: the redb
calls in `src/backends/redb/storage.rs`, the chunk sets of `bao-tree` in
`src/transfers/ranges.rs`, the hash sequences of `iroh-blobs` in `src/transfers/fs.rs`, the key
check of `iroh` in `src/endpoint.rs`, and a few functions of the standard library.

## Access rules

- A resource with no ring associations is denied to everybody.
- The open ring grants `Read` only; `Write` and `Delete` need membership.
- A peer in several rings holds the union of what they grant.
- A membership whose expiry has passed counts as absent, whether or not it has been evicted.
- A request reaches the transfer only if the registry grants the permission and the transfer's
  own check says yes. Otherwise the initiator gets `DENIED` and nothing else.
