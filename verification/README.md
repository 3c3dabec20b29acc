# iradix

A persistent (copy-on-write) radix trie, keyed by sequences of components
(bytes, `char`s, or any ordered component type), with its behaviour stated in
Verus contracts and proved.

The model of a trie is a finite map from component sequences to values, listed in
ascending key order. Every operation is specified against that model: lookups,
longest-prefix (ancestor) matches, ordered and reverse iteration, bounded ranges
and seeks, prefix walks, and the mutations (`insert`, `remove`,
`remove_descendants`, `drain_descendants`, `delete_prefix`, `drain_prefix`).
Writes copy only the path they touch, so clones and transactions are isolated
snapshots that share every untouched subtree. The isolation follows from the
contracts; the physical sharing is pointer identity, which the model does not
describe, and is shown by the tests.

## Layout

- `src/order.rs` — the `Component` trait and the lexicographic key order.
- `src/node.rs` — nodes and edges, the structural invariant, and the verified
  copy-on-write insert/remove/unlink algorithms.
- `src/root.rs` — a trie root with its length; every read and write of the
  public faces goes through it.
- `src/iter.rs`, `src/seek.rs` — lazy forward/reverse value and range iterators,
  seeding of ranges and prefix walks, minimum and maximum.
- `src/cursor.rs` — the public cursor types.
- `src/key.rs` — `RadixKey` and its impls for slices, vectors, arrays, strings
  and (order-preserving, big-endian) integers.
- `src/unsync.rs` — the single-threaded face (`unsync::Radix`).
- `src/sync/` — the thread-shareable face (`sync::Radix` and its `Txn`), the
  commit-conflict type, and `Watch`/`Changed`.
- `src/util.rs` — a shared-or-owned `Cow`.
- `src/laws.rs` — properties that span several operations, proved.
- `app/` — what stays outside verification: a lock-free holder for published
  versions built on `arc-swap`, and the `Future`/`Error` glue.
- `tests/` — executable tests of the library.
