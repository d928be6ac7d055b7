# vectorscale

The storage side of a graph-based vector index, verified with Verus.

- `src/util/lru.rs`: a bounded cache that evicts the least recently used entry, counts what
  happens, and tells its user when it starts to evict. The order of use is kept by the `lru`
  crate; what is relied on of it stands in `src/util/recency.rs`.
- `src/util/chain.rs`: data of any length as chains of items on pages, and root pages that are
  replaced at once. `src/util/page.rs` has the pages, `src/util/header.rs` the header of an item.
- `src/access_method/graph/neighbor_store.rs`: the neighbors that a build keeps in memory, and
  what has to be merged on disk.
- `src/access_method/sbq/cache.rs`: quantized vectors in memory.
- `src/access_method/plain/`: nodes that hold their vectors in full, how a search goes through
  them, and how their neighbors are replaced without losing another writer's.

Functions named `lemma_...` that are public state what holds of the library as a whole.
`app/` puts the library to work in a database server, whose pages, nodes and rows are behind the
traits in `app/backend.rs`; `app/memory.rs` has them in memory.
