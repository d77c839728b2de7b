# buffdb (verified core)

A Verus-verified library for the logic of a small embedded database:

- `src/json_value.rs` — the JSON document model: values, objects that keep
  their members ordered by key (a type invariant), and the mathematical view
  used by all contracts, with the laws of ordered insertion and lookup.
- `src/json_path.rs` — the path language (`$.a.b[2]`, `[*]`, `*`): parsing,
  query evaluation and updates, each with a specification, and the laws that
  relate them (a query reads back what an update wrote; an update leaves the
  other members alone).
- `src/json_store.rs` — `JsonPath::query` / `JsonPath::set`, the error type,
  documents, and the collection store with its index registration.
- `src/index.rs` — registries of secondary and full-text indexes.
- `src/inference.rs` — storage keys of ML models and the JSON metadata text of
  model weight blobs.
- `src/transaction.rs` — which statement ends a transaction, and that it ends
  at most once.
- `src/text.rs` — string building blocks, decimal numerals and JSON string
  escaping (through `serde_json`).

`app/` holds what the library cannot: serde/chrono forms of its types,
conversion from and to `serde_json::Value`, error messages, and running the
transaction statements on a DuckDB connection.
