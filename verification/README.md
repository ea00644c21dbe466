# url_search_params

The name/value list behind the `URLSearchParams` Web API class, verified with Verus.

- `src/model.rs` — the model: a sequence of `(name, value)` character sequences, with
  selection by name (and value), the first value of a name, and the effect of `set`.
- `src/order.rs` — orders on names: UTF-16 code units (for `sort`) and UTF-8 bytes
  (for record pairs), with their order lemmas.
- `src/sorting.rs` — stable sort by name; the ordered-map form of record pairs.
- `src/encoding.rs` — `application/x-www-form-urlencoded` parsing and serialization,
  done by the `url` crate behind two trusted wrappers.
- `src/search_params.rs` — `UrlSearchParams` and its operations, each with its contract.
- `src/laws.rs` — properties that relate the operations.
- `app/lib.rs` — the JavaScript class for the Boa engine: value conversion, sharing,
  `forEach` callbacks, and writing the list back into a linked `URL`.
