# sea_orm_select

The select executor of an object-relational mapper, verified with Verus.

- `src/statement.rs`: backends, raw statements, result rows and errors.
- `src/traits.rs`: the traits through which entities, models and decoders are reached.
- `src/selector.rs`: `Selector` and `SelectorRaw`, the row decoders (`SelectModel`,
  `SelectTwoModel`, `SelectGetableValue`, `SelectGetableTuple`) and the decoding of the rows a
  query returns.
- `src/select.rs`: selects on one entity, on an entity with one related entity, and on an
  entity with its many related entities, and the consolidation of one-to-many rows.
- `src/consolidate.rs`, `src/key.rs`: the grouping of joined rows by primary key, its
  specification and the laws proved of it.
- `src/json.rs`: decoding a result row into a JSON object.
- `src/outside.rs`: the items of `sea_query`, `strum`, `serde_json` and std that the library calls.
- `app/`: running selects against an asynchronous connection.
