# blocked_groups

Columnar builders that keep their values in blocks, and the state of grouped aggregates on top of
them. A finished block can be handed out without moving what comes after it.

Everything under `src/` is verified with [Verus](https://github.com/verus-lang/verus): each function
states what it computes in its `ensures`, and the proofs stand beside the code.

- `blocked_helpers`: builders of offsets, bits, nulls, bytes, byte strings and of any other values.
  `layout` has the model that they share, `laws` what holds of all of them, `builder_laws` what
  holds of several calls of one.
- `groups_accumulator`: positions in blocked storage.
- `ordered_groups_accumulator`: batches whose rows are ordered by group.
- `aggregate`: accumulators. `prim_op` runs one operation over ordered groups, `count_distinct`
  collects the distinct values of each group, `array_agg` all values in the order in which they came.
- `multi_group_by`: the values that groups are made by, column by column.
- `memory`: adding up the bytes that a structure takes. What an allocator gave is an argument there,
  so that the sums are exact.
- `arrow_buffers`, `collections`, `aggregate/count_distinct/{distinct_value,index_table}`,
  `aggregate/count_distinct/helpers/track_single_group_unique_indices`,
  `groups_accumulator/enumerate_blocked`, `multi_group_by/view`: what the library takes from Arrow, hashbrown, ahash, DataFusion and the
  standard library. The contracts of those functions are not proved; each says what it claims.

`app/` connects the library to Arrow's arrays and DataFusion's traits; it is not verified.
`tests/` runs the library on concrete values.
