# degu

Infer JSON Schema, TypeScript, and Zod from sample JSON, with the inference
and the emitters verified in Verus.

- `src/json.rs` — `JsonValue`, the JSON documents that shapes are inferred
  from, and `parse_json`, which reads one with `serde_json`.
- `src/shape.rs` — `Shape` and its model `ShapeView`; `absorb` (fold one more
  sample in) and `merge` (union of two shapes), specified by the spec
  functions `absorbed` and `merged`.
- `src/lib.rs` — `infer_from_values` (top-level arrays of objects count as
  separate samples) and `render`.
- `src/emit/` — the JSON Schema, TypeScript and Zod emitters; each `render`
  returns exactly the text its spec function describes. In strict mode a
  shape with nothing observed admits nothing (`never`, `z.never()`, and
  `{"not": {}}` in JSON Schema).
- `src/bounds.rs` — every counter of an inferred shape is at most the number
  of JSON values in the input; `try_infer_from_values` checks that number
  so that inference never overflows.
- `src/laws.rs` — what inference promises: an inferred or merged shape accepts
  every sample that went into it, a field missing from a sample is optional,
  a field present in every sample is required, merging is associative when
  the second and third shapes repeat no field name, the empty shape is its
  identity, folding a sample in is merging its one-sample
  shape, and inferring from two inputs joined is merging their inferences.
- `src/positions.rs` — merging field lists position by position, which
  carries associativity to any first operand, and shapes that repeat no
  field name.
- `src/lemmas.rs`, `src/text.rs` — supporting facts and text utilities.
- `app/main.rs` — the command line: reads files or stdin and prints the
  rendered shape.
