# xmip-core-node

The Node: one machine in an Xmip Cluster, its roles and what it can do,
written in Verus and verified.

- `src/stage.rs`: the stages of the message path and `Stage::declared`, the
  one reading of a declared feature capability (words separated by `,` or
  `+`, exact lowercase, unknown words refused by name).
- `src/capability.rs`: a node's `Capability` and its two published forms,
  the evidence line and the run entry, with the laws that each reads back as
  what was written.
- `src/declaration.rs`, `src/toml.rs`: what a System Process declares of
  itself, as TOML with every control character escaped.
- `src/text.rs`: the character-sequence operations the readings share.
- `app/`: writing and removing a declaration file, and the serialized forms
  of a node.
