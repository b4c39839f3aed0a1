# component_names

A semver-aware map for the names of component imports and exports. A lookup of
`a:b/c@0.2.0` finds a definition of `a:b/c@0.2.1`, and a lookup of the canonical
name `a:b/c@0.2` finds the highest version that is defined on its track.

The library under `src/` is verified with Verus:

- `name_map`: the map itself, `NameMap`
- `naming`: the semver track that a name is on, and which names are valid
- `version`, `grammar`, `order`: versions, how they are spelled, their order
- `intern`, `string_pool`, `primitives`: the contexts that turn names into keys,
  and what can be cloned
- `index_map`: a map that keeps its entries in order
- `state`: what a name map holds and what its operations make of it
- `laws`: what holds across operations
- `text`, `error`: strings and errors

`app/` holds the serialized form of name maps.

What is taken on trust is stated at the calls into `semver` and `wasmparser`, in
`version.rs` and `naming.rs`.
