# cjson_core

A JSON library whose core is verified with Verus: documents live in a node
store (`SafeStore`, an arena of nodes and byte strings with a mathematical model,
`StoreView`), and every operation on them states in its contract what it does
to that model.

## Layout

- `src/` — the verified library.
  - `store`, `tree`, `surgery`: the store, its model, sibling chains and trees,
    and what unlinking a node leaves.
  - `parse`, `string`, `number`, `print`, `minify`: text in and out.
  - `dom`, `members`, `arrays`, `replace`, `dup`, `compare`: building, editing,
    copying and comparing documents.
  - `pointer`, `utils`, `patch`, `apply`, `equal`, `diff`, `merge`: JSON Pointer
    (RFC 6901), applying and generating JSON Patch (RFC 6902), and generating merge
    patches (RFC 7396).
  - `laws`: properties that relate several operations.
- `tests/` — tests over the compiled library.
- `app/` — what the library leaves to ordinary Rust: converting and formatting
  doubles.
