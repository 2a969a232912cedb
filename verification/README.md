# egui_json_tree

An interactive JSON tree visualiser for egui, with search and highlight
functionality, whose core logic is proved correct with Verus.

Layout:

- `src/` — the verified library:
  - `pointer.rs`: JSON pointer strings (RFC 6901 escaping), parents and last segments.
  - `search.rs`: case-insensitive search terms, match positions, and the paths of
    arrays/objects that enclose the matches in a document.
  - `path_set.rs`: a duplicate-free set of paths.
  - `node.rs`: how each array/object starts expanded and which render calls show a node.
  - `render.rs`: color schemes, and the pieces (quotes, text spans, highlights) that
    draw a property or a value.
  - `value.rs`, `delimiters.rs`, `default_expand.rs`, `toggle_buttons_state.rs`: the data
    the tree is built from and configured by.
  - `edit.rs`: the decisions of the JSON editor example: naming a new object key, and
    turning each edit request into the next edit state and a change to the document.
  - `text.rs`: string-building helpers.
- `tests/` — tests of the library on concrete values.
- `app/` — the egui widget and demo applications, which draw what the library decides,
  and the `JsonTreeDocument` trait with its `serde_json` implementation, which converts a
  document into the library's tree representation.
