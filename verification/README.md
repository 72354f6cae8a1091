# icarus_editor

An editor for ICARUS save files (`Characters.json`, `Profile.json`), with its
core verified by Verus.

- `src/` is the verified library: the datatable escape repair and lookups,
  the resolution of talent rows into the catalogue, the pak index, the
  uasset/texture readers, the save-file layout, dependency-aware unlocking
  with the flag resync, level estimation, and the decisions the browser
  makes (what a click does, which sections and cards are shown, what they
  say). `laws.rs` and `unlock_laws.rs` hold the properties that span
  several functions.
- `app/` is the program around it: the data builder (pak and file I/O,
  image scaling) and the Leptos front end. Neither is verified.
- `tests/` runs the library on concrete values.

The data builder needs an ICARUS install; the front end embeds the
`talents.json` the builder writes.
