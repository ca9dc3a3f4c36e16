# Wander

A reader for ZIM archives served by a cairn daemon: point it at a cairn
instance, browse what it has open, read the entries in a sandboxed web view.

## Layout

- `src/` is the core of the reader, verified with Verus: what it asks the
  daemon for and what the answers mean (`client`, `error`, `code`, `model`),
  the private `cairn://` URI scheme and the outlines kept for it (`scheme`,
  `percent`), the table-of-contents scanner (`toc`), history and bookmarks
  (`store`), the server settings (`settings`) and text formatting (`format`,
  `chars`). Each public function states its result in its contract; the
  properties that span calls are stated and proved as `law_*` proof functions.
- `app/` is the GTK4/libadwaita application around it: HTTP with `ureq`, JSON
  with serde, the settings key file and the library file, the WebKit view
  and its `cairn://` handler, the windows.
- `tests/` runs the library on concrete values.
