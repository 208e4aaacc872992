# boko

Ebook conversion core, verified with Verus.

- `src/export/` — MOBI 6 assembly (PalmDB container, record 0 with MOBI
  and EXTH headers, PalmDoc-compressed text records, image records, table
  of contents flattening, link and image rewriting), the cover lookup, and
  the Markdown export helpers (extracted image names, reference rewriting,
  chapter assembly).
- `src/import/` — the Markdown importer (chapters at level-one headings,
  title, chapter trees built from pulldown-cmark events) and YAML front
  matter framing and conversion to and from metadata.
- `src/mobi/` — PalmDoc compression with its decoder, and HTML filtering
  for MOBI 6.
- `src/image/` — image format detection by magic bytes.
- `src/model.rs`, `src/text.rs`, `src/util.rs` — the book model, string and
  path helpers, byte-string primitives.
- `app/` — the I/O around the library: writers and files, reading Markdown
  files and assets, and YAML through serde.
