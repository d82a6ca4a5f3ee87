# vertext

Unicode-aware vertical text layout, verified with Verus: text in, columns of slots out, and an
HTML renderer on top.

- `src/text.rs` — characters and grapheme clusters (UAX #29, from `unicode-segmentation`), the
  character classes the layout sorts them into, UTF-8 byte counts, decimal numerals.
- `src/layout.rs` — `layout_text`: a model of the layout as a machine over grapheme clusters,
  and the executable layout proved to produce exactly the model's slots. Long Latin words are
  split by `split_latin_word`.
- `src/orientation.rs` — `measure_slots` / `prefers_horizontal`, and the proof that the measure
  counts the slots the layout sets.
- `src/geometry.rs` — `source_map`: the two-way map between a text and its layout, carets, and
  the proof that a caret leads back to its offset.
- `src/html.rs` — the mode-marker protocol and `render_document`, specified down to the byte.
- `src/host.rs` — what a browser host asks for: rendering under bit flags, the map of a strip
  set as one vertical block, and that map as JSON.
- `app/` — the command-line shell and the C-ABI exports for a WebAssembly host.
