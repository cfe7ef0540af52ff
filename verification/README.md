# flash_font

Verified core of a tool that loads the fonts an ASS subtitle needs.

- `src/text.rs` — char-level text operations (`trim`, `split`, `splitn`,
  `strip_prefix`, ASCII-case-insensitive comparison) with their models.
- `src/font_set.rs` — a set of font names kept in ascending order.
- `src/ass.rs` — font extraction from ASS subtitles (style `Fontname`
  columns and `\fn` override tags) and the decoding of subtitle bytes.
- `src/catalog.rs` — the font catalogue's computations: sync plan between
  catalogue and disk (files known by path, size and modification time),
  delete batches, font-file extensions, family names of a font file.
- `src/font_manager.rs` — bookkeeping of fonts loaded into the system
  through a platform registry.
- `src/paths.rs` — canonical font paths (the keys of the font manager) and
  the checks on the font root.
- `src/loader.rs` — picking font files for the wanted fonts and the load
  report.
- `app/` — the command-line program: configuration, SQLite catalogue,
  directory walk, prompts and notifications, path canonicalization, and the
  Windows font registry (GDI).
