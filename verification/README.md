# winnow_core

The logic of winnow, a keyboard-driven image culling tool, written in Verus
and verified: the functions in `src/` carry contracts that Verus proves.
The exceptions are the few small items that call into std's `Path`, the
`csv` and `toml` crates, and `String::push`: their contracts are trusted,
not proved, and each says in its doc comment what it claims.

- `buckets`: the bucket list (reject first), `.winnow.toml` resolution and
  rendering, hotkeys, discovery of `_name` folders.
- `metadata`: the CSV/TSV metadata table, path resolution (exact, then by
  file name), relative keys, sort values.
- `model`, `editing`: the review session: navigation, sorting, moves into
  buckets with undo and redo, adding, renaming and removing buckets.
- `check`: the report of `winnow --check` on a folder's metadata file.
- `tone`: luminance histograms.
- `ui`, `keys`, `window`, `launcher`: what the image viewer shows (markup,
  status line, shortcuts list), what a key or click does, the remembered
  window state, the desktop launcher.
- `text`, `numeric`, `paths`, `assoc`, `sortkey`, `scan`, `guide`: strings,
  number syntax, paths, small maps, sort keys, image files, the agent guide.

Laws that span several calls are public proof functions named `law_*`.

`app/` is the command line around the library: it reads and writes files,
scans folders, and hands the library plain values.
