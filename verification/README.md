# fortnite_downloader

A downloader for builds described by Epic Games manifests, with its core
written in Verus.

- `src/` is the verified library: the manifest listing of the launcher
  service (`manifest_api`), the file and chunk model (`model`), tag
  collection and selection (`tags`, `application`, `text_map`, `order`,
  `text`), chunk addressing (`chunks`), file assembly (`assembly`), SHA-1
  checks (`hashing`), the bookkeeping of a download run (`downloader`),
  the worker's step function and the laws over whole runs (`worker`) and
  the console tag prompt (`tags_ignore`).
- `app/` is the console program around it: argument handling, HTTP,
  files, manifest and chunk decoding with `epic_manifest_parser_rs`, and the
  worker tasks.
- `tests/` runs the library on concrete inputs.

Run `app` with `--manifest FILE --out DIR`, or `--latest ACCESS_TOKEN --out DIR`
to fetch the live manifest.
