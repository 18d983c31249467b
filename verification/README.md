# hdiffpatch

Applies patches in the HDiff formats, verified with Verus.

- `HDIFF13`: one file, in four parts that are compressed apart
- `HDIFFSF20`: one file, compressed as a whole
- `HDIFF19`: a directory, with an inner `HDIFF13`
- KrDiff: a directory, as `HDIFF19` and `HDIFF13` with covers that wrap round the old data

The library in `src/` works on bytes in memory. `app/` reads and writes the files, and offers
`patch_hdiff` and `patch_krdiff`.

## Layout of `src/`

| Modules | What they hold |
| --- | --- |
| `varint`, `text`, `signature`, `structs`, `error` | numbers, texts, the signature line, plain values |
| `parser`, `streams`, `combined` | byte streams, windows of them, several files as one |
| `compression_utils`, `clips` | the parts of a patch as streams, with `zstd` behind them |
| `rle`, `patch_core`, `patch_single` | `HDIFF13`: differences, covers, new data |
| `rle0`, `patch_sf` | `HDIFFSF20` |
| `header`, `partial_header`, `hdiff` | headers, what is left of one that cannot be read whole, and a patch of one file as a whole |
| `similar_files`, `patch_dir` | `HDIFF19` |
| `kr_format`, `patch_krdir` | KrDiff |

## What is trusted

- `String::from_utf8_lossy` and `str::to_lowercase`, in `text`
- `Decoder::new`, `Decoder::set_parameter` and `Decoder::read` of the `zstd` crate, in
  `compression_utils`

Everything else is proved. Data that contradicts itself, so that a sum leaves the range of its type
or a count promises what is not there, is answered with `PatchError::Malformed`.
