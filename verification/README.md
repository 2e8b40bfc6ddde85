# mtklogo

Reads, writes, checks and profiles MediaTek `logo.bin` images, with the
library's behaviour stated in Verus contracts and proved.

- `src/` — the verified library:
  - `codec`: little-endian `u32` through `byteorder`;
  - `header`: the 512-byte MTK header;
  - `logo`: the logo table and the whole image (read, write, lay out slots),
    with the round-trip laws;
  - `color`: color modes and their names;
  - `config`: profiles, formats, format guessing, where the configuration
    file is looked for (candidate paths are built as `/`-joined strings,
    which name the same files on every target; `app/` turns them into
    `PathBuf`s);
  - `infer`: scoring of candidate formats and profile inference
    (`try_infer_profile` checks the slot count and the screen hint first);
  - `inspect`: inflating slots and describing an image. Slots are zlib
    streams; `flate2`'s `ZlibDecoder` inflates them, the one thing `flate2`
    is here for. The library states of it only that inflation is a fixed
    function of the slot bytes;
  - `slot_file`: names of slot files; `repack`: numbered slots into an image;
  - `order`: the stable insertion order used for sorting.
- `app/` — the command line tool: arguments (`clap`), files, the YAML
  configuration (`serde`, `serde_yaml`), printing.
- `tests/` — tests of the library on concrete values.
