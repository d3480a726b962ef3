# stratum_core

The core of Stratum Modern, a modelling environment that reads and writes the
files of Stratum 2000, written in Verus: the functions of `src/` carry
contracts that Verus proves.

- `formats/` — the CP1251 code page, binary readers and writers, images
  (`.cls`), projects and snapshots (`.spj`, `.stt`), pictures (`.vdr`: the
  reader of the formats 1.x to 3.x, the writer of the format 3.0,
  hyperlinks and object data), JSON (writer and reader) and the native text
  format (`project.json`, `*.strat.json`, `state.json`). The `*_round_trip`
  modules prove that what is written reads back: the binary files as the
  same image, project or snapshot; a picture as the same objects, z-order,
  tools and sheet (`vdr_round_trip`, for pictures without rasters or object
  data); the files of the native format as the same JSON value, and through
  `native_load` as the same image and the same project (`native_load_law`).
- `lang/` — the lexer, the grammar as spec functions, the parser that follows
  it, the type rules of the compiler and the dependencies between variables.
- `gfx/` — BMP rasters (decoding, encoding, pixels), SVG text pieces and the
  wrapping of pictures with several objects at the top.
- `player/` — the parts of the local server that decide: headers, host,
  origin and token guards, query parameters, URL decoding, JSON answers,
  which answer a request gets (`route`: whatever changes state only by
  POST), the edits the IDE makes to the sheet of an image (`sheet`) and to
  the images of a project (`project_edit`), and Undo/Redo of those edits
  (`history`).
- `command.rs` — options of the `run` command.
- `stdx.rs` — the few calls into `std` that carry a contract Verus takes on
  trust (formatting with `{:?}`, Unicode classes and lower case of
  characters, `char::from_u32`, UTF-8 repair), and the verified readers of
  decimal and hexadecimal numbers.

`app/` is the command-line tool around the library: it reads files from disk
and prints; `tests/` runs the library on concrete values.
