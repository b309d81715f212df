# ghostline_red

Readers and writers for the resource formats of Cyberpunk 2077, written in
Verus: what each function returns is stated in its contract and proved.

- `src/kraken` holds the Kraken byte stream: a decoder, and an encoder whose
  output is the shortest of its candidates and is proved to decode to its input.
- `src/archive*.rs` hold `.archive` containers: an index reader, a packer whose
  archives are proved to hold each file under its path and to give its bytes
  back, and the choice among several archives.
- `src/cr2w.rs`, `src/codec*.rs` and `src/redpackage*.rs` decode CR2W resources
  and the packages inside them into documents (`src/value.rs`), and rebuild
  packages from documents. A package that is rebuilt from its own document is
  proved to have that document again, where no class has two fields with one
  name, the field tables stand in their classes, no class that is named like a
  type of a fixed size has fields, the names of bit fields can be told apart in a
  list, no import is shown like none, and base64 gives back what it was made from.
- `src/localization*.rs` read and write onscreen localization.
- `src/mesh*.rs`, `src/material*.rs`, `src/block_textures.rs`, `src/glb.rs` and
  `src/pbr*.rs` hold the integer part of mesh and material exports: layouts,
  masks, plans and glTF documents. Floats pass through as their bits.
- `src/audit*.rs`, `src/difference.rs` and `src/batch.rs` hold the rules of
  audits and batches.
- `app/` is the command line: files, threads, the native library, JSON text and
  floating point.

Functions marked `external_body` call other crates; their contracts are not
proved, and each says what it takes for granted.
