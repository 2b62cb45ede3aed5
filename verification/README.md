# konnect-core

The logic behind tools that work on KiCad schematics and boards: planning a
board update from a schematic, answering what is connected on a sheet, and
changing the components of a sheet without losing track of what the file holds.

`src/` is the library. Verus proves the contracts of its functions from the
contracts of what they call. Four of those it takes on trust: the wrappers round
`sha2` (`revision.rs`), `serde_json` (`commit.rs`) and the quoting of a text by
the standard library (`symbol.rs`), and what `String::push` does (`chars.rs`).
The doc comment of each says what it claims. The library reads no file and talks
to nobody: it takes what was read as plain values and returns what is to be
written, refused or reported. Lengths are whole nanometres and angles millionths
of a degree. `src/lib.rs` says which module holds what. Facts that relate several
functions are the public `law_` proof functions.

`app/` turns JSON arguments into library calls and library results into answers.
Everything it needs from the outside stands behind the traits of `app/host.rs`:
the readers and writers of schematic files, the symbol libraries and the running
KiCad.

`tests/` runs the library on concrete sheets, boards and texts.
