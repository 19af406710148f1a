# fate_respec

Refunds all allocated skill and stat points in a FATE / FATE: Traitor's Soul
character save (`.FFD`), so the points can be spent again in the in-game respec
menu. All skills go to 0, the four main stats go back to their baselines where
they are above them, and the refunds are added to the unused point pools. Every
other byte of the save is copied unchanged.

Layout:

- `src/` is the verified library (Verus):
  - `bytes.rs`: bounds-checked little-endian reads and writes;
  - `layout.rs`: the offsets, plausibility bounds and names of the record fields;
  - `save.rs`: locating and validating the character record (`parse`, `parse_auto`);
  - `respec.rs`: the respec itself and what it guarantees;
  - `text.rs`, `cli.rs`: the command-line arguments.
- `tests/` exercises the library on synthetic saves.
- `app/main.rs` is the command-line program: it reads the arguments and the
  save, calls the library, writes the result and prints the summary.
