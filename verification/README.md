# chess_egt

Chess endgame tablebases measured in distance to conversion (DTC), with the
indexing of positions, the storage of outcomes and the decisions of
retrograde analysis verified with Verus.

## Layout

- `src/` — the verified library.
  - `outcome.rs`, `stored.rs`: outcomes and their 16-bit stored form.
  - `frame.rs`: the bit-sliced layout of a frame of outcomes.
  - `piece_set.rs`, `names.rs`, `tables.rs`, `words.rs`: roles, sides and
    files, endgame names, and the pawn-file configurations of a file of tables.
  - `combinatorics.rs`, `compaction.rs`, `radix.rs`, `kings.rs`: binomial
    ranks, compaction of square indexes, the mixed-radix index and the
    numbering of king pairs.
  - `board.rs`: plain-value positions; legality is decided by `shakmaty`.
  - `indexer.rs`, `encoding.rs`: the layout of a table and the conversion of
    positions to indexes and back, with the round trip proved.
  - `egt.rs`, `egt_file.rs`, `pawn_files.rs`: a table, a file of tables with
    its frames (compressed with `zeekstd`), and the mapping of positions to
    the table of their pawn files.
  - `retrograde.rs`, `consistency.rs`, `digest.rs`: the decisions of
    retrograde analysis, of the consistency check, and file digests.
- `tests/` — tests of the library.
- `app/` — the command-line program: file and directory I/O, move generation
  with `shakmaty`, and the drivers of generation and checking.
