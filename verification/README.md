# loc_counter

Counts lines of code per programming language across a project tree.

- `src/` is the verified library: `lang` (languages and how a path names
  one), `count` (line counting of a file's bytes, whole or in chunks, with
  Git's null-byte heuristic for binary files), `walk` (tallying what a walk
  finds and merging the workers' tallies) and `report` (the table).
- `app/` is the command: argument parsing, the parallel directory walk, file
  reading and writing the report to standard output.
- `tests/` exercises the library on concrete inputs.
