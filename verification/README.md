# friday-core

The engine of a desktop canvas that runs coding agents in real terminals, written in
Verus: every function under `src/` carries a contract that Verus proves.

- `src/terminal/replay.rs`: the per-terminal replay buffer. Output chunks are numbered
  1, 2, 3, ...; the newest 5000 are kept; a snapshot is their bytes and the last number.
  The laws there show that a view which writes a snapshot and then drops live chunks
  numbered at or below its last number shows every byte once, that each read becomes
  one chunk numbered in order, and how large a snapshot can be.
- `src/terminal/table.rs`: the live terminals by id (an id names at most one; starting
  under a used id hands the old terminal back to be killed; killing an unknown id is a
  no-op).
- `src/terminal/error.rs`: the error type and its messages.
- `src/agents.rs`: PATH lookup of agent programs and the report on each known agent,
  given the PATH directories and the file check.
- `src/canvas.rs`, `src/paths.rs`: where the board is stored, with Unix path joining.
- `app/`: the I/O around it: pseudo-terminals and reader threads (portable-pty), the
  board's floating-point layout and its JSON file (serde, serde_json), PATH from the
  environment, and the desktop commands as plain functions.
