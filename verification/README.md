# screeps_os

A small operating-system layer for a Screeps bot: a kernel with a process table,
a priority scheduler with aging, inter-process message queues, versioned memory
layouts, and the byte-string codec used to keep memory in the game's raw string
memory.

- `src/` is the verified library (Verus). `strlib` holds the 15-bit codec and the
  proof that decoding undoes encoding; `scheduler`, `kernel`, `kernel/ipc`,
  `process`, `memory` and `performance` hold the rest of the logic with their
  contracts.
- `app/` is the host side compiled to WebAssembly: the JavaScript glue, logging,
  rkyv serialization of memory, and the floating-point performance log.
- `tests/` exercises the library on concrete values.
