# karst

A verified library for the KARST network stack: wire frames and reassembly, sealed mail,
provider mailboxes and the collection protocol, feed placement and beacons, feed watching,
witnessed checkpoints, signed object lineages, paths, threads, and blind-issued value.

- `src/` is the library. Every function carries a contract that Verus proves, over spec
  functions and views; the laws each module keeps are public proof functions named `law_*`.
  Calls into outside crates (BLAKE3, HPKE, schnorrkel, rand) go through small trusted
  wrappers whose doc comments say what is claimed of the outside code.
- `tests/` runs the library with the outside crates linked.
- `app/` holds the programs around the library: sockets, threads, the running mix nodes,
  the demos and the floating-point simulations.
