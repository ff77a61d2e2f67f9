# hypercube

Node graphs over cross-sections of entities, the circuit that carries their
snapshots to stateful triggers, recordings that can be replayed exactly, and
the slice files in which vectors are shared between processes. Every item of
the library is verified with Verus.

- `src/` is the library. `src/lib.rs` lists its modules by subject.
- `app/` is the program around it: JSON forms of the types, recording files,
  the Disruptor ring and memory-mapped slices.
- `tests/` runs the library.

Floating point stays outside. The library holds each number by its bits and
does arithmetic through the `Arithmetic` trait, of which it assumes nothing;
contracts say which expression a number is the value of. Comparison, sign and
finiteness are read from the bits and proved.
