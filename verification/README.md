# probdisasm

Probabilistic disassembly for x86-64 executables, written in Verus.

- `src/header.rs` locates the `.text` section of an ELF or PE file (goblin
  parses the container; choosing the section and its byte range is verified).
- `src/superset.rs` decodes an instruction at every byte offset with capstone
  and gives the intraprocedural control-flow successors of each address.
- `src/hints.rs` extracts the hints: control-flow convergence, weak control
  flow, control-flow crossing and register def-use.
- `src/analysis.rs` provides offsets, occlusion peers, predecessors and the
  forward propagation of reaching hints, with its fixed-point and soundness
  laws.
- `app/` is the command-line program: it reads the file, runs the
  floating-point posterior computation on top of the library and prints the
  result.
