# qforge

A quantum circuit compiler for OpenQASM 2.0: parse, optimize, decompose to IBM native
gates, place logical qubits on a device and route two-qubit gates onto its couplings.
The compiler is written in Verus; every function in `src/` is proved against its
contract.

## Layout

- `src/qubit.rs`, `src/gate.rs`, `src/circuit.rs`, `src/dag.rs`: the circuit IR and its
  depth (critical path over qubits, barriers ignored).
- `src/parser/`: the lexer and recursive-descent parser; `parse` returns exactly what the
  grammar spec functions (`lex_from`, `parse_text`) say, error messages included.
  Parameter expressions follow OpenQASM precedence: `^` (to the right), unary minus,
  `*` and `/`, then `+` and `-`.
- `src/passes/`: identity elimination, gate cancellation, rotation merging, commutation
  analysis, native decomposition, gate fusion, and the pass manager that runs them to a
  fixed point. Each pass's result is a spec function of its input; the laws next to them
  say what the result satisfies (no identities left, no adjacent inverse pair left, only
  gates removed, idempotence, native gates only, ...).
- `src/routing/`: hardware topologies (line, grid, and a simplified heavy-hex layout: a
  chain with bridges, no coupling listed twice) with breadth-first distances, the greedy
  qubit allocator, and SWAP-inserting routing, which moves a CX or CZ control along the
  shortest path until it is next to the target. Proved: distances are shortest paths (rows
  plus columns on a grid), the built-in topologies are connected, allocation gives
  distinct physical qubits, and after routing every CX and CZ acts on coupled qubits.
- `src/pipeline.rs`: the pass lists the command line uses, the compilation strategies,
  and argument lookup.
- `app/`: the command line, file I/O, JSON, and everything that computes with floating
  point (angle arithmetic, 2x2 unitaries for fusion, the noise model, the statevector
  simulator, benchmark reports).

## Angles and floating point

Angles are carried as the bit patterns of `f64` values (`u64`). The library never
interprets them itself: arithmetic, reading a literal, printing a value and fusing a run
of single-qubit gates are closures that the caller passes in (`app/numeric.rs` supplies
them). Contracts that involve angles are stated over what those closures return.

## Trusted code

The only items Verus takes on trust are small wrappers around std: `{:?}` quoting of a
string, `char::is_alphabetic`, `char::is_alphanumeric` and `String::push`. Decimal
printing of integers is verified.
