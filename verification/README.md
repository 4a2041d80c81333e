# mysolver

An incremental solver for quantifier-free formulas with uninterpreted functions, verified with Verus,
and the tools around it.

- `src/euf_core.rs` checks a set of equalities and disequalities by congruence closure;
  `src/effort.rs` says how many checkpoints a check passes, and `src/batch.rs` groups them.
- `src/euf/` is the backtrackable congruence closure that works with a Boolean search, with
  explanations.
- `src/sat.rs` is the Boolean search over clauses and a theory.
- `src/qfuf/` runs SMT-LIB scripts; `src/lower/` is the solver on lowered assertion frames.
- `src/arena.rs` stores objects of variable length; `src/bitsum/` lays out packed tagged unions.
- `src/telemetry.rs` samples and summarizes counters; `src/harness/` and `src/sat_harness/` hold the
  rules of the benchmark harness.
- `app/` is the program around the library: files, processes, terminal and generated code.

Contracts speak of mathematical models: term tables and interpretations in `src/semantics.rs`,
formulas and structures in `src/qfuf/denote.rs` and `src/lower/denote.rs`. How many handles a command
may take is said in `src/qfuf/work.rs` and `src/lower/work.rs`.
