# ascent-jit

A runtime engine for Ascent-style Datalog programs supplied as text, with a
conjunctive-query substrate on top, verified with Verus.

Programs declare relations (sets or lattices over `int`, `bool` and `sym`
columns) and rules with positive and negated atoms, `if` filters, `let`
bindings and aggregates. The engine parses and stratifies a program, accepts
type-checked facts, runs it stratum by stratum, answers queries, explains
why a tuple holds, and speculates on the consequences of candidate facts
without changing its state. A successful run is proved to reach a fixed
point (every rule holds and a second run changes nothing) unless a rule
writes a lattice above its own stratum, and each stratum is proved least
unless a rule positively reads a lattice of its own stratum. Expressions are evaluated either by an interpreter or by
lowering them to WebAssembly and running the module under `wasmtime`.

## Layout

- `value`, `env`, `expr`: values, bindings, the expression language with its
  typing rules and semantics.
- `ir`, `lexer`, `parser`: the program representation and the parser, with
  the grammar stated as spec functions.
- `store`, `strata`, `groups`, `least`, `eval`, `solve`, `run`,
  `least_model`: the relational store, validation and stratification (with
  the bound on the least stratification), rule evaluation, the fixed-point
  loop, and the least-model property of a stratum.
- `explain`, `order`, `engine`: provenance, ad-hoc queries under a
  cardinality cap, and the engine facade.
- `wasm`, `lowering`: the WebAssembly tier, and a stack-machine model of the
  emitted instruction sequences with the proof that, run on that model, they
  compute the interpreter's values. That the model is what `wasmtime` runs is
  not proved: the encoded module and the runtime's result stand behind named,
  trusted results.
- `fact_query`: parse, form-check and bounded read-only evaluation of
  conjunctive queries with provenance, and the fact-source boundary.
- `host`: the queries grain driven from a host, with values as wire values
  and failures by stage.

`tests/` exercises the library on concrete programs and values.
