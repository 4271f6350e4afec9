# ved

A verified library for Ved, a small language for deterministic, goal-driven
control planes, and the `ved` command around it.

- `src/` is the library, verified with Verus: the lexer, parser, semantic
  validator and code generator for Ved sources; the bytecode and its binary
  packing; and the runtime that executes it — isolated domain memory,
  prioritised mailboxes with a bound on starvation, Lamport clocks, the slice
  interpreter, the goal evaluator, the domain registry, snapshots, the trace,
  and the scheduler that runs the domains cycle by cycle.
  `reproducible` proves that runs from agreeing registries take the same
  cycles, log the same trace lines and tracer events, and leave agreeing
  registries.
- Under the scheduler a domain's code may send to any domain; `capability`
  declarations in a source are accepted and skipped.
- `tests/` exercises the library on concrete programs.
- `app/` is the command line program: it reads sources, writes and reads
  snapshot and trace files as JSON, and drives the scheduler, saving a
  snapshot after every cycle that did work.

Usage of the command:

    ved compile <file.ved>
    ved run <file.ved> [max_cycles]
    ved view-trace <file.ved.trace.json>
