# charta

An MCP server for SCXML state charts — validation, Mermaid rendering,
invariant verification with Z3 (bounded model checking and k-induction) and
code generation — built around a library verified with Verus.

* `src/` — the verified library:
  * `pragma` reads `<!-- @invariant id="..." expr="..." -->` comments;
  * `property` tokenises and parses the invariant language;
  * `chart` lowers a flat chart to a `TransitionSystem` (`system`);
  * `formula`, `smt`, `encode` give Z3 terms a meaning and build the
    initial-state, transition and property formulas;
  * `engine` runs bounded model checking and k-induction, with contracts
    over the runs of the transition system;
  * `verify` checks every pragma of a document, `verdict` renders results;
  * `service` and `codegen` hold the logic of the other tools;
  * `laws` relates the procedures to each other and to reachability.
* `app/` — the MCP server: request types with their JSON schema, the error
  type with its messages, the tool router, and the code generator's file
  and process I/O.
* `tests/` — tests of the library, run against the real `scxml` and `z3`.
