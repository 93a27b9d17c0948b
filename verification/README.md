# snake

Small compilers and interpreters for the snake family of teaching languages,
written in Verus and verified against contracts stated over mathematical models.

- `src/` — the verified library: the Neonate and Adder compilers, scope
  checking, the Boa and Diamondback interpreters, the LL(1) lexer and parser
  with its trace, six lowerings of a source language to SSA, and the tagged
  encodings of runtime values. Each lowering is proved to keep the value of
  the programs it is meant for: the first one of every program of numbers,
  variables and additions; the renaming ones of every scoped program; the
  others of programs whose `let`s bind distinct names (they keep source names,
  so shadowing is out of their reach). Source names never start with `_` or
  `%`, which the compiler's own names do.
- `src/collections.rs` — the trusted declarations through which the library
  uses the persistent maps and sets of the `im` crate.
- `tests/` — the tests, run with the real `im` crate linked.
- `app/` — the command-line front ends and the runtimes that compiled code
  links against (I/O, raw memory and foreign symbols).
