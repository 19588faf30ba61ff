# hvm_compiler

A verified compiler from a small lambda-calculus-like term language to an
interaction-net memory image: a header, one pair of auxiliary-port slots per
node, and a list of active pairs, all as little-endian 64-bit words.

Terms: `λx body` (or `@x body`), applications `(f a b ...)`,
superpositions `{a b ...}`, `let x = value body`, `ask x = value body`, and
variables.

Layout:

- `src/net.rs`: addresses, ports, wires, nodes; port encoding and text.
- `src/table.rs`: name-ordered tables (variables and superposition labels).
- `src/alias.rs`: the alias map between wires and the theory of following
  and connecting wires.
- `src/state.rs`: the compiler state, its mathematical model, and the basic
  reading steps.
- `src/parse.rs`: the term reader and its specification.
- `src/alike.rs`: reading depends only on the text still to read, and
  reads `λ` and `@` alike.
- `src/close.rs`: closing the net: linking variables, grouping ports by wire,
  laying out memory and encoding the image.
- `src/compile.rs`: the whole pipeline from text to bytes.
- `app/main.rs`: the command-line front end (file and standard I/O).
