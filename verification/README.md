# outlines_core

An `Index` maps the tokens of a vocabulary to the state transitions of a regular expression: for
every state it records which tokens may come next and where they lead. The library is written in
Verus, and its contracts are proved.

- `src/primitives.rs`: identifiers and errors.
- `src/vocabulary.rs`: tokens and their identifiers.
- `src/automaton.rs`: the dense automata of `regex_automata` as tables.
- `src/hashing.rs`: the operations on the hash collections of `rustc_hash`.
- `src/graph.rs`: which states are reached from one another.
- `src/index.rs`: the index, and building it state by state and token by token.
- `src/groups.rs`, `src/optimized.rs`: building it with tokens grouped by their first two bytes.
- `src/render.rs`: an index as text.
- `src/laws.rs`: what holds of every index, such as which texts it generates.
- `app/`: an index that can be stored with `bincode` and displayed.

What `regex_automata`, `rustc_hash` and the standard library do is taken on trust. Each such
operation is one small function marked `external_body`, with a doc comment that says what is
claimed of it.
