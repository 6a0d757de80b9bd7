# trestle

Trestle is a small functional language: `let` bindings, lambdas with currying, records,
`type` aliases, `if`, blocks and the `|>` pipe. This crate holds its whole pipeline as a
library verified with Verus:

- `parse` — a lexer and a recursive-descent parser from source text to a tree. `lexer::lex`
  states the tokens of a text and `grammar` states, over those tokens, the tree each
  construct makes; `parse` is proved to give exactly the tree they give, or to fail exactly
  where they give none;
- `binding_resolution` — every name replaced by the binding it refers to, with the exact
  rules of sight stated in `binding_resolution::correspondence`; `correspondence::mints`
  states that binding ids are dense and handed out in the order resolution meets each
  declaration, after the five builtin types;
- `type_check` — Hindley–Milner style inference over a union–find map with an occurs check.
  `typing` states inference as mathematics, `agreement` proves unification sound (the two
  sides agree at every depth afterwards, and every earlier agreement survives), and
  `constraints` proves that every constraint inference solves still holds when it ends;
  `typing::infer_failure` states which failure inference reports when it fails.
  `ranking` proves that the occurs check keeps every map built by minting and unifying
  acyclic, so substitution always completes on it and is idempotent; `refinement` proves that
  after a successful unification both sides substitute to the same type, and that later
  unifications never undo it;
- `evaluate` — a big-step semantics and the tree-walking evaluator proved to follow it;
- `diagnostics`, `render`, `playground`, `dto` — what the browser playground shows: line and
  column positions, printed types and the shapes of its answers.

`app/` is the WebAssembly front end of the playground: it parses and answers requests,
serialises answers with serde, prints values (floats among them) and words diagnostics.
`tests/` exercises the library from outside.
