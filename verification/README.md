# gritql

Verified building blocks of the GritQL pattern engine, written in Verus.

- `src/` is the library. Its public functions carry contracts that Verus
  proves; some private helpers carry none. Four small wrappers are trusted
  rather than proved: the slice and `Vec` swaps, `String::push` and
  `char::is_alphanumeric`, each a single call into the standard library.
  Modules:
  - `intervals`: ordering, nesting and pruning of effect ranges;
  - `smart_insert`: separator adjustment and padding for inserted code;
  - `suppress`: `grit-ignore` suppression comments;
  - `variables`: variable scopes and registration;
  - `split_snippet`: splitting a snippet at its metavariables;
  - `node_builder`, `sdk`, `patterns`: node patterns, the stateless compiler
    context and the negation patterns;
  - `syntax_json`: syntax trees as JSON;
  - `file_owners`, `errors`, `rules`, `test_utils`, `text`: files of a run,
    analysis logs, review rule levels, test cases and string helpers.
- `tests/` runs the library on concrete values.
- `app/` holds what stays outside the proofs: the GraphQL request for review
  rules, serde types, and conversions to `serde_json` and `anyhow`.
