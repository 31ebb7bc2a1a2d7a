# cbpv

A verified back end for a small call-by-push-value language.

- `src/ast`: terms, function definitions, and the passes that optimize definitions: removal of
  redundant applications and lambdas, specialization of calls of primitive functions, renaming of
  local variables, reduction of redexes, and lifting of lambdas and thunks.
- `src/signature.rs`: definitions that do not tell how they are called, with normalization of
  applications and lifting of thunks.
- `src/backend`: types in generated code, and names and signatures of functions.
- `src/runtime`: memory, thunks, handlers of effects, and captured continuations. Memory is a range
  of machine words at addresses.
- `src/ast/checks.rs` and `src/runtime/checks.rs`: tests that tell, for any definitions and words,
  whether the passes and the functions of the runtime can do their work within a given depth.
- `app`: the program around the library, with the parts that link the runtime to generated code.

Every function of the library has a contract. Laws that relate several functions are public proof
functions: `src/ast/binding.rs`, `scope.rs`, `normal_form.rs`, `copying.rs`, `hygiene.rs`,
`lifting.rs`, `optimization.rs` and `interface.rs`, `src/signature_laws.rs`, and
`src/runtime/laws.rs`.
