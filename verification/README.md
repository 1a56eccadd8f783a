# rupro

Class declaration folding and type localization for a Hack type checker,
verified with Verus.

- `pos`: positions and interned names.
- `decl_defs`: declared types, class declarations as written, and folded classes.
- `shallow_decl_provider`: the store of class declarations.
- `folded_decl_provider`: folding a class with what it inherits (`inherit`,
  `fold`), the cache of folded classes (`cache`), the provider that answers
  queries (`provider`), and properties across queries (`laws`).
- `driver`: which files the checker's entry point takes from its command line.
- `typing_defs`, `typing_env`, `typing_phase`: localized types, the
  environment they are checked in, and localization of declared types.

`src/` is verified; `tests/` runs the library on concrete declarations.

The entry point itself is not here. After reading its command line it parses
the named files, type-checks them and prints the result through the OCaml
runtime, and none of that (the parser, the type checker, the OCaml runtime
bindings) is part of this library or available as a crate.
