# injm

Injects content into regions of source files marked by `injm begin` and
`injm end` comments, lists those regions, and checks that output regions hold
what their inputs would write.

- `src/` is the library, verified with Verus: the marker model (`types`),
  marker, option and comment parsing (`parser`), injection with `:offset`,
  `:trim` and `:indent` (`injector`), synchronisation checks (`checker`),
  id validation (`validator`), file selection from expanded patterns
  (`parser::pattern`), the decisions of the commands (`cmd`) and diff texts
  (`output`). Its laws are public proof functions named `law_*`.
- `app/` is the command: argument parsing, configuration loading, walking the
  file system, `.gitignore`, comment extraction with tree-sitter, and printing.
- `tests/` exercises the library on concrete values.
