# ty_async

A linter for Python sources, verified with Verus. It implements
flake8-async's ASYNC200 check (user-configured blocking calls inside
`async def` bodies), with an optional standard-library preset of blocking
calls and a transitive mode that follows calls through synchronous
helpers, and three "type escape hatch" rules: `no-getattr` (bare
`getattr()`/`hasattr()` calls), `no-any` (`Any` inside an annotation) and
`no-object` (`object` inside an annotation).

## Layout

- `src/` is the verified library.
  - `glob.rs`: fnmatch-style matching (`*` crosses dots, `?` is one byte,
    anchored at both ends), proved against a recursive definition.
  - `ast.rs`: the parts of a Python syntax tree that the rules read, and the
    text a callee is matched against.
  - `checker.rs`: the walk over the tree; every finding of a module is given
    by `stmts_diags`.
  - `separation.rs`: the two rule families do not affect each other; a
    `lambda` resets the async context; awaited calls are exempt.
  - `comments.rs`: `# noqa` and `# lint-ignore:` comments.
  - `report.rs`: lines, columns and messages, with suppression applied.
  - `callgraph.rs`: the functions of a program and the calls made directly
    in their bodies.
  - `resolve.rs`: resolving a call by its callee's name (same class, then
    same file, then the whole program; ambiguous names resolve to nothing).
  - `evidence.rs`: the search for synchronous functions that reach a
    blocking call, proved to find exactly those.
  - `transitive.rs`: the transitive mode, which reports calls in async
    functions that lead to a blocking call through synchronous helpers.
  - `preset.rs`: the standard-library preset of blocking calls.
  - `cli.rs`: the command line.
  - `files.rs`: exclude patterns and the `.py` extension.
  - `order.rs`: the printing order (a stable sort by path components,
    line, column and message).
- `app/` reads files, parses them with ruff's parser, turns ruff's tree
  into the library's tree, and prints.
- `tests/` exercise the library on concrete inputs.
