# fennel-ls

A language server for Fennel. The library under `src/` is written in Verus: its
functions carry contracts, and Verus proves them. The exceptions are the wrappers
around outside crates and around parts of std that vstd does not specify
(`external_body`, `assume_specification`): Verus believes their contracts, and the
comment above each says what it claims.

- `lexer`, `number`, `parser`: source text to tokens, tokens to forms.
- `scoping`, `analyzer`, `walks`: definitions, references, scopes and warnings.
- `fmt`, `layout`, `reread`, `reformat`: the formatter. Its output lexes back to the
  tokens of the source, comments included, and is left as it is when formatted again
  (but where the output opens with a `#!` that the source did not have).
- `lua`, `lua_text`, `lua_to_fennel`: Lua modules, read with `full_moon`, as Fennel
  forms.
- `workspace`, `names`, `docs`, `builtin_counts`, `config`, `hooks`: open files,
  required modules, builtins, settings and macro hooks.
- `navigation`, `completion`, `diagnostics`, `calls`, `outline`, `semantic`,
  `actions`, `lenses`, `changes`: the answers to an editor.
- `text`, `strings`, `lsp`: positions, strings and plain protocol values.

`app/` is the program around the library: command line, files, the protocol, and
the Lua runtime that expands macros and runs hooks. `tests/` runs the library.
