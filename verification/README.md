# hank

The Hank scripting language as a verified library: its lexer, its parser, its
error messages and its interpreter are proved against specifications with
Verus; what is around them (the arithmetic of the native modules on
floating-point numbers, input and output, the loading of scripts) is ordinary
Rust.

## Layout

- `src/` — the verified library.
  - `lexer.rs`: source text to tokens; `lex` is the specification, with laws
    on the shape of the token list.
  - `parser_spec.rs`: the grammar as functions on token lists;
    `parser.rs`, `parse_stmt.rs`, `parse_expr.rs`, `parse_lit.rs`: the
    recursive-descent parser proved against it, including the answers of the
    macro resolver that `@ "path"` consults.
  - `ast.rs`: the syntax tree and its plain-value view; `types.rs`: tokens'
    positions, error codes, value kinds.
  - `error_registry.rs`: message templates and error rendering.
  - `scope.rs`: variable scopes as frames with parents, with the laws a
    read gives back of a write.
  - `interp.rs`: how a call binds parameters, what a block hoists, what a
    unary operator does.
  - `runtime.rs`: the interpreter's state: scopes and the store of texts,
    arrays, objects, tasks and errors that values refer to, and the `Host`
    interface that runs native tasks.
  - `eval_spec.rs`: what evaluation computes, as functions on plain values,
    given the host's answers to the native calls; `eval.rs`: the evaluator,
    proved to compute it whatever the host answers.
  - `runner.rs`: the loading of scripts: the cache of syntax trees by
    resource id and the stack of the resources being loaded, with the laws
    that a load after a finished one is served from the cache; a circular
    include refused, load and content errors mapped.
  - `natives.rs`: the standard library tasks that need no number
    arithmetic: `logic.and`/`or`, the array and object tasks (`arr.each`
    proved against the evaluator's specification), the structural part of
    value equality (symmetric in every state), and the choice `regex.match`
    makes.
  - `json.rs`: the `json` module: JSON as a value of the library, the
    mapping to runtime values and back, over `serde_json`.
  - `platform.rs`: the integer core of the `bin` module.
  - `stdlib.rs`: `str.format` and the `regex` module over `regex_lite`.
  - `text.rs`: character classes, replacement, trimming, file stems.
- `app/` — the host: the native tasks that compute on floats or do input
  and output, the rendering of values in messages, the runner's resource
  handling, the host extensions, and the browser runner.
- `tests/` — tests of the library on concrete values.
