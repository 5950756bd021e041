# compiler

A compiler for a small ML-like language to JavaScript, verified with Verus.

A program is one expression: numbers, `true`/`false`, variables,
`let x: t = e in e`, `fn x: t => e`, `if e then e else e`, application by
juxtaposition, `e; e`, prefix `-`, and the operators `+ - * /` and
`= != >= > <= <`.  Type annotations (`num` or `int`, `bool`, `unit`, `'a`,
`t -> t`) are optional.

The library (`src/`) goes through these stages, each with a contract over a
mathematical model:

- `lexer`: characters to tokens with their positions;
- `parser`: tokens to an expression tree, by precedence climbing;
- `decl`: declarations, `let name [: t] params = e` or an expression;
- `ast`: the tree lowered into an arena of nodes;
- `typecheck`: constraint typing and unification (most general unifiers);
- `cps`: conversion to continuation-passing style;
- `codegen`: JavaScript text;
- `node`, `wasm_glue`: the whole pipeline.

`persistent` declares the persistent hash sets and maps of the `im` crate
that the type checker uses; its items are trusted.

`app/` holds the read-eval-print loop, which runs the generated programs
with node, the terminal error reports, and the WebAssembly entry points.
