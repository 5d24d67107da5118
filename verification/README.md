# water

Water is a small indentation-based scripting language. This crate holds its
pipeline, written and checked with Verus:

- `lexer`, `token`: source text to tokens, indentation to `Indent`/`Dedent`;
  the tokens are stated exactly (`lexer::lex_spec`);
- `token_stream`, `parser`, `ast`: tokens to a syntax tree. Every parse is
  proved free of panics and of running past its tokens; the tree itself is
  stated exactly for expressions of literals, names, prefix and binary
  operators, parentheses and assignments to a name (`parser::pexpr`), for
  call arguments (`parser::pargs`), for `if C then A else B`
  (`parser::then_else_parts`), for imports, `break` and `continue`, and for
  modules and blocks made of such expression lines (`parser::expr_lines`,
  `parser::block_lines`);
- `symbols`, `codegen`: register allocation and bytecode generation. All
  generated code is proved sound for the machine (`codegen::module_ok`);
  the code itself is stated exactly for names, literals, operators,
  assignments to names and conditionals (`codegen::expr_code`), and for
  modules of such statements (`codegen::stmts_code`);
- `pipeline`: what the parse of such expression lines compiles to, read off
  the tokens alone (`pipeline::law_parsed_lines_compile`), and that such a
  program prints nothing (`pipeline::law_expression_lines_print_nothing`);
  `compile_source` is proved to succeed on programs made of them, and
  `run_capturing` to give their (empty) output;
- `linker`: compiled modules into one program, stated exactly;
- `value`, `heap`, `vm`: tagged values, the object heap and the register
  machine, whose meaning is the spec function `vm::step`;
- `soundness`: what a compiled and linked program cannot do on the machine;
- `driver`: module loading (`ModuleLoader`), compiling, running;
- `diagnostics`, `display`, `format`: text renderings, stated exactly.

What a whole program prints is stated as the machine's output on the
compiled program (`driver::program_output`). Beyond the expression lines
above, which program a source compiles to, and so what it prints, is not
stated: calls (`println` among them), loops, functions, arrays and imports
are compiled with proved soundness but without an exact statement of
their code.

`app/main.rs` is the command-line program: it reads the program file and the
modules it imports from disk and streams the program's output.
