# qack

A compiler for the small Qa language: it turns a Qa program into a C program
and builds it with a C compiler.

- `src/` is the verified library (Verus):
  - `text.rs`: searching, splitting, trimming, replacing and joining
    character sequences, specified over `Seq<char>`;
  - `compiler.rs`: renaming of numeric names, statements, function blocks
    and whole programs, with `compiled(source, windows)` the C text of a
    program and `compile_ok(source)` when it can be compiled;
  - `preprocessor.rs`: file names, lines, `import` lines and comments;
  - `config.rs`: the run's settings and the binary's name;
  - `launch.rs`: temporary file names, C compiler arguments, run paths.
- `app/` is the command: argument parsing, the target platform, file reading with imports,
  running the C compiler and the binary.
- `tests/` runs the library on concrete programs.
