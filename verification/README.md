# minivm

A stack-based bytecode virtual machine with an assembler and a disassembler,
written in Verus. The library under `src/` is verified; `app/` holds the
command-line program (`minivm asm`, `minivm run [--trace]`, `minivm dis`),
which only reads and writes files and prints what the library computes.

- `isa`: instructions, their byte encoding and decoding.
- `assembler`: assembly text to bytecode (`assemble_bytes`; `assemble` only checks).
- `disassembler`: bytecode to assembly text (`disassemble`).
- `bytecode`: the file format (magic, version, length, code).
- `vm`: the interpreter (`run`, `run_trace`, `run_file`) and its laws.
- `roundtrip`: assembling and disassembling undo each other.
- `text`, `numeral`: lines, words, and decimal/hexadecimal numerals.
