# lullaby_ir

The native back end of the Lullaby language: it lowers checked programs to x86-64 machine
code and writes COFF objects that a linker turns into Windows programs. All of it is written
in Verus; every executable function carries a contract, and nothing is taken on trust.

## Layout

The library lives in `src/`:

- `bytes`, `text`, `symbols`: little-endian fields, decimal numerals, the names a program
  links against.
- `x86`, `mnemonics`, `assembler`: instructions, their encodings, and programs put together
  from them with their references. `assembled` says which bytes a program is.
- `runtime` and its parts: the helper routines that go with a program: heap, reference
  counts, lists, maps, strings, conversions.
- `spelling`, `layout`, `resolve`, `signature`, `context`: types by their spelling, their
  words and offsets, and what a function knows of its locals.
- `init`, `aggregate`, `assign`, `arena`, `statement`, `function`, `emission`, `bytecode`:
  statements and functions, lowered to instructions. Expressions and compound statements come
  in with the code they were lowered to; the frame and the registers come in planned.
- `vector_patterns`, `vectorize`, `vector_loops`, `lanes`: loops that run two lanes at a time.
- `entry`, `image`, `object_model`, `neutral_object`, `program_object`, `coff`, `codeview`:
  from machine code to an object file with its symbols, relocations and line tables.
- `machine`, `linking`: a model of the processor that runs such programs, one routine or
  several that call each other.
- `behavior` and its parts: what the generated code does on that model, routine by routine.

Contracts come in two layers. A function that emits code promises exactly which instructions
it emits. The laws in `behavior` then say what these instructions do: that a string routine
builds the right text and touches nothing else, that the allocator hands out memory that
nobody holds, that a vectorized loop computes what the plain loop would.

The tests in `tests/` run the library on concrete programs and compare bytes.
