# rspirv

A parser of SPIR-V binaries, verified with Verus.

The parser reads the header and the instructions of a module and sends them, one
after another, to a consumer, which can stop the parsing after each of them. What
it knows of the instruction set is data: a `Grammar` says which logical operands
each instruction takes, and which values and parameters each enumeration has.

## Layout

- `src/spirv.rs`, `src/version.rs`: words, the magic number, version words.
- `src/grammar.rs`: instructions, operands and enumerations as data.
- `src/decoder.rs`: words, literals, strings and enumerants.
- `src/mr.rs`: headers, instructions and operands as values.
- `src/tracker.rs`: the numeric types that instructions declare.
- `src/syntax.rs`: what the header, an instruction and a module are, as functions
  of the grammar and the bytes. The contracts speak of these.
- `src/reader.rs`: reads headers and instructions.
- `src/consumer.rs`, `src/state.rs`: who receives a module, and how parsing ends.
- `src/parser.rs`: leads a consumer through a binary.
- `src/laws/`: what holds of the library as a whole.
  - `protocol.rs`: which calls a consumer gets, and in which order.
  - `header.rs`: words and headers.
  - `locations.rs`: which errors are reported, and where they are located.
  - `locality.rs`: an instruction depends on its own words alone.
  - `encoding.rs`: the words of an instruction can be had from it.
  - `conformance.rs`, `completeness.rs`: what is parsed conforms to the grammar, and
    what conforms is parsed.
  - `module.rs`: a module that was written down is parsed as it was.
- `app/`: `Display`, `Error` and `AsRef` around the library.

A consumer states in `Consumer::answers` what it promises of its answers, and the
contracts of the parser then say what becomes of it. One that states nothing there
promises nothing.

Floating-point literals are kept as their bits. The only thing taken on trust is
that `String::from_utf8` accepts exactly the well-formed UTF-8 and decodes it.
