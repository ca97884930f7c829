# DEFLATE decoder

A decoder for the DEFLATE format (RFC 1951) written in Verus, with every
function of the decoder proved against a model of what it yields.

- `src/bits.rs` — reading a byte slice bit by bit, in either bit order.
- `src/tables.rs` — the length and distance tables.
- `src/huffman.rs` — canonical Huffman tables: building them from code
  lengths and looking codes up; laws on the codes.
- `src/model.rs` — the model: what decoding each kind of block, and a whole
  stream, yields, stated over sequences.
- `src/inflate.rs` — the decoder, proved to follow the model: `decode` and
  `decode_checked`.
- `src/laws.rs` — laws on whole inputs.
- `src/dump.rs` — reading the header and the code length codes of a block
  with dynamic codes, for inspection.
- `app/main.rs` — a program that prints that inspection for a sample block,
  with a trace of the bits each read takes.

The model has three outcomes: a finished run, a refusal, and a fault, where
the decoder would index out of a buffer or a table, read past the end of the
input, or overflow its arithmetic. `decode` is stated for the inputs that do
not fault; `decode_checked` reports faults too.

The blocks follow RFC 1951: every block writes its bytes after those of the
blocks before it, and back-references may reach into them; stored blocks
take their bytes from the input right after their length fields; extra bits
are read least significant bit first; the literal/length and distance code
lengths are one sequence, so a repeat may cross from one list into the
other. Three things are checked less or otherwise than a strict reader
would: a stored block's length is not compared with its complement, code
lengths that a repeat carries past the end of the two lists are dropped
rather than refused, and a repeat (symbol 16) before any code length has
been read is refused.
