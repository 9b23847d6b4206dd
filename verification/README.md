# ccjson

A JSON reader whose library is verified with Verus.

- `src/` is the library: tokens, numbers and strings, the reader, and proofs of what holds of every
  text. `JsonValue::build_from_string` reads a text; `JsonValue::checked_build_from_string` does so
  for every text, and also tells a token that the reader has no rule for.
- `app/` is the program that reads a file and prints its value. The library
  computes the bits of floating-point numbers, and the program makes numbers of them.
- `tests/` runs the library.
