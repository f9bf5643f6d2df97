# base85

Base85 encoding with the character set of RFC 1924, verified with Verus.

- `src/alphabet.rs`: the 85 characters and their digit values.
- `src/model.rs`: what the encoding of a byte sequence is and what decoding a
  text gives, as spec functions.
- `src/lengths.rs`, `src/encoder.rs`, `src/decoder.rs`: the executable
  functions, each proved against the model.
- `src/laws.rs`: decoding an encoding gives the data back; sizes; whitespace.
- `src/text.rs`: the two standard-library calls that the proofs take on trust.
- `app/`: the error type with its messages (`thiserror`).
