# midencrypto

Cryptographic building blocks over the 64-bit prime field, verified with Verus:

- `felt`: field elements and their arithmetic.
- `rescue`: the RPO and RPX permutations, their sponges, digests and
  encodings.
- `blake`: BLAKE3 digests, computed by the `blake3` crate.
- `merkle`: node indices, paths, full and partial Merkle trees, a Merkle
  store, Merkle mountain ranges (full and partial), a sparse Merkle tree
  with batched updates that can be undone, and text renderings.
- `rand`: a pseudo-random coin over the RPO permutation.
- `utils`: little-endian byte encoding, hexadecimal text, and a map that
  records the original values it was asked about.
- `formatting`: documents, a pretty printer, and hexadecimal display.

`src/` is the verified library; `tests/` runs it; `app/` holds the
`Display` glue and the error types with their messages.
