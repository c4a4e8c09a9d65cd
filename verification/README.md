# wbte

Batch threshold encryption over BLS12-381, written in Rust and verified with Verus.

A batch of ciphertexts is decrypted at once: each server or party makes one share for the
whole batch, enough shares combine, and every slot opens. The library holds five schemes.

| module | scheme |
| --- | --- |
| `btx` | index-free: a ciphertext's slot is its place in the ordered batch |
| `pfe` | by partial fractions, for batches whose size is a power of two |
| `weighted_btx`, `weighted_btx_swapped` | shares spread over parties by weight, without indices |
| `weighted_indexed_bte` | shares spread by weight, ciphertexts that choose their index |
| `simple_bte` | index-free over arkworks, with hints that check a decryption without pairings |

## How it is laid out

- `algebra/` holds the mathematics: residues modulo the group order, sums and products, roots
  of unity, transforms, interpolation, polynomials and sums of reciprocals.
- `curve.rs` wraps the scalars, groups and pairing of `blstrs`; `simple_bte/ark.rs` those of
  arkworks. In contracts a scalar is a residue and a group element its discrete logarithm.
- `fft.rs`, `middle.rs`, `interpolation.rs`, `naf.rs`, `small.rs`, `points.rs`, `weighted.rs`
  and their neighbours are what the schemes share.
- Each scheme has its setup, encryption, proofs and decryption in modules of its own, and a
  module `laws` with what they promise together: that an honest share passes its check, that
  honest shares combine, and that opening gives back the message.

Functions that draw randomness come in two forms. One takes the random scalars as arguments
and has an exact contract; the other draws them. A source that is handed in keeps a record of
what it has yielded, and the contract says what comes of these draws; with the system's
randomness it says what holds whatever was drawn. A sampling loop that could run for ever is
bounded and reports `SamplingFailed`. A generator of one's own implements `ScalarGenerator`,
or `KeyGenerator` for `simple_bte`, and is wrapped in `Recorded`.

`app/` is ordinary Rust around the library: errors with `Display`, sources of randomness over
any cryptographic generator, copies of keys, ciphertexts and shares that `serde` can store, and
calls that panic where there is no result.
