# arcb_stegano_trapdoor

A QC-MDPC Niederreiter key encapsulation mechanism (M = 16384, row weight 45,
error weight 134) with a steganographic layer that hides an AES-256-GCM
payload in decimal digits, written in Verus and verified.

Layout of `src/`:

- `ring.rs` — the model of R = GF(2)[x]/(x^M - 1) (sequences of M booleans)
  and its laws: commutativity, associativity, distributivity, identities,
  multiplicativity of the weight parity.
- `bits.rs` — bytes and 64-bit words as bit sequences.
- `units.rs` — the units of R: since M is a power of two, `1 + x` is
  nilpotent, and exactly the elements of odd weight are invertible.
- `polynomial.rs` — packed ring elements; every operation is specified over
  the model, inversion included (`a * a^-1 == 1`; an inverse is found
  exactly for the elements of odd weight).
- `gf2x.rs` — unbounded GF(2)[x] arithmetic (division, product, extended
  Euclid with its Bezout and degree invariants) and reduction modulo x^M - 1.
- `matrix.rs` — circulant blocks and the (constant-time) syndrome.
- `decoder.rs` — the BGF bit-flipping decoder, specified as a state machine.
- `utils.rs` — SHAKE-128 derivation of the secret blocks, girth screen.
- `keygen.rs` — key pairs (`h0 * p == h1`), weak-key screens (girth and
  trapping pairs within and across the two blocks), trial decodings.
- `kem.rs` — encapsulation, decapsulation with implicit rejection, the
  trapdoor and round-trip laws.
- `stego.rs` — the digit layer: a clear mask bit (a bit of the error)
  becomes a digit 0–7 carrying three payload bits, a set one a digit 8 or 9
  carrying one; the digits after the payload are uniform filler, tested by a
  chi-squared bound. Decoding reads the mask back from the large digits and
  opens the payload under the key of that error; the round trip is proved
  (`lemma_stego_roundtrip`).
- `source.rs` — random sources that record every value they hand out, and
  the partial Fisher-Yates shuffle; the functions that draw (errors,
  codewords, nonces, filler, padding, trial decodings) state their results
  as functions of the recorded draws.
- `primitives.rs` — the trusted contact points with `rand`, `getrandom`,
  `blake3`, `sha3`, `subtle`, `zeroize` and `aes-gcm`.

`app/` holds a displayable error type (`thiserror`) convertible to and from
the library's `ArcError`.
