# sm4_ff1

FF1 format-preserving encryption (NIST SP 800-38G) over numeral strings, with the SM4 block
cipher of `neuedu-cryptos` as CIPH and `num-bigint` for the big-number arithmetic, verified
with Verus.

Layout of `src/`:

- `numeral.rs`: numeral strings and the numbers they denote (NUM, STR) with their lemmas.
- `bignat.rs`: natural numbers held as canonical big-endian bytes; each arithmetic operation
  is one call into `num-bigint`, stated over the numbers.
- `cipher.rs`: CIPH (one SM4 block) and PRF (CBC-MAC), over a named SM4 output.
- `radix.rs`: NUM_radix, STR_radix, NUM and fixed-length byte strings.
- `ff1.rs`: the specification of FF1 and `ff1_encrypt`, with the proofs that encryption keeps
  the length and the radix of its input and is one-to-one.
- `ff1error.rs`: the error type.

`app/` holds a copy of the error type with `thiserror` messages.

## A test case whose recorded value is not reproduced

The case with plaintext `620805`, key `"6666666600000000"`, tweak
`"4601000000004101LS6A2E0F4NA000030"`, radix 10, minlen 2, maxlen 100 and max_tlen 50 was
recorded with the expected ciphertext `003131`. With SM4 from neuedu-cryptos 0.6.3 (which
gives the SM4 standard test vector, see `ciph_matches_sm4_standard_vector`), FF1 as specified
gives `764998` for these inputs, and so does this library. The test `another_test` in
`tests/encrypt.rs` keeps the recorded inputs and value and asserts `764998`.
