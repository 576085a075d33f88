# quant_algos

Regev's Learning With Errors public-key cryptosystem and the pieces it is built
on, written in Verus and verified.

- `src/zq.rs`: arithmetic in Z_q over `u32`/`u64` limbs, dot products and vector sums.
- `src/ring.rs`: R_q = Z_q[x]/(x^n+1) (negacyclic multiplication), and the
  encoding of bits into ring coefficients.
- `src/ring_laws.rs`: associativity of the ring multiplication.
- `src/bitcodec.rs`: bit-string encodings of unsigned integers and strings.
- `src/lib.rs`: the LWE key pair, encryption of a bit under a chosen mask,
  decryption of bits and of encoded values.
- `src/correctness.rs`: decryption recovers the encrypted bit whenever the
  selected errors are small.
- `src/text.rs`: decimal text of integers and bracketed lists, used for the
  text of elements, ring elements and key pairs, and for decoding errors.
- `src/analysis.rs`: primality, the search for a prime modulus, key sizes.
- `app/`: drawing the random samples (uniform values, Gaussian errors, masks)
  with `rand` and `rand_distr`, and the simulation program.
