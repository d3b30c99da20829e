# pq_das

Data-availability sampling over the KoalaBear field and its quintic
extension: blobs are Reed-Solomon encoded at rate one half, cells of the
codeword matrix are hashed into row hashes and column Merkle trees, sampled
cell columns are opened and verified, and the blobs are reconstructed from
any sufficiently large set of opened columns.

`src/` is the verified library (Verus); `app/` is the command-line benchmark
driver around it; `tests/` exercises the library on concrete values.

## Hashing

All digests, row hashes and Merkle roots use Plonky3's Poseidon2 permutation
over KoalaBear of width 16 with the crate's default round constants
(`p3_koala_bear::default_koalabear_poseidon2_16`):

- two-to-one compression is `TruncatedPermutation` keeping 8 elements
  (`compress_pair` in `src/hashing.rs`);
- longer inputs go through the `PaddingFreeSponge` of width 16, rate 8 and
  output 8 (`hash_slice`).

These were chosen because they are the standard KoalaBear Poseidon2
instances with the digest size (8 field elements) and state width (16) the
commitment layout is built on. The library states nothing about the hash
beyond naming its result, so every proof holds for any permutation; but the
concrete digests and roots the library computes are those of this instance.
A deployment that relies on a differently parameterised Poseidon2 (other
round constants or another truncation) must replace these two wrappers, and
all digests and roots change with it.

The v3 Fiat-Shamir challenge uses SHA-256 from the `sha2` crate.

## Proving statements

The LeanVM guests themselves are not part of this crate, but the values
they are compiled and run with are: `compilation_values` and the
`read_only_data` functions (in `dbp_ext` and `v3_ext`) give the named
placeholder values, the outer Merkle level table and the read-only memory
of each guest, and `relay::commitment_relay` gives, for a supported
commitment-precompile profile (`vm_layout`), the exact order of digest
compressions and zero writes the precompile performs in memory. Run over
memory that holds the codewords a commitment was built from, that schedule
is proved to leave the commitment's root at the public root address
(`lemma_relay_yields_commitment_root`).
