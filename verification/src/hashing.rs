//! Poseidon2 digests over KoalaBear: the two-to-one compression, the
//! padding-free sponge, and the fixed-length compression chain built on them.
use crate::field::{all_fe, P};
use crate::DIGEST_LEN;
use p3_field::{PrimeCharacteristicRing, PrimeField32};
use p3_koala_bear::{default_koalabear_poseidon2_16, KoalaBear};
use p3_symmetric::{CryptographicHasher, PaddingFreeSponge, PseudoCompressionFunction, TruncatedPermutation};
use vstd::prelude::*;

verus! {

/// A Poseidon digest: eight canonical base-field elements.
pub type Digest = [u32; DIGEST_LEN];

/// What the width-16 Poseidon2 two-to-one compression returns on two digests.
pub uninterp spec fn poseidon_compress(left: Seq<u32>, right: Seq<u32>) -> Seq<u32>;

/// What the width-16 Poseidon2 padding-free sponge returns on a sequence of elements.
pub uninterp spec fn poseidon_sponge(input: Seq<u32>) -> Seq<u32>;

/// `TruncatedPermutation::compress` over the default KoalaBear width-16
/// Poseidon2 permutation: the first eight elements of the permuted
/// concatenation.  Trusted: the result is the named value of the two inputs and
/// is canonical (the crate returns canonical field elements).
#[verifier::external_body]
pub(crate) fn compress_pair(left: &Digest, right: &Digest) -> (r: Digest)
    ensures
        r@ == poseidon_compress(left@, right@),
        all_fe(r@),
{
    let compressor = TruncatedPermutation::<_, 2, 8, 16>::new(default_koalabear_poseidon2_16());
    let out: [KoalaBear; 8] = compressor.compress([left.map(KoalaBear::from_u32), right.map(KoalaBear::from_u32)]);
    out.map(|x| x.as_canonical_u32())
}

/// `PaddingFreeSponge::hash_slice` (width 16, rate 8, output 8) over the
/// default KoalaBear Poseidon2 permutation.  Trusted: the result is the named
/// value of the input and is canonical.
#[verifier::external_body]
pub(crate) fn hash_slice(input: &[u32]) -> (r: Digest)
    ensures
        r@ == poseidon_sponge(input@),
        all_fe(r@),
{
    let sponge = PaddingFreeSponge::<_, 16, 8, 8>::new(default_koalabear_poseidon2_16());
    let elements: Vec<KoalaBear> = input.iter().map(|&x| KoalaBear::from_u32(x)).collect();
    let out: [KoalaBear; 8] = sponge.hash_slice(&elements);
    out.map(|x| x.as_canonical_u32())
}

/// The views of a sequence of digests.
pub open spec fn dviews(v: Seq<Digest>) -> Seq<Seq<u32>> {
    v.map_values(|d: Digest| d@)
}

/// The all-zero digest.
pub open spec fn zero_view() -> Seq<u32> {
    seq![0u32, 0u32, 0u32, 0u32, 0u32, 0u32, 0u32, 0u32]
}

pub fn zero_digest() -> (r: Digest)
    ensures
        r@ == zero_view(),
        all_fe(r@),
{
    let r: Digest = [0u32, 0u32, 0u32, 0u32, 0u32, 0u32, 0u32, 0u32];
    assert(r@ =~= zero_view());
    r
}

/// Digest equality.
pub fn digest_eq(a: &Digest, b: &Digest) -> (r: bool)
    ensures
        r == (a@ == b@),
{
    let mut i: usize = 0;
    while i < DIGEST_LEN
        invariant
            i <= DIGEST_LEN,
            forall|j: int| 0 <= j < i ==> a@[j] == b@[j],
        decreases DIGEST_LEN - i,
    {
        if a[i] != b[i] {
            return false;
        }
        i = i + 1;
    }
    assert(a@ =~= b@);
    true
}

/// State of the compression chain after absorbing the first `n >= 2` chunks.
pub open spec fn chain_state(chunks: Seq<Seq<u32>>, n: nat) -> Seq<u32>
    decreases n,
{
    if n <= 2 {
        poseidon_compress(chunks[0], chunks[1])
    } else {
        poseidon_compress(chain_state(chunks, (n - 1) as nat), chunks[n - 1])
    }
}

/// The fixed-length compression-chain hash of a non-empty sequence of
/// digest-sized chunks: one chunk is compressed against the zero digest; two or
/// more are folded left to right starting from the first pair.
pub open spec fn chain_hash(chunks: Seq<Seq<u32>>) -> Seq<u32> {
    if chunks.len() == 1 {
        poseidon_compress(zero_view(), chunks[0])
    } else {
        chain_state(chunks, chunks.len())
    }
}

/// Splits a sequence of field elements into consecutive digest-sized chunks.
pub open spec fn chunks_of(data: Seq<u32>) -> Seq<Seq<u32>> {
    Seq::new(data.len() / 8, |i: int| data.subrange(8 * i, 8 * i + 8))
}

/// The compression chain over a non-empty list of digests.
pub fn compression_chain(chunks: &Vec<Digest>) -> (r: Digest)
    requires
        chunks.len() >= 1,
    ensures
        r@ == chain_hash(dviews(chunks@)),
        all_fe(r@),
{
    let ghost cv = dviews(chunks@);
    if chunks.len() == 1 {
        let z = zero_digest();
        return compress_pair(&z, &chunks[0]);
    }
    let mut state = compress_pair(&chunks[0], &chunks[1]);
    let mut i: usize = 2;
    while i < chunks.len()
        invariant
            2 <= i <= chunks.len(),
            cv == dviews(chunks@),
            state@ == chain_state(cv, i as nat),
            all_fe(state@),
        decreases chunks.len() - i,
    {
        state = compress_pair(&state, &chunks[i]);
        i = i + 1;
    }
    state
}

/// The digest-sized chunk of `data` that starts at `offset`.
pub fn digest_at(data: &[u32], offset: usize) -> (r: Digest)
    requires
        offset + 8 <= data.len(),
    ensures
        r@ == data@.subrange(offset as int, offset + 8),
{
    let r: Digest = [
        data[offset],
        data[offset + 1],
        data[offset + 2],
        data[offset + 3],
        data[offset + 4],
        data[offset + 5],
        data[offset + 6],
        data[offset + 7],
    ];
    assert(r@ =~= data@.subrange(offset as int, offset + 8));
    r
}

/// Hashes field data as a fixed-length chain of Poseidon16 compression calls.
pub fn fixed_compression_hash(data: &[u32]) -> (r: Digest)
    requires
        data.len() >= 8,
        data.len() % 8 == 0,
    ensures
        r@ == chain_hash(chunks_of(data@)),
        all_fe(r@),
{
    let ghost cv = chunks_of(data@);
    let n = data.len() / 8;
    let first = digest_at(data, 0);
    if n == 1 {
        let z = zero_digest();
        return compress_pair(&z, &first);
    }
    let second = digest_at(data, 8);
    let mut state = compress_pair(&first, &second);
    let mut i: usize = 2;
    while i < n
        invariant
            2 <= i <= n,
            n == data.len() / 8,
            data.len() % 8 == 0,
            cv == chunks_of(data@),
            state@ == chain_state(cv, i as nat),
            all_fe(state@),
        decreases n - i,
    {
        let chunk = digest_at(data, 8 * i);
        state = compress_pair(&state, &chunk);
        i = i + 1;
    }
    state
}

} // verus!
