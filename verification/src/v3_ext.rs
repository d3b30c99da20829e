//! The extension-field scheme whose public commitment is the column root
//! plus one final root over the row root and the column root; openings share
//! one Merkle multiproof, and the Fiat-Shamir challenge is expanded with
//! SHA-256.
pub use crate::codec::ExtErasureDecoder;
pub use crate::dbp_ext::{column_merkle_depth, padded_rows, ExtAuxiliaryData, ExtBenchmarkTimings};
pub use crate::layout::{cell_hash, demo_data, physical_to_logical};
pub use crate::profile::ExtProfile;
use crate::codec::{codec_ok, encode_logical, is_physical_rs_codeword};
use crate::commit::{
    cell_digest_columns, cell_of, codewords_shape, column_leaves, column_roots_of, lemma_cell_geometry, row_cells,
    row_chain,
};
use crate::dbp_ext::{
    count_opened, aux_consistent, cells_of, check_query_indices, decodes_openings, distinct_indices, lemma_threshold_bounds,
    padded_leaves, row_hashes_of, threshold,
};
use crate::field::{all_ext_wf, all_fe, ext_of_coords, ext_zero, Ext, P};
use crate::hashing::{chain_hash, compress_pair, dviews, poseidon_compress, zero_digest, Digest};
use crate::dbp_ext::opened_leaves;
use crate::layout::flat;
use crate::multiproof::{multiproof_of, multiproof_root, outer_merkle_multiproof, sorted_of, verify_outer_merkle_multiproof};
use crate::merkle::{is_pow2, layer_at, log2, merkle_layers, merkle_root, merkle_root_in_place};
use crate::permute::logical_to_physical_in_place;
use crate::poly::padded_len;
use crate::profile::{fs_block, fs_block_of, profile_block_of};
use crate::rs_check::{challenge_on_domain, check_entry, check_vector_for_challenge, denominators_of, prefix_prod};
use crate::index_set::{empty_index_set, insert_index};
use crate::sampling::{picked, sample_from_root};
use crate::{DemoError, DIGEST_LEN};
use sha2::{Digest as ShaDigest, Sha256};
use vstd::prelude::*;

verus! {

/// The public commitment: the profile, the row hashes, the column root, and
/// the final root over the row root and the column root.
#[derive(Clone, Debug, PartialEq, Eq)]
pub struct ExtCommitment {
    pub profile: ExtProfile,
    pub row_hashes: Vec<Digest>,
    pub root_col: Digest,
    pub root: Digest,
}

/// One opened cell column: the cell of every row, as base-field coordinates.
#[derive(Clone, Debug, PartialEq, Eq)]
pub struct ExtCellOpening {
    pub index: usize,
    pub cells: Vec<Vec<u32>>,
}

/// The openings answering one query and their shared column-root multiproof.
#[derive(Clone, Debug, PartialEq, Eq)]
pub struct ExtTranscript {
    pub openings: Vec<ExtCellOpening>,
    pub outer_multiproof: Vec<Digest>,
}

/// The root of the row tree: the row hashes padded with zero digests.
pub open spec fn row_root_of(c: ExtCommitment) -> Seq<u32> {
    merkle_root(padded_leaves(dviews(c.row_hashes@), padded_len(c.profile.n as nat)))
}

/// The final root that the row hashes and the column root determine.
pub open spec fn final_root_of(c: ExtCommitment) -> Seq<u32> {
    poseidon_compress(row_root_of(c), c.root_col@)
}

/// The row hashes padded with zero digests to a power of two.
fn padded_row_leaves(hashes: &Vec<Digest>, n_padded: usize) -> (r: Vec<Digest>)
    requires
        hashes.len() <= n_padded,
    ensures
        r.len() == n_padded,
        dviews(r@) == padded_leaves(dviews(hashes@), n_padded as nat),
{
    let mut leaves: Vec<Digest> = Vec::new();
    let mut r: usize = 0;
    while r < n_padded
        invariant
            r <= n_padded,
            hashes.len() <= n_padded,
            leaves.len() == r,
            forall|j: int| 0 <= j < r ==> #[trigger] leaves@[j]@ == padded_leaves(dviews(hashes@), n_padded as nat)[j],
        decreases n_padded - r,
    {
        if r < hashes.len() {
            leaves.push(hashes[r]);
        } else {
            leaves.push(zero_digest());
        }
        r = r + 1;
    }
    assert(dviews(leaves@) =~= padded_leaves(dviews(hashes@), n_padded as nat));
    leaves
}

impl ExtCommitment {
    /// The root of the row tree; `None` unless there is one hash per row.
    pub fn recompute_row_root(&self) -> (r: Option<Digest>)
        requires
            self.profile.n <= usize::MAX / 2 + 1,
        ensures
            r is Some <==> self.row_hashes.len() == self.profile.n,
            r matches Some(d) ==> d@ == row_root_of(*self),
    {
        if self.row_hashes.len() != self.profile.n {
            return None;
        }
        let n_padded = padded_rows(self.profile);
        let leaves = padded_row_leaves(&self.row_hashes, n_padded);
        Some(merkle_root_in_place(leaves.as_slice()))
    }

    /// The final root that the row hashes and the column root determine;
    /// `None` unless there is one hash per row.
    pub fn recompute_root(&self) -> (r: Option<Digest>)
        requires
            self.profile.n <= usize::MAX / 2 + 1,
        ensures
            r is Some <==> self.row_hashes.len() == self.profile.n,
            r matches Some(d) ==> d@ == final_root_of(*self),
    {
        match self.recompute_row_root() {
            None => None,
            Some(row_root) => Some(compress_pair(&row_root, &self.root_col)),
        }
    }

    /// The commitment with its final root recomputed.  `InvalidDataShape`
    /// unless there is one hash per row.
    pub fn normalize(self) -> (r: Result<ExtCommitment, DemoError>)
        requires
            self.profile.n <= usize::MAX / 2 + 1,
        ensures
            r is Err <==> self.row_hashes.len() != self.profile.n,
            r matches Err(e) ==> e == DemoError::InvalidDataShape,
            r matches Ok(c) ==> c.profile == self.profile && c.row_hashes@ == self.row_hashes@ && c.root_col == self.root_col
                && c.root@ == final_root_of(self),
    {
        match self.recompute_root() {
            None => Err(DemoError::InvalidDataShape),
            Some(root) => {
                let mut c = self;
                c.root = root;
                Ok(c)
            },
        }
    }
}

/// Encodes one blob and leaves the codeword in physical cell order.
pub fn encode_blob(profile: ExtProfile, blob: &Vec<Ext>) -> (r: Vec<Ext>)
    requires
        codec_ok(profile),
        blob.len() == profile.k,
        all_ext_wf(blob@),
    ensures
        is_physical_rs_codeword(blob@, profile.k as int, profile.m as nat, r@),
        all_ext_wf(r@),
{
    let mut codeword = encode_logical(profile.m, profile.k, blob);
    let ghost logical = codeword@;
    logical_to_physical_in_place(profile, &mut codeword);
    proof {
        assert forall|j: int| 0 <= j < profile.m implies #[trigger] codeword@[j].wf() by {
            crate::layout::lemma_layout_bijection(profile.k as int, j);
            assert(codeword@[j] == logical[crate::layout::p2l(profile.k as int, j)]);
        }
        assert forall|j: int, d: int| 0 <= j < profile.m && 0 <= d < 5 implies #[trigger] codeword@[j].coords()[d]
            == crate::ntt::peval(
            crate::codec::coord(blob@, d),
            crate::field::fpow(crate::ntt::subgroup_root(profile.m as nat), crate::layout::p2l(profile.k as int, j) as nat),
            blob@.len(),
        ) by {
            crate::layout::lemma_layout_bijection(profile.k as int, j);
            assert(codeword@[j] == logical[crate::layout::p2l(profile.k as int, j)]);
        }
    }
    codeword
}

/// Encodes every blob, in physical cell order.
pub fn encode(profile: ExtProfile, data: &Vec<Vec<Ext>>) -> (r: Vec<Vec<Ext>>)
    requires
        codec_ok(profile),
        data.len() == profile.n,
        forall|i: int| 0 <= i < data.len() ==> (#[trigger] data@[i]).len() == profile.k && all_ext_wf(data@[i]@),
    ensures
        codewords_shape(r@, profile.n as nat, profile.m as nat),
        forall|row: int| 0 <= row < profile.n ==> is_physical_rs_codeword(
            data@[row]@,
            profile.k as int,
            profile.m as nat,
            #[trigger] r@[row]@,
        ),
{
    let mut out: Vec<Vec<Ext>> = Vec::new();
    let mut i: usize = 0;
    while i < data.len()
        invariant
            i <= data.len(),
            codec_ok(profile),
            data.len() == profile.n,
            forall|j: int| 0 <= j < data.len() ==> (#[trigger] data@[j]).len() == profile.k && all_ext_wf(data@[j]@),
            out.len() == i,
            forall|j: int| 0 <= j < i ==> (#[trigger] out@[j]).len() == profile.m && all_ext_wf(out@[j]@),
            forall|j: int| 0 <= j < i ==> is_physical_rs_codeword(
                data@[j]@,
                profile.k as int,
                profile.m as nat,
                #[trigger] out@[j]@,
            ),
        decreases data.len() - i,
    {
        let row = encode_blob(profile, &data[i]);
        out.push(row);
        i = i + 1;
    }
    out
}

/// Encodes the data, hashes every cell, and builds the row hashes, the
/// column roots, the column root and the final root.  `InvalidDataShape`
/// when the profile is invalid or the data is not `n` blobs of `k`
/// coefficients.
pub fn encode_and_commit(profile: ExtProfile, data: &Vec<Vec<Ext>>) -> (r: Result<(ExtCommitment, ExtAuxiliaryData), DemoError>)
    requires
        profile.n <= usize::MAX / 2 + 1,
        forall|i: int| 0 <= i < data.len() ==> all_ext_wf(#[trigger] data@[i]@),
    ensures
        r is Err <==> !profile.is_valid() || data.len() != profile.n
            || exists|i: int| 0 <= i < data.len() && (#[trigger] data@[i]).len() != profile.k,
        r matches Err(e) ==> e == DemoError::InvalidDataShape,
        r matches Ok((c, aux)) ==> {
            &&& aux.profile == profile
            &&& aux_consistent(aux)
            &&& c.profile == profile
            &&& crate::dbp_ext::encodes_to(profile, crate::dbp_ext::rows_view(data@), aux.codewords@)
            &&& dviews(c.row_hashes@) == row_hashes_of(aux.codewords@, profile)
            &&& c.root_col@ == merkle_root(dviews(aux.column_roots@))
            &&& c.root@ == final_root_of(c)
        },
{
    match profile.validate() {
        Err(e) => return Err(e),
        Ok(()) => {},
    }
    if data.len() != profile.n {
        return Err(DemoError::InvalidDataShape);
    }
    let mut i: usize = 0;
    while i < data.len()
        invariant
            i <= data.len(),
            forall|j: int| 0 <= j < i ==> (#[trigger] data@[j]).len() == profile.k,
        decreases data.len() - i,
    {
        if data[i].len() != profile.k {
            return Err(DemoError::InvalidDataShape);
        }
        i = i + 1;
    }
    let codewords = encode(profile, data);
    let n_padded = padded_rows(profile);
    let columns = cell_digest_columns(profile, &codewords, n_padded);
    let t = profile.reconstruction_threshold_cells();
    proof {
        lemma_threshold_bounds(profile);
    }
    let ghost cw = codewords@;
    let mut row_hashes: Vec<Digest> = Vec::new();
    let mut row: usize = 0;
    while row < profile.n
        invariant
            row <= profile.n,
            n_padded >= profile.n,
            cw == codewords@,
            1 <= t <= columns.len(),
            t == threshold(profile),
            columns.len() == profile.m / profile.c,
            forall|cell: int| 0 <= cell < columns.len() ==> (#[trigger] columns@[cell]).len() == n_padded
                && dviews(columns@[cell]@) == column_leaves(cw, cell, profile.c as int, n_padded as nat),
            codewords_shape(cw, profile.n as nat, profile.m as nat),
            row_hashes.len() == row,
            forall|j: int| 0 <= j < row ==> #[trigger] row_hashes@[j]@ == chain_hash(row_cells(cw, j, profile.c as int, t as nat)),
        decreases profile.n - row,
    {
        let h = row_chain(&columns, row, t);
        proof {
            assert forall|cell: int| 0 <= cell < t implies #[trigger] columns@[cell]@[row as int]@ == row_cells(cw, row as int, profile.c as int, t as nat)[cell] by {
                assert(dviews(columns@[cell]@)[row as int] == column_leaves(cw, cell, profile.c as int, n_padded as nat)[row as int]);
            }
            assert(Seq::new(t as nat, |cell: int| columns@[cell]@[row as int]@) =~= row_cells(cw, row as int, profile.c as int, t as nat));
        }
        row_hashes.push(h);
        row = row + 1;
    }
    let row_leaves = padded_row_leaves(&row_hashes, n_padded);
    let row_root = merkle_root_in_place(row_leaves.as_slice());
    let mut roots: Vec<Digest> = Vec::new();
    let mut cell: usize = 0;
    while cell < columns.len()
        invariant
            cell <= columns.len(),
            is_pow2(n_padded as nat),
            forall|j: int| 0 <= j < columns.len() ==> (#[trigger] columns@[j]).len() == n_padded
                && dviews(columns@[j]@) == column_leaves(cw, j, profile.c as int, n_padded as nat),
            roots.len() == cell,
            forall|j: int| 0 <= j < cell ==> #[trigger] roots@[j]@ == merkle_root(column_leaves(cw, j, profile.c as int, n_padded as nat)),
        decreases columns.len() - cell,
    {
        roots.push(merkle_root_in_place(columns[cell].as_slice()));
        cell = cell + 1;
    }
    proof {
        assert(dviews(roots@) =~= column_roots_of(cw, cells_of(profile), profile.c as int, padded_len(profile.n as nat)));
        assert(dviews(row_hashes@) =~= row_hashes_of(cw, profile));
        crate::poly::lemma_small_pow2_len(profile.m as nat);
    }
    let layers = merkle_layers(&roots);
    let top = layers.len() - 1;
    let root_col = layers[top][0];
    let root = compress_pair(&row_root, &root_col);
    let commitment = ExtCommitment { profile, row_hashes, root_col, root };
    let aux = ExtAuxiliaryData { profile, codewords, column_roots: roots, outer_merkle_layers: layers };
    Ok((commitment, aux))
}

/// Samples cell columns from the commitment's recomputed final root.
/// `InvalidQuery` when `count` is zero or exceeds the number of cell
/// columns; `InvalidDataShape` when there is not one row hash per row.
/// With more than `P` columns no candidate is ever accepted, so such a
/// request is left out.
pub fn sample_query_indices(commitment: &ExtCommitment, randomness: &Digest, count: usize) -> (r: Result<Vec<usize>, DemoError>)
    requires
        commitment.profile.c > 0,
        count == 0 || count > cells_of(commitment.profile) || cells_of(commitment.profile) <= P,
        commitment.profile.n <= usize::MAX / 2 + 1,
    ensures
        count == 0 || count > cells_of(commitment.profile) ==> r == Err::<Vec<usize>, DemoError>(DemoError::InvalidQuery),
        1 <= count <= cells_of(commitment.profile) && commitment.row_hashes.len() != commitment.profile.n
            ==> r == Err::<Vec<usize>, DemoError>(DemoError::InvalidDataShape),
        r matches Ok(v) ==> v.len() == count
            && exists|s: nat| v@ == #[trigger] picked(final_root_of(*commitment), randomness@, cells_of(commitment.profile), s),
        r matches Ok(v) ==> distinct_indices(v@, cells_of(commitment.profile)),
        r matches Err(e) ==> e == DemoError::InvalidDataShape || e == DemoError::InvalidQuery,
        r matches Err(e) ==> count == 0 || count > cells_of(commitment.profile) || commitment.row_hashes.len()
            != commitment.profile.n || forall|s: nat| s <= 8 * (usize::MAX as nat) ==> #[trigger] picked(
            final_root_of(*commitment),
            randomness@,
            cells_of(commitment.profile),
            s,
        ).len() < count,
{
    let n_cells = commitment.profile.n_cells();
    if count == 0 || count > n_cells {
        return Err(DemoError::InvalidQuery);
    }
    let root = match commitment.recompute_root() {
        None => return Err(DemoError::InvalidDataShape),
        Some(root) => root,
    };
    assert(root@ == final_root_of(*commitment));
    match sample_from_root(n_cells, &root, randomness, count) {
        None => Err(DemoError::InvalidQuery),
        Some(v) => {
            proof {
                let s = choose|s: nat| v@ == #[trigger] picked(root@, randomness@, n_cells as nat, s);
                assert(v@ == picked(final_root_of(*commitment), randomness@, cells_of(commitment.profile), s));
            }
            Ok(v)
        },
    }
}

} // verus!

verus! {

/// What `Sha256::digest` returns on a byte string.
pub uninterp spec fn sha256_of(data: Seq<u8>) -> Seq<u8>;

/// `Sha256::digest` of the `sha2` crate: the SHA-256 hash of the bytes.
/// Trusted: the result is the named hash of the argument, thirty-two bytes
/// as the array type says.  Nothing more of the hash is stated.
#[verifier::external_body]
fn sha256_digest(data: &[u8]) -> (r: [u8; 32])
    ensures
        r@ == sha256_of(data@),
{
    let out = Sha256::digest(data);
    let mut r = [0u8; 32];
    r.copy_from_slice(out.as_slice());
    r
}

/// The domain tag of the SHA-256 Fiat-Shamir transcript.
pub open spec fn fs_domain() -> Seq<u8> {
    seq![
        0x50u8, 0x51u8, 0x2du8, 0x44u8, 0x41u8, 0x53u8, 0x2du8, 0x53u8, 0x48u8, 0x41u8, 0x32u8, 0x35u8, 0x36u8,
        0x2du8, 0x52u8, 0x53u8, 0x2du8, 0x43u8, 0x48u8, 0x45u8, 0x43u8, 0x4bu8, 0x2du8, 0x76u8, 0x31u8,
    ]
}

/// The tag that separates expansion blocks from the transcript itself.
pub open spec fn expand_tag() -> Seq<u8> {
    seq![0x3au8, 0x65u8, 0x78u8, 0x70u8, 0x61u8, 0x6eu8, 0x64u8]
}

/// The little-endian bytes of a 32-bit word.
pub open spec fn le32(x: u32) -> Seq<u8> {
    seq![(x % 256) as u8, ((x / 256) % 256) as u8, ((x / 65536) % 256) as u8, (x / 16777216) as u8]
}

/// The little-endian bytes of every word, in order.
pub open spec fn le32_words(v: Seq<u32>) -> Seq<u8>
    decreases v.len(),
{
    if v.len() == 0 {
        seq![]
    } else {
        le32_words(v.drop_last()) + le32(v.last())
    }
}

/// The SHA-256 Fiat-Shamir transcript of a commitment: the domain tag, then
/// the domain block, the profile block and the final root as words.
pub open spec fn fs_transcript(c: ExtCommitment) -> Seq<u8> {
    fs_domain() + le32_words(fs_block_of()) + le32_words(profile_block_of(c.profile)) + le32_words(c.root@)
}

/// The input of expansion block `counter`.
pub open spec fn expand_input(t: Seq<u8>, counter: nat) -> Seq<u8> {
    fs_domain() + expand_tag() + le32(counter as u32) + t
}

/// The little-endian word at byte offset `off`.
pub open spec fn le32_at(b: Seq<u8>, off: int) -> int {
    b[off] + 256 * b[off + 1] + 65536 * b[off + 2] + 16777216 * b[off + 3]
}

/// The `s`-th candidate word: word `s % 8` of expansion block `s / 8`.
pub open spec fn expand_candidate(t: Seq<u8>, s: nat) -> int {
    le32_at(sha256_of(expand_input(t, s / 8)), 4 * (s % 8) as int)
}

/// The field elements accepted among the first `s` candidates: those below `P`.
pub open spec fn expanded(t: Seq<u8>, s: nat) -> Seq<u32>
    decreases s,
{
    if s == 0 {
        seq![]
    } else {
        let prev = expanded(t, (s - 1) as nat);
        let v = expand_candidate(t, (s - 1) as nat);
        if v < P {
            prev.push(v as u32)
        } else {
            prev
        }
    }
}

/// The accepted elements only grow, each list extending the earlier ones.
pub proof fn lemma_expanded_prefix(t: Seq<u8>, s1: nat, s2: nat)
    requires
        s1 <= s2,
    ensures
        expanded(t, s1).len() <= expanded(t, s2).len(),
        expanded(t, s1) == expanded(t, s2).subrange(0, expanded(t, s1).len() as int),
    decreases s2 - s1,
{
    if s1 < s2 {
        lemma_expanded_prefix(t, s1, (s2 - 1) as nat);
        let a = expanded(t, s1);
        let b = expanded(t, (s2 - 1) as nat);
        let c = expanded(t, s2);
        assert(b == c.subrange(0, b.len() as int));
        assert(a == c.subrange(0, a.len() as int)) by {
            assert(a =~= c.subrange(0, a.len() as int));
        }
    }
}

/// The first `count` accepted elements.
pub open spec fn fs_elements(t: Seq<u8>, count: nat) -> Seq<u32> {
    expanded(t, choose|s: nat| #[trigger] expanded(t, s).len() == count)
}

/// Any point of the expansion with `count` elements gives `fs_elements`.
pub proof fn lemma_fs_elements(t: Seq<u8>, count: nat, s: nat)
    requires
        expanded(t, s).len() == count,
    ensures
        fs_elements(t, count) == expanded(t, s),
{
    let s2 = choose|s: nat| #[trigger] expanded(t, s).len() == count;
    assert(expanded(t, s2).len() == count);
    if s <= s2 {
        lemma_expanded_prefix(t, s, s2);
    } else {
        lemma_expanded_prefix(t, s2, s);
    }
}

/// The domain tag.
fn push_fs_domain(out: &mut Vec<u8>)
    ensures
        final(out)@ == old(out)@ + fs_domain(),
{
    let tag: [u8; 25] = [
        0x50u8, 0x51u8, 0x2du8, 0x44u8, 0x41u8, 0x53u8, 0x2du8, 0x53u8, 0x48u8, 0x41u8, 0x32u8, 0x35u8, 0x36u8,
        0x2du8, 0x52u8, 0x53u8, 0x2du8, 0x43u8, 0x48u8, 0x45u8, 0x43u8, 0x4bu8, 0x2du8, 0x76u8, 0x31u8,
    ];
    assert(tag@ =~= fs_domain());
    let mut i: usize = 0;
    while i < 25
        invariant
            i <= 25,
            tag@ == fs_domain(),
            out@ == old(out)@ + fs_domain().subrange(0, i as int),
        decreases 25 - i,
    {
        out.push(tag[i]);
        proof {
            assert(fs_domain().subrange(0, i + 1) =~= fs_domain().subrange(0, i as int).push(tag@[i as int]));
        }
        i = i + 1;
    }
    assert(fs_domain().subrange(0, 25) =~= fs_domain());
}

/// Appends the little-endian bytes of a word.
fn push_le32(out: &mut Vec<u8>, x: u32)
    ensures
        final(out)@ == old(out)@ + le32(x),
{
    out.push((x % 256) as u8);
    out.push(((x / 256) % 256) as u8);
    out.push(((x / 65536) % 256) as u8);
    out.push((x / 16777216) as u8);
    assert(out@ =~= old(out)@ + le32(x));
}

/// Appends the little-endian bytes of every word of a block.
fn push_le32_block(out: &mut Vec<u8>, block: &[u32; 8])
    ensures
        final(out)@ == old(out)@ + le32_words(block@),
{
    let mut i: usize = 0;
    while i < 8
        invariant
            i <= 8,
            out@ == old(out)@ + le32_words(block@.subrange(0, i as int)),
        decreases 8 - i,
    {
        push_le32(out, block[i]);
        proof {
            assert(block@.subrange(0, i + 1).drop_last() =~= block@.subrange(0, i as int));
        }
        i = i + 1;
    }
    assert(block@.subrange(0, 8) =~= block@);
}

/// The SHA-256 Fiat-Shamir transcript of a commitment.
pub fn fiat_shamir_transcript(commitment: &ExtCommitment) -> (r: Vec<u8>)
    requires
        commitment.profile.c > 0,
    ensures
        r@ == fs_transcript(*commitment),
{
    let mut bytes: Vec<u8> = Vec::new();
    push_fs_domain(&mut bytes);
    let fs = fs_block();
    push_le32_block(&mut bytes, &fs);
    let pb = commitment.profile.profile_block();
    push_le32_block(&mut bytes, &pb);
    push_le32_block(&mut bytes, &commitment.root);
    assert(bytes@ =~= fs_transcript(*commitment));
    bytes
}

/// Expands the transcript into `count` field elements: each expansion block
/// hashes the domain tag, the expansion tag, a counter and the transcript;
/// its words below `P` are accepted in order.  `None` only if the counter
/// runs out first.
pub fn sha256_field_elements(transcript: &[u8], count: usize) -> (r: Option<Vec<u32>>)
    ensures
        r matches Some(v) ==> v.len() == count && exists|s: nat| v@ == #[trigger] expanded(transcript@, s),
        r matches Some(v) ==> all_fe(v@),
        r is None ==> forall|s: nat| s <= 8 * (u32::MAX as nat) ==> #[trigger] expanded(transcript@, s).len() < count,
{
    let ghost t = transcript@;
    let mut out: Vec<u32> = Vec::new();
    let mut counter: u32 = 0;
    assert(out@ =~= expanded(t, 0));
    if count == 0 {
        return Some(out);
    }
    loop
        invariant_except_break
            out.len() < count,
            out@ == expanded(t, 8 * counter as nat),
        invariant
            t == transcript@,
            all_fe(out@),
        ensures
            out.len() == count,
            exists|s: nat| out@ == #[trigger] expanded(t, s),
        decreases u32::MAX - counter,
    {
        let mut input: Vec<u8> = Vec::new();
        push_fs_domain(&mut input);
        input.push(0x3au8);
        input.push(0x65u8);
        input.push(0x78u8);
        input.push(0x70u8);
        input.push(0x61u8);
        input.push(0x6eu8);
        input.push(0x64u8);
        push_le32(&mut input, counter);
        let mut i: usize = 0;
        while i < transcript.len()
            invariant
                i <= transcript.len(),
                input@ == fs_domain() + expand_tag() + le32(counter) + transcript@.subrange(0, i as int),
            decreases transcript.len() - i,
        {
            input.push(transcript[i]);
            proof {
                assert(transcript@.subrange(0, i + 1) =~= transcript@.subrange(0, i as int).push(transcript@[i as int]));
            }
            i = i + 1;
        }
        assert(transcript@.subrange(0, transcript.len() as int) =~= transcript@);
        assert(input@ =~= expand_input(t, counter as nat));
        let digest = sha256_digest(input.as_slice());
        let ghost base = 8 * counter as nat;
        let mut w: usize = 0;
        while w < 8
            invariant
                w <= 8,
                out.len() <= count,
                base == 8 * counter as nat,
                digest@ == sha256_of(expand_input(t, counter as nat)),
                all_fe(out@),
                out.len() < count ==> out@ == expanded(t, (base + w) as nat),
                out.len() == count ==> exists|s: nat| out@ == #[trigger] expanded(t, s),
            decreases 8 - w,
        {
            if out.len() < count {
                let candidate: u32 = (digest[4 * w] as u32) + 256 * (digest[4 * w + 1] as u32) + 65536 * (digest[4 * w + 2] as u32)
                    + 16777216 * (digest[4 * w + 3] as u32);
                proof {
                    assert(((base + w) as nat) / 8 == counter as nat);
                    assert(((base + w) as nat) % 8 == w as nat);
                    assert(candidate as int == expand_candidate(t, (base + w) as nat));
                }
                if candidate < P {
                    out.push(candidate);
                }
                proof {
                    assert(out@ == expanded(t, (base + w + 1) as nat));
                }
            }
            w = w + 1;
        }
        if out.len() == count {
            break;
        }
        if counter == u32::MAX {
            proof {
                assert forall|s: nat| s <= 8 * (u32::MAX as nat) implies #[trigger] expanded(t, s).len() < count by {
                    lemma_expanded_prefix(t, s, (base + 8) as nat);
                }
            }
            return None;
        }
        counter = counter + 1;
    }
    Some(out)
}

/// The SHA-256 Fiat-Shamir challenge of a commitment: its first five
/// expanded field elements.
pub open spec fn challenge_of(c: ExtCommitment) -> Ext {
    ext_of_coords(fs_elements(fs_transcript(c), 5))
}

/// The Fiat-Shamir challenge of a commitment; `None` only if the expansion
/// counter runs out.
pub fn challenge(commitment: &ExtCommitment) -> (r: Option<Ext>)
    requires
        commitment.profile.c > 0,
    ensures
        r matches Some(e) ==> e == challenge_of(*commitment) && e.wf(),
        r is None ==> forall|s: nat| s <= 8 * (u32::MAX as nat) ==> #[trigger] expanded(fs_transcript(*commitment), s).len() < 5,
{
    let transcript = fiat_shamir_transcript(commitment);
    match sha256_field_elements(transcript.as_slice(), 5) {
        None => None,
        Some(v) => {
            proof {
                let s = choose|s: nat| v@ == #[trigger] expanded(transcript@, s);
                lemma_fs_elements(transcript@, 5, s);
            }
            Some(Ext { c0: v[0], c1: v[1], c2: v[2], c3: v[3], c4: v[4] })
        },
    }
}

/// The public check vector of a commitment at its SHA-256 Fiat-Shamir
/// challenge.  `None` when the challenge lies on the domain or the
/// denominators' product vanishes (or, never in practice, when the
/// expansion counter runs out).
pub fn check_vector(commitment: &ExtCommitment) -> (r: Option<Vec<[u32; 5]>>)
    requires
        codec_ok(commitment.profile),
        commitment.profile.c > 0,
    ensures
        r matches Some(v) ==> v.len() == commitment.profile.m && forall|i: int| 0 <= i < commitment.profile.m
            ==> (#[trigger] v@[i])@ == check_entry(challenge_of(*commitment), commitment.profile.m as nat, commitment.profile.k as nat, i),
        r is None ==> challenge_on_domain(challenge_of(*commitment), commitment.profile.m as nat, commitment.profile.k as nat)
            || prefix_prod(denominators_of(challenge_of(*commitment), commitment.profile.m as nat, commitment.profile.k as nat), 2 * commitment.profile.k as nat) == ext_zero()
            || forall|s: nat| s <= 8 * (u32::MAX as nat) ==> #[trigger] expanded(fs_transcript(*commitment), s).len() < 5,
        challenge_on_domain(challenge_of(*commitment), commitment.profile.m as nat, commitment.profile.k as nat)
            || prefix_prod(denominators_of(challenge_of(*commitment), commitment.profile.m as nat, commitment.profile.k as nat), 2 * commitment.profile.k as nat) == ext_zero()
            ==> r is None,
{
    match challenge(commitment) {
        None => None,
        Some(p) => check_vector_for_challenge(commitment.profile, p),
    }
}

} // verus!

verus! {

/// The opening of cell column `index` read off the auxiliary data.
pub open spec fn opening_of(aux: ExtAuxiliaryData, index: nat, o: ExtCellOpening) -> bool {
    let p = aux.profile;
    &&& o.index == index
    &&& o.cells.len() == p.n
    &&& forall|row: int| 0 <= row < p.n ==> (#[trigger] o.cells@[row])@ == flat(cell_of(aux.codewords@[row]@, index as int, p.c as int))
}

/// `t` opens exactly the cell columns `indices`, in order, with the shared
/// multiproof of their column roots.
pub open spec fn answers(aux: ExtAuxiliaryData, indices: Seq<usize>, t: ExtTranscript) -> bool {
    &&& t.openings.len() == indices.len()
    &&& forall|i: int| 0 <= i < indices.len() ==> opening_of(aux, indices[i] as nat, #[trigger] t.openings@[i])
    &&& dviews(t.outer_multiproof@) == multiproof_of(
        dviews(aux.column_roots@),
        sorted_of(indices, cells_of(aux.profile)),
        0,
        log2(cells_of(aux.profile)),
    )
}

/// Opens the requested cell columns and attaches one multiproof of their
/// column roots.  `InvalidQuery` when an index is out of range or repeated.
pub fn query(aux: &ExtAuxiliaryData, indices: &[usize]) -> (r: Result<ExtTranscript, DemoError>)
    requires
        aux_consistent(*aux),
    ensures
        r is Err <==> !distinct_indices(indices@, cells_of(aux.profile)),
        r matches Err(e) ==> e == DemoError::InvalidQuery,
        r matches Ok(t) ==> answers(*aux, indices@, t),
{
    let profile = aux.profile;
    let n_cells = profile.n_cells();
    proof {
        lemma_threshold_bounds(profile);
        crate::merkle::lemma_pow2_log2(cells_of(profile));
        crate::poly::lemma_small_pow2_len(profile.m as nat);
        vstd::arithmetic::div_mod::lemma_div_is_ordered(profile.m as int, profile.m as int, profile.c as int);
        lemma_cell_geometry(profile, 0);
        vstd::arithmetic::div_mod::lemma_div_is_ordered(profile.c as int, profile.m as int, profile.c as int);
        vstd::arithmetic::div_mod::lemma_div_by_self(profile.c as int);
    }
    if !check_query_indices(indices, n_cells) {
        return Err(DemoError::InvalidQuery);
    }
    let mut openings: Vec<ExtCellOpening> = Vec::new();
    let mut q: usize = 0;
    while q < indices.len()
        invariant
            q <= indices.len(),
            aux_consistent(*aux),
            profile == aux.profile,
            n_cells == cells_of(profile),
            distinct_indices(indices@, n_cells as nat),
            openings.len() == q,
            forall|j: int| 0 <= j < q ==> opening_of(*aux, indices@[j] as nat, #[trigger] openings@[j]),
        decreases indices.len() - q,
    {
        let index = indices[q];
        let cells = crate::dbp_ext::open_cell_column(profile, &aux.codewords, index);
        openings.push(ExtCellOpening { index, cells });
        q = q + 1;
    }
    let multiproof = outer_merkle_multiproof(&aux.outer_merkle_layers, indices, Ghost(dviews(aux.column_roots@)));
    Ok(ExtTranscript { openings, outer_multiproof: multiproof })
}

/// The opened leaves and their recomputed column roots, in opening order.
pub open spec fn opened_roots(os: Seq<ExtCellOpening>, np: nat) -> Seq<(usize, Seq<u32>)> {
    Seq::new(os.len(), |i: int| (os[i].index, merkle_root(opened_leaves(os[i].cells@, np))))
}

/// An opening has an in-range index and one cell of `5c` coordinates per row.
pub open spec fn opening_shaped(profile: ExtProfile, o: ExtCellOpening) -> bool {
    &&& o.index < cells_of(profile)
    &&& o.cells.len() == profile.n
    &&& forall|row: int| 0 <= row < o.cells.len() ==> (#[trigger] o.cells@[row]).len() == profile.c * 5
}

/// Every opening is shaped, no column is opened twice, the multiproof
/// authenticates the recomputed column roots to the commitment's column
/// root, and the commitment's final root matches its row hashes.
pub open spec fn transcript_valid(c: ExtCommitment, t: ExtTranscript) -> bool {
    &&& forall|i: int| 0 <= i < t.openings.len() ==> opening_shaped(c.profile, #[trigger] t.openings@[i])
    &&& forall|i: int, j: int| 0 <= i < j < t.openings.len() ==> t.openings@[i].index != t.openings@[j].index
    &&& multiproof_root(cells_of(c.profile), opened_roots(t.openings@, padded_len(c.profile.n as nat)), dviews(t.outer_multiproof@))
        == Some(c.root_col@)
    &&& c.row_hashes.len() == c.profile.n
    &&& final_root_of(c) == c.root@
}

/// Checks the shape of every opening, the multiproof of the recomputed
/// column roots against the column root, and the final root.
pub fn verify_openings(commitment: &ExtCommitment, transcript: &ExtTranscript) -> (r: bool)
    requires
        crate::dbp_ext::cells_hashable(commitment.profile),
        commitment.profile.n <= usize::MAX / 2 + 1,
    ensures
        r == transcript_valid(*commitment, *transcript),
{
    let profile = commitment.profile;
    let n_padded = padded_rows(profile);
    let n_cells = profile.n_cells();
    let expected_cell_len = profile.c * 5;
    let mut seen = empty_index_set();
    let ghost os = transcript.openings@;
    let mut q: usize = 0;
    while q < transcript.openings.len()
        invariant
            q <= os.len(),
            os == transcript.openings@,
            profile == commitment.profile,
            n_cells == cells_of(profile),
            expected_cell_len == profile.c * 5,
            forall|j: int| 0 <= j < q ==> opening_shaped(profile, #[trigger] os[j]),
            forall|i: int, j: int| 0 <= i < j < q ==> os[i].index != os[j].index,
            forall|c: usize| #[trigger] seen@.contains(c) <==> exists|j: int| 0 <= j < q && os[j].index == c,
        decreases os.len() - q,
    {
        let opening = &transcript.openings[q];
        if opening.index >= n_cells {
            return false;
        }
        if !insert_index(&mut seen, opening.index) {
            return false;
        }
        if opening.cells.len() != profile.n {
            return false;
        }
        let mut row: usize = 0;
        while row < opening.cells.len()
            invariant
                row <= opening.cells.len(),
                q < os.len(),
                os == transcript.openings@,
                *opening == os[q as int],
                expected_cell_len == commitment.profile.c * 5,
                forall|j: int| 0 <= j < row ==> (#[trigger] opening.cells@[j]).len() == expected_cell_len,
            decreases opening.cells.len() - row,
        {
            if opening.cells[row].len() != expected_cell_len {
                return false;
            }
            row = row + 1;
        }
        proof {
            assert forall|c: usize| #[trigger] seen@.contains(c) <==> exists|j: int| 0 <= j < q + 1 && os[j].index == c by {
                if c == opening.index {
                    assert(os[q as int].index == c);
                }
            }
        }
        q = q + 1;
    }
    let mut roots: Vec<(usize, Digest)> = Vec::new();
    let mut q: usize = 0;
    while q < transcript.openings.len()
        invariant
            q <= os.len(),
            os == transcript.openings@,
            profile == commitment.profile,
            crate::dbp_ext::cells_hashable(profile),
            n_padded == padded_len(profile.n as nat),
            is_pow2(n_padded as nat),
            n_padded >= profile.n,
            forall|j: int| 0 <= j < os.len() ==> opening_shaped(profile, #[trigger] os[j]),
            roots.len() == q,
            crate::multiproof::pair_views(roots@) == opened_roots(os, n_padded as nat).subrange(0, q as int),
        decreases os.len() - q,
    {
        let opening = &transcript.openings[q];
        proof {
            assert(opening_shaped(profile, os[q as int]));
        }
        let root = crate::dbp_ext::opened_column_root(profile, n_padded, &opening.cells);
        let ghost before = roots@;
        roots.push((opening.index, root));
        proof {
            assert(crate::multiproof::pair_views(roots@) =~= crate::multiproof::pair_views(before).push((opening.index, root@)));
            assert(opened_roots(os, n_padded as nat).subrange(0, q + 1) =~= opened_roots(os, n_padded as nat).subrange(0, q as int).push((opening.index, root@)));
        }
        q = q + 1;
    }
    assert(opened_roots(os, n_padded as nat).subrange(0, os.len() as int) =~= opened_roots(os, n_padded as nat));
    let root_col = match verify_outer_merkle_multiproof(n_cells, roots.as_slice(), transcript.outer_multiproof.as_slice()) {
        None => return false,
        Some(d) => d,
    };
    if !crate::hashing::digest_eq(&root_col, &commitment.root_col) {
        return false;
    }
    match commitment.recompute_root() {
        None => false,
        Some(root) => crate::hashing::digest_eq(&root, &commitment.root),
    }
}

} // verus!

verus! {

/// The opened cell indices of every transcript.
pub open spec fn transcript_indices(ts: Seq<ExtTranscript>) -> Seq<Seq<usize>> {
    ts.map_values(|t: ExtTranscript| t.openings@.map_values(|o: ExtCellOpening| o.index))
}

/// The opened cells of each opening of each transcript, row by row, as
/// base-field coordinates.
pub open spec fn transcript_cells(ts: Seq<ExtTranscript>) -> Seq<Seq<Seq<Seq<u32>>>> {
    ts.map_values(|t: ExtTranscript| t.openings@.map_values(|o: ExtCellOpening| o.cells@.map_values(|v: Vec<u32>| v@)))
}

/// Every opened coordinate of every transcript is canonical.
pub open spec fn transcripts_canonical(ts: Seq<ExtTranscript>) -> bool {
    forall|t: int, j: int, row: int| 0 <= t < ts.len() && 0 <= j < ts[t].openings.len() && 0 <= row < ts[t].openings@[j].cells.len()
        ==> all_fe(#[trigger] ts[t].openings@[j].cells@[row]@)
}

/// Every opening of every transcript carries the cells of `cw` in its column.
pub open spec fn opens_cells(profile: ExtProfile, ts: Seq<ExtTranscript>, cw: Seq<Vec<Ext>>) -> bool {
    forall|t: int, j: int, row: int|
        0 <= t < ts.len() && 0 <= j < ts[t].openings.len() && 0 <= row < profile.n
            ==> (#[trigger] ts[t].openings@[j].cells@[row])@ == flat(
            crate::commit::cell_of(cw[row]@, ts[t].openings@[j].index as int, profile.c as int),
        )
}

/// Verifies every transcript, then decodes each row from the distinct cell
/// columns opened.  `InvalidOpening` when a transcript fails to verify;
/// `InsufficientCells` when fewer than `threshold` distinct columns are
/// opened; otherwise the erasure decoding of each row from the first
/// opening of each opened column, which is the data whenever the openings
/// carry the codewords of some data.
pub fn reconstruct(commitment: &ExtCommitment, transcripts: &[ExtTranscript]) -> (r: Result<Vec<Vec<Ext>>, DemoError>)
    requires
        commitment.profile.is_decodable(),
        commitment.profile.n <= usize::MAX / 2 + 1,
        transcripts_canonical(transcripts@),
    ensures
        (r == Err::<Vec<Vec<Ext>>, DemoError>(DemoError::InvalidOpening)) <==> exists|t: int| 0 <= t < transcripts.len() && !transcript_valid(*commitment, #[trigger] transcripts@[t]),
        (r == Err::<Vec<Vec<Ext>>, DemoError>(DemoError::InsufficientCells)) <==> (forall|t: int| 0 <= t < transcripts.len() ==> transcript_valid(*commitment, #[trigger] transcripts@[t]))
            && count_opened(transcript_indices(transcripts@), cells_of(commitment.profile)) < threshold(commitment.profile),
        r matches Err(e) ==> e == DemoError::InvalidOpening || e == DemoError::InsufficientCells,
        r matches Ok(data) ==> data.len() == commitment.profile.n && forall|row: int| 0 <= row < data.len()
            ==> (#[trigger] data@[row]).len() == commitment.profile.k && all_ext_wf(data@[row]@),
        forall|dd: Seq<Seq<Ext>>, cw: Seq<Vec<Ext>>|
            #[trigger] crate::dbp_ext::encodes_to(commitment.profile, dd, cw) && opens_cells(
                commitment.profile,
                transcripts@,
                cw,
            ) ==> (r matches Ok(d) ==> crate::dbp_ext::rows_view(d@) == dd),
        r matches Ok(data) ==> decodes_openings(
            commitment.profile,
            transcript_indices(transcripts@),
            transcript_cells(transcripts@),
            data@,
        ),
{
    let ghost ts = transcripts@;
    let profile = commitment.profile;
    let mut converted: Vec<crate::dbp_ext::ExtTranscript> = Vec::new();
    let mut t: usize = 0;
    while t < transcripts.len()
        invariant
            t <= transcripts.len(),
            ts == transcripts@,
            profile == commitment.profile,
            profile.is_decodable(),
            profile.n <= usize::MAX / 2 + 1,
            forall|u: int| 0 <= u < t ==> transcript_valid(*commitment, #[trigger] ts[u]),
            converted.len() == t,
            forall|u: int| 0 <= u < t ==> (#[trigger] converted@[u]).openings.len() == ts[u].openings.len(),
            forall|u: int, j: int| 0 <= u < t && 0 <= j < ts[u].openings.len() ==> {
                let o = #[trigger] converted@[u].openings@[j];
                &&& o.index == ts[u].openings@[j].index
                &&& o.cells.len() == ts[u].openings@[j].cells.len()
                &&& forall|row: int| 0 <= row < o.cells.len() ==> (#[trigger] o.cells@[row])@ == ts[u].openings@[j].cells@[row]@
            },
        decreases transcripts.len() - t,
    {
        proof {
            crate::dbp_ext::lemma_valid_hashable(commitment.profile);
        }
        if !verify_openings(commitment, &transcripts[t]) {
            return Err(DemoError::InvalidOpening);
        }
        let mut openings: Vec<crate::dbp_ext::ExtCellOpening> = Vec::new();
        let mut j: usize = 0;
        while j < transcripts[t].openings.len()
            invariant
                t < ts.len(),
                ts == transcripts@,
                j <= ts[t as int].openings.len(),
                openings.len() == j,
                forall|i: int| 0 <= i < j ==> {
                    let o = #[trigger] openings@[i];
                    &&& o.index == ts[t as int].openings@[i].index
                    &&& o.cells.len() == ts[t as int].openings@[i].cells.len()
                    &&& forall|row: int| 0 <= row < o.cells.len() ==> (#[trigger] o.cells@[row])@ == ts[t as int].openings@[i].cells@[row]@
                },
            decreases ts[t as int].openings.len() - j,
        {
            let o = &transcripts[t].openings[j];
            let cells = crate::dbp_ext::copy_cells(&o.cells);
            openings.push(crate::dbp_ext::ExtCellOpening { index: o.index, cells, outer_authentication_path: Vec::new() });
            j = j + 1;
        }
        converted.push(crate::dbp_ext::ExtTranscript { openings });
        t = t + 1;
    }
    proof {
        let cs = converted@;
        assert forall|u: int, j: int| 0 <= u < cs.len() && 0 <= j < cs[u].openings.len() implies crate::dbp_ext::opening_shaped(profile, #[trigger] cs[u].openings@[j]) by {
            assert(transcript_valid(*commitment, ts[u]));
            assert(opening_shaped(profile, ts[u].openings@[j]));
            assert forall|row: int| 0 <= row < cs[u].openings@[j].cells.len() implies (#[trigger] cs[u].openings@[j].cells@[row]).len() == profile.c * 5 by {
                assert(cs[u].openings@[j].cells@[row]@ == ts[u].openings@[j].cells@[row]@);
            }
        }
        assert forall|u: int, j: int, row: int| 0 <= u < cs.len() && 0 <= j < cs[u].openings.len() && 0 <= row < cs[u].openings@[j].cells.len()
            implies all_fe(#[trigger] cs[u].openings@[j].cells@[row]@) by {
            assert(cs[u].openings@[j].cells@[row]@ == ts[u].openings@[j].cells@[row]@);
        }
        assert(crate::dbp_ext::transcript_cells(cs) =~= transcript_cells(ts)) by {
            assert forall|u: int| 0 <= u < cs.len() implies #[trigger] crate::dbp_ext::transcript_cells(cs)[u]
                == transcript_cells(ts)[u] by {
                assert forall|j: int| 0 <= j < cs[u].openings.len() implies #[trigger] crate::dbp_ext::transcript_cells(cs)[u][j]
                    == transcript_cells(ts)[u][j] by {
                    assert(crate::dbp_ext::transcript_cells(cs)[u][j] =~= transcript_cells(ts)[u][j]);
                }
                assert(crate::dbp_ext::transcript_cells(cs)[u] =~= transcript_cells(ts)[u]);
            }
        }
        assert(crate::dbp_ext::transcript_indices(cs) =~= transcript_indices(ts)) by {
            assert forall|u: int| 0 <= u < cs.len() implies #[trigger] crate::dbp_ext::transcript_indices(cs)[u] == transcript_indices(ts)[u] by {
                assert(crate::dbp_ext::transcript_indices(cs)[u] =~= transcript_indices(ts)[u]);
            }
        }
        assert forall|dd: Seq<Seq<Ext>>, cw: Seq<Vec<Ext>>|
            #[trigger] crate::dbp_ext::encodes_to(profile, dd, cw) && opens_cells(profile, ts, cw)
                implies crate::dbp_ext::opens_cells(profile, cs, cw) by {
            assert forall|u: int, j: int, row: int|
                0 <= u < cs.len() && 0 <= j < cs[u].openings.len() && 0 <= row < profile.n
                    implies (#[trigger] cs[u].openings@[j].cells@[row])@ == flat(
                    crate::commit::cell_of(cw[row]@, cs[u].openings@[j].index as int, profile.c as int),
                ) by {
                assert(opening_shaped(profile, ts[u].openings@[j])) by {
                    assert(transcript_valid(*commitment, ts[u]));
                }
                assert(cs[u].openings@[j].cells@[row]@ == ts[u].openings@[j].cells@[row]@);
            }
        }
    }
    crate::dbp_ext::decode_openings(profile, converted.as_slice())
}

/// Bytes of the public commitment: every row hash and the column root.
pub fn commitment_size_bytes(commitment: &ExtCommitment) -> (r: usize)
    requires
        (commitment.row_hashes.len() + 1) * 32 <= usize::MAX,
    ensures
        r == (commitment.row_hashes.len() + 1) * 32,
{
    (commitment.row_hashes.len() * DIGEST_LEN + DIGEST_LEN) * 4
}

} // verus!

verus! {

/// Completeness: for a commitment built with the same auxiliary data, the
/// openings that `query` gives for a non-empty set of distinct in-range
/// indices, with their shared multiproof, verify.
pub proof fn lemma_honest_openings_verify(c: ExtCommitment, aux: ExtAuxiliaryData, indices: Seq<usize>, t: ExtTranscript)
    requires
        aux_consistent(aux),
        c.profile == aux.profile,
        c.root_col@ == merkle_root(dviews(aux.column_roots@)),
        c.row_hashes.len() == c.profile.n,
        c.root@ == final_root_of(c),
        indices.len() > 0,
        distinct_indices(indices, cells_of(aux.profile)),
        answers(aux, indices, t),
    ensures
        transcript_valid(c, t),
{
    let p = aux.profile;
    let np = padded_len(p.n as nat);
    let l = dviews(aux.column_roots@);
    lemma_threshold_bounds(p);
    assert(l.len() == cells_of(p));
    crate::merkle::lemma_pow2_log2(cells_of(p));
    crate::poly::lemma_small_pow2_len(p.m as nat);
    vstd::arithmetic::div_mod::lemma_div_is_ordered(p.m as int, p.m as int, p.c as int);
    lemma_cell_geometry(p, 0);
    vstd::arithmetic::div_mod::lemma_div_is_ordered(p.c as int, p.m as int, p.c as int);
    vstd::arithmetic::div_mod::lemma_div_by_self(p.c as int);
    assert forall|i: int| 0 <= i < t.openings.len() implies opening_shaped(c.profile, #[trigger] t.openings@[i]) by {
        let o = t.openings@[i];
        let index = indices[i];
        assert(opening_of(aux, index as nat, o));
        lemma_cell_geometry(p, index as int);
        assert forall|row: int| 0 <= row < o.cells.len() implies (#[trigger] o.cells@[row]).len() == p.c * 5 by {
            assert(o.cells@[row]@ == flat(cell_of(aux.codewords@[row]@, index as int, p.c as int)));
            assert(aux.codewords@[row].len() == p.m);
        }
    }
    let pairs = Seq::new(indices.len(), |i: int| (indices[i], l[indices[i] as int]));
    assert(opened_roots(t.openings@, np) =~= pairs) by {
        assert forall|i: int| 0 <= i < indices.len() implies #[trigger] opened_roots(t.openings@, np)[i] == pairs[i] by {
            let o = t.openings@[i];
            let index = indices[i];
            assert(opening_of(aux, index as nat, o));
            lemma_cell_geometry(p, index as int);
            assert(opened_leaves(o.cells@, np) =~= column_leaves(aux.codewords@, index as int, p.c as int, np)) by {
                assert forall|row: int| 0 <= row < np implies #[trigger] opened_leaves(o.cells@, np)[row] == column_leaves(aux.codewords@, index as int, p.c as int, np)[row] by {
                    if row < p.n {
                        assert(o.cells@[row]@ == flat(cell_of(aux.codewords@[row]@, index as int, p.c as int)));
                    }
                }
            }
            assert(l[index as int] == merkle_root(column_leaves(aux.codewords@, index as int, p.c as int, np)));
        }
    }
    crate::multiproof::lemma_multiproof_complete(l, indices);
}

} // verus!

verus! {

/// Bytes of the openings of a transcript: per opening, the index and every coordinate.
pub open spec fn openings_bytes(os: Seq<ExtCellOpening>) -> int
    decreases os.len(),
{
    if os.len() == 0 {
        0
    } else {
        openings_bytes(os.drop_last()) + 4 + 4 * crate::dbp_ext::cells_len(os.last().cells@)
    }
}

proof fn lemma_openings_bytes_grows(os: Seq<ExtCellOpening>, i: int)
    requires
        0 <= i <= os.len(),
    ensures
        0 <= openings_bytes(os.subrange(0, i)) <= openings_bytes(os),
    decreases os.len() - i,
{
    if i < os.len() {
        assert(os.subrange(0, i + 1).drop_last() =~= os.subrange(0, i));
        crate::dbp_ext::lemma_cells_len_nonneg(os[i].cells@);
        lemma_openings_bytes_grows(os, i + 1);
        lemma_openings_bytes_nonneg(os.subrange(0, i));
    } else {
        assert(os.subrange(0, i) =~= os);
        lemma_openings_bytes_nonneg(os);
    }
}

proof fn lemma_openings_bytes_nonneg(os: Seq<ExtCellOpening>)
    ensures
        openings_bytes(os) >= 0,
    decreases os.len(),
{
    if os.len() > 0 {
        lemma_openings_bytes_nonneg(os.drop_last());
        crate::dbp_ext::lemma_cells_len_nonneg(os.last().cells@);
    }
}

/// Bytes of a transcript serialised as canonical 32-bit words: the openings
/// and the shared multiproof.
pub fn transcript_size_bytes(transcript: &ExtTranscript) -> (r: usize)
    requires
        openings_bytes(transcript.openings@) + 32 * transcript.outer_multiproof.len() <= usize::MAX,
    ensures
        r == openings_bytes(transcript.openings@) + 32 * transcript.outer_multiproof.len(),
{
    let mut total: usize = 0;
    let mut i: usize = 0;
    proof {
        lemma_openings_bytes_nonneg(transcript.openings@);
    }
    while i < transcript.openings.len()
        invariant
            i <= transcript.openings.len(),
            total == openings_bytes(transcript.openings@.subrange(0, i as int)),
            openings_bytes(transcript.openings@) + 32 * transcript.outer_multiproof.len() <= usize::MAX,
        decreases transcript.openings.len() - i,
    {
        let o = &transcript.openings[i];
        proof {
            assert(transcript.openings@.subrange(0, i + 1).drop_last() =~= transcript.openings@.subrange(0, i as int));
            lemma_openings_bytes_grows(transcript.openings@, i + 1);
            lemma_openings_bytes_grows(transcript.openings@, i as int);
            crate::dbp_ext::lemma_cells_len_nonneg(o.cells@);
        }
        let n = match crate::dbp_ext::cells_total(&o.cells) {
            Some(n) => n,
            None => 0,
        };
        total = total + 4 + 4 * n;
        i = i + 1;
    }
    assert(transcript.openings@.subrange(0, transcript.openings.len() as int) =~= transcript.openings@);
    total + 32 * transcript.outer_multiproof.len()
}


/// Honest openings of committed data verify, carry the committed codewords,
/// and so reconstruct the data once enough distinct columns are opened:
/// every transcript answering a non-empty list of distinct column indices
/// of the auxiliary data is valid for the commitment, and the openings
/// carry the cells of the codewords that encode the data.
pub proof fn lemma_honest_reconstruction(
    c: ExtCommitment,
    aux: ExtAuxiliaryData,
    data: Seq<Seq<Ext>>,
    indices: Seq<Seq<usize>>,
    ts: Seq<ExtTranscript>,
)
    requires
        aux_consistent(aux),
        c.profile == aux.profile,
        c.root_col@ == merkle_root(dviews(aux.column_roots@)),
        c.row_hashes.len() == c.profile.n,
        c.root@ == final_root_of(c),
        crate::dbp_ext::encodes_to(aux.profile, data, aux.codewords@),
        ts.len() == indices.len(),
        forall|t: int| 0 <= t < ts.len() ==> (#[trigger] indices[t]).len() > 0 && distinct_indices(indices[t], cells_of(aux.profile)),
        forall|t: int| 0 <= t < ts.len() ==> answers(aux, indices[t], #[trigger] ts[t]),
    ensures
        transcripts_canonical(ts),
        forall|t: int| 0 <= t < ts.len() ==> transcript_valid(c, #[trigger] ts[t]),
        transcript_indices(ts) == indices,
        crate::dbp_ext::encodes_to(c.profile, data, aux.codewords@),
        opens_cells(c.profile, ts, aux.codewords@),
{
    assert forall|t: int| 0 <= t < ts.len() implies transcript_valid(c, #[trigger] ts[t]) by {
        assert(answers(aux, indices[t], ts[t]));
        assert(indices[t].len() > 0);
        lemma_honest_openings_verify(c, aux, indices[t], ts[t]);
    }
    assert forall|t: int| 0 <= t < ts.len() implies #[trigger] transcript_indices(ts)[t] == indices[t] by {
        assert(answers(aux, indices[t], ts[t]));
        assert forall|i: int| 0 <= i < indices[t].len() implies ts[t].openings@.map_values(|o: ExtCellOpening| o.index)[i] == indices[t][i] by {
            assert(opening_of(aux, indices[t][i] as nat, ts[t].openings@[i]));
        }
        assert(ts[t].openings@.map_values(|o: ExtCellOpening| o.index) =~= indices[t]);
    }
    assert(transcript_indices(ts) =~= indices);
    assert forall|t: int, j: int, row: int|
        0 <= t < ts.len() && 0 <= j < ts[t].openings.len() && 0 <= row < c.profile.n implies (
        #[trigger] ts[t].openings@[j].cells@[row])@ == flat(
        crate::commit::cell_of(aux.codewords@[row]@, ts[t].openings@[j].index as int, c.profile.c as int),
    ) by {
        assert(answers(aux, indices[t], ts[t]));
        assert(opening_of(aux, indices[t][j] as nat, ts[t].openings@[j]));
    }
    assert forall|t: int, j: int, row: int|
        0 <= t < ts.len() && 0 <= j < ts[t].openings.len() && 0 <= row < ts[t].openings@[j].cells.len() implies all_fe(
        #[trigger] ts[t].openings@[j].cells@[row]@,
    ) by {
        assert(answers(aux, indices[t], ts[t]));
        assert(opening_of(aux, indices[t][j] as nat, ts[t].openings@[j]));
        let cw = aux.codewords@[row]@;
        let p = aux.profile;
        crate::commit::lemma_cell_geometry(p, ts[t].openings@[j].index as int);
        let cell = crate::commit::cell_of(cw, ts[t].openings@[j].index as int, p.c as int);
        assert(all_ext_wf(cell)) by {
            assert forall|i: int| 0 <= i < cell.len() implies #[trigger] cell[i].wf() by {
                assert(cell[i] == cw[ts[t].openings@[j].index * p.c + i]);
            }
        }
        crate::layout::lemma_flat_fe(cell);
    }
}

/// The read-only memory of the guest: the commitment's root, then the
/// first `m` entries of the check vector, word by word.
pub open spec fn read_only(c: ExtCommitment, cv: Seq<[u32; crate::EXT_DEGREE]>) -> Seq<u32> {
    c.root@ + crate::guest::words(cv.subrange(0, c.profile.m as int))
}

/// The public input of the guest: one zero digest.
pub fn leanvm_public_input() -> (r: Digest)
    ensures
        r@ == crate::hashing::zero_view(),
{
    zero_digest()
}

/// The placeholders of the guest and their values: the shape of the
/// profile, then where the public root and the check vector start in
/// read-only memory.
pub open spec fn guest_values(p: ExtProfile) -> Seq<(Seq<char>, int)> {
    let cell_base_len = p.c * crate::EXT_DEGREE;
    seq![
        ("N_PLACEHOLDER"@, p.n as int),
        ("N_PADDED_PLACEHOLDER"@, padded_len(p.n as nat) as int),
        ("LOG_N_PADDED_PLACEHOLDER"@, log2(padded_len(p.n as nat)) as int),
        ("M_EXT_PLACEHOLDER"@, p.m as int),
        ("K_EXT_PLACEHOLDER"@, p.k as int),
        ("C_EXT_PLACEHOLDER"@, p.c as int),
        ("CELL_BASE_LEN_PLACEHOLDER"@, cell_base_len),
        ("N_CELLS_PLACEHOLDER"@, cells_of(p) as int),
        ("SYSTEMATIC_CELLS_PLACEHOLDER"@, threshold(p) as int),
        ("CELL_CHUNKS_PLACEHOLDER"@, cell_base_len / DIGEST_LEN as int),
        ("OUTER_MERKLE_DEPTH_PLACEHOLDER"@, log2(cells_of(p)) as int),
        ("PUBLIC_ROOT_PTR_PLACEHOLDER"@, DIGEST_LEN as int),
        ("CHECK_VECTOR_PTR_PLACEHOLDER"@, 2 * DIGEST_LEN as int),
    ]
}

/// The named values that compile the guest for `commitment`;
/// `InvalidDataShape` for an invalid profile.
pub fn compilation_values(commitment: &ExtCommitment) -> (r: Result<Vec<(&'static str, usize)>, DemoError>)
    requires
        commitment.profile.n <= usize::MAX / 2 + 1,
    ensures
        r is Err <==> !commitment.profile.is_valid(),
        r matches Err(e) ==> e == DemoError::InvalidDataShape,
        r matches Ok(v) ==> crate::guest::named_values(v@, guest_values(commitment.profile)),
{
    match commitment.profile.validate() {
        Err(e) => return Err(e),
        Ok(()) => {},
    }
    let profile = commitment.profile;
    proof {
        lemma_threshold_bounds(profile);
        crate::dbp_ext::lemma_cell_width_bound(profile);
    }
    let cell_base_len = profile.c * crate::EXT_DEGREE;
    let mut values: Vec<(&'static str, usize)> = Vec::new();
    values.push(("N_PLACEHOLDER", profile.n));
    values.push(("N_PADDED_PLACEHOLDER", padded_rows(profile)));
    values.push(("LOG_N_PADDED_PLACEHOLDER", column_merkle_depth(profile)));
    values.push(("M_EXT_PLACEHOLDER", profile.m));
    values.push(("K_EXT_PLACEHOLDER", profile.k));
    values.push(("C_EXT_PLACEHOLDER", profile.c));
    values.push(("CELL_BASE_LEN_PLACEHOLDER", cell_base_len));
    values.push(("N_CELLS_PLACEHOLDER", profile.n_cells()));
    values.push(("SYSTEMATIC_CELLS_PLACEHOLDER", profile.reconstruction_threshold_cells()));
    values.push(("CELL_CHUNKS_PLACEHOLDER", cell_base_len / DIGEST_LEN));
    values.push(("OUTER_MERKLE_DEPTH_PLACEHOLDER", profile.merkle_depth()));
    values.push(("PUBLIC_ROOT_PTR_PLACEHOLDER", DIGEST_LEN));
    values.push(("CHECK_VECTOR_PTR_PLACEHOLDER", 2 * DIGEST_LEN));
    proof {
        let s = guest_values(profile);
        assert forall|i: int| 0 <= i < values.len() implies (#[trigger] values@[i]).0@ == s[i].0 && values@[i].1 as int == s[i].1 by {
        }
    }
    Ok(values)
}

/// The read-only memory of the guest: the commitment's root, then the
/// first `m` entries of the check vector, word by word.
pub fn read_only_data(commitment: &ExtCommitment, check_vector: &Vec<[u32; crate::EXT_DEGREE]>) -> (r: Vec<u32>)
    requires
        check_vector.len() >= commitment.profile.m,
    ensures
        r@ == read_only(*commitment, check_vector@),
{
    let mut data: Vec<u32> = Vec::new();
    let head: [[u32; DIGEST_LEN]; 1] = [commitment.root];
    crate::guest::push_words(&mut data, &head, 1);
    crate::guest::push_words(&mut data, check_vector.as_slice(), commitment.profile.m);
    proof {
        let one = head@.subrange(0, 1);
        assert(one.map_values(|a: [u32; DIGEST_LEN]| a@) =~= seq![commitment.root@]);
        seq![commitment.root@].lemma_flatten_singleton();
    }
    data
}

/// What the guest is compiled with, in terms of the commitment it proves:
/// the row count, the row tree's leaf count (the least power of two at
/// least `n`) and its logarithm; the codeword, message and cell sizes; the
/// words of a cell and the digests they fill; the cell count; how many
/// cells each published row hash chains, which is the fewest cells that
/// hold the `k` message symbols; the depth of the tree over the cells; and
/// where the root and the check vector lie in read-only memory, which
/// starts right after the one-digest public input.
pub proof fn lemma_guest_values_meaning(c: ExtCommitment, v: Seq<(&'static str, usize)>)
    requires
        c.profile.is_valid(),
        crate::guest::named_values(v, guest_values(c.profile)),
    ensures
        v.len() == 13,
        v[0].0@ == "N_PLACEHOLDER"@ && v[0].1 == c.profile.n,
        v[1].0@ == "N_PADDED_PLACEHOLDER"@ && crate::poly::is_next_pow2(c.profile.n as nat, v[1].1 as nat),
        v[2].0@ == "LOG_N_PADDED_PLACEHOLDER"@ && crate::merkle::pow2(v[2].1 as nat) == v[1].1,
        v[3].0@ == "M_EXT_PLACEHOLDER"@ && v[3].1 == c.profile.m,
        v[4].0@ == "K_EXT_PLACEHOLDER"@ && v[4].1 == c.profile.k,
        v[5].0@ == "C_EXT_PLACEHOLDER"@ && v[5].1 == c.profile.c,
        v[6].0@ == "CELL_BASE_LEN_PLACEHOLDER"@ && v[6].1 == c.profile.c * crate::EXT_DEGREE,
        v[7].0@ == "N_CELLS_PLACEHOLDER"@ && v[7].1 * c.profile.c == c.profile.m,
        v[8].0@ == "SYSTEMATIC_CELLS_PLACEHOLDER"@ && v[8].1 * c.profile.c >= c.profile.k && (v[8].1 - 1) * c.profile.c
            < c.profile.k,
        forall|cw: Seq<Vec<Ext>>, row: int|
            0 <= row < c.profile.n ==> #[trigger] row_hashes_of(cw, c.profile)[row] == chain_hash(
                crate::commit::row_cells(cw, row, c.profile.c as int, v[8].1 as nat),
            ),
        v[9].0@ == "CELL_CHUNKS_PLACEHOLDER"@ && v[9].1 * DIGEST_LEN == v[6].1,
        v[10].0@ == "OUTER_MERKLE_DEPTH_PLACEHOLDER"@ && crate::merkle::pow2(v[10].1 as nat) == v[7].1,
        v[11].0@ == "PUBLIC_ROOT_PTR_PLACEHOLDER"@ && v[11].1 == crate::hashing::zero_view().len(),
        v[12].0@ == "CHECK_VECTOR_PTR_PLACEHOLDER"@,
        forall|cv: Seq<[u32; crate::EXT_DEGREE]>| cv.len() >= c.profile.m ==> {
            let rod = #[trigger] read_only(c, cv);
            &&& rod.subrange(v[11].1 - DIGEST_LEN, v[11].1 - DIGEST_LEN + DIGEST_LEN) == c.root@
            &&& rod.subrange(v[12].1 - DIGEST_LEN, rod.len() as int) == crate::guest::words(cv.subrange(0, c.profile.m as int))
        },
{
    let p = c.profile;
    let s = guest_values(p);
    assert(v.len() == s.len());
    assert forall|i: int| 0 <= i < 13 implies v[i].0@ == s[i].0 && v[i].1 as int == s[i].1 by {
        assert(v[i].0@ == s[i].0 && v[i].1 as int == s[i].1);
    }
    crate::poly::lemma_padded_len(p.n as nat);
    crate::merkle::lemma_pow2_log2(padded_len(p.n as nat));
    crate::dbp_ext::lemma_threshold_least_cover(p);
    crate::dbp_ext::lemma_valid_cell_counts(p);
    assert forall|cv: Seq<[u32; crate::EXT_DEGREE]>| cv.len() >= c.profile.m implies {
        let rod = #[trigger] read_only(c, cv);
        &&& rod.subrange(v[11].1 - DIGEST_LEN, v[11].1 - DIGEST_LEN + DIGEST_LEN) == c.root@
        &&& rod.subrange(v[12].1 - DIGEST_LEN, rod.len() as int) == crate::guest::words(cv.subrange(0, c.profile.m as int))
    } by {
        let w = crate::guest::words(cv.subrange(0, c.profile.m as int));
        let rod = c.root@ + w;
        assert(rod.subrange(0, 8) =~= c.root@);
        assert(rod.subrange(8, rod.len() as int) =~= w);
    }
}

} // verus!
