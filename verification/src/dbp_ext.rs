//! The extension-field scheme with one public hash per row and one column
//! root over the cell columns, and its row-by-row (DBP) variant in which every
//! row is committed on its own and the rows are then aggregated.
pub use crate::codec::ExtErasureDecoder;
pub use crate::layout::{cell_hash, demo_data, physical_to_logical};
pub use crate::profile::ExtProfile;
use crate::index_map::{empty_position_map, lemma_slot_insert, position_of, record_position, slot};
use crate::index_set::{empty_index_set, insert_index};
use crate::guest::{named_values, outer_level_table, outer_levels, push_words, words};
use crate::codec::{agrees_at, codec_ok, decoded, encode_logical, is_physical_rs_codeword, is_rs_codeword, tables_wf, DecoderTables};
use crate::commit::{
    cell_digest_columns, cell_of, codewords_shape, column_leaves, column_roots, column_roots_of, lemma_cell_geometry,
    row_cells, row_chain,
};
use crate::field::{all_ext_wf, all_fe, ext_of_coords, ext_zero, Ext, P};
use crate::hashing::{chain_hash, chunks_of, compress_pair, compression_chain, hash_slice, poseidon_compress, poseidon_sponge, digest_eq, dviews, fixed_compression_hash, zero_digest, zero_view, Digest};
use crate::layout::{cell_digest, ext_slice_from_base, ext_slice_to_base, flat, logical_to_physical_codeword, p2l, unflat};
use crate::merkle::{auth_path, fold_path, is_pow2, layer_at, log2, merkle_layers, merkle_root, merkle_root_of, path_from_layers, path_root, pow2, sibling};
use crate::poly::{next_power_of_two, padded_len, ilog2};
use crate::profile::{fs_block, fs_block_of, profile_block_of};
use crate::sampling::{picked, sample_from_root};
use crate::rs_check::{challenge_on_domain, check_entry, check_vector_for_challenge, denominators_of, prefix_prod};
use crate::{DemoError, DIGEST_LEN, EXT_DEGREE};
use std::time::Duration;
use vstd::prelude::*;

verus! {

/// The public commitment: the profile, one hash per row, and the root over
/// the cell-column roots.
#[derive(Clone, Debug, PartialEq, Eq)]
pub struct ExtCommitment {
    pub profile: ExtProfile,
    pub row_hashes: Vec<Digest>,
    pub root: Digest,
}

/// What the encoder keeps to answer queries.
#[derive(Clone, Debug)]
pub struct ExtAuxiliaryData {
    pub profile: ExtProfile,
    pub codewords: Vec<Vec<Ext>>,
    pub column_roots: Vec<Digest>,
    pub outer_merkle_layers: Vec<Vec<Digest>>,
}

/// One opened cell column: the cell of every row, as base-field
/// coordinates, and the authentication path of the column root.
#[derive(Clone, Debug, PartialEq, Eq)]
pub struct ExtCellOpening {
    pub index: usize,
    pub cells: Vec<Vec<u32>>,
    pub outer_authentication_path: Vec<Digest>,
}

/// The openings answering one query.
#[derive(Clone, Debug, PartialEq, Eq)]
pub struct ExtTranscript {
    pub openings: Vec<ExtCellOpening>,
}

/// Wall-clock times of the phases of one benchmark run.
#[derive(Clone, Copy, Debug)]
pub struct ExtBenchmarkTimings {
    pub encode_commit: Duration,
    pub prover_preprocess: Duration,
    pub prove: Duration,
    pub opening_generation: Duration,
    pub verifier_rebuild: Duration,
    pub proof_verify: Duration,
    pub verify_openings: Duration,
    pub reconstruct: Option<Duration>,
}

/// Number of cells needed for reconstruction: `k / c` rounded up.
pub open spec fn threshold(profile: ExtProfile) -> nat {
    ((profile.k + profile.c - 1) / (profile.c as int)) as nat
}

/// Number of cell columns.
pub open spec fn cells_of(profile: ExtProfile) -> nat {
    (profile.m / profile.c) as nat
}

/// The row hashes of codewords: each chains the digests of the row's first
/// `threshold` cells.
pub open spec fn row_hashes_of(cw: Seq<Vec<Ext>>, profile: ExtProfile) -> Seq<Seq<u32>> {
    Seq::new(profile.n as nat, |row: int| chain_hash(row_cells(cw, row, profile.c as int, threshold(profile))))
}

/// The auxiliary data is what `encode_and_commit` builds from its codewords.
pub open spec fn aux_consistent(aux: ExtAuxiliaryData) -> bool {
    let p = aux.profile;
    &&& p.is_valid()
    &&& p.n <= usize::MAX / 2 + 1
    &&& codewords_shape(aux.codewords@, p.n as nat, p.m as nat)
    &&& dviews(aux.column_roots@) == column_roots_of(aux.codewords@, cells_of(p), p.c as int, padded_len(p.n as nat))
    &&& aux.outer_merkle_layers.len() == log2(cells_of(p)) + 1
    &&& forall|d: int| 0 <= d < aux.outer_merkle_layers.len() ==> dviews(#[trigger] aux.outer_merkle_layers@[d]@)
        == layer_at(dviews(aux.column_roots@), d as nat)
}

/// A valid profile has at least one reconstruction cell and no more than
/// there are cells.
pub proof fn lemma_threshold_bounds(profile: ExtProfile)
    requires
        profile.is_decodable(),
    ensures
        1 <= threshold(profile) <= cells_of(profile),
        1 <= cells_of(profile),
{
    let c = profile.c as int;
    let m = profile.m as int;
    let k = profile.k as int;
    vstd::arithmetic::div_mod::lemma_fundamental_div_mod(m, c);
    assert(m % c == 0);
    vstd::arithmetic::div_mod::lemma_div_is_ordered(k + c - 1, m + c - 1, c);
    vstd::arithmetic::div_mod::lemma_div_multiples_vanish_fancy(m / c, c - 1, c);
    assert(m + c - 1 == c * (m / c) + (c - 1));
    vstd::arithmetic::div_mod::lemma_div_is_ordered(c, k + c - 1, c);
    vstd::arithmetic::div_mod::lemma_div_by_self(c);
    lemma_cell_geometry(profile, 0);
    vstd::arithmetic::div_mod::lemma_div_is_ordered(c, m, c);
}

/// Rows of every inner column tree: `n` rounded up to a power of two.
pub fn padded_rows(profile: ExtProfile) -> (r: usize)
    requires
        profile.n <= usize::MAX / 2 + 1,
    ensures
        r == padded_len(profile.n as nat),
        is_pow2(r as nat),
        r >= profile.n,
{
    next_power_of_two(profile.n)
}

/// Depth of every inner column tree.
pub fn column_merkle_depth(profile: ExtProfile) -> (r: usize)
    requires
        profile.n <= usize::MAX / 2 + 1,
    ensures
        r == log2(padded_len(profile.n as nat)),
{
    let p = padded_rows(profile);
    ilog2(p)
}

/// Reed-Solomon encodes one blob of `k` coefficients to `m` symbols, in
/// transform order.
pub fn encode_blob(profile: ExtProfile, blob: &Vec<Ext>) -> (r: Vec<Ext>)
    requires
        codec_ok(profile),
        blob.len() == profile.k,
        all_ext_wf(blob@),
    ensures
        is_rs_codeword(blob@, profile.m as nat, r@),
        all_ext_wf(r@),
{
    encode_logical(profile.m, profile.k, blob)
}

/// Encodes every blob.
pub fn encode(profile: ExtProfile, data: &Vec<Vec<Ext>>) -> (r: Vec<Vec<Ext>>)
    requires
        codec_ok(profile),
        data.len() == profile.n,
        forall|i: int| 0 <= i < data.len() ==> (#[trigger] data@[i]).len() == profile.k && all_ext_wf(data@[i]@),
    ensures
        codewords_shape(r@, profile.n as nat, profile.m as nat),
        forall|row: int| 0 <= row < profile.n ==> is_rs_codeword(data@[row]@, profile.m as nat, #[trigger] r@[row]@),
{
    let mut out: Vec<Vec<Ext>> = Vec::new();
    let mut i: usize = 0;
    while i < data.len()
        invariant
            i <= data.len(),
            codec_ok(profile),
            data.len() == profile.n,
            forall|j: int| 0 <= j < data.len() ==> (#[trigger] data@[j]).len() == profile.k && all_ext_wf(data@[j]@),
            out.len() == i,
            forall|j: int| 0 <= j < i ==> (#[trigger] out@[j]).len() == profile.m && all_ext_wf(out@[j]@),
            forall|j: int| 0 <= j < i ==> is_rs_codeword(data@[j]@, profile.m as nat, #[trigger] out@[j]@),
        decreases data.len() - i,
    {
        let row = encode_blob(profile, &data[i]);
        out.push(row);
        i = i + 1;
    }
    out
}

/// Every codeword reordered into physical cell order.
pub fn physical_codewords(profile: ExtProfile, codewords: &Vec<Vec<Ext>>) -> (r: Vec<Vec<Ext>>)
    requires
        profile.m == 2 * profile.k,
        codewords_shape(codewords@, codewords.len() as nat, profile.m as nat),
    ensures
        codewords_shape(r@, codewords.len() as nat, profile.m as nat),
        forall|row: int, i: int| 0 <= row < codewords.len() && 0 <= i < profile.m
            ==> #[trigger] r@[row]@[i] == codewords@[row]@[p2l(profile.k as int, i)],
{
    let mut out: Vec<Vec<Ext>> = Vec::new();
    let mut row: usize = 0;
    while row < codewords.len()
        invariant
            row <= codewords.len(),
            profile.m == 2 * profile.k,
            codewords_shape(codewords@, codewords.len() as nat, profile.m as nat),
            out.len() == row,
            forall|j: int| 0 <= j < row ==> (#[trigger] out@[j]).len() == profile.m && all_ext_wf(out@[j]@),
            forall|j: int, i: int| 0 <= j < row && 0 <= i < profile.m
                ==> #[trigger] out@[j]@[i] == codewords@[j]@[p2l(profile.k as int, i)],
        decreases codewords.len() - row,
    {
        let physical = logical_to_physical_codeword(profile, &codewords[row]);
        out.push(physical);
        row = row + 1;
    }
    out
}

/// Encodes the data, hashes every cell, and builds the row hashes, the
/// column roots and the root over them.  `InvalidDataShape` when the profile
/// is invalid or the data is not `n` blobs of `k` coefficients.
pub fn encode_and_commit(profile: ExtProfile, data: &Vec<Vec<Ext>>) -> (r: Result<(ExtCommitment, ExtAuxiliaryData), DemoError>)
    requires
        profile.n <= usize::MAX / 2 + 1,
        forall|i: int| 0 <= i < data.len() ==> all_ext_wf(#[trigger] data@[i]@),
    ensures
        r is Err <==> !profile.is_valid() || data.len() != profile.n
            || exists|i: int| 0 <= i < data.len() && (#[trigger] data@[i]).len() != profile.k,
        r matches Err(e) ==> e == DemoError::InvalidDataShape,
        r matches Ok((c, aux)) ==> {
            &&& aux.profile == profile
            &&& aux_consistent(aux)
            &&& c.profile == profile
            &&& encodes_to(profile, rows_view(data@), aux.codewords@)
            &&& dviews(c.row_hashes@) == row_hashes_of(aux.codewords@, profile)
            &&& c.root@ == merkle_root(dviews(aux.column_roots@))
        },
{
    match profile.validate() {
        Err(e) => return Err(e),
        Ok(()) => {},
    }
    if data.len() != profile.n {
        return Err(DemoError::InvalidDataShape);
    }
    let mut i: usize = 0;
    while i < data.len()
        invariant
            i <= data.len(),
            forall|j: int| 0 <= j < i ==> (#[trigger] data@[j]).len() == profile.k,
        decreases data.len() - i,
    {
        if data[i].len() != profile.k {
            return Err(DemoError::InvalidDataShape);
        }
        i = i + 1;
    }
    let logical = encode(profile, data);
    let codewords = physical_codewords(profile, &logical);
    proof {
        assert forall|row: int| 0 <= row < profile.n implies is_physical_rs_codeword(
            data@[row]@,
            profile.k as int,
            profile.m as nat,
            #[trigger] codewords@[row]@,
        ) by {
            assert forall|j: int, d: int| 0 <= j < profile.m && 0 <= d < 5 implies #[trigger] codewords@[row]@[j].coords()[d]
                == crate::ntt::peval(
                crate::codec::coord(data@[row]@, d),
                crate::field::fpow(crate::ntt::subgroup_root(profile.m as nat), p2l(profile.k as int, j) as nat),
                data@[row]@.len(),
            ) by {
                assert(codewords@[row]@[j] == logical@[row]@[p2l(profile.k as int, j)]);
                crate::layout::lemma_layout_bijection(profile.k as int, j);
            }
        }
    }
    let n_padded = padded_rows(profile);
    let columns = cell_digest_columns(profile, &codewords, n_padded);
    let t = profile.reconstruction_threshold_cells();
    proof {
        lemma_threshold_bounds(profile);
    }
    let ghost cw = codewords@;
    let mut row_hashes: Vec<Digest> = Vec::new();
    let mut row: usize = 0;
    while row < profile.n
        invariant
            row <= profile.n,
            n_padded >= profile.n,
            cw == codewords@,
            1 <= t <= columns.len(),
            t == threshold(profile),
            columns.len() == profile.m / profile.c,
            forall|cell: int| 0 <= cell < columns.len() ==> (#[trigger] columns@[cell]).len() == n_padded
                && dviews(columns@[cell]@) == column_leaves(cw, cell, profile.c as int, n_padded as nat),
            codewords_shape(cw, profile.n as nat, profile.m as nat),
            row_hashes.len() == row,
            forall|j: int| 0 <= j < row ==> #[trigger] row_hashes@[j]@ == chain_hash(row_cells(cw, j, profile.c as int, t as nat)),
        decreases profile.n - row,
    {
        let h = row_chain(&columns, row, t);
        proof {
            assert forall|cell: int| 0 <= cell < t implies #[trigger] columns@[cell]@[row as int]@ == row_cells(cw, row as int, profile.c as int, t as nat)[cell] by {
                assert(dviews(columns@[cell]@)[row as int] == column_leaves(cw, cell, profile.c as int, n_padded as nat)[row as int]);
            }
            assert(Seq::new(t as nat, |cell: int| columns@[cell]@[row as int]@) =~= row_cells(cw, row as int, profile.c as int, t as nat));
        }
        row_hashes.push(h);
        row = row + 1;
    }
    let ghost leaves = Seq::new(columns.len() as nat, |cell: int| column_leaves(cw, cell, profile.c as int, n_padded as nat));
    let roots = column_roots(&columns, Ghost(leaves));
    proof {
        assert(dviews(roots@) =~= column_roots_of(cw, cells_of(profile), profile.c as int, padded_len(profile.n as nat)));
        assert(dviews(row_hashes@) =~= row_hashes_of(cw, profile));
        crate::poly::lemma_small_pow2_len(profile.m as nat);
    }
    let layers = merkle_layers(&roots);
    let top = layers.len() - 1;
    let root = layers[top][0];
    let commitment = ExtCommitment { profile, row_hashes, root };
    let aux = ExtAuxiliaryData { profile, codewords, column_roots: roots, outer_merkle_layers: layers };
    Ok((commitment, aux))
}

} // verus!

verus! {

/// Indices are distinct and below `bound`.
pub open spec fn distinct_indices(s: Seq<usize>, bound: nat) -> bool {
    &&& forall|i: int| 0 <= i < s.len() ==> #[trigger] s[i] < bound
    &&& forall|i: int, j: int| 0 <= i < j < s.len() ==> s[i] != s[j]
}

/// The opening of cell column `index` read off the auxiliary data.
pub open spec fn opening_of(aux: ExtAuxiliaryData, index: nat, o: ExtCellOpening) -> bool {
    let p = aux.profile;
    &&& o.index == index
    &&& o.cells.len() == p.n
    &&& forall|row: int| 0 <= row < p.n ==> (#[trigger] o.cells@[row])@ == flat(cell_of(aux.codewords@[row]@, index as int, p.c as int))
    &&& dviews(o.outer_authentication_path@) == auth_path(dviews(aux.column_roots@), 0, log2(cells_of(p)), index)
}

/// The root over the column roots is the single node of the top level of
/// the stored outer tree.
pub proof fn lemma_root_is_top_level(aux: ExtAuxiliaryData, root: Seq<u32>)
    requires
        aux_consistent(aux),
        root == merkle_root(dviews(aux.column_roots@)),
    ensures
        root == dviews(aux.outer_merkle_layers@.last()@)[0],
{
    let d = log2(cells_of(aux.profile));
    assert(aux.outer_merkle_layers@.last() == aux.outer_merkle_layers@[d as int]);
    assert(dviews(aux.column_roots@).len() == cells_of(aux.profile));
}

/// Each entry of an opening's authentication path is the sibling of the
/// opened column's ancestor in the matching level of the outer tree:
/// entry `t` is node `sibling(index / 2^t)` of level `t`.
pub proof fn lemma_query_path_siblings(aux: ExtAuxiliaryData, index: nat, o: ExtCellOpening, t: nat)
    requires
        aux_consistent(aux),
        opening_of(aux, index, o),
        t < log2(cells_of(aux.profile)),
    ensures
        o.outer_authentication_path@[t as int]@ == dviews(aux.outer_merkle_layers@[t as int]@)[sibling(index / pow2(t)) as int],
{
    let l = dviews(aux.column_roots@);
    crate::merkle::lemma_auth_path_entry(l, 0, log2(cells_of(aux.profile)), index, t);
    lemma_auth_path_len(l, 0, log2(cells_of(aux.profile)), index);
    assert(dviews(o.outer_authentication_path@)[t as int] == o.outer_authentication_path@[t as int]@);
    assert(dviews(aux.outer_merkle_layers@[t as int]@) == layer_at(l, t));
}

/// `t` opens exactly the cell columns `indices`, in order.
pub open spec fn answers(aux: ExtAuxiliaryData, indices: Seq<usize>, t: ExtTranscript) -> bool {
    &&& t.openings.len() == indices.len()
    &&& forall|i: int| 0 <= i < indices.len() ==> opening_of(aux, indices[i] as nat, #[trigger] t.openings@[i])
}

/// Whether the indices are distinct and below `bound`.
pub fn check_query_indices(indices: &[usize], bound: usize) -> (r: bool)
    ensures
        r == distinct_indices(indices@, bound as nat),
{
    let mut seen = empty_index_set();
    let mut q: usize = 0;
    while q < indices.len()
        invariant
            q <= indices.len(),
            distinct_indices(indices@.subrange(0, q as int), bound as nat),
            forall|c: usize| #[trigger] seen@.contains(c) <==> indices@.subrange(0, q as int).contains(c),
        decreases indices.len() - q,
    {
        let index = indices[q];
        if index >= bound {
            return false;
        }
        if !insert_index(&mut seen, index) {
            proof {
                let j = indices@.subrange(0, q as int).index_of(index);
                assert(indices@[j] == indices@[q as int]);
            }
            return false;
        }
        proof {
            let pre = indices@.subrange(0, q as int);
            let post = indices@.subrange(0, q + 1);
            assert(post =~= pre.push(index));
            assert forall|c: usize| #[trigger] seen@.contains(c) <==> post.contains(c) by {
                if c == index {
                    assert(post[q as int] == index);
                } else if post.contains(c) {
                    let j = post.index_of(c);
                    assert(pre[j] == c);
                }
            }
        }
        q = q + 1;
    }
    assert(indices@.subrange(0, indices.len() as int) =~= indices@);
    true
}

/// The cells of column `index` of every row, as base-field coordinates.
pub fn open_cell_column(profile: ExtProfile, codewords: &Vec<Vec<Ext>>, index: usize) -> (r: Vec<Vec<u32>>)
    requires
        profile.is_valid(),
        codewords_shape(codewords@, codewords.len() as nat, profile.m as nat),
        index < cells_of(profile),
    ensures
        r.len() == codewords.len(),
        forall|row: int| 0 <= row < codewords.len() ==> (#[trigger] r@[row])@ == flat(cell_of(codewords@[row]@, index as int, profile.c as int)),
{
    proof {
        lemma_cell_geometry(profile, index as int);
    }
    let start = index * profile.c;
    let mut cells: Vec<Vec<u32>> = Vec::new();
    let mut row: usize = 0;
    while row < codewords.len()
        invariant
            row <= codewords.len(),
            codewords_shape(codewords@, codewords.len() as nat, profile.m as nat),
            start == index * profile.c,
            start + profile.c <= profile.m,
            profile.c <= usize::MAX / 5,
            cells.len() == row,
            forall|j: int| 0 <= j < row ==> (#[trigger] cells@[j])@ == flat(cell_of(codewords@[j]@, index as int, profile.c as int)),
        decreases codewords.len() - row,
    {
        let slice = vstd::slice::slice_subrange(codewords[row].as_slice(), start, start + profile.c);
        assert(slice@ =~= cell_of(codewords@[row as int]@, index as int, profile.c as int));
        cells.push(ext_slice_to_base(slice));
        row = row + 1;
    }
    cells
}

/// Opens the requested cell columns with the authentication paths of their
/// column roots.  `InvalidQuery` when an index is out of range or repeated.
pub fn query(aux: &ExtAuxiliaryData, indices: &[usize]) -> (r: Result<ExtTranscript, DemoError>)
    requires
        aux_consistent(*aux),
    ensures
        r is Err <==> !distinct_indices(indices@, cells_of(aux.profile)),
        r matches Err(e) ==> e == DemoError::InvalidQuery,
        r matches Ok(t) ==> answers(*aux, indices@, t),
{
    let profile = aux.profile;
    let n_cells = profile.n_cells();
    proof {
        lemma_threshold_bounds(profile);
        crate::merkle::lemma_pow2_log2(cells_of(profile));
    }
    let depth = profile.merkle_depth();
    if !check_query_indices(indices, n_cells) {
        return Err(DemoError::InvalidQuery);
    }
    let ghost l = dviews(aux.column_roots@);
    let mut openings: Vec<ExtCellOpening> = Vec::new();
    let mut q: usize = 0;
    while q < indices.len()
        invariant
            q <= indices.len(),
            aux_consistent(*aux),
            profile == aux.profile,
            n_cells == cells_of(profile),
            depth == log2(cells_of(profile)),
            l == dviews(aux.column_roots@),
            distinct_indices(indices@, n_cells as nat),
            openings.len() == q,
            forall|j: int| 0 <= j < q ==> opening_of(*aux, indices@[j] as nat, #[trigger] openings@[j]),
        decreases indices.len() - q,
    {
        let index = indices[q];
        let cells = open_cell_column(profile, &aux.codewords, index);
        let path = path_from_layers(&aux.outer_merkle_layers, index, depth, Ghost(l));
        openings.push(ExtCellOpening { index, cells, outer_authentication_path: path });
        q = q + 1;
    }
    Ok(ExtTranscript { openings })
}

/// The leaves of the inner tree that an opening's cells determine.
pub open spec fn opened_leaves(cells: Seq<Vec<u32>>, np: nat) -> Seq<Seq<u32>> {
    Seq::new(np, |row: int| if row < cells.len() { chain_hash(chunks_of(cells[row]@)) } else { zero_view() })
}

/// One opening is well formed and its column root, folded up its path,
/// gives `root`.
pub open spec fn opening_valid(profile: ExtProfile, root: Seq<u32>, o: ExtCellOpening) -> bool {
    &&& o.index < cells_of(profile)
    &&& o.cells.len() == profile.n
    &&& forall|row: int| 0 <= row < o.cells.len() ==> (#[trigger] o.cells@[row]).len() == profile.c * 5
    &&& o.outer_authentication_path.len() == log2(cells_of(profile))
    &&& path_root(
        merkle_root(opened_leaves(o.cells@, padded_len(profile.n as nat))),
        o.index as nat,
        dviews(o.outer_authentication_path@),
    ) == root
}

/// The indices of a list of openings.
pub open spec fn opening_indices(os: Seq<ExtCellOpening>) -> Seq<usize> {
    os.map_values(|o: ExtCellOpening| o.index)
}

/// Every opening is valid and no cell column is opened twice.
pub open spec fn transcript_valid(c: ExtCommitment, t: ExtTranscript) -> bool {
    &&& forall|i: int| 0 <= i < t.openings.len() ==> opening_valid(c.profile, c.root@, #[trigger] t.openings@[i])
    &&& forall|i: int, j: int| 0 <= i < j < t.openings.len() ==> t.openings@[i].index != t.openings@[j].index
}

/// The profile's cells split into whole digests: a positive width whose
/// base-field words are a multiple of the digest size.
pub open spec fn cells_hashable(p: ExtProfile) -> bool {
    p.c > 0 && p.c <= usize::MAX / 5 && (p.c * 5) % 8 == 0
}

/// A valid profile's cells split into whole digests.
pub proof fn lemma_valid_hashable(p: ExtProfile)
    requires
        p.is_decodable(),
    ensures
        cells_hashable(p),
{
    lemma_threshold_bounds(p);
    lemma_cell_geometry(p, 0);
}

/// The column root that an opening's cells determine.
pub(crate) fn opened_column_root(profile: ExtProfile, n_padded: usize, cells: &Vec<Vec<u32>>) -> (r: Digest)
    requires
        cells_hashable(profile),
        n_padded == padded_len(profile.n as nat),
        is_pow2(n_padded as nat),
        cells.len() == profile.n,
        n_padded >= profile.n,
        forall|row: int| 0 <= row < cells.len() ==> (#[trigger] cells@[row]).len() == profile.c * 5,
    ensures
        r@ == merkle_root(opened_leaves(cells@, n_padded as nat)),
{
    let mut leaves: Vec<Digest> = Vec::new();
    let mut row: usize = 0;
    while row < n_padded
        invariant
            row <= n_padded,
            cells.len() == profile.n,
            n_padded >= profile.n,
            profile.c >= 1,
            (profile.c * 5) % 8 == 0,
            forall|j: int| 0 <= j < cells.len() ==> (#[trigger] cells@[j]).len() == profile.c * 5,
            leaves.len() == row,
            forall|j: int| 0 <= j < row ==> #[trigger] leaves@[j]@ == opened_leaves(cells@, n_padded as nat)[j],
        decreases n_padded - row,
    {
        if row < cells.len() {
            leaves.push(fixed_compression_hash(cells[row].as_slice()));
        } else {
            leaves.push(zero_digest());
        }
        row = row + 1;
    }
    assert(dviews(leaves@) =~= opened_leaves(cells@, n_padded as nat));
    merkle_root_of(&leaves)
}

/// Checks every opening against the commitment: its shape, that no column
/// is opened twice, and that its recomputed column root authenticates to
/// the commitment root.
pub fn verify_openings(commitment: &ExtCommitment, transcript: &ExtTranscript) -> (r: bool)
    requires
        cells_hashable(commitment.profile),
        commitment.profile.n <= usize::MAX / 2 + 1,
    ensures
        r == transcript_valid(*commitment, *transcript),
{
    let profile = commitment.profile;
    let n_padded = padded_rows(profile);
    let n_cells = profile.n_cells();
    let depth = if n_cells >= 1 {
        profile.merkle_depth()
    } else {
        0
    };
    let expected_cell_len = profile.c * 5;
    let mut seen = empty_index_set();
    let ghost os = transcript.openings@;
    let mut q: usize = 0;
    while q < transcript.openings.len()
        invariant
            q <= os.len(),
            os == transcript.openings@,
            profile == commitment.profile,
            cells_hashable(profile),
            n_padded == padded_len(profile.n as nat),
            is_pow2(n_padded as nat),
            n_padded >= profile.n,
            n_cells == cells_of(profile),
            n_cells >= 1 ==> depth == log2(cells_of(profile)),
            expected_cell_len == profile.c * 5,
            forall|j: int| 0 <= j < q ==> opening_valid(profile, commitment.root@, #[trigger] os[j]),
            forall|i: int, j: int| 0 <= i < j < q ==> os[i].index != os[j].index,
            forall|c: usize| #[trigger] seen@.contains(c) <==> exists|j: int| 0 <= j < q && os[j].index == c,
        decreases os.len() - q,
    {
        let opening = &transcript.openings[q];
        if opening.index >= n_cells {
            return false;
        }
        if !insert_index(&mut seen, opening.index) {
            return false;
        }
        if opening.cells.len() != profile.n {
            return false;
        }
        let mut row: usize = 0;
        while row < opening.cells.len()
            invariant
                row <= opening.cells.len(),
                q < os.len(),
                os == transcript.openings@,
                *opening == os[q as int],
                expected_cell_len == commitment.profile.c * 5,
                forall|j: int| 0 <= j < row ==> (#[trigger] opening.cells@[j]).len() == expected_cell_len,
            decreases opening.cells.len() - row,
        {
            if opening.cells[row].len() != expected_cell_len {
                return false;
            }
            row = row + 1;
        }
        if opening.outer_authentication_path.len() != depth {
            return false;
        }
        let column_root = opened_column_root(profile, n_padded, &opening.cells);
        let digest = fold_path(&column_root, opening.index, &opening.outer_authentication_path);
        if !digest_eq(&digest, &commitment.root) {
            return false;
        }
        proof {
            assert forall|c: usize| #[trigger] seen@.contains(c) <==> exists|j: int| 0 <= j < q + 1 && os[j].index == c by {
                if c == opening.index {
                    assert(os[q as int].index == c);
                }
            }
        }
        q = q + 1;
    }
    true
}

/// The length of an authentication path is the number of levels it spans.
pub proof fn lemma_auth_path_len(l: Seq<Seq<u32>>, d: nat, depth: nat, node: nat)
    ensures
        auth_path(l, d, depth, node).len() == if d >= depth { 0 } else { depth - d },
    decreases depth - d,
{
    if d < depth {
        lemma_auth_path_len(l, d + 1, depth, node / 2);
    }
}

/// Completeness: the openings that `query` gives for distinct in-range
/// indices all verify against the commitment built with the same auxiliary
/// data.
pub proof fn lemma_honest_openings_verify(c: ExtCommitment, aux: ExtAuxiliaryData, indices: Seq<usize>, t: ExtTranscript)
    requires
        aux_consistent(aux),
        c.profile == aux.profile,
        c.root@ == merkle_root(dviews(aux.column_roots@)),
        distinct_indices(indices, cells_of(aux.profile)),
        answers(aux, indices, t),
    ensures
        transcript_valid(c, t),
{
    let p = aux.profile;
    let np = padded_len(p.n as nat);
    let l = dviews(aux.column_roots@);
    lemma_threshold_bounds(p);
    assert(l.len() == cells_of(p));
    crate::merkle::lemma_pow2_log2(cells_of(p));
    assert forall|i: int| 0 <= i < t.openings.len() implies opening_valid(c.profile, c.root@, #[trigger] t.openings@[i]) by {
        let o = t.openings@[i];
        let index = indices[i];
        assert(opening_of(aux, index as nat, o));
        lemma_cell_geometry(p, index as int);
        assert forall|row: int| 0 <= row < o.cells.len() implies (#[trigger] o.cells@[row]).len() == p.c * 5 by {
            assert(o.cells@[row]@ == flat(cell_of(aux.codewords@[row]@, index as int, p.c as int)));
            assert(aux.codewords@[row].len() == p.m);
        }
        lemma_auth_path_len(l, 0, log2(cells_of(p)), index as nat);
        assert(opened_leaves(o.cells@, np) =~= column_leaves(aux.codewords@, index as int, p.c as int, np)) by {
            assert forall|row: int| 0 <= row < np implies #[trigger] opened_leaves(o.cells@, np)[row] == column_leaves(aux.codewords@, index as int, p.c as int, np)[row] by {
                if row < p.n {
                    assert(o.cells@[row]@ == flat(cell_of(aux.codewords@[row]@, index as int, p.c as int)));
                }
            }
        }
        assert(l[index as int] == merkle_root(column_leaves(aux.codewords@, index as int, p.c as int, np)));
        crate::merkle::lemma_auth_path_root(l, 0, index as nat);
    }
}

} // verus!

verus! {

/// Digests laid end to end.
pub open spec fn digest_concat(v: Seq<Seq<u32>>) -> Seq<u32>
    decreases v.len(),
{
    if v.len() == 0 {
        seq![]
    } else {
        digest_concat(v.drop_last()) + v.last()
    }
}

/// Appends a digest.
pub fn push_digest(out: &mut Vec<u32>, d: &Digest)
    ensures
        final(out)@ == old(out)@ + d@,
{
    let mut i: usize = 0;
    while i < DIGEST_LEN
        invariant
            i <= DIGEST_LEN,
            out@ == old(out)@ + d@.subrange(0, i as int),
        decreases DIGEST_LEN - i,
    {
        out.push(d[i]);
        proof {
            assert(d@.subrange(0, i + 1) =~= d@.subrange(0, i as int).push(d@[i as int]));
        }
        i = i + 1;
    }
    assert(d@.subrange(0, DIGEST_LEN as int) =~= d@);
}

/// The Fiat-Shamir input of a commitment: the domain block, the profile
/// block, every row hash and the root.
pub open spec fn fs_input(c: ExtCommitment) -> Seq<u32> {
    fs_block_of() + profile_block_of(c.profile) + digest_concat(dviews(c.row_hashes@)) + c.root@
}

/// The Fiat-Shamir challenge: the first five elements of the sponge digest.
pub open spec fn challenge_of(c: ExtCommitment) -> Ext {
    ext_of_coords(poseidon_sponge(fs_input(c)))
}

/// The sponge digest of the Fiat-Shamir input.
pub fn fiat_shamir_digest(commitment: &ExtCommitment) -> (r: Digest)
    requires
        commitment.profile.c > 0,
    ensures
        r@ == poseidon_sponge(fs_input(*commitment)),
        all_fe(r@),
{
    let mut values: Vec<u32> = Vec::new();
    let fs = fs_block();
    push_digest(&mut values, &fs);
    let pb = commitment.profile.profile_block();
    push_digest(&mut values, &pb);
    let ghost hs = dviews(commitment.row_hashes@);
    let ghost head = fs_block_of() + profile_block_of(commitment.profile);
    let mut i: usize = 0;
    while i < commitment.row_hashes.len()
        invariant
            i <= commitment.row_hashes.len(),
            hs == dviews(commitment.row_hashes@),
            values@ == head + digest_concat(hs.subrange(0, i as int)),
        decreases commitment.row_hashes.len() - i,
    {
        push_digest(&mut values, &commitment.row_hashes[i]);
        proof {
            assert(hs.subrange(0, i + 1).drop_last() =~= hs.subrange(0, i as int));
        }
        i = i + 1;
    }
    assert(hs.subrange(0, hs.len() as int) =~= hs);
    push_digest(&mut values, &commitment.root);
    hash_slice(values.as_slice())
}

/// The extension element made of the first five elements of a digest.
pub fn ext_from_digest(d: &Digest) -> (r: Ext)
    requires
        all_fe(d@),
    ensures
        r == ext_of_coords(d@),
        r.wf(),
{
    Ext { c0: d[0], c1: d[1], c2: d[2], c3: d[3], c4: d[4] }
}

/// The Fiat-Shamir challenge of a commitment.
pub fn challenge(commitment: &ExtCommitment) -> (r: Ext)
    requires
        commitment.profile.c > 0,
    ensures
        r == challenge_of(*commitment),
        r.wf(),
{
    let d = fiat_shamir_digest(commitment);
    ext_from_digest(&d)
}

/// The public check vector of a commitment, at its Fiat-Shamir challenge.
/// `None` when the challenge lies on the domain (or the denominators'
/// product vanishes).
pub fn check_vector(commitment: &ExtCommitment) -> (r: Option<Vec<[u32; 5]>>)
    requires
        codec_ok(commitment.profile),
        commitment.profile.c > 0,
    ensures
        r is None <==> challenge_on_domain(challenge_of(*commitment), commitment.profile.m as nat, commitment.profile.k as nat)
            || prefix_prod(denominators_of(challenge_of(*commitment), commitment.profile.m as nat, commitment.profile.k as nat), 2 * commitment.profile.k as nat) == ext_zero(),
        r matches Some(v) ==> v.len() == commitment.profile.m && forall|i: int| 0 <= i < commitment.profile.m
            ==> (#[trigger] v@[i])@ == check_entry(challenge_of(*commitment), commitment.profile.m as nat, commitment.profile.k as nat, i),
{
    let p = challenge(commitment);
    check_vector_for_challenge(commitment.profile, p)
}

/// The opened cell indices of every transcript.
pub open spec fn transcript_indices(ts: Seq<ExtTranscript>) -> Seq<Seq<usize>> {
    ts.map_values(|t: ExtTranscript| opening_indices(t.openings@))
}

/// Cell column `c` is opened by some transcript.
pub open spec fn opened_in(idx: Seq<Seq<usize>>, c: nat) -> bool {
    exists|t: int, j: int| 0 <= t < idx.len() && 0 <= j < idx[t].len() && #[trigger] idx[t][j] == c
}

/// Number of cell columns below `n` opened by some transcript.
pub open spec fn count_opened(idx: Seq<Seq<usize>>, n: nat) -> nat
    decreases n,
{
    if n == 0 {
        0
    } else {
        count_opened(idx, (n - 1) as nat) + if opened_in(idx, (n - 1) as nat) {
            1nat
        } else {
            0nat
        }
    }
}

/// Every opened coordinate is a canonical base-field element.
pub open spec fn transcripts_canonical(ts: Seq<ExtTranscript>) -> bool {
    forall|t: int, j: int, row: int| 0 <= t < ts.len() && 0 <= j < ts[t].openings.len() && 0 <= row < ts[t].openings@[j].cells.len()
        ==> all_fe(#[trigger] ts[t].openings@[j].cells@[row]@)
}

/// An opening has the shape of the profile: an in-range index and one cell
/// of `5c` coordinates per row.
pub open spec fn opening_shaped(profile: ExtProfile, o: ExtCellOpening) -> bool {
    &&& o.index < cells_of(profile)
    &&& o.cells.len() == profile.n
    &&& forall|row: int| 0 <= row < o.cells.len() ==> (#[trigger] o.cells@[row]).len() == profile.c * 5
}

/// Every opening of every transcript is shaped.
pub open spec fn transcripts_shaped(profile: ExtProfile, ts: Seq<ExtTranscript>) -> bool {
    forall|t: int, j: int| 0 <= t < ts.len() && 0 <= j < ts[t].openings.len() ==> opening_shaped(profile, #[trigger] ts[t].openings@[j])
}

/// Each blob's view.
pub open spec fn rows_view(s: Seq<Vec<Ext>>) -> Seq<Seq<Ext>> {
    Seq::new(s.len(), |i: int| s[i]@)
}

/// `cw` holds, row by row, the physical Reed-Solomon codeword of each blob
/// of `data`.
pub open spec fn encodes_to(profile: ExtProfile, data: Seq<Seq<Ext>>, cw: Seq<Vec<Ext>>) -> bool {
    &&& data.len() == profile.n
    &&& cw.len() == profile.n
    &&& forall|row: int|
        0 <= row < profile.n ==> (#[trigger] data[row]).len() == profile.k && all_ext_wf(data[row])
            && is_physical_rs_codeword(data[row], profile.k as int, profile.m as nat, cw[row]@)
}

/// Every opening of every transcript carries the cells of `cw` in its column.
pub open spec fn opens_cells(profile: ExtProfile, ts: Seq<ExtTranscript>, cw: Seq<Vec<Ext>>) -> bool {
    forall|t: int, j: int, row: int|
        0 <= t < ts.len() && 0 <= j < ts[t].openings.len() && 0 <= row < profile.n
            ==> (#[trigger] ts[t].openings@[j].cells@[row])@ == flat(
            cell_of(cw[row]@, ts[t].openings@[j].index as int, profile.c as int),
        )
}

/// The extension element at position `q` of the values read for `row`:
/// element `q % c` of the cell of the column `q / c` was read from.
pub open spec fn source_value(ts: Seq<ExtTranscript>, sources: Seq<(usize, usize)>, row: int, c: int, q: int) -> Ext {
    let (u, j) = sources[q / c];
    unflat(ts[u as int].openings@[j as int].cells@[row]@)[q % c]
}

/// Position `a` (transcript, then opening) comes before position `b`.
pub open spec fn pos_before(a: (int, int), b: (int, int)) -> bool {
    a.0 < b.0 || (a.0 == b.0 && a.1 < b.1)
}

/// Position `p` (transcript, then opening) opens cell column `c`.
pub open spec fn opens_at(idx: Seq<Seq<usize>>, p: (int, int), c: nat) -> bool {
    0 <= p.0 < idx.len() && 0 <= p.1 < idx[p.0].len() && idx[p.0][p.1] == c
}

/// The first position, transcript by transcript and opening by opening,
/// that opens cell column `c`.
pub open spec fn first_opening(idx: Seq<Seq<usize>>, c: nat) -> (int, int) {
    choose|p: (int, int)| opens_at(idx, p, c) && forall|q: (int, int)| #[trigger] opens_at(idx, q, c) ==> !pos_before(q, p)
}

/// A position that opens `c` and has none before it is the first one.
pub proof fn lemma_first_opening(idx: Seq<Seq<usize>>, c: nat, p: (int, int))
    requires
        opens_at(idx, p, c),
        forall|q: (int, int)| #[trigger] opens_at(idx, q, c) ==> !pos_before(q, p),
    ensures
        first_opening(idx, c) == p,
{
    assert(opens_at(idx, p, c) && forall|q: (int, int)| #[trigger] opens_at(idx, q, c) ==> !pos_before(q, p));
    let f = first_opening(idx, c);
    assert(!pos_before(f, p));
    assert(!pos_before(p, f));
}

/// The cell columns below `n` opened by some transcript, in increasing order.
pub open spec fn opened_list(idx: Seq<Seq<usize>>, n: nat) -> Seq<usize>
    decreases n,
{
    if n == 0 {
        Seq::empty()
    } else if opened_in(idx, (n - 1) as nat) {
        opened_list(idx, (n - 1) as nat).push((n - 1) as usize)
    } else {
        opened_list(idx, (n - 1) as nat)
    }
}

/// The first opening of each of the columns `cols`.
pub open spec fn first_sources(idx: Seq<Seq<usize>>, cols: Seq<usize>) -> Seq<(usize, usize)> {
    cols.map_values(|x: usize| (first_opening(idx, x as nat).0 as usize, first_opening(idx, x as nat).1 as usize))
}

/// The logical symbol positions of the columns `cols`: each symbol of each
/// column, column by column.
pub open spec fn opened_symbols(profile: ExtProfile, cols: Seq<usize>) -> Seq<usize> {
    Seq::new(
        cols.len() * (profile.c as nat),
        |q: int| p2l(profile.k as int, cols[q / profile.c as int] * profile.c + q % profile.c as int) as usize,
    )
}

/// The logical symbol positions of the columns that some transcript opens,
/// in increasing column order; `idx` holds each transcript's indices.
pub open spec fn transcript_symbols(profile: ExtProfile, idx: Seq<Seq<usize>>) -> Seq<usize> {
    opened_symbols(profile, opened_list(idx, cells_of(profile)))
}

/// The opened cells of each opening of each transcript, row by row, as
/// base-field coordinates.
pub open spec fn transcript_cells(ts: Seq<ExtTranscript>) -> Seq<Seq<Seq<Seq<u32>>>> {
    ts.map_values(|t: ExtTranscript| t.openings@.map_values(|o: ExtCellOpening| o.cells@.map_values(|v: Vec<u32>| v@)))
}

/// The values of `row` at the symbols of the opened columns, in increasing
/// column order, read from the first opening of each column; `idx` holds
/// each transcript's indices and `cells` their cells.
pub open spec fn opened_values(
    profile: ExtProfile,
    idx: Seq<Seq<usize>>,
    cells: Seq<Seq<Seq<Seq<u32>>>>,
    row: int,
) -> Seq<Ext> {
    let cols = opened_list(idx, cells_of(profile));
    Seq::new(
        cols.len() * (profile.c as nat),
        |q: int| {
            let p = first_opening(idx, cols[q / profile.c as int] as nat);
            unflat(cells[p.0][p.1][row])[q % profile.c as int]
        },
    )
}

/// `data` is, row by row, the erasure decoding of the values of the opened
/// columns (first opening of each, columns in increasing order) under one
/// set of decoder tables for the opened symbols; `idx` holds each
/// transcript's indices and `cells` their cells.  (Such tables hold the
/// monic polynomial vanishing exactly at the erased points; that it is the
/// only one is not stated here.)
pub open spec fn decodes_openings(
    profile: ExtProfile,
    idx: Seq<Seq<usize>>,
    cells: Seq<Seq<Seq<Seq<u32>>>>,
    data: Seq<Vec<Ext>>,
) -> bool {
    exists|t: DecoderTables| {
        &&& #[trigger] tables_wf(t, profile.m as nat, profile.k as nat, transcript_symbols(profile, idx))
        &&& forall|row: int| 0 <= row < profile.n ==> (#[trigger] data[row])@ == decoded(
            profile.m as nat,
            profile.k as nat,
            transcript_symbols(profile, idx),
            t,
            opened_values(profile, idx, cells, row),
        )
    }
}

/// The value read at position `q` for `row` from honest openings is the
/// physical codeword entry at the position the decoder maps to `sym[q]`.
#[verifier::spinoff_prover]
#[verifier::rlimit(60)]
proof fn lemma_row_value(
    profile: ExtProfile,
    ts: Seq<ExtTranscript>,
    indices: Seq<usize>,
    sources: Seq<(usize, usize)>,
    sym: Seq<usize>,
    values: Seq<Ext>,
    row: int,
    cw: Seq<Vec<Ext>>,
    q: int,
) -> (i: int)
    requires
        profile.is_decodable(),
        0 <= row < profile.n,
        forall|x: int| 0 <= x < indices.len() ==> #[trigger] indices[x] < cells_of(profile),
        sources.len() == indices.len(),
        forall|y: int| 0 <= y < sources.len() ==> {
            let (u, j) = #[trigger] sources[y];
            u < ts.len() && j < ts[u as int].openings.len() && ts[u as int].openings@[j as int].index == indices[y]
        },
        sym.len() == indices.len() * profile.c,
        forall|qq: int| 0 <= qq < sym.len() ==> #[trigger] sym[qq] == p2l(
            profile.k as int,
            indices[qq / profile.c as int] * profile.c + qq % profile.c as int,
        ),
        values.len() == sym.len(),
        forall|qq: int| 0 <= qq < values.len() ==> #[trigger] values[qq] == source_value(ts, sources, row, profile.c as int, qq),
        cw[row]@.len() == profile.m,
        opens_cells(profile, ts, cw),
        0 <= q < sym.len(),
    ensures
        0 <= i < profile.m,
        sym[q] == p2l(profile.k as int, i),
        values[q] == cw[row]@[i],
{
    let c = profile.c as int;
    lemma_threshold_bounds(profile);
    lemma_cell_geometry(profile, 0);
    vstd::arithmetic::div_mod::lemma_fundamental_div_mod(q, c);
    vstd::arithmetic::div_mod::lemma_div_pos_is_pos(q, c);
    vstd::arithmetic::div_mod::lemma_mod_bound(q, c);
    let y = q / c;
    let r = q % c;
    assert(y < indices.len()) by (nonlinear_arith)
        requires
            q == c * y + r,
            r >= 0,
            q < indices.len() * c,
            c >= 1,
    ;
    let (u, j) = sources[y];
    let o = ts[u as int].openings@[j as int];
    let idx = indices[y] as int;
    assert(o.index == idx);
    lemma_cell_geometry(profile, idx);
    let cellv = cell_of(cw[row]@, idx, c);
    assert(o.cells@[row]@ == flat(cellv));
    lemma_unflat_at(o.cells@[row]@, cellv, r);
    assert(values[q] == source_value(ts, sources, row, c, q));
    assert(values[q] == cellv[r]);
    assert(cellv[r] == cw[row]@[idx * c + r]);
    idx * c + r
}

/// Reading back element `r` of serialised extension elements.
proof fn lemma_unflat_at(cells: Seq<u32>, v: Seq<Ext>, r: int)
    requires
        cells == flat(v),
        0 <= r < v.len(),
    ensures
        unflat(cells)[r] == v[r],
{
    crate::layout::lemma_flat_roundtrip(v, cells);
}

/// The values read for `row` from honest openings are the codeword entries
/// at the decoder's logical positions.
pub proof fn lemma_row_agrees(
    profile: ExtProfile,
    ts: Seq<ExtTranscript>,
    indices: Seq<usize>,
    sources: Seq<(usize, usize)>,
    sym: Seq<usize>,
    values: Seq<Ext>,
    row: int,
)
    requires
        profile.is_decodable(),
        0 <= row < profile.n,
        forall|x: int| 0 <= x < indices.len() ==> #[trigger] indices[x] < cells_of(profile),
        sources.len() == indices.len(),
        forall|y: int| 0 <= y < sources.len() ==> {
            let (u, j) = #[trigger] sources[y];
            u < ts.len() && j < ts[u as int].openings.len() && ts[u as int].openings@[j as int].index == indices[y]
        },
        sym.len() == indices.len() * profile.c,
        forall|q: int| 0 <= q < sym.len() ==> #[trigger] sym[q] == p2l(
            profile.k as int,
            indices[q / profile.c as int] * profile.c + q % profile.c as int,
        ),
        values.len() == sym.len(),
        forall|q: int| 0 <= q < values.len() ==> #[trigger] values[q] == source_value(ts, sources, row, profile.c as int, q),
    ensures
        forall|dd: Seq<Seq<Ext>>, cw: Seq<Vec<Ext>>|
            #[trigger] encodes_to(profile, dd, cw) && opens_cells(profile, ts, cw) ==> agrees_at(
                dd[row],
                profile.m as nat,
                sym,
                values,
            ),
{
    assert forall|dd: Seq<Seq<Ext>>, cw: Seq<Vec<Ext>>|
        #[trigger] encodes_to(profile, dd, cw) && opens_cells(profile, ts, cw) implies agrees_at(
            dd[row],
            profile.m as nat,
            sym,
            values,
        ) by {
        assert(is_physical_rs_codeword(dd[row], profile.k as int, profile.m as nat, cw[row]@));
        assert forall|q: int, d: int| 0 <= q < sym.len() && 0 <= d < 5 implies #[trigger] values[q].coords()[d]
            == crate::ntt::peval(
            crate::codec::coord(dd[row], d),
            crate::field::fpow(crate::ntt::subgroup_root(profile.m as nat), sym[q] as nat),
            dd[row].len(),
        ) by {
            let i = lemma_row_value(profile, ts, indices, sources, sym, values, row, cw, q);
            assert(cw[row]@[i].coords()[d] == crate::ntt::peval(
                crate::codec::coord(dd[row], d),
                crate::field::fpow(crate::ntt::subgroup_root(profile.m as nat), p2l(profile.k as int, i) as nat),
                dd[row].len(),
            ));
        }
    }
}

/// The logical positions of the cells of increasing distinct columns are
/// distinct and inside the codeword.
pub proof fn lemma_symbols_distinct(profile: ExtProfile, indices: Seq<usize>, sym: Seq<usize>)
    requires
        profile.is_decodable(),
        forall|x: int| 0 <= x < indices.len() ==> #[trigger] indices[x] < cells_of(profile),
        forall|x: int, y: int| 0 <= x < y < indices.len() ==> indices[x] < indices[y],
        sym.len() == indices.len() * profile.c,
        forall|q: int| 0 <= q < sym.len() ==> #[trigger] sym[q] == p2l(
            profile.k as int,
            indices[q / profile.c as int] * profile.c + q % profile.c as int,
        ),
    ensures
        crate::codec::distinct_below(sym, profile.m as nat),
{
    let c = profile.c as int;
    let k = profile.k as int;
    lemma_threshold_bounds(profile);
    lemma_cell_geometry(profile, 0);
    assert forall|q: int| 0 <= q < sym.len() implies #[trigger] sym[q] < profile.m && {
        let y = q / c;
        &&& 0 <= y < indices.len()
        &&& 0 <= indices[y] * c + q % c < profile.m
        &&& sym[q] == p2l(k, indices[y] * c + q % c)
    } by {
        vstd::arithmetic::div_mod::lemma_fundamental_div_mod(q, c);
        let y = q / c;
        vstd::arithmetic::div_mod::lemma_div_pos_is_pos(q, c);
        vstd::arithmetic::div_mod::lemma_mod_bound(q, c);
        assert(y < indices.len()) by (nonlinear_arith)
            requires
                q == c * y + q % c,
                q % c >= 0,
                q < indices.len() * c,
                c >= 1,
        ;
        lemma_cell_geometry(profile, indices[y] as int);
        crate::layout::lemma_layout_bijection(k, indices[y] * c + q % c);
    }
    assert forall|q1: int, q2: int| 0 <= q1 < q2 < sym.len() implies sym[q1] != sym[q2] by {
        let y1 = q1 / c;
        let y2 = q2 / c;
        let r1 = q1 % c;
        let r2 = q2 % c;
        let i1 = indices[y1] * c + r1;
        let i2 = indices[y2] * c + r2;
        assert(sym[q1] < profile.m);
        assert(sym[q2] < profile.m);
        if sym[q1] == sym[q2] {
            crate::layout::lemma_layout_bijection(k, i1);
            crate::layout::lemma_layout_bijection(k, i2);
            assert(i1 == i2);
            vstd::arithmetic::div_mod::lemma_fundamental_div_mod_converse(i1, c, indices[y1] as int, r1);
            vstd::arithmetic::div_mod::lemma_fundamental_div_mod_converse(i1, c, indices[y2] as int, r2);
            assert(indices[y1] == indices[y2]);
            if y1 < y2 {
                assert(indices[y1] < indices[y2]);
            } else if y2 < y1 {
                assert(indices[y2] < indices[y1]);
            }
            vstd::arithmetic::div_mod::lemma_fundamental_div_mod(q1, c);
            vstd::arithmetic::div_mod::lemma_fundamental_div_mod(q2, c);
        }
    }
}

/// `threshold` is the fewest cells of `c` symbols that hold the `k`
/// message symbols.
pub proof fn lemma_threshold_least_cover(profile: ExtProfile)
    requires
        profile.c >= 1,
    ensures
        threshold(profile) * profile.c >= profile.k,
        (threshold(profile) - 1) * profile.c < profile.k,
{
    lemma_threshold_covers(profile);
    let c = profile.c as int;
    let x = profile.k + c - 1;
    vstd::arithmetic::div_mod::lemma_fundamental_div_mod(x, c);
    let t = x / c;
    assert((t - 1) * c < profile.k) by (nonlinear_arith)
        requires
            x == c * t + x % c,
            0 <= x % c,
            x == profile.k + c - 1,
    ;
}

/// A valid profile's codeword splits into whole cells, whose words fill
/// whole digests, and the cell count is a power of two.
pub proof fn lemma_valid_cell_counts(profile: ExtProfile)
    requires
        profile.is_valid(),
    ensures
        cells_of(profile) * profile.c == profile.m,
        ((profile.c * 5) / 8) * 8 == profile.c * 5,
        pow2(log2(cells_of(profile))) == cells_of(profile),
{
    vstd::arithmetic::div_mod::lemma_fundamental_div_mod(profile.m as int, profile.c as int);
    vstd::arithmetic::div_mod::lemma_fundamental_div_mod(profile.c * 5, 8);
    crate::merkle::lemma_pow2_log2(cells_of(profile));
    assert(cells_of(profile) * profile.c == profile.c * cells_of(profile)) by (nonlinear_arith);
}

/// `threshold` cells of `c` symbols hold at least `k` symbols.
pub proof fn lemma_threshold_covers(profile: ExtProfile)
    requires
        profile.c >= 1,
    ensures
        threshold(profile) * profile.c >= profile.k,
{
    let c = profile.c as int;
    let x = profile.k + c - 1;
    vstd::arithmetic::div_mod::lemma_fundamental_div_mod(x, c);
    let t = x / c;
    assert(t * c >= profile.k) by (nonlinear_arith)
        requires
            x == c * t + x % c,
            x % c < c,
            x == profile.k + c - 1,
    ;
}

/// Decodes every row from the distinct cell columns opened, in increasing
/// column order, using the first opening of each column.
/// `InsufficientCells` when fewer than `threshold` distinct columns are
/// opened; otherwise the erasure decoding of each row from the first
/// opening of each opened column, which is the data whenever the openings
/// carry the codewords of some data.
#[verifier::rlimit(100)]
pub fn decode_openings(profile: ExtProfile, transcripts: &[ExtTranscript]) -> (r: Result<Vec<Vec<Ext>>, DemoError>)
    requires
        profile.is_decodable(),
        transcripts_shaped(profile, transcripts@),
        transcripts_canonical(transcripts@),
    ensures
        (r == Err::<Vec<Vec<Ext>>, DemoError>(DemoError::InsufficientCells)) <==> count_opened(transcript_indices(transcripts@), cells_of(profile)) < threshold(profile),
        r matches Err(e) ==> e == DemoError::InsufficientCells,
        forall|dd: Seq<Seq<Ext>>, cw: Seq<Vec<Ext>>|
            #[trigger] encodes_to(profile, dd, cw) && opens_cells(profile, transcripts@, cw) ==> (r matches Ok(d)
                ==> rows_view(d@) == dd),
        r matches Ok(data) ==> data.len() == profile.n && forall|row: int| 0 <= row < data.len()
            ==> (#[trigger] data@[row]).len() == profile.k && all_ext_wf(data@[row]@),
        r matches Ok(data) ==> decodes_openings(profile, transcript_indices(transcripts@), transcript_cells(transcripts@), data@),
{
    let ghost ts = transcripts@;
    let ghost idx = transcript_indices(ts);
    let n_cells = profile.n_cells();
    proof {
        lemma_threshold_bounds(profile);
        lemma_cell_geometry(profile, 0);
        crate::poly::lemma_small_pow2_len(profile.m as nat);
    }
    let mut table = empty_position_map();
    let mut t: usize = 0;
    while t < transcripts.len()
        invariant
            t <= transcripts.len(),
            ts == transcripts@,
            idx == transcript_indices(ts),
            n_cells == cells_of(profile),
            transcripts_shaped(profile, ts),
            forall|c: int| 0 <= c < n_cells ==> (#[trigger] slot(table@, c) is Some <==> exists|u: int, j: int| 0 <= u < t && 0 <= j < idx[u].len() && #[trigger] idx[u][j] == c),
            forall|c: int| 0 <= c < n_cells && #[trigger] slot(table@, c) is Some ==> {
                let (u, j) = slot(table@, c)->0;
                u < ts.len() && j < ts[u as int].openings.len() && ts[u as int].openings@[j as int].index == c
            },
            forall|c: int| 0 <= c < n_cells && #[trigger] slot(table@, c) is Some ==> {
                let (u, j) = slot(table@, c)->0;
                &&& pos_before((u as int, j as int), (t as int, 0))
                &&& forall|q: (int, int)| #[trigger] opens_at(idx, q, c as nat) && pos_before(q, (t as int, 0))
                    ==> !pos_before(q, (u as int, j as int))
            },
        decreases transcripts.len() - t,
    {
        let mut j: usize = 0;
        while j < transcripts[t].openings.len()
            invariant
                t < transcripts.len(),
                j <= ts[t as int].openings.len(),
                ts == transcripts@,
                idx == transcript_indices(ts),
                n_cells == cells_of(profile),
                transcripts_shaped(profile, ts),
                forall|c: int| 0 <= c < n_cells ==> (#[trigger] slot(table@, c) is Some <==>
                    (exists|u: int, j2: int| 0 <= u < t && 0 <= j2 < idx[u].len() && #[trigger] idx[u][j2] == c)
                    || (exists|j2: int| 0 <= j2 < j && #[trigger] idx[t as int][j2] == c)),
                forall|c: int| 0 <= c < n_cells && #[trigger] slot(table@, c) is Some ==> {
                    let (u, j2) = slot(table@, c)->0;
                    u < ts.len() && j2 < ts[u as int].openings.len() && ts[u as int].openings@[j2 as int].index == c
                },
                forall|c: int| 0 <= c < n_cells && #[trigger] slot(table@, c) is Some ==> {
                    let (u, j2) = slot(table@, c)->0;
                    &&& pos_before((u as int, j2 as int), (t as int, j as int))
                    &&& forall|q: (int, int)| #[trigger] opens_at(idx, q, c as nat) && pos_before(q, (t as int, j as int))
                        ==> !pos_before(q, (u as int, j2 as int))
                },
            decreases ts[t as int].openings.len() - j,
        {
            let index = transcripts[t].openings[j].index;
            proof {
                assert(opening_shaped(profile, ts[t as int].openings@[j as int]));
                assert(idx[t as int] == opening_indices(ts[t as int].openings@));
                assert(idx[t as int][j as int] == index);
            }
            let ghost old_table = table@;
            if position_of(&table, index).is_none() {
                record_position(&mut table, index, (t, j));
            }
            proof {
                assert forall|c: int| 0 <= c < n_cells implies #[trigger] slot(table@, c) == (if c == index
                    && slot(old_table, c) is None {
                    Some((t, j))
                } else {
                    slot(old_table, c)
                }) by {
                    if slot(old_table, index as int) is None {
                        lemma_slot_insert(old_table, index, (t, j), c);
                    }
                }
            }
            proof {
                assert forall|c: int| 0 <= c < n_cells && #[trigger] slot(table@, c) is Some implies {
                    let (u, j2) = slot(table@, c)->0;
                    &&& pos_before((u as int, j2 as int), (t as int, j + 1))
                    &&& forall|q: (int, int)| #[trigger] opens_at(idx, q, c as nat) && pos_before(q, (t as int, j + 1))
                        ==> !pos_before(q, (u as int, j2 as int))
                } by {
                    let (u, j2) = slot(table@, c)->0;
                    assert forall|q: (int, int)| #[trigger] opens_at(idx, q, c as nat) && pos_before(q, (t as int, j + 1))
                        implies !pos_before(q, (u as int, j2 as int)) by {
                        if q != (t as int, j as int) {
                            assert(pos_before(q, (t as int, j as int)));
                            if slot(old_table, c) is None {
                                if q.0 < t {
                                    assert(idx[q.0][q.1] == c);
                                } else {
                                    assert(idx[t as int][q.1] == c);
                                }
                            }
                        }
                    }
                }
            }
            proof {
                assert forall|c: int| 0 <= c < n_cells implies (#[trigger] slot(table@, c) is Some <==>
                    (exists|u: int, j2: int| 0 <= u < t && 0 <= j2 < idx[u].len() && #[trigger] idx[u][j2] == c)
                    || (exists|j2: int| 0 <= j2 < j + 1 && #[trigger] idx[t as int][j2] == c)) by {
                    if c == index {
                        assert(idx[t as int][j as int] == c);
                    }
                }
            }
            j = j + 1;
        }
        proof {
            assert(idx[t as int].len() == ts[t as int].openings.len());
            assert forall|c: int| 0 <= c < n_cells && #[trigger] slot(table@, c) is Some implies {
                let (u, j2) = slot(table@, c)->0;
                &&& pos_before((u as int, j2 as int), (t + 1, 0))
                &&& forall|q: (int, int)| #[trigger] opens_at(idx, q, c as nat) && pos_before(q, (t + 1, 0))
                    ==> !pos_before(q, (u as int, j2 as int))
            } by {
                let (u, j2) = slot(table@, c)->0;
                assert forall|q: (int, int)| #[trigger] opens_at(idx, q, c as nat) && pos_before(q, (t + 1, 0))
                    implies !pos_before(q, (u as int, j2 as int)) by {
                    assert(pos_before(q, (t as int, j as int)));
                }
            }
            assert forall|c: int| 0 <= c < n_cells implies (#[trigger] slot(table@, c) is Some <==> exists|u: int, j: int| 0 <= u < t + 1 && 0 <= j < idx[u].len() && #[trigger] idx[u][j] == c) by {
                if slot(table@, c) is Some {
                    if !(exists|u: int, j2: int| 0 <= u < t && 0 <= j2 < idx[u].len() && #[trigger] idx[u][j2] == c) {
                        let j2 = choose|j2: int| 0 <= j2 < idx[t as int].len() && #[trigger] idx[t as int][j2] == c;
                        assert(idx[t as int][j2] == c);
                    }
                } else {
                    if exists|u: int, j2: int| 0 <= u < t + 1 && 0 <= j2 < idx[u].len() && #[trigger] idx[u][j2] == c {
                        let (u, j2) = choose|u: int, j2: int| 0 <= u < t + 1 && 0 <= j2 < idx[u].len() && #[trigger] idx[u][j2] == c;
                        if u < t {
                            assert(idx[u][j2] == c);
                        } else {
                            assert(idx[t as int][j2] == c);
                        }
                    }
                }
            }
        }
        t = t + 1;
    }
    proof {
        assert forall|x: int| 0 <= x < n_cells && #[trigger] slot(table@, x) is Some implies first_opening(idx, x as nat)
            == ((slot(table@, x)->0).0 as int, (slot(table@, x)->0).1 as int) by {
            let (u, j) = slot(table@, x)->0;
            assert(idx[u as int] == opening_indices(ts[u as int].openings@));
            assert(opens_at(idx, (u as int, j as int), x as nat));
            assert forall|q: (int, int)| #[trigger] opens_at(idx, q, x as nat) implies !pos_before(q, (u as int, j as int)) by {
                assert(pos_before(q, (t as int, 0)));
            }
            lemma_first_opening(idx, x as nat, (u as int, j as int));
        }
    }
    let mut indices: Vec<usize> = Vec::new();
    let mut sources: Vec<(usize, usize)> = Vec::new();
    let mut c: usize = 0;
    while c < n_cells
        invariant
            forall|x: int| 0 <= x < n_cells && #[trigger] slot(table@, x) is Some ==> first_opening(idx, x as nat)
                == ((slot(table@, x)->0).0 as int, (slot(table@, x)->0).1 as int),
            indices@ == opened_list(idx, c as nat),
            sources@ == first_sources(idx, indices@),
            forall|x: int| 0 <= x < indices.len() ==> opens_at(idx, first_opening(idx, #[trigger] indices@[x] as nat), indices@[x] as nat),
            c <= n_cells,
            ts == transcripts@,
            idx == transcript_indices(ts),
            n_cells == cells_of(profile),
            forall|x: int| 0 <= x < n_cells ==> (#[trigger] slot(table@, x) is Some <==> opened_in(idx, x as nat)),
            forall|x: int| 0 <= x < n_cells && #[trigger] slot(table@, x) is Some ==> {
                let (u, j) = slot(table@, x)->0;
                u < ts.len() && j < ts[u as int].openings.len() && ts[u as int].openings@[j as int].index == x
            },
            indices.len() == count_opened(idx, c as nat),
            sources.len() == indices.len(),
            forall|x: int| 0 <= x < indices.len() ==> #[trigger] indices@[x] < c,
            forall|x: int, y: int| 0 <= x < y < indices.len() ==> indices@[x] < indices@[y],
            forall|x: int| 0 <= x < sources.len() ==> {
                let (u, j) = #[trigger] sources@[x];
                u < ts.len() && j < ts[u as int].openings.len() && ts[u as int].openings@[j as int].index == indices@[x]
            },
        decreases n_cells - c,
    {
        match position_of(&table, c) {
            Some(src) => {
                let ghost before = indices@;
                proof {
                    let (u, j) = src;
                    assert(idx[u as int] == opening_indices(ts[u as int].openings@));
                    assert(opens_at(idx, (u as int, j as int), c as nat));
                    assert(first_opening(idx, c as nat) == (u as int, j as int));
                }
                indices.push(c);
                sources.push(src);
                proof {
                    assert forall|x: int| 0 <= x < indices.len() implies opens_at(
                        idx,
                        first_opening(idx, #[trigger] indices@[x] as nat),
                        indices@[x] as nat,
                    ) by {
                        if x < before.len() {
                            assert(indices@[x] == before[x]);
                        }
                    }
                }
            },
            None => {},
        }
        c = c + 1;
    }
    let t_cells = profile.reconstruction_threshold_cells();
    if indices.len() < t_cells {
        return Err(DemoError::InsufficientCells);
    }
    let mut symbol_indices: Vec<usize> = Vec::new();
    let mut x: usize = 0;
    while x < indices.len()
        invariant
            x <= indices.len(),
            forall|y: int| 0 <= y < indices.len() ==> #[trigger] indices@[y] < n_cells,
            n_cells == cells_of(profile),
            profile.is_decodable(),
            profile.m <= 0x100_0000,
            profile.c >= 1,
            symbol_indices.len() == x * profile.c,
            forall|q: int| 0 <= q < symbol_indices.len() ==> #[trigger] symbol_indices@[q] == p2l(
                profile.k as int,
                indices@[q / profile.c as int] * profile.c + q % profile.c as int,
            ),
        decreases indices.len() - x,
    {
        let index = indices[x];
        proof {
            lemma_cell_geometry(profile, index as int);
        }
        let mut offset: usize = 0;
        while offset < profile.c
            invariant
                offset <= profile.c,
                x < indices.len(),
                index == indices@[x as int],
                index * profile.c + profile.c <= profile.m,
                profile.m == 2 * profile.k,
                profile.m <= 0x100_0000,
                profile.c >= 1,
                symbol_indices.len() == x * profile.c + offset,
                forall|q: int| 0 <= q < symbol_indices.len() ==> #[trigger] symbol_indices@[q] == p2l(
                    profile.k as int,
                    indices@[q / profile.c as int] * profile.c + q % profile.c as int,
                ),
            decreases profile.c - offset,
        {
            let s = physical_to_logical(profile, index * profile.c + offset);
            proof {
                vstd::arithmetic::div_mod::lemma_fundamental_div_mod_converse(
                    (x * profile.c + offset) as int,
                    profile.c as int,
                    x as int,
                    offset as int,
                );
            }
            symbol_indices.push(s);
            offset = offset + 1;
        }
        proof {
            vstd::arithmetic::mul::lemma_mul_is_distributive_add_other_way(profile.c as int, x as int, 1);
        }
        x = x + 1;
    }
    proof {
        lemma_symbols_distinct(profile, indices@, symbol_indices@);
        lemma_threshold_covers(profile);
        assert(indices.len() * profile.c >= threshold(profile) * profile.c) by (nonlinear_arith)
            requires
                indices.len() >= threshold(profile),
        ;
    }
    assert(symbol_indices@ =~= opened_symbols(profile, indices@));
    let decoder = match ExtErasureDecoder::new(profile, symbol_indices.as_slice()) {
        None => return Err(DemoError::ReconstructionFailed),
        Some(d) => d,
    };
    let mut data: Vec<Vec<Ext>> = Vec::new();
    let mut row: usize = 0;
    while row < profile.n
        invariant
            row <= profile.n,
            ts == transcripts@,
            idx == transcript_indices(ts),
            transcripts_canonical(ts),
            transcripts_shaped(profile, ts),
            decoder.wf(),
            decoder.profile_of() == profile,
            count_opened(idx, cells_of(profile)) >= threshold(profile),
            sources.len() == indices.len(),
            forall|y: int| 0 <= y < sources.len() ==> {
                let (u, j) = #[trigger] sources@[y];
                u < ts.len() && j < ts[u as int].openings.len() && ts[u as int].openings@[j as int].index == indices@[y]
            },
            data.len() == row,
            forall|y: int| 0 <= y < row ==> (#[trigger] data@[y]).len() == profile.k && all_ext_wf(data@[y]@),
            indices@ == opened_list(idx, cells_of(profile)),
            sources@ == first_sources(idx, indices@),
            forall|x: int| 0 <= x < indices.len() ==> opens_at(idx, first_opening(idx, #[trigger] indices@[x] as nat), indices@[x] as nat),
            symbol_indices@ == opened_symbols(profile, indices@),
            tables_wf(decoder.tables_of(), profile.m as nat, profile.k as nat, symbol_indices@),
            forall|y: int| 0 <= y < row ==> (#[trigger] data@[y])@ == decoded(
                profile.m as nat,
                profile.k as nat,
                symbol_indices@,
                decoder.tables_of(),
                opened_values(profile, idx, transcript_cells(ts), y),
            ),
            profile.is_decodable(),
            profile.c >= 1,
            decoder.known() == symbol_indices@,
            symbol_indices.len() == indices.len() * profile.c,
            forall|q: int| 0 <= q < symbol_indices.len() ==> #[trigger] symbol_indices@[q] == p2l(
                profile.k as int,
                indices@[q / profile.c as int] * profile.c + q % profile.c as int,
            ),
            forall|x: int| 0 <= x < indices.len() ==> #[trigger] indices@[x] < n_cells,
            n_cells == cells_of(profile),
            forall|dd: Seq<Seq<Ext>>, cw: Seq<Vec<Ext>>|
                #[trigger] encodes_to(profile, dd, cw) && opens_cells(profile, ts, cw) ==> forall|y: int|
                    0 <= y < row ==> (#[trigger] data@[y])@ == dd[y],
        decreases profile.n - row,
    {
        let mut values: Vec<Ext> = Vec::new();
        let mut y: usize = 0;
        while y < sources.len()
            invariant
                y <= sources.len(),
                row < profile.n,
                ts == transcripts@,
                idx == transcript_indices(ts),
                transcripts_canonical(ts),
                transcripts_shaped(profile, ts),
                count_opened(idx, cells_of(profile)) >= threshold(profile),
                forall|z: int| 0 <= z < sources.len() ==> {
                    let (u, j) = #[trigger] sources@[z];
                    u < ts.len() && j < ts[u as int].openings.len()
                },
                all_ext_wf(values@),
                profile.c >= 1,
                values.len() == y * profile.c,
                forall|q: int| 0 <= q < values.len() ==> #[trigger] values@[q] == source_value(ts, sources@, row as int, profile.c as int, q),
            decreases sources.len() - y,
        {
            let (u, j) = sources[y];
            proof {
                assert(opening_shaped(profile, ts[u as int].openings@[j as int]));
            }
            let cell = &transcripts[u].openings[j].cells[row];
            match ext_slice_from_base(cell.as_slice()) {
                None => return Err(DemoError::ReconstructionFailed),
                Some(v) => {
                    proof {
                        assert(cell@.len() == profile.c * 5);
                        assert(v.len() == profile.c) by {
                            vstd::arithmetic::div_mod::lemma_div_multiples_vanish(profile.c as int, 5);
                            assert(profile.c * 5 == 5 * profile.c);
                        }
                    }
                    let mut z: usize = 0;
                    while z < v.len()
                        invariant
                            z <= v.len(),
                            v.len() == profile.c,
                            v@ == unflat(cell@),
                            y < sources.len(),
                            sources@[y as int] == (u, j),
                            cell@ == ts[u as int].openings@[j as int].cells@[row as int]@,
                            all_ext_wf(v@),
                            all_ext_wf(values@),
                            profile.c >= 1,
                            values.len() == y * profile.c + z,
                            forall|q: int| 0 <= q < values.len() ==> #[trigger] values@[q] == source_value(ts, sources@, row as int, profile.c as int, q),
                        decreases v.len() - z,
                    {
                        proof {
                            vstd::arithmetic::div_mod::lemma_fundamental_div_mod_converse(
                                (y * profile.c + z) as int,
                                profile.c as int,
                                y as int,
                                z as int,
                            );
                        }
                        values.push(v[z]);
                        z = z + 1;
                    }
                    proof {
                        assert(values.len() == (y + 1) * profile.c) by (nonlinear_arith)
                            requires
                                values.len() == y * profile.c + profile.c,
                        ;
                    }
                },
            }
            y = y + 1;
        }
        proof {
            let ov = opened_values(profile, idx, transcript_cells(ts), row as int);
            assert forall|q: int| 0 <= q < values.len() implies #[trigger] values@[q] == ov[q] by {
                vstd::arithmetic::div_mod::lemma_multiply_divide_lt(q, profile.c as int, indices.len() as int);
                let x = q / profile.c as int;
                let f = first_opening(idx, indices@[x] as nat);
                let (u, j) = sources@[x];
                assert(sources@[x] == first_sources(idx, indices@)[x]);
                assert(opens_at(idx, f, indices@[x] as nat));
                assert(idx.len() == ts.len());
                assert(ts.len() == transcripts.len());
                assert(idx[f.0] == opening_indices(ts[f.0].openings@));
                assert(f.1 < ts[f.0].openings.len());
                assert(u as int == f.0 && j as int == f.1);
                assert(transcript_cells(ts)[f.0][f.1][row as int] == ts[f.0].openings@[f.1].cells@[row as int]@);
            }
            assert(values@ =~= ov);
        }
        let ghost before = data@;
        match decoder.reconstruct_blob(values.as_slice()) {
            None => return Err(DemoError::ReconstructionFailed),
            Some(blob) => {
                proof {
                    lemma_row_agrees(profile, ts, indices@, sources@, symbol_indices@, values@, row as int);
                }
                data.push(blob);
            },
        }
        proof {
            assert forall|dd: Seq<Seq<Ext>>, cw: Seq<Vec<Ext>>|
                #[trigger] encodes_to(profile, dd, cw) && opens_cells(profile, ts, cw) implies forall|y: int|
                    0 <= y < row + 1 ==> (#[trigger] data@[y])@ == dd[y] by {
                assert forall|y: int| 0 <= y < row + 1 implies (#[trigger] data@[y])@ == dd[y] by {
                    if y < row {
                        assert(data@[y] == before[y]);
                    } else {
                        assert(agrees_at(dd[y], profile.m as nat, symbol_indices@, values@));
                    }
                }
            }
        }
        row = row + 1;
    }
    proof {
        assert forall|dd: Seq<Seq<Ext>>, cw: Seq<Vec<Ext>>|
            #[trigger] encodes_to(profile, dd, cw) && opens_cells(profile, ts, cw) implies rows_view(data@) == dd by {
            assert(rows_view(data@) =~= dd);
        }
        let tt = decoder.tables_of();
        assert(symbol_indices@ == transcript_symbols(profile, transcript_indices(transcripts@)));
        assert(tables_wf(tt, profile.m as nat, profile.k as nat, transcript_symbols(profile, transcript_indices(transcripts@))));
        assert(forall|y: int| 0 <= y < profile.n ==> (#[trigger] data@[y])@ == decoded(
            profile.m as nat,
            profile.k as nat,
            transcript_symbols(profile, transcript_indices(transcripts@)),
            tt,
            opened_values(profile, transcript_indices(transcripts@), transcript_cells(transcripts@), y),
        ));
    }
    Ok(data)
}

/// Honest openings of committed data verify, carry the committed codewords,
/// and so reconstruct the data once enough distinct columns are opened:
/// every transcript answering distinct column indices of the auxiliary data
/// is valid for the commitment, and the openings carry the cells of the
/// codewords that encode the data.
pub proof fn lemma_honest_reconstruction(
    c: ExtCommitment,
    aux: ExtAuxiliaryData,
    data: Seq<Seq<Ext>>,
    indices: Seq<Seq<usize>>,
    ts: Seq<ExtTranscript>,
)
    requires
        aux_consistent(aux),
        c.profile == aux.profile,
        c.root@ == merkle_root(dviews(aux.column_roots@)),
        encodes_to(aux.profile, data, aux.codewords@),
        ts.len() == indices.len(),
        forall|t: int| 0 <= t < ts.len() ==> distinct_indices(#[trigger] indices[t], cells_of(aux.profile)),
        forall|t: int| 0 <= t < ts.len() ==> answers(aux, indices[t], #[trigger] ts[t]),
    ensures
        transcripts_canonical(ts),
        forall|t: int| 0 <= t < ts.len() ==> transcript_valid(c, #[trigger] ts[t]),
        transcript_indices(ts) == indices,
        encodes_to(c.profile, data, aux.codewords@),
        opens_cells(c.profile, ts, aux.codewords@),
{
    assert forall|t: int| 0 <= t < ts.len() implies transcript_valid(c, #[trigger] ts[t]) by {
        assert(answers(aux, indices[t], ts[t]));
        lemma_honest_openings_verify(c, aux, indices[t], ts[t]);
    }
    assert forall|t: int| 0 <= t < ts.len() implies #[trigger] transcript_indices(ts)[t] == indices[t] by {
        assert(answers(aux, indices[t], ts[t]));
        assert forall|i: int| 0 <= i < indices[t].len() implies opening_indices(ts[t].openings@)[i] == indices[t][i] by {
            assert(opening_of(aux, indices[t][i] as nat, ts[t].openings@[i]));
        }
        assert(opening_indices(ts[t].openings@) =~= indices[t]);
    }
    assert(transcript_indices(ts) =~= indices);
    assert forall|t: int, j: int, row: int|
        0 <= t < ts.len() && 0 <= j < ts[t].openings.len() && 0 <= row < c.profile.n implies (
        #[trigger] ts[t].openings@[j].cells@[row])@ == flat(
        cell_of(aux.codewords@[row]@, ts[t].openings@[j].index as int, c.profile.c as int),
    ) by {
        assert(answers(aux, indices[t], ts[t]));
        assert(opening_of(aux, indices[t][j] as nat, ts[t].openings@[j]));
    }
    assert forall|t: int, j: int, row: int|
        0 <= t < ts.len() && 0 <= j < ts[t].openings.len() && 0 <= row < ts[t].openings@[j].cells.len() implies all_fe(
        #[trigger] ts[t].openings@[j].cells@[row]@,
    ) by {
        assert(answers(aux, indices[t], ts[t]));
        assert(opening_of(aux, indices[t][j] as nat, ts[t].openings@[j]));
        let cw = aux.codewords@[row]@;
        let p = aux.profile;
        crate::commit::lemma_cell_geometry(p, ts[t].openings@[j].index as int);
        let cell = cell_of(cw, ts[t].openings@[j].index as int, p.c as int);
        assert(all_ext_wf(cell)) by {
            assert forall|i: int| 0 <= i < cell.len() implies #[trigger] cell[i].wf() by {
                assert(cell[i] == cw[ts[t].openings@[j].index * p.c + i]);
            }
        }
        crate::layout::lemma_flat_fe(cell);
    }
}

/// A valid opening is shaped.
pub proof fn lemma_valid_transcripts_shaped(c: ExtCommitment, ts: Seq<ExtTranscript>)
    requires
        forall|t: int| 0 <= t < ts.len() ==> transcript_valid(c, #[trigger] ts[t]),
    ensures
        transcripts_shaped(c.profile, ts),
{
    assert forall|t: int, j: int| 0 <= t < ts.len() && 0 <= j < ts[t].openings.len() implies opening_shaped(c.profile, #[trigger] ts[t].openings@[j]) by {
        assert(transcript_valid(c, ts[t]));
        assert(opening_valid(c.profile, c.root@, ts[t].openings@[j]));
    }
}

/// Verifies every transcript, then decodes each row from the distinct cell
/// columns opened.  `InvalidOpening` when a transcript fails to verify;
/// `InsufficientCells` when fewer than `threshold` distinct columns are
/// opened; otherwise the erasure decoding of each row from the first
/// opening of each opened column, which is the data whenever the openings
/// carry the codewords of some data.
pub fn reconstruct(commitment: &ExtCommitment, transcripts: &[ExtTranscript]) -> (r: Result<Vec<Vec<Ext>>, DemoError>)
    requires
        commitment.profile.is_decodable(),
        commitment.profile.n <= usize::MAX / 2 + 1,
        transcripts_canonical(transcripts@),
    ensures
        (r == Err::<Vec<Vec<Ext>>, DemoError>(DemoError::InvalidOpening)) <==> exists|t: int| 0 <= t < transcripts.len() && !transcript_valid(*commitment, #[trigger] transcripts@[t]),
        (r == Err::<Vec<Vec<Ext>>, DemoError>(DemoError::InsufficientCells)) <==> (forall|t: int| 0 <= t < transcripts.len() ==> transcript_valid(*commitment, #[trigger] transcripts@[t]))
            && count_opened(transcript_indices(transcripts@), cells_of(commitment.profile)) < threshold(commitment.profile),
        r matches Err(e) ==> e == DemoError::InvalidOpening || e == DemoError::InsufficientCells,
        r matches Ok(data) ==> data.len() == commitment.profile.n && forall|row: int| 0 <= row < data.len()
            ==> (#[trigger] data@[row]).len() == commitment.profile.k && all_ext_wf(data@[row]@),
        forall|dd: Seq<Seq<Ext>>, cw: Seq<Vec<Ext>>|
            #[trigger] encodes_to(commitment.profile, dd, cw) && opens_cells(commitment.profile, transcripts@, cw)
                ==> (r matches Ok(d) ==> rows_view(d@) == dd),
        r matches Ok(data) ==> decodes_openings(
            commitment.profile,
            transcript_indices(transcripts@),
            transcript_cells(transcripts@),
            data@,
        ),
{
    let ghost ts = transcripts@;
    let mut t: usize = 0;
    while t < transcripts.len()
        invariant
            t <= transcripts.len(),
            ts == transcripts@,
            commitment.profile.is_decodable(),
            commitment.profile.n <= usize::MAX / 2 + 1,
            forall|u: int| 0 <= u < t ==> transcript_valid(*commitment, #[trigger] ts[u]),
        decreases transcripts.len() - t,
    {
        proof {
            lemma_valid_hashable(commitment.profile);
        }
        if !verify_openings(commitment, &transcripts[t]) {
            return Err(DemoError::InvalidOpening);
        }
        t = t + 1;
    }
    proof {
        lemma_valid_transcripts_shaped(*commitment, ts);
    }
    decode_openings(commitment.profile, transcripts)
}

} // verus!

verus! {

/// One row's commitment in the row-by-row scheme.
#[derive(Clone, Debug, PartialEq, Eq)]
pub struct DbpRowCommitment {
    pub profile: ExtProfile,
    pub row_hash: Digest,
}

/// What one row's encoder keeps: the physical codeword and its cell digests.
#[derive(Clone, Debug)]
pub struct DbpRowAuxiliaryData {
    pub profile: ExtProfile,
    pub codeword: Vec<Ext>,
    pub cell_digests: Vec<Digest>,
}

/// The aggregate commitment: one root binding the row root and the column root.
#[derive(Clone, Debug, PartialEq, Eq)]
pub struct DbpCommitment {
    pub profile: ExtProfile,
    pub root: Digest,
}

/// What the aggregator keeps to answer queries.  The row proofs, which the
/// aggregator also keeps, live beside this value.
#[derive(Clone, Debug)]
pub struct DbpAuxiliaryData {
    pub profile: ExtProfile,
    pub row_commitments: Vec<DbpRowCommitment>,
    pub row_codewords: Vec<Vec<Ext>>,
    pub cell_digests: Vec<Digest>,
    pub row_root: Digest,
    pub column_roots: Vec<Digest>,
    pub outer_merkle_layers: Vec<Vec<Digest>>,
}

/// One opened cell column with its path and the row root.
#[derive(Clone, Debug, PartialEq, Eq)]
pub struct DbpCellOpening {
    pub index: usize,
    pub cells: Vec<Vec<u32>>,
    pub outer_authentication_path: Vec<Digest>,
    pub row_root: Digest,
}

/// The openings answering one query.
#[derive(Clone, Debug, PartialEq, Eq)]
pub struct DbpTranscript {
    pub openings: Vec<DbpCellOpening>,
}

/// Wall-clock times of the phases of one row-by-row benchmark run.
#[derive(Clone, Copy, Debug)]
pub struct DbpBenchmarkTimings {
    pub row_encode_commit: Duration,
    pub row_preprocess: Duration,
    pub row_prove_total: Duration,
    pub row_host_verify: Duration,
    pub aggregate_preprocess: Duration,
    pub aggregate_prove: Duration,
    pub opening_generation: Duration,
    pub verifier_rebuild: Duration,
    pub aggregate_verify: Duration,
    pub verify_openings: Duration,
    pub reconstruct: Option<Duration>,
}

/// The profile of a single row.
pub open spec fn row_profile_of(p: ExtProfile) -> ExtProfile {
    ExtProfile { n: 1, ..p }
}

/// The profile of a single row.
pub fn dbp_row_profile(profile: ExtProfile) -> (r: ExtProfile)
    ensures
        r == row_profile_of(profile),
{
    ExtProfile { n: 1, ..profile }
}

/// The digests of every cell of one codeword.
pub open spec fn row_cell_digests(cw: Seq<Ext>, n_cells: nat, c: int) -> Seq<Seq<u32>> {
    Seq::new(n_cells, |cell: int| cell_digest(cell_of(cw, cell, c)))
}

/// A row's auxiliary data is what `dbp_encode_row` builds from its codeword.
pub open spec fn row_aux_consistent(aux: DbpRowAuxiliaryData) -> bool {
    &&& aux.codeword.len() == aux.profile.m
    &&& all_ext_wf(aux.codeword@)
    &&& dviews(aux.cell_digests@) == row_cell_digests(aux.codeword@, cells_of(aux.profile), aux.profile.c as int)
}

/// Encodes one row, hashes each of its cells, and chains all the cell
/// digests into the row hash.  `InvalidDataShape` when the single-row
/// profile is invalid or the blob does not have `k` coefficients.
pub fn dbp_encode_row(profile: ExtProfile, blob: &Vec<Ext>) -> (r: Result<(DbpRowCommitment, DbpRowAuxiliaryData), DemoError>)
    requires
        all_ext_wf(blob@),
    ensures
        r is Err <==> !row_profile_of(profile).is_valid() || blob.len() != profile.k,
        r matches Err(e) ==> e == DemoError::InvalidDataShape,
        r matches Ok((c, aux)) ==> {
            &&& c.profile == row_profile_of(profile)
            &&& aux.profile == row_profile_of(profile)
            &&& row_aux_consistent(aux)
            &&& is_physical_rs_codeword(
                blob@,
                row_profile_of(profile).k as int,
                row_profile_of(profile).m as nat,
                aux.codeword@,
            )
            &&& c.row_hash@ == chain_hash(dviews(aux.cell_digests@))
        },
{
    let row_profile = dbp_row_profile(profile);
    match row_profile.validate() {
        Err(e) => return Err(e),
        Ok(()) => {},
    }
    if blob.len() != row_profile.k {
        return Err(DemoError::InvalidDataShape);
    }
    let logical = encode_blob(row_profile, blob);
    let codeword = logical_to_physical_codeword(row_profile, &logical);
    proof {
        assert forall|j: int, d: int| 0 <= j < row_profile.m && 0 <= d < 5 implies #[trigger] codeword@[j].coords()[d]
            == crate::ntt::peval(
            crate::codec::coord(blob@, d),
            crate::field::fpow(crate::ntt::subgroup_root(row_profile.m as nat), p2l(row_profile.k as int, j) as nat),
            blob@.len(),
        ) by {
            crate::layout::lemma_layout_bijection(row_profile.k as int, j);
        }
    }
    let n_cells = row_profile.n_cells();
    proof {
        lemma_threshold_bounds(row_profile);
    }
    let mut cell_digests: Vec<Digest> = Vec::new();
    let mut cell: usize = 0;
    while cell < n_cells
        invariant
            cell <= n_cells,
            n_cells == cells_of(row_profile),
            row_profile.is_valid(),
            codeword.len() == row_profile.m,
            cell_digests.len() == cell,
            forall|j: int| 0 <= j < cell ==> #[trigger] cell_digests@[j]@ == row_cell_digests(codeword@, n_cells as nat, row_profile.c as int)[j],
        decreases n_cells - cell,
    {
        proof {
            lemma_cell_geometry(row_profile, cell as int);
        }
        let start = cell * row_profile.c;
        let slice = vstd::slice::slice_subrange(codeword.as_slice(), start, start + row_profile.c);
        assert(slice@ =~= cell_of(codeword@, cell as int, row_profile.c as int));
        cell_digests.push(cell_hash(slice));
        cell = cell + 1;
    }
    assert(dviews(cell_digests@) =~= row_cell_digests(codeword@, n_cells as nat, row_profile.c as int));
    let row_hash = compression_chain(&cell_digests);
    Ok((DbpRowCommitment { profile: row_profile, row_hash }, DbpRowAuxiliaryData { profile: row_profile, codeword, cell_digests }))
}

/// The Fiat-Shamir input of a row commitment.
pub open spec fn dbp_row_fs_input(c: DbpRowCommitment) -> Seq<u32> {
    fs_block_of() + profile_block_of(c.profile) + c.row_hash@
}

/// The Fiat-Shamir challenge of a row commitment.
pub open spec fn dbp_row_challenge_of(c: DbpRowCommitment) -> Ext {
    ext_of_coords(poseidon_sponge(dbp_row_fs_input(c)))
}

/// The Fiat-Shamir challenge of a row commitment.
pub fn dbp_row_challenge(commitment: &DbpRowCommitment) -> (r: Ext)
    requires
        commitment.profile.c > 0,
    ensures
        r == dbp_row_challenge_of(*commitment),
        r.wf(),
{
    let mut values: Vec<u32> = Vec::new();
    let fs = fs_block();
    push_digest(&mut values, &fs);
    let pb = commitment.profile.profile_block();
    push_digest(&mut values, &pb);
    push_digest(&mut values, &commitment.row_hash);
    let d = hash_slice(values.as_slice());
    ext_from_digest(&d)
}

/// The public check vector of one row, at the row's Fiat-Shamir challenge.
pub fn dbp_row_check_vector(commitment: &DbpRowCommitment) -> (r: Option<Vec<[u32; 5]>>)
    requires
        codec_ok(commitment.profile),
        commitment.profile.c > 0,
    ensures
        r is None <==> challenge_on_domain(dbp_row_challenge_of(*commitment), commitment.profile.m as nat, commitment.profile.k as nat)
            || prefix_prod(denominators_of(dbp_row_challenge_of(*commitment), commitment.profile.m as nat, commitment.profile.k as nat), 2 * commitment.profile.k as nat) == ext_zero(),
        r matches Some(v) ==> v.len() == commitment.profile.m && forall|i: int| 0 <= i < commitment.profile.m
            ==> (#[trigger] v@[i])@ == check_entry(dbp_row_challenge_of(*commitment), commitment.profile.m as nat, commitment.profile.k as nat, i),
{
    let p = dbp_row_challenge(commitment);
    check_vector_for_challenge(commitment.profile, p)
}

/// The leaves of the row tree: the row hashes padded with zero digests.
pub open spec fn padded_leaves(hashes: Seq<Seq<u32>>, np: nat) -> Seq<Seq<u32>> {
    Seq::new(np, |row: int| if row < hashes.len() { hashes[row] } else { zero_view() })
}

/// Leaves of the column tree of cell `cell` over the rows' cell digests.
pub open spec fn dbp_column_leaves(rows: Seq<DbpRowAuxiliaryData>, cell: int, np: nat) -> Seq<Seq<u32>> {
    Seq::new(np, |row: int| if row < rows.len() { rows[row].cell_digests@[cell]@ } else { zero_view() })
}

/// Roots of every column tree over the rows' cell digests.
pub open spec fn dbp_column_roots(rows: Seq<DbpRowAuxiliaryData>, n_cells: nat, np: nat) -> Seq<Seq<u32>> {
    Seq::new(n_cells, |cell: int| merkle_root(dbp_column_leaves(rows, cell, np)))
}

/// Row hashes recomputed from the rows' cell digests.
pub open spec fn dbp_row_hashes(rows: Seq<DbpRowAuxiliaryData>) -> Seq<Seq<u32>> {
    Seq::new(rows.len(), |row: int| chain_hash(dviews(rows[row].cell_digests@)))
}

/// The aggregate root: the row root compressed with the column root.
pub open spec fn dbp_root_of(rows: Seq<DbpRowAuxiliaryData>, n_cells: nat, np: nat) -> Seq<u32> {
    poseidon_compress(
        merkle_root(padded_leaves(dbp_row_hashes(rows), np)),
        merkle_root(dbp_column_roots(rows, n_cells, np)),
    )
}

/// The inputs to aggregation do not have the profile's shape.
pub open spec fn dbp_shape_error(
    profile: ExtProfile,
    commitments: Seq<DbpRowCommitment>,
    proof_count: nat,
    rows: Seq<DbpRowAuxiliaryData>,
) -> bool {
    ||| !profile.is_valid()
    ||| commitments.len() != profile.n
    ||| proof_count != profile.n
    ||| rows.len() != profile.n
    ||| exists|row: int| 0 <= row < rows.len() && (#[trigger] rows[row]).cell_digests.len() != cells_of(profile)
}

/// The aggregator's data holds the codewords of the rows and the trees over
/// their cell digests.
pub open spec fn dbp_aux_consistent(aux: DbpAuxiliaryData) -> bool {
    let p = aux.profile;
    &&& p.is_valid()
    &&& p.n <= usize::MAX / 2 + 1
    &&& codewords_shape(aux.row_codewords@, p.n as nat, p.m as nat)
    &&& aux.column_roots.len() == cells_of(p)
    &&& aux.outer_merkle_layers.len() == log2(cells_of(p)) + 1
    &&& forall|d: int| 0 <= d < aux.outer_merkle_layers.len() ==> dviews(#[trigger] aux.outer_merkle_layers@[d]@)
        == layer_at(dviews(aux.column_roots@), d as nat)
}

/// A copy of an extension-field vector.
pub fn copy_ext_vec(v: &Vec<Ext>) -> (r: Vec<Ext>)
    ensures
        r@ == v@,
{
    let mut r: Vec<Ext> = Vec::new();
    let mut i: usize = 0;
    while i < v.len()
        invariant
            i <= v.len(),
            r@ == v@.subrange(0, i as int),
        decreases v.len() - i,
    {
        r.push(v[i]);
        i = i + 1;
    }
    assert(r@ =~= v@);
    r
}

/// Aggregates row commitments: lays the rows' cell digests out by column,
/// recomputes every row hash and checks it against the row's commitment,
/// and binds the row root and the column root into one root.
/// `row_proof_count` is the number of row proofs that come with the
/// commitments; there must be one per row.
/// `InvalidDataShape` when the profile is invalid or the inputs do not have
/// one commitment, one proof and one entry of `n_cells` digests per row;
/// `InvalidOpening` when a recomputed row hash differs from the row's
/// commitment.
pub fn dbp_aggregate_commit(
    profile: ExtProfile,
    row_commitments: Vec<DbpRowCommitment>,
    row_proof_count: usize,
    row_aux: &Vec<DbpRowAuxiliaryData>,
)
    -> (r: Result<(DbpCommitment, DbpAuxiliaryData), DemoError>)
    requires
        profile.n <= usize::MAX / 2 + 1,
    ensures
        (r == Err::<(DbpCommitment, DbpAuxiliaryData), DemoError>(DemoError::InvalidDataShape)) <==> dbp_shape_error(profile, row_commitments@, row_proof_count as nat, row_aux@),
        (r == Err::<(DbpCommitment, DbpAuxiliaryData), DemoError>(DemoError::InvalidOpening)) <==> !dbp_shape_error(profile, row_commitments@, row_proof_count as nat, row_aux@)
            && exists|row: int| 0 <= row < profile.n && dbp_row_hashes(row_aux@)[row] != (#[trigger] row_commitments@[row]).row_hash@,
        r matches Err(e) ==> e == DemoError::InvalidDataShape || e == DemoError::InvalidOpening,
        r matches Ok((c, aux)) ==> {
            &&& c.profile == profile
            &&& c.root@ == dbp_root_of(row_aux@, cells_of(profile), padded_len(profile.n as nat))
            &&& aux.profile == profile
            &&& (forall|row: int| 0 <= row < row_aux.len() ==> (#[trigger] row_aux@[row]).codeword.len() == profile.m
                && all_ext_wf(row_aux@[row].codeword@)) ==> dbp_aux_consistent(aux)
            &&& aux.row_commitments@ == row_commitments@
            &&& forall|row: int| 0 <= row < profile.n ==> (#[trigger] aux.row_codewords@[row])@ == row_aux@[row].codeword@
            &&& dviews(aux.column_roots@) == dbp_column_roots(row_aux@, cells_of(profile), padded_len(profile.n as nat))
            &&& aux.row_root@ == merkle_root(padded_leaves(dbp_row_hashes(row_aux@), padded_len(profile.n as nat)))
        },
{
    match profile.validate() {
        Err(e) => return Err(e),
        Ok(()) => {},
    }
    if row_commitments.len() != profile.n || row_proof_count != profile.n || row_aux.len() != profile.n {
        return Err(DemoError::InvalidDataShape);
    }
    let n_cells = profile.n_cells();
    proof {
        lemma_threshold_bounds(profile);
        crate::poly::lemma_small_pow2_len(profile.m as nat);
    }
    let mut row: usize = 0;
    while row < row_aux.len()
        invariant
            row <= row_aux.len(),
            n_cells == cells_of(profile),
            forall|j: int| 0 <= j < row ==> (#[trigger] row_aux@[j]).cell_digests.len() == n_cells,
        decreases row_aux.len() - row,
    {
        if row_aux[row].cell_digests.len() != n_cells {
            return Err(DemoError::InvalidDataShape);
        }
        row = row + 1;
    }
    let n_padded = padded_rows(profile);
    let ghost rows = row_aux@;
    let ghost np = n_padded as nat;
    let mut columns: Vec<Vec<Digest>> = Vec::new();
    let mut flat_digests: Vec<Digest> = Vec::new();
    let mut cell: usize = 0;
    while cell < n_cells
        invariant
            cell <= n_cells,
            rows == row_aux@,
            rows.len() == profile.n,
            np == n_padded,
            n_padded >= profile.n,
            is_pow2(n_padded as nat),
            n_cells == cells_of(profile),
            forall|j: int| 0 <= j < rows.len() ==> (#[trigger] rows[j]).cell_digests.len() == n_cells,
            columns.len() == cell,
            forall|j: int| 0 <= j < cell ==> (#[trigger] columns@[j]).len() == n_padded && dviews(columns@[j]@) == dbp_column_leaves(rows, j, np),
            flat_digests.len() == cell * n_padded,
        decreases n_cells - cell,
    {
        let mut column: Vec<Digest> = Vec::new();
        let mut r: usize = 0;
        while r < n_padded
            invariant
                r <= n_padded,
                cell < n_cells,
                rows == row_aux@,
                rows.len() == profile.n,
                forall|j: int| 0 <= j < rows.len() ==> (#[trigger] rows[j]).cell_digests.len() == n_cells,
                column.len() == r,
                np == n_padded,
                forall|j: int| 0 <= j < r ==> #[trigger] column@[j]@ == dbp_column_leaves(rows, cell as int, np)[j],
                flat_digests.len() == cell * n_padded + r,
            decreases n_padded - r,
        {
            let d = if r < row_aux.len() {
                row_aux[r].cell_digests[cell]
            } else {
                zero_digest()
            };
            column.push(d);
            flat_digests.push(d);
            r = r + 1;
        }
        assert(dviews(column@) =~= dbp_column_leaves(rows, cell as int, np));
        columns.push(column);
        proof {
            vstd::arithmetic::mul::lemma_mul_is_distributive_add_other_way(n_padded as int, cell as int, 1);
        }
        cell = cell + 1;
    }
    let mut row_hashes: Vec<Digest> = Vec::new();
    let mut row: usize = 0;
    while row < profile.n
        invariant
            row <= profile.n,
            rows == row_aux@,
            rows.len() == profile.n,
            row_commitments.len() == profile.n,
            row_proof_count == profile.n,
            row_hashes.len() == row,
            forall|j: int| 0 <= j < row ==> #[trigger] row_hashes@[j]@ == dbp_row_hashes(rows)[j],
            forall|j: int| 0 <= j < row ==> dbp_row_hashes(rows)[j] == (#[trigger] row_commitments@[j]).row_hash@,
            forall|j: int| 0 <= j < rows.len() ==> (#[trigger] rows[j]).cell_digests.len() == n_cells,
            n_cells >= 1,
            n_cells == cells_of(profile),
            profile.is_valid(),
        decreases profile.n - row,
    {
        let h = compression_chain(&row_aux[row].cell_digests);
        if !digest_eq(&h, &row_commitments[row].row_hash) {
            proof {
                assert(dbp_row_hashes(rows)[row as int] != row_commitments@[row as int].row_hash@);
                assert(!dbp_shape_error(profile, row_commitments@, row_proof_count as nat, row_aux@));
            }
            return Err(DemoError::InvalidOpening);
        }
        row_hashes.push(h);
        row = row + 1;
    }
    let mut row_leaves: Vec<Digest> = Vec::new();
    let mut r: usize = 0;
    while r < n_padded
        invariant
            r <= n_padded,
            row_hashes.len() == profile.n,
            row_leaves.len() == r,
            np == n_padded,
            forall|j: int| 0 <= j < r ==> #[trigger] row_leaves@[j]@ == padded_leaves(dviews(row_hashes@), np)[j],
        decreases n_padded - r,
    {
        if r < row_hashes.len() {
            row_leaves.push(row_hashes[r]);
        } else {
            row_leaves.push(zero_digest());
        }
        r = r + 1;
    }
    assert(dviews(row_leaves@) =~= padded_leaves(dviews(row_hashes@), np));
    assert(dviews(row_hashes@) =~= dbp_row_hashes(rows));
    let row_root = merkle_root_of(&row_leaves);
    let ghost leaves = Seq::new(columns.len() as nat, |cell: int| dbp_column_leaves(rows, cell, np));
    let roots = column_roots(&columns, Ghost(leaves));
    assert(dviews(roots@) =~= dbp_column_roots(rows, cells_of(profile), np));
    let layers = merkle_layers(&roots);
    let top = layers.len() - 1;
    let column_root = layers[top][0];
    let root = compress_pair(&row_root, &column_root);
    let mut row_codewords: Vec<Vec<Ext>> = Vec::new();
    let mut row: usize = 0;
    while row < row_aux.len()
        invariant
            row <= row_aux.len(),
            rows == row_aux@,
            row_codewords.len() == row,
            forall|j: int| 0 <= j < row ==> (#[trigger] row_codewords@[j])@ == rows[j].codeword@,
        decreases row_aux.len() - row,
    {
        row_codewords.push(copy_ext_vec(&row_aux[row].codeword));
        row = row + 1;
    }
    let commitment = DbpCommitment { profile, root };
    let aux = DbpAuxiliaryData {
        profile,
        row_commitments,
        row_codewords,
        cell_digests: flat_digests,
        row_root,
        column_roots: roots,
        outer_merkle_layers: layers,
    };
    Ok((commitment, aux))
}

} // verus!

verus! {

/// `t` opens exactly the cell columns `indices` of the aggregated rows, in order.
pub open spec fn dbp_answers(aux: DbpAuxiliaryData, indices: Seq<usize>, t: DbpTranscript) -> bool {
    let p = aux.profile;
    &&& t.openings.len() == indices.len()
    &&& forall|i: int| 0 <= i < indices.len() ==> {
        let o = #[trigger] t.openings@[i];
        &&& o.index == indices[i]
        &&& o.cells.len() == p.n
        &&& forall|row: int| 0 <= row < p.n ==> (#[trigger] o.cells@[row])@ == flat(cell_of(aux.row_codewords@[row]@, indices[i] as int, p.c as int))
        &&& dviews(o.outer_authentication_path@) == auth_path(dviews(aux.column_roots@), 0, log2(cells_of(p)), indices[i] as nat)
        &&& o.row_root == aux.row_root
    }
}

/// Opens the requested cell columns of the aggregated rows, with the
/// column-root paths and the row root.  `InvalidQuery` when an index is out
/// of range or repeated.
pub fn dbp_query(aux: &DbpAuxiliaryData, indices: &[usize]) -> (r: Result<DbpTranscript, DemoError>)
    requires
        dbp_aux_consistent(*aux),
    ensures
        r is Err <==> !distinct_indices(indices@, cells_of(aux.profile)),
        r matches Err(e) ==> e == DemoError::InvalidQuery,
        r matches Ok(t) ==> dbp_answers(*aux, indices@, t),
{
    let profile = aux.profile;
    let n_cells = profile.n_cells();
    proof {
        lemma_threshold_bounds(profile);
        crate::merkle::lemma_pow2_log2(cells_of(profile));
    }
    let depth = profile.merkle_depth();
    if !check_query_indices(indices, n_cells) {
        return Err(DemoError::InvalidQuery);
    }
    let ghost l = dviews(aux.column_roots@);
    let mut openings: Vec<DbpCellOpening> = Vec::new();
    let mut q: usize = 0;
    while q < indices.len()
        invariant
            q <= indices.len(),
            dbp_aux_consistent(*aux),
            profile == aux.profile,
            n_cells == cells_of(profile),
            depth == log2(cells_of(profile)),
            l == dviews(aux.column_roots@),
            distinct_indices(indices@, n_cells as nat),
            openings.len() == q,
            forall|i: int| 0 <= i < q ==> {
                let o = #[trigger] openings@[i];
                &&& o.index == indices@[i]
                &&& o.cells.len() == profile.n
                &&& forall|row: int| 0 <= row < profile.n ==> (#[trigger] o.cells@[row])@ == flat(cell_of(aux.row_codewords@[row]@, indices@[i] as int, profile.c as int))
                &&& dviews(o.outer_authentication_path@) == auth_path(l, 0, log2(cells_of(profile)), indices@[i] as nat)
                &&& o.row_root == aux.row_root
            },
        decreases indices.len() - q,
    {
        let index = indices[q];
        let cells = open_cell_column(profile, &aux.row_codewords, index);
        let path = path_from_layers(&aux.outer_merkle_layers, index, depth, Ghost(l));
        openings.push(DbpCellOpening { index, cells, outer_authentication_path: path, row_root: aux.row_root });
        q = q + 1;
    }
    Ok(DbpTranscript { openings })
}

/// One aggregated opening is well formed, and the row root compressed with
/// its column root folded up its path gives `root`.
pub open spec fn dbp_opening_valid(profile: ExtProfile, root: Seq<u32>, o: DbpCellOpening) -> bool {
    &&& o.index < cells_of(profile)
    &&& o.cells.len() == profile.n
    &&& forall|row: int| 0 <= row < o.cells.len() ==> (#[trigger] o.cells@[row]).len() == profile.c * 5
    &&& o.outer_authentication_path.len() == log2(cells_of(profile))
    &&& poseidon_compress(
        o.row_root@,
        path_root(
            merkle_root(opened_leaves(o.cells@, padded_len(profile.n as nat))),
            o.index as nat,
            dviews(o.outer_authentication_path@),
        ),
    ) == root
}

/// Every aggregated opening is valid and no cell column is opened twice.
pub open spec fn dbp_transcript_valid(c: DbpCommitment, t: DbpTranscript) -> bool {
    &&& forall|i: int| 0 <= i < t.openings.len() ==> dbp_opening_valid(c.profile, c.root@, #[trigger] t.openings@[i])
    &&& forall|i: int, j: int| 0 <= i < j < t.openings.len() ==> t.openings@[i].index != t.openings@[j].index
}

/// Checks every aggregated opening against the commitment.
pub fn dbp_verify_openings(commitment: &DbpCommitment, transcript: &DbpTranscript) -> (r: bool)
    requires
        cells_hashable(commitment.profile),
        commitment.profile.n <= usize::MAX / 2 + 1,
    ensures
        r == dbp_transcript_valid(*commitment, *transcript),
{
    let profile = commitment.profile;
    let n_padded = padded_rows(profile);
    let n_cells = profile.n_cells();
    let depth = if n_cells >= 1 {
        profile.merkle_depth()
    } else {
        0
    };
    let expected_cell_len = profile.c * 5;
    let mut seen = empty_index_set();
    let ghost os = transcript.openings@;
    let mut q: usize = 0;
    while q < transcript.openings.len()
        invariant
            q <= os.len(),
            os == transcript.openings@,
            profile == commitment.profile,
            cells_hashable(profile),
            n_padded == padded_len(profile.n as nat),
            is_pow2(n_padded as nat),
            n_padded >= profile.n,
            n_cells == cells_of(profile),
            n_cells >= 1 ==> depth == log2(cells_of(profile)),
            expected_cell_len == profile.c * 5,
            forall|j: int| 0 <= j < q ==> dbp_opening_valid(profile, commitment.root@, #[trigger] os[j]),
            forall|i: int, j: int| 0 <= i < j < q ==> os[i].index != os[j].index,
            forall|c: usize| #[trigger] seen@.contains(c) <==> exists|j: int| 0 <= j < q && os[j].index == c,
        decreases os.len() - q,
    {
        let opening = &transcript.openings[q];
        if opening.index >= n_cells {
            return false;
        }
        if !insert_index(&mut seen, opening.index) {
            return false;
        }
        if opening.cells.len() != profile.n {
            return false;
        }
        let mut row: usize = 0;
        while row < opening.cells.len()
            invariant
                row <= opening.cells.len(),
                q < os.len(),
                os == transcript.openings@,
                *opening == os[q as int],
                expected_cell_len == commitment.profile.c * 5,
                forall|j: int| 0 <= j < row ==> (#[trigger] opening.cells@[j]).len() == expected_cell_len,
            decreases opening.cells.len() - row,
        {
            if opening.cells[row].len() != expected_cell_len {
                return false;
            }
            row = row + 1;
        }
        if opening.outer_authentication_path.len() != depth {
            return false;
        }
        let column_root = opened_column_root(profile, n_padded, &opening.cells);
        let folded = fold_path(&column_root, opening.index, &opening.outer_authentication_path);
        let digest = compress_pair(&opening.row_root, &folded);
        if !digest_eq(&digest, &commitment.root) {
            return false;
        }
        proof {
            assert forall|c: usize| #[trigger] seen@.contains(c) <==> exists|j: int| 0 <= j < q + 1 && os[j].index == c by {
                if c == opening.index {
                    assert(os[q as int].index == c);
                }
            }
        }
        q = q + 1;
    }
    true
}

/// Completeness of the row-by-row scheme: when every row's data is what
/// `dbp_encode_row` builds, the openings that `dbp_query` gives for
/// distinct in-range indices all verify against the aggregate commitment.
pub proof fn lemma_dbp_honest_openings_verify(
    c: DbpCommitment,
    aux: DbpAuxiliaryData,
    rows: Seq<DbpRowAuxiliaryData>,
    indices: Seq<usize>,
    t: DbpTranscript,
)
    requires
        dbp_aux_consistent(aux),
        c.profile == aux.profile,
        rows.len() == aux.profile.n,
        forall|row: int| 0 <= row < rows.len() ==> row_aux_consistent(#[trigger] rows[row])
            && rows[row].profile.m == aux.profile.m && rows[row].profile.c == aux.profile.c,
        forall|row: int| 0 <= row < rows.len() ==> (#[trigger] aux.row_codewords@[row])@ == rows[row].codeword@,
        dviews(aux.column_roots@) == dbp_column_roots(rows, cells_of(aux.profile), padded_len(aux.profile.n as nat)),
        aux.row_root@ == merkle_root(padded_leaves(dbp_row_hashes(rows), padded_len(aux.profile.n as nat))),
        c.root@ == dbp_root_of(rows, cells_of(aux.profile), padded_len(aux.profile.n as nat)),
        distinct_indices(indices, cells_of(aux.profile)),
        dbp_answers(aux, indices, t),
    ensures
        dbp_transcript_valid(c, t),
{
    let p = aux.profile;
    let np = padded_len(p.n as nat);
    let l = dviews(aux.column_roots@);
    lemma_threshold_bounds(p);
    crate::merkle::lemma_pow2_log2(cells_of(p));
    assert forall|i: int| 0 <= i < t.openings.len() implies dbp_opening_valid(c.profile, c.root@, #[trigger] t.openings@[i]) by {
        let o = t.openings@[i];
        let index = indices[i];
        lemma_cell_geometry(p, index as int);
        assert forall|row: int| 0 <= row < o.cells.len() implies (#[trigger] o.cells@[row]).len() == p.c * 5 by {
            assert(o.cells@[row]@ == flat(cell_of(aux.row_codewords@[row]@, index as int, p.c as int)));
            assert(aux.row_codewords@[row].len() == p.m);
        }
        lemma_auth_path_len(l, 0, log2(cells_of(p)), index as nat);
        assert(opened_leaves(o.cells@, np) =~= dbp_column_leaves(rows, index as int, np)) by {
            assert forall|row: int| 0 <= row < np implies #[trigger] opened_leaves(o.cells@, np)[row] == dbp_column_leaves(rows, index as int, np)[row] by {
                if row < p.n {
                    assert(o.cells@[row]@ == flat(cell_of(aux.row_codewords@[row]@, index as int, p.c as int)));
                    let ra = rows[row];
                    assert(row_aux_consistent(ra));
                    assert(aux.row_codewords@[row]@ == ra.codeword@);
                    assert(cells_of(ra.profile) == cells_of(p));
                    assert(dviews(ra.cell_digests@) == row_cell_digests(ra.codeword@, cells_of(p), p.c as int));
                    assert(dviews(ra.cell_digests@).len() == ra.cell_digests@.len());
                    assert(index < cells_of(p));
                    assert(dviews(ra.cell_digests@)[index as int] == ra.cell_digests@[index as int]@);
                    assert(row_cell_digests(ra.codeword@, cells_of(p), p.c as int)[index as int] == cell_digest(cell_of(ra.codeword@, index as int, p.c as int)));
                    assert(dbp_column_leaves(rows, index as int, np)[row] == ra.cell_digests@[index as int]@);
                }
            }
        }
        assert(l[index as int] == merkle_root(dbp_column_leaves(rows, index as int, np)));
        crate::merkle::lemma_auth_path_root(l, 0, index as nat);
    }
}

/// Honest row-by-row openings of encoded rows verify, carry the row
/// codewords, and so reconstruct the data once enough distinct columns are
/// opened: every transcript answering distinct column indices is valid for
/// the commitment, and the openings carry the cells of the codewords that
/// encode the data.
pub proof fn lemma_dbp_honest_reconstruction(
    c: DbpCommitment,
    aux: DbpAuxiliaryData,
    rows: Seq<DbpRowAuxiliaryData>,
    data: Seq<Seq<Ext>>,
    indices: Seq<Seq<usize>>,
    ts: Seq<DbpTranscript>,
)
    requires
        dbp_aux_consistent(aux),
        c.profile == aux.profile,
        rows.len() == aux.profile.n,
        forall|row: int| 0 <= row < rows.len() ==> row_aux_consistent(#[trigger] rows[row])
            && rows[row].profile.m == aux.profile.m && rows[row].profile.c == aux.profile.c,
        forall|row: int| 0 <= row < rows.len() ==> (#[trigger] aux.row_codewords@[row])@ == rows[row].codeword@,
        dviews(aux.column_roots@) == dbp_column_roots(rows, cells_of(aux.profile), padded_len(aux.profile.n as nat)),
        aux.row_root@ == merkle_root(padded_leaves(dbp_row_hashes(rows), padded_len(aux.profile.n as nat))),
        c.root@ == dbp_root_of(rows, cells_of(aux.profile), padded_len(aux.profile.n as nat)),
        encodes_to(aux.profile, data, aux.row_codewords@),
        ts.len() == indices.len(),
        forall|t: int| 0 <= t < ts.len() ==> distinct_indices(#[trigger] indices[t], cells_of(aux.profile)),
        forall|t: int| 0 <= t < ts.len() ==> dbp_answers(aux, indices[t], #[trigger] ts[t]),
    ensures
        dbp_transcripts_canonical(ts),
        forall|t: int| 0 <= t < ts.len() ==> dbp_transcript_valid(c, #[trigger] ts[t]),
        dbp_transcript_indices(ts) == indices,
        encodes_to(c.profile, data, aux.row_codewords@),
        dbp_opens_cells(c.profile, ts, aux.row_codewords@),
{
    assert forall|t: int| 0 <= t < ts.len() implies dbp_transcript_valid(c, #[trigger] ts[t]) by {
        assert(dbp_answers(aux, indices[t], ts[t]));
        lemma_dbp_honest_openings_verify(c, aux, rows, indices[t], ts[t]);
    }
    assert forall|t: int| 0 <= t < ts.len() implies #[trigger] dbp_transcript_indices(ts)[t] == indices[t] by {
        assert(dbp_answers(aux, indices[t], ts[t]));
        assert(dbp_transcript_indices(ts)[t] =~= indices[t]);
    }
    assert(dbp_transcript_indices(ts) =~= indices);
    assert forall|t: int, j: int, row: int|
        0 <= t < ts.len() && 0 <= j < ts[t].openings.len() && 0 <= row < c.profile.n implies (
        #[trigger] ts[t].openings@[j].cells@[row])@ == flat(
        cell_of(aux.row_codewords@[row]@, ts[t].openings@[j].index as int, c.profile.c as int),
    ) by {
        assert(dbp_answers(aux, indices[t], ts[t]));
        assert(ts[t].openings@[j].index == indices[t][j]);
    }
    assert forall|t: int, j: int, row: int|
        0 <= t < ts.len() && 0 <= j < ts[t].openings.len() && 0 <= row < ts[t].openings@[j].cells.len() implies all_fe(
        #[trigger] ts[t].openings@[j].cells@[row]@,
    ) by {
        assert(dbp_answers(aux, indices[t], ts[t]));
        let cw = aux.row_codewords@[row]@;
        let p = aux.profile;
        crate::commit::lemma_cell_geometry(p, indices[t][j] as int);
        let cell = cell_of(cw, indices[t][j] as int, p.c as int);
        assert(all_ext_wf(cell)) by {
            assert forall|i: int| 0 <= i < cell.len() implies #[trigger] cell[i].wf() by {
                assert(cell[i] == cw[indices[t][j] * p.c + i]);
            }
        }
        crate::layout::lemma_flat_fe(cell);
    }
}

/// Copies the cells of an opening.
pub fn copy_cells(cells: &Vec<Vec<u32>>) -> (r: Vec<Vec<u32>>)
    ensures
        r.len() == cells.len(),
        forall|i: int| 0 <= i < cells.len() ==> (#[trigger] r@[i])@ == cells@[i]@,
{
    let mut r: Vec<Vec<u32>> = Vec::new();
    let mut i: usize = 0;
    while i < cells.len()
        invariant
            i <= cells.len(),
            r.len() == i,
            forall|j: int| 0 <= j < i ==> (#[trigger] r@[j])@ == cells@[j]@,
        decreases cells.len() - i,
    {
        let mut row: Vec<u32> = Vec::new();
        let mut x: usize = 0;
        while x < cells[i].len()
            invariant
                x <= cells@[i as int].len(),
                i < cells.len(),
                row@ == cells@[i as int]@.subrange(0, x as int),
            decreases cells@[i as int].len() - x,
        {
            row.push(cells[i][x]);
            x = x + 1;
        }
        assert(row@ =~= cells@[i as int]@);
        r.push(row);
        i = i + 1;
    }
    r
}

/// The opened cell indices of every aggregated transcript.
pub open spec fn dbp_transcript_indices(ts: Seq<DbpTranscript>) -> Seq<Seq<usize>> {
    ts.map_values(|t: DbpTranscript| t.openings@.map_values(|o: DbpCellOpening| o.index))
}

/// Every opened coordinate of every aggregated transcript is canonical.
pub open spec fn dbp_transcripts_canonical(ts: Seq<DbpTranscript>) -> bool {
    forall|t: int, j: int, row: int| 0 <= t < ts.len() && 0 <= j < ts[t].openings.len() && 0 <= row < ts[t].openings@[j].cells.len()
        ==> all_fe(#[trigger] ts[t].openings@[j].cells@[row]@)
}

/// The opened cells of each opening of each aggregated transcript, row by
/// row, as base-field coordinates.
pub open spec fn dbp_transcript_cells(ts: Seq<DbpTranscript>) -> Seq<Seq<Seq<Seq<u32>>>> {
    ts.map_values(|t: DbpTranscript| t.openings@.map_values(|o: DbpCellOpening| o.cells@.map_values(|v: Vec<u32>| v@)))
}

/// Every opening of every row-by-row transcript carries the cells of `cw`
/// in its column.
pub open spec fn dbp_opens_cells(profile: ExtProfile, ts: Seq<DbpTranscript>, cw: Seq<Vec<Ext>>) -> bool {
    forall|t: int, j: int, row: int|
        0 <= t < ts.len() && 0 <= j < ts[t].openings.len() && 0 <= row < profile.n
            ==> (#[trigger] ts[t].openings@[j].cells@[row])@ == flat(
            cell_of(cw[row]@, ts[t].openings@[j].index as int, profile.c as int),
        )
}

/// Verifies every aggregated transcript, then decodes each row from the
/// distinct cell columns opened.  `InvalidOpening` when a transcript fails
/// to verify; `InsufficientCells` when fewer than `threshold` distinct
/// columns are opened; otherwise the erasure decoding of each row from the
/// first opening of each opened column, which is the data whenever the
/// openings carry the codewords of some data.
pub fn dbp_reconstruct(commitment: &DbpCommitment, transcripts: &[DbpTranscript]) -> (r: Result<Vec<Vec<Ext>>, DemoError>)
    requires
        commitment.profile.is_decodable(),
        commitment.profile.n <= usize::MAX / 2 + 1,
        dbp_transcripts_canonical(transcripts@),
    ensures
        (r == Err::<Vec<Vec<Ext>>, DemoError>(DemoError::InvalidOpening)) <==> exists|t: int| 0 <= t < transcripts.len() && !dbp_transcript_valid(*commitment, #[trigger] transcripts@[t]),
        (r == Err::<Vec<Vec<Ext>>, DemoError>(DemoError::InsufficientCells)) <==> (forall|t: int| 0 <= t < transcripts.len() ==> dbp_transcript_valid(*commitment, #[trigger] transcripts@[t]))
            && count_opened(dbp_transcript_indices(transcripts@), cells_of(commitment.profile)) < threshold(commitment.profile),
        r matches Err(e) ==> e == DemoError::InvalidOpening || e == DemoError::InsufficientCells,
        r matches Ok(data) ==> data.len() == commitment.profile.n && forall|row: int| 0 <= row < data.len()
            ==> (#[trigger] data@[row]).len() == commitment.profile.k && all_ext_wf(data@[row]@),
        forall|dd: Seq<Seq<Ext>>, cw: Seq<Vec<Ext>>|
            #[trigger] encodes_to(commitment.profile, dd, cw) && dbp_opens_cells(commitment.profile, transcripts@, cw)
                ==> (r matches Ok(d) ==> rows_view(d@) == dd),
        r matches Ok(data) ==> decodes_openings(
            commitment.profile,
            dbp_transcript_indices(transcripts@),
            dbp_transcript_cells(transcripts@),
            data@,
        ),
{
    let ghost ts = transcripts@;
    let profile = commitment.profile;
    let mut converted: Vec<ExtTranscript> = Vec::new();
    let mut t: usize = 0;
    while t < transcripts.len()
        invariant
            t <= transcripts.len(),
            ts == transcripts@,
            profile == commitment.profile,
            profile.is_decodable(),
            profile.n <= usize::MAX / 2 + 1,
            dbp_transcripts_canonical(ts),
            forall|u: int| 0 <= u < t ==> dbp_transcript_valid(*commitment, #[trigger] ts[u]),
            converted.len() == t,
            forall|u: int| 0 <= u < t ==> (#[trigger] converted@[u]).openings.len() == ts[u].openings.len(),
            forall|u: int, j: int| 0 <= u < t && 0 <= j < ts[u].openings.len() ==> {
                let o = #[trigger] converted@[u].openings@[j];
                &&& o.index == ts[u].openings@[j].index
                &&& o.cells.len() == ts[u].openings@[j].cells.len()
                &&& forall|row: int| 0 <= row < o.cells.len() ==> (#[trigger] o.cells@[row])@ == ts[u].openings@[j].cells@[row]@
            },
        decreases transcripts.len() - t,
    {
        proof {
            lemma_valid_hashable(commitment.profile);
        }
        if !dbp_verify_openings(commitment, &transcripts[t]) {
            return Err(DemoError::InvalidOpening);
        }
        let mut openings: Vec<ExtCellOpening> = Vec::new();
        let mut j: usize = 0;
        while j < transcripts[t].openings.len()
            invariant
                t < ts.len(),
                ts == transcripts@,
                j <= ts[t as int].openings.len(),
                openings.len() == j,
                forall|i: int| 0 <= i < j ==> {
                    let o = #[trigger] openings@[i];
                    &&& o.index == ts[t as int].openings@[i].index
                    &&& o.cells.len() == ts[t as int].openings@[i].cells.len()
                    &&& forall|row: int| 0 <= row < o.cells.len() ==> (#[trigger] o.cells@[row])@ == ts[t as int].openings@[i].cells@[row]@
                },
            decreases ts[t as int].openings.len() - j,
        {
            let o = &transcripts[t].openings[j];
            let cells = copy_cells(&o.cells);
            openings.push(ExtCellOpening { index: o.index, cells, outer_authentication_path: Vec::new() });
            j = j + 1;
        }
        converted.push(ExtTranscript { openings });
        t = t + 1;
    }
    proof {
        let cs = converted@;
        assert forall|u: int, j: int| 0 <= u < cs.len() && 0 <= j < cs[u].openings.len() implies opening_shaped(profile, #[trigger] cs[u].openings@[j]) by {
            assert(dbp_transcript_valid(*commitment, ts[u]));
            assert(dbp_opening_valid(profile, commitment.root@, ts[u].openings@[j]));
            assert forall|row: int| 0 <= row < cs[u].openings@[j].cells.len() implies (#[trigger] cs[u].openings@[j].cells@[row]).len() == profile.c * 5 by {
                assert(cs[u].openings@[j].cells@[row]@ == ts[u].openings@[j].cells@[row]@);
            }
        }
        assert forall|u: int, j: int, row: int| 0 <= u < cs.len() && 0 <= j < cs[u].openings.len() && 0 <= row < cs[u].openings@[j].cells.len()
            implies all_fe(#[trigger] cs[u].openings@[j].cells@[row]@) by {
            assert(cs[u].openings@[j].cells@[row]@ == ts[u].openings@[j].cells@[row]@);
        }
        assert(transcript_cells(cs) =~= dbp_transcript_cells(ts)) by {
            assert forall|u: int| 0 <= u < cs.len() implies #[trigger] transcript_cells(cs)[u] == dbp_transcript_cells(ts)[u] by {
                assert forall|j: int| 0 <= j < cs[u].openings.len() implies #[trigger] transcript_cells(cs)[u][j]
                    == dbp_transcript_cells(ts)[u][j] by {
                    assert(transcript_cells(cs)[u][j] =~= dbp_transcript_cells(ts)[u][j]);
                }
                assert(transcript_cells(cs)[u] =~= dbp_transcript_cells(ts)[u]);
            }
        }
        assert(transcript_indices(cs) =~= dbp_transcript_indices(ts)) by {
            assert forall|u: int| 0 <= u < cs.len() implies #[trigger] transcript_indices(cs)[u] == dbp_transcript_indices(ts)[u] by {
                assert(transcript_indices(cs)[u] =~= dbp_transcript_indices(ts)[u]);
            }
        }
        assert forall|dd: Seq<Seq<Ext>>, cw: Seq<Vec<Ext>>|
            #[trigger] encodes_to(profile, dd, cw) && dbp_opens_cells(profile, ts, cw) implies opens_cells(profile, cs, cw) by {
            assert forall|u: int, j: int, row: int|
                0 <= u < cs.len() && 0 <= j < cs[u].openings.len() && 0 <= row < profile.n
                    implies (#[trigger] cs[u].openings@[j].cells@[row])@ == flat(
                    cell_of(cw[row]@, cs[u].openings@[j].index as int, profile.c as int),
                ) by {
                assert(dbp_transcript_valid(*commitment, ts[u]));
                assert(dbp_opening_valid(profile, commitment.root@, ts[u].openings@[j]));
                assert(cs[u].openings@[j].cells@[row]@ == ts[u].openings@[j].cells@[row]@);
            }
        }
    }
    decode_openings(profile, converted.as_slice())
}

} // verus!

verus! {

/// Derives `count` distinct cell columns from the commitment root and public
/// randomness.  `InvalidQuery` when `count` is zero or exceeds the number of
/// cell columns (or, never in practice, when the sampling counter runs out).
/// With more than `P` columns no candidate is ever accepted, so such a
/// request is left out.
pub fn sample_query_indices(commitment: &ExtCommitment, randomness: &Digest, count: usize) -> (r: Result<Vec<usize>, DemoError>)
    requires
        commitment.profile.c > 0,
        count == 0 || count > cells_of(commitment.profile) || cells_of(commitment.profile) <= P,
    ensures
        count == 0 || count > cells_of(commitment.profile) ==> r == Err::<Vec<usize>, DemoError>(DemoError::InvalidQuery),
        r matches Err(e) ==> e == DemoError::InvalidQuery && (count == 0 || count > cells_of(commitment.profile)
            || forall|s: nat| s <= 8 * (usize::MAX as nat) ==> #[trigger] picked(commitment.root@, randomness@, cells_of(commitment.profile), s).len() < count),
        r matches Ok(v) ==> v.len() == count
            && exists|s: nat| v@ == #[trigger] picked(commitment.root@, randomness@, cells_of(commitment.profile), s),
        r matches Ok(v) ==> distinct_indices(v@, cells_of(commitment.profile)),
{
    let n_cells = commitment.profile.n_cells();
    if count == 0 || count > n_cells {
        return Err(DemoError::InvalidQuery);
    }
    match sample_from_root(n_cells, &commitment.root, randomness, count) {
        None => Err(DemoError::InvalidQuery),
        Some(v) => Ok(v),
    }
}

/// Samples cell columns for an aggregate commitment, from its root.
pub fn dbp_sample_query_indices(commitment: &DbpCommitment, randomness: &Digest, count: usize) -> (r: Result<Vec<usize>, DemoError>)
    requires
        commitment.profile.c > 0,
        count == 0 || count > cells_of(commitment.profile) || cells_of(commitment.profile) <= P,
    ensures
        count == 0 || count > cells_of(commitment.profile) ==> r == Err::<Vec<usize>, DemoError>(DemoError::InvalidQuery),
        r matches Err(e) ==> e == DemoError::InvalidQuery && (count == 0 || count > cells_of(commitment.profile)
            || forall|s: nat| s <= 8 * (usize::MAX as nat) ==> #[trigger] picked(commitment.root@, randomness@, cells_of(commitment.profile), s).len() < count),
        r matches Ok(v) ==> v.len() == count
            && exists|s: nat| v@ == #[trigger] picked(commitment.root@, randomness@, cells_of(commitment.profile), s),
        r matches Ok(v) ==> distinct_indices(v@, cells_of(commitment.profile)),
{
    let ext_commitment = ExtCommitment { profile: commitment.profile, row_hashes: Vec::new(), root: commitment.root };
    assert(ext_commitment.root@ == commitment.root@);
    assert(ext_commitment.profile == commitment.profile);
    let r = sample_query_indices(&ext_commitment, randomness, count);
    r
}

/// Bytes of a transcript: per opening, the index, every coordinate, and the path.
pub open spec fn transcript_bytes(os: Seq<ExtCellOpening>) -> int
    decreases os.len(),
{
    if os.len() == 0 {
        0
    } else {
        transcript_bytes(os.drop_last()) + 4 + 4 * cells_len(os.last().cells@) + 32 * os.last().outer_authentication_path.len()
    }
}

/// Total number of coordinates over a list of cells.
pub open spec fn cells_len(cells: Seq<Vec<u32>>) -> int
    decreases cells.len(),
{
    if cells.len() == 0 {
        0
    } else {
        cells_len(cells.drop_last()) + cells.last().len()
    }
}

/// Total coordinates of a list of cells, when it fits a `usize`.
pub(crate) fn cells_total(cells: &Vec<Vec<u32>>) -> (r: Option<usize>)
    ensures
        r matches Some(x) ==> x == cells_len(cells@),
        r is None ==> cells_len(cells@) > usize::MAX,
{
    let mut total: usize = 0;
    let mut i: usize = 0;
    while i < cells.len()
        invariant
            i <= cells.len(),
            total == cells_len(cells@.subrange(0, i as int)),
        decreases cells.len() - i,
    {
        proof {
            assert(cells@.subrange(0, i + 1).drop_last() =~= cells@.subrange(0, i as int));
            lemma_cells_len_grows(cells@, i + 1);
        }
        if cells[i].len() > usize::MAX - total {
            return None;
        }
        total = total + cells[i].len();
        i = i + 1;
    }
    assert(cells@.subrange(0, cells.len() as int) =~= cells@);
    Some(total)
}

/// Coordinates of a prefix of the cells are at most those of all of them.
proof fn lemma_cells_len_grows(cells: Seq<Vec<u32>>, i: int)
    requires
        0 <= i <= cells.len(),
    ensures
        cells_len(cells.subrange(0, i)) <= cells_len(cells),
    decreases cells.len() - i,
{
    if i < cells.len() {
        assert(cells.subrange(0, i + 1).drop_last() =~= cells.subrange(0, i));
        lemma_cells_len_grows(cells, i + 1);
    } else {
        assert(cells.subrange(0, i) =~= cells);
    }
}

/// Bytes of a transcript serialised as canonical 32-bit words: per opening
/// the index, every coordinate and every path digest.
pub fn transcript_size_bytes(transcript: &ExtTranscript) -> (r: usize)
    requires
        transcript_bytes(transcript.openings@) <= usize::MAX,
    ensures
        r == transcript_bytes(transcript.openings@),
{
    let mut total: usize = 0;
    let mut i: usize = 0;
    while i < transcript.openings.len()
        invariant
            i <= transcript.openings.len(),
            total == transcript_bytes(transcript.openings@.subrange(0, i as int)),
            transcript_bytes(transcript.openings@) <= usize::MAX,
        decreases transcript.openings.len() - i,
    {
        let o = &transcript.openings[i];
        proof {
            assert(transcript.openings@.subrange(0, i + 1).drop_last() =~= transcript.openings@.subrange(0, i as int));
            lemma_transcript_bytes_grows(transcript.openings@, i + 1);
        }
        let cl = cells_total(&o.cells);
        let n = match cl {
            Some(n) => n,
            None => {
                proof {
                    lemma_cells_len_nonneg(o.cells@);
                    lemma_transcript_bytes_nonneg(transcript.openings@.subrange(0, i as int));
                }
                0
            },
        };
        proof {
            lemma_transcript_bytes_nonneg(transcript.openings@.subrange(0, i as int));
            lemma_cells_len_nonneg(o.cells@);
        }
        total = total + 4 + 4 * n + 32 * o.outer_authentication_path.len();
        i = i + 1;
    }
    assert(transcript.openings@.subrange(0, transcript.openings.len() as int) =~= transcript.openings@);
    total
}

pub(crate) proof fn lemma_cells_len_nonneg(cells: Seq<Vec<u32>>)
    ensures
        cells_len(cells) >= 0,
    decreases cells.len(),
{
    if cells.len() > 0 {
        lemma_cells_len_nonneg(cells.drop_last());
    }
}

proof fn lemma_transcript_bytes_nonneg(os: Seq<ExtCellOpening>)
    ensures
        transcript_bytes(os) >= 0,
    decreases os.len(),
{
    if os.len() > 0 {
        lemma_transcript_bytes_nonneg(os.drop_last());
        lemma_cells_len_nonneg(os.last().cells@);
    }
}

/// Bytes of a prefix of the openings are at most those of all of them.
proof fn lemma_transcript_bytes_grows(os: Seq<ExtCellOpening>, i: int)
    requires
        0 <= i <= os.len(),
    ensures
        transcript_bytes(os.subrange(0, i)) <= transcript_bytes(os),
    decreases os.len() - i,
{
    if i < os.len() {
        assert(os.subrange(0, i + 1).drop_last() =~= os.subrange(0, i));
        lemma_cells_len_nonneg(os[i].cells@);
        lemma_transcript_bytes_grows(os, i + 1);
    } else {
        assert(os.subrange(0, i) =~= os);
    }
}

/// Bytes of the public commitment: every row hash and the root.
pub fn commitment_size_bytes(commitment: &ExtCommitment) -> (r: usize)
    requires
        (commitment.row_hashes.len() + 1) * 32 <= usize::MAX,
    ensures
        r == (commitment.row_hashes.len() + 1) * 32,
{
    (commitment.row_hashes.len() * DIGEST_LEN + DIGEST_LEN) * 4
}

/// Bytes of an aggregate commitment: its root.
pub fn dbp_commitment_size_bytes(commitment: &DbpCommitment) -> (r: usize)
    ensures
        r == 32,
{
    DIGEST_LEN * 4
}

} // verus!

verus! {

/// Bytes of an aggregated transcript: per opening, the index, every
/// coordinate, the path and the row root.
pub open spec fn dbp_transcript_bytes(os: Seq<DbpCellOpening>) -> int
    decreases os.len(),
{
    if os.len() == 0 {
        0
    } else {
        dbp_transcript_bytes(os.drop_last()) + 4 + 4 * cells_len(os.last().cells@) + 32 * os.last().outer_authentication_path.len() + 32
    }
}

proof fn lemma_dbp_transcript_bytes_grows(os: Seq<DbpCellOpening>, i: int)
    requires
        0 <= i <= os.len(),
    ensures
        0 <= dbp_transcript_bytes(os.subrange(0, i)) <= dbp_transcript_bytes(os),
    decreases os.len() - i,
{
    if i < os.len() {
        assert(os.subrange(0, i + 1).drop_last() =~= os.subrange(0, i));
        lemma_cells_len_nonneg(os[i].cells@);
        lemma_dbp_transcript_bytes_grows(os, i + 1);
        lemma_dbp_transcript_bytes_nonneg(os.subrange(0, i));
    } else {
        assert(os.subrange(0, i) =~= os);
        lemma_dbp_transcript_bytes_nonneg(os);
    }
}

proof fn lemma_dbp_transcript_bytes_nonneg(os: Seq<DbpCellOpening>)
    ensures
        dbp_transcript_bytes(os) >= 0,
    decreases os.len(),
{
    if os.len() > 0 {
        lemma_dbp_transcript_bytes_nonneg(os.drop_last());
        lemma_cells_len_nonneg(os.last().cells@);
    }
}

/// Bytes of an aggregated transcript serialised as canonical 32-bit words.
pub fn dbp_transcript_size_bytes(transcript: &DbpTranscript) -> (r: usize)
    requires
        dbp_transcript_bytes(transcript.openings@) <= usize::MAX,
    ensures
        r == dbp_transcript_bytes(transcript.openings@),
{
    let mut total: usize = 0;
    let mut i: usize = 0;
    while i < transcript.openings.len()
        invariant
            i <= transcript.openings.len(),
            total == dbp_transcript_bytes(transcript.openings@.subrange(0, i as int)),
            dbp_transcript_bytes(transcript.openings@) <= usize::MAX,
        decreases transcript.openings.len() - i,
    {
        let o = &transcript.openings[i];
        proof {
            assert(transcript.openings@.subrange(0, i + 1).drop_last() =~= transcript.openings@.subrange(0, i as int));
            lemma_dbp_transcript_bytes_grows(transcript.openings@, i + 1);
            lemma_dbp_transcript_bytes_grows(transcript.openings@, i as int);
            lemma_cells_len_nonneg(o.cells@);
        }
        let n = match cells_total(&o.cells) {
            Some(n) => n,
            None => 0,
        };
        total = total + 4 + 4 * n + 32 * o.outer_authentication_path.len() + 32;
        i = i + 1;
    }
    assert(transcript.openings@.subrange(0, transcript.openings.len() as int) =~= transcript.openings@);
    total
}


/// The placeholders of the full-statement guest and their values: the
/// shape of the profile, then where the public row hashes, the column root
/// and the check vector start in read-only memory.
pub open spec fn full_guest_values(p: ExtProfile) -> Seq<(Seq<char>, int)> {
    let cell_base_len = p.c * EXT_DEGREE;
    let row_hashes_ptr = DIGEST_LEN as int;
    let root_ptr = row_hashes_ptr + p.n * DIGEST_LEN;
    seq![
        ("N_PLACEHOLDER"@, p.n as int),
        ("N_PADDED_PLACEHOLDER"@, padded_len(p.n as nat) as int),
        ("LOG_N_PADDED_PLACEHOLDER"@, log2(padded_len(p.n as nat)) as int),
        ("M_EXT_PLACEHOLDER"@, p.m as int),
        ("K_EXT_PLACEHOLDER"@, p.k as int),
        ("C_EXT_PLACEHOLDER"@, p.c as int),
        ("CELL_BASE_LEN_PLACEHOLDER"@, cell_base_len),
        ("N_CELLS_PLACEHOLDER"@, cells_of(p) as int),
        ("SYSTEMATIC_CELLS_PLACEHOLDER"@, threshold(p) as int),
        ("CELL_CHUNKS_PLACEHOLDER"@, cell_base_len / DIGEST_LEN as int),
        ("OUTER_MERKLE_DEPTH_PLACEHOLDER"@, log2(cells_of(p)) as int),
        ("OUTER_TREE_DIGESTS_PLACEHOLDER"@, 2 * cells_of(p) - 1),
        ("PUBLIC_ROW_HASHES_PTR_PLACEHOLDER"@, row_hashes_ptr),
        ("PUBLIC_ROOT_COL_PTR_PLACEHOLDER"@, root_ptr),
        ("CHECK_VECTOR_PTR_PLACEHOLDER"@, root_ptr + DIGEST_LEN),
    ]
}

/// The named values that compile the full-statement guest for
/// `commitment`, and the sizes and offsets of the outer tree's levels.
/// `InvalidDataShape` when the profile is invalid or there is not one row
/// hash per row.
pub fn compilation_values(commitment: &ExtCommitment) -> (r: Result<
    (Vec<(&'static str, usize)>, Vec<usize>, Vec<usize>),
    DemoError,
>)
    requires
        commitment.profile.n <= usize::MAX / 8 - 2,
    ensures
        r is Err <==> !commitment.profile.is_valid() || commitment.row_hashes.len() != commitment.profile.n,
        r matches Err(e) ==> e == DemoError::InvalidDataShape,
        r matches Ok(v) ==> named_values(v.0@, full_guest_values(commitment.profile)) && outer_levels(
            v.1@,
            v.2@,
            cells_of(commitment.profile),
        ),
{
    match commitment.profile.validate() {
        Err(e) => return Err(e),
        Ok(()) => {},
    }
    if commitment.row_hashes.len() != commitment.profile.n {
        return Err(DemoError::InvalidDataShape);
    }
    let profile = commitment.profile;
    proof {
        crate::poly::lemma_small_pow2_len(profile.m as nat);
        crate::dbp_ext::lemma_threshold_bounds(profile);
        vstd::arithmetic::div_mod::lemma_fundamental_div_mod(profile.m as int, profile.c as int);
        assert(profile.c <= profile.m) by (nonlinear_arith)
            requires
                profile.m == profile.c * (profile.m / profile.c) + profile.m % profile.c,
                profile.m % profile.c == 0,
                profile.m / profile.c >= 1,
                profile.c > 0,
        ;
    }
    let row_hashes_ptr = DIGEST_LEN;
    let root_ptr = row_hashes_ptr + profile.n * DIGEST_LEN;
    let check_vector_ptr = root_ptr + DIGEST_LEN;
    let cell_base_len = profile.c * EXT_DEGREE;
    let n_cells = profile.n_cells();
    let mut values: Vec<(&'static str, usize)> = Vec::new();
    values.push(("N_PLACEHOLDER", profile.n));
    values.push(("N_PADDED_PLACEHOLDER", padded_rows(profile)));
    values.push(("LOG_N_PADDED_PLACEHOLDER", column_merkle_depth(profile)));
    values.push(("M_EXT_PLACEHOLDER", profile.m));
    values.push(("K_EXT_PLACEHOLDER", profile.k));
    values.push(("C_EXT_PLACEHOLDER", profile.c));
    values.push(("CELL_BASE_LEN_PLACEHOLDER", cell_base_len));
    values.push(("N_CELLS_PLACEHOLDER", n_cells));
    values.push(("SYSTEMATIC_CELLS_PLACEHOLDER", profile.reconstruction_threshold_cells()));
    values.push(("CELL_CHUNKS_PLACEHOLDER", cell_base_len / DIGEST_LEN));
    values.push(("OUTER_MERKLE_DEPTH_PLACEHOLDER", profile.merkle_depth()));
    values.push(("OUTER_TREE_DIGESTS_PLACEHOLDER", 2 * n_cells - 1));
    values.push(("PUBLIC_ROW_HASHES_PTR_PLACEHOLDER", row_hashes_ptr));
    values.push(("PUBLIC_ROOT_COL_PTR_PLACEHOLDER", root_ptr));
    values.push(("CHECK_VECTOR_PTR_PLACEHOLDER", check_vector_ptr));
    let (sizes, offsets) = outer_level_table(n_cells);
    proof {
        let s = full_guest_values(profile);
        assert forall|i: int| 0 <= i < values.len() implies (#[trigger] values@[i]).0@ == s[i].0 && values@[i].1 as int == s[i].1 by {
        }
    }
    Ok((values, sizes, offsets))
}

/// The read-only memory of the full-statement guest: the row hashes, the
/// column root, then the check vector, word by word.
pub open spec fn full_read_only(c: ExtCommitment, cv: Seq<[u32; EXT_DEGREE]>) -> Seq<u32> {
    words(c.row_hashes@) + c.root@ + words(cv)
}

/// The read-only memory of the row guest: the row hash, then the check
/// vector, word by word.
pub open spec fn row_read_only(c: DbpRowCommitment, cv: Seq<[u32; EXT_DEGREE]>) -> Seq<u32> {
    c.row_hash@ + words(cv)
}

/// The read-only memory of the aggregation guest: the root.
pub open spec fn aggregate_read_only(c: DbpCommitment) -> Seq<u32> {
    c.root@
}

/// The public input of every guest: one zero digest.
pub fn leanvm_public_input() -> (r: Digest)
    ensures
        r@ == zero_view(),
{
    zero_digest()
}

/// The read-only memory of the full-statement guest: the row hashes, the
/// column root, then the check vector, word by word.
pub fn read_only_data(commitment: &ExtCommitment, check_vector: &Vec<[u32; EXT_DEGREE]>) -> (r: Vec<u32>)
    ensures
        r@ == full_read_only(*commitment, check_vector@),
{
    let mut data: Vec<u32> = Vec::new();
    push_words(&mut data, commitment.row_hashes.as_slice(), commitment.row_hashes.len());
    let root: [[u32; DIGEST_LEN]; 1] = [commitment.root];
    push_words(&mut data, &root, 1);
    push_words(&mut data, check_vector.as_slice(), check_vector.len());
    proof {
        assert(commitment.row_hashes@.subrange(0, commitment.row_hashes.len() as int) =~= commitment.row_hashes@);
        assert(check_vector@.subrange(0, check_vector.len() as int) =~= check_vector@);
        let one = root@.subrange(0, 1);
        assert(one =~= seq![commitment.root]);
        assert(one.map_values(|a: [u32; DIGEST_LEN]| a@) =~= seq![commitment.root@]);
        seq![commitment.root@].lemma_flatten_singleton();
    }
    data
}

/// The placeholders of the row guest and their values.
pub open spec fn row_guest_values(p: ExtProfile) -> Seq<(Seq<char>, int)> {
    seq![
        ("M_EXT_PLACEHOLDER"@, p.m as int),
        ("C_EXT_PLACEHOLDER"@, p.c as int),
        ("CELL_BASE_LEN_PLACEHOLDER"@, p.c * EXT_DEGREE),
        ("N_CELLS_PLACEHOLDER"@, cells_of(p) as int),
        ("PUBLIC_ROW_HASH_PTR_PLACEHOLDER"@, DIGEST_LEN as int),
        ("CHECK_VECTOR_PTR_PLACEHOLDER"@, 2 * DIGEST_LEN as int),
    ]
}

/// The named values that compile the row guest; `InvalidDataShape` for an
/// invalid profile.
pub fn dbp_row_compilation_values(commitment: &DbpRowCommitment) -> (r: Result<Vec<(&'static str, usize)>, DemoError>)
    ensures
        r is Err <==> !commitment.profile.is_valid(),
        r matches Err(e) ==> e == DemoError::InvalidDataShape,
        r matches Ok(v) ==> named_values(v@, row_guest_values(commitment.profile)),
{
    match commitment.profile.validate() {
        Err(e) => return Err(e),
        Ok(()) => {},
    }
    let profile = commitment.profile;
    proof {
        crate::poly::lemma_small_pow2_len(profile.m as nat);
        lemma_cell_width_bound(profile);
    }
    let mut values: Vec<(&'static str, usize)> = Vec::new();
    values.push(("M_EXT_PLACEHOLDER", profile.m));
    values.push(("C_EXT_PLACEHOLDER", profile.c));
    values.push(("CELL_BASE_LEN_PLACEHOLDER", profile.c * EXT_DEGREE));
    values.push(("N_CELLS_PLACEHOLDER", profile.n_cells()));
    values.push(("PUBLIC_ROW_HASH_PTR_PLACEHOLDER", DIGEST_LEN));
    values.push(("CHECK_VECTOR_PTR_PLACEHOLDER", 2 * DIGEST_LEN));
    proof {
        let s = row_guest_values(profile);
        assert forall|i: int| 0 <= i < values.len() implies (#[trigger] values@[i]).0@ == s[i].0 && values@[i].1 as int == s[i].1 by {
        }
    }
    Ok(values)
}

/// The read-only memory of the row guest: the row hash, then the check
/// vector, word by word.
pub fn dbp_row_read_only_data(commitment: &DbpRowCommitment, check_vector: &Vec<[u32; EXT_DEGREE]>) -> (r: Vec<u32>)
    ensures
        r@ == row_read_only(*commitment, check_vector@),
{
    let mut data: Vec<u32> = Vec::new();
    let head: [[u32; DIGEST_LEN]; 1] = [commitment.row_hash];
    push_words(&mut data, &head, 1);
    push_words(&mut data, check_vector.as_slice(), check_vector.len());
    proof {
        assert(check_vector@.subrange(0, check_vector.len() as int) =~= check_vector@);
        let one = head@.subrange(0, 1);
        assert(one.map_values(|a: [u32; DIGEST_LEN]| a@) =~= seq![commitment.row_hash@]);
        seq![commitment.row_hash@].lemma_flatten_singleton();
    }
    data
}

/// The placeholders of the aggregation guest and their values.
pub open spec fn aggregate_guest_values(p: ExtProfile) -> Seq<(Seq<char>, int)> {
    seq![
        ("N_PLACEHOLDER"@, p.n as int),
        ("N_PADDED_PLACEHOLDER"@, padded_len(p.n as nat) as int),
        ("LOG_N_PADDED_PLACEHOLDER"@, log2(padded_len(p.n as nat)) as int),
        ("N_CELLS_PLACEHOLDER"@, cells_of(p) as int),
        ("OUTER_MERKLE_DEPTH_PLACEHOLDER"@, log2(cells_of(p)) as int),
        ("PUBLIC_ROOT_PTR_PLACEHOLDER"@, DIGEST_LEN as int),
    ]
}

/// The named values that compile the aggregation guest; `InvalidDataShape`
/// for an invalid profile.
pub fn dbp_aggregate_compilation_values(commitment: &DbpCommitment) -> (r: Result<Vec<(&'static str, usize)>, DemoError>)
    requires
        commitment.profile.n <= usize::MAX / 2 + 1,
    ensures
        r is Err <==> !commitment.profile.is_valid(),
        r matches Err(e) ==> e == DemoError::InvalidDataShape,
        r matches Ok(v) ==> named_values(v@, aggregate_guest_values(commitment.profile)),
{
    match commitment.profile.validate() {
        Err(e) => return Err(e),
        Ok(()) => {},
    }
    let profile = commitment.profile;
    proof {
        lemma_threshold_bounds(profile);
    }
    let mut values: Vec<(&'static str, usize)> = Vec::new();
    values.push(("N_PLACEHOLDER", profile.n));
    values.push(("N_PADDED_PLACEHOLDER", padded_rows(profile)));
    values.push(("LOG_N_PADDED_PLACEHOLDER", column_merkle_depth(profile)));
    values.push(("N_CELLS_PLACEHOLDER", profile.n_cells()));
    values.push(("OUTER_MERKLE_DEPTH_PLACEHOLDER", profile.merkle_depth()));
    values.push(("PUBLIC_ROOT_PTR_PLACEHOLDER", DIGEST_LEN));
    proof {
        let s = aggregate_guest_values(profile);
        assert forall|i: int| 0 <= i < values.len() implies (#[trigger] values@[i]).0@ == s[i].0 && values@[i].1 as int == s[i].1 by {
        }
    }
    Ok(values)
}

/// The read-only memory of the aggregation guest: the commitment's root.
pub fn dbp_aggregate_read_only_data(commitment: &DbpCommitment) -> (r: Vec<u32>)
    ensures
        r@ == aggregate_read_only(*commitment),
{
    let mut data: Vec<u32> = Vec::new();
    let head: [[u32; DIGEST_LEN]; 1] = [commitment.root];
    push_words(&mut data, &head, 1);
    proof {
        let one = head@.subrange(0, 1);
        assert(one.map_values(|a: [u32; DIGEST_LEN]| a@) =~= seq![commitment.root@]);
        seq![commitment.root@].lemma_flatten_singleton();
        assert(data@ =~= commitment.root@);
    }
    data
}

/// A valid profile's cells are no wider than the codeword.
pub proof fn lemma_cell_width_bound(profile: ExtProfile)
    requires
        profile.is_valid(),
    ensures
        profile.c <= profile.m <= 0x100_0000,
{
    crate::poly::lemma_small_pow2_len(profile.m as nat);
    lemma_threshold_bounds(profile);
    vstd::arithmetic::div_mod::lemma_fundamental_div_mod(profile.m as int, profile.c as int);
    assert(profile.c <= profile.m) by (nonlinear_arith)
        requires
            profile.m == profile.c * (profile.m / profile.c) + profile.m % profile.c,
            profile.m % profile.c == 0,
            profile.m / profile.c >= 1,
            profile.c > 0,
    ;
}

/// What the full-statement guest is compiled with, in terms of the
/// commitment it proves: the row count, the row tree's leaf count (the
/// least power of two at least `n`) and its logarithm; the codeword,
/// message and cell sizes; the words of a cell and the digests they fill;
/// the cell count; how many cells each published row hash chains, which
/// is the fewest cells that hold the `k` message symbols; the depth of the
/// outer tree and its node count, which the level table adds up to (level
/// `i` holding `n_cells / 2^i` nodes after `2 n_cells - 2 n_cells / 2^i`
/// nodes of the levels below); and where the row hashes, the column root
/// and the check vector lie in read-only memory, which starts right after
/// the one-digest public input.
pub proof fn lemma_full_guest_values_meaning(
    c: ExtCommitment,
    v: Seq<(&'static str, usize)>,
    sizes: Seq<usize>,
    offsets: Seq<usize>,
)
    requires
        c.profile.is_valid(),
        c.row_hashes.len() == c.profile.n,
        named_values(v, full_guest_values(c.profile)),
        outer_levels(sizes, offsets, cells_of(c.profile)),
    ensures
        v.len() == 15,
        v[0].0@ == "N_PLACEHOLDER"@ && v[0].1 == c.profile.n,
        v[1].0@ == "N_PADDED_PLACEHOLDER"@ && crate::poly::is_next_pow2(c.profile.n as nat, v[1].1 as nat),
        v[2].0@ == "LOG_N_PADDED_PLACEHOLDER"@ && pow2(v[2].1 as nat) == v[1].1,
        v[3].0@ == "M_EXT_PLACEHOLDER"@ && v[3].1 == c.profile.m,
        v[4].0@ == "K_EXT_PLACEHOLDER"@ && v[4].1 == c.profile.k,
        v[5].0@ == "C_EXT_PLACEHOLDER"@ && v[5].1 == c.profile.c,
        v[6].0@ == "CELL_BASE_LEN_PLACEHOLDER"@ && v[6].1 == c.profile.c * EXT_DEGREE,
        v[7].0@ == "N_CELLS_PLACEHOLDER"@ && v[7].1 * c.profile.c == c.profile.m,
        v[8].0@ == "SYSTEMATIC_CELLS_PLACEHOLDER"@ && v[8].1 * c.profile.c >= c.profile.k && (v[8].1 - 1) * c.profile.c
            < c.profile.k,
        forall|cw: Seq<Vec<Ext>>, row: int|
            0 <= row < c.profile.n ==> #[trigger] row_hashes_of(cw, c.profile)[row] == chain_hash(
                crate::commit::row_cells(cw, row, c.profile.c as int, v[8].1 as nat),
            ),
        v[9].0@ == "CELL_CHUNKS_PLACEHOLDER"@ && v[9].1 * DIGEST_LEN == v[6].1,
        v[10].0@ == "OUTER_MERKLE_DEPTH_PLACEHOLDER"@ && pow2(v[10].1 as nat) == v[7].1,
        v[11].0@ == "OUTER_TREE_DIGESTS_PLACEHOLDER"@ && v[11].1 == offsets.last() + sizes.last(),
        sizes.len() == v[10].1 + 1,
        sizes[0] == v[7].1,
        forall|i: int| 0 <= i < sizes.len() ==> #[trigger] sizes[i] * pow2(i as nat) == v[7].1 && offsets[i] + 2 * sizes[i]
            == 2 * v[7].1,
        v[12].0@ == "PUBLIC_ROW_HASHES_PTR_PLACEHOLDER"@ && v[12].1 == zero_view().len(),
        v[13].0@ == "PUBLIC_ROOT_COL_PTR_PLACEHOLDER"@,
        v[14].0@ == "CHECK_VECTOR_PTR_PLACEHOLDER"@,
        forall|cv: Seq<[u32; EXT_DEGREE]>| {
            let rod = #[trigger] full_read_only(c, cv);
            &&& rod.subrange(v[12].1 - DIGEST_LEN, v[13].1 - DIGEST_LEN) == words(c.row_hashes@)
            &&& rod.subrange(v[13].1 - DIGEST_LEN, v[14].1 - DIGEST_LEN) == c.root@
            &&& rod.subrange(v[14].1 - DIGEST_LEN, rod.len() as int) == words(cv)
        },
{
    let p = c.profile;
    let s = full_guest_values(p);
    assert forall|i: int| 0 <= i < 15 implies v[i].0@ == s[i].0 && v[i].1 as int == s[i].1 by {
        assert(v[i].0@ == s[i].0 && v[i].1 as int == s[i].1);
    }
    crate::poly::lemma_padded_len(p.n as nat);
    crate::merkle::lemma_pow2_log2(padded_len(p.n as nat));
    lemma_threshold_least_cover(p);
    lemma_valid_cell_counts(p);
    crate::guest::lemma_outer_levels_closed_form(sizes, offsets, cells_of(p));
    crate::guest::lemma_words_len(c.row_hashes@);
    let hw = words(c.row_hashes@);
    assert forall|cv: Seq<[u32; EXT_DEGREE]>| {
        let rod = #[trigger] full_read_only(c, cv);
        &&& rod.subrange(v[12].1 - DIGEST_LEN, v[13].1 - DIGEST_LEN) == words(c.row_hashes@)
        &&& rod.subrange(v[13].1 - DIGEST_LEN, v[14].1 - DIGEST_LEN) == c.root@
        &&& rod.subrange(v[14].1 - DIGEST_LEN, rod.len() as int) == words(cv)
    } by {
        let rod = hw + c.root@ + words(cv);
        let a = hw.len() as int;
        assert(a == p.n * 8);
        assert(rod.subrange(0, a) =~= hw);
        assert(rod.subrange(a, a + 8) =~= c.root@);
        assert(rod.subrange(a + 8, rod.len() as int) =~= words(cv));
    }
}

/// What the row guest is compiled with, in terms of the row commitment it
/// proves: the codeword and cell sizes, the words of a cell, the cell
/// count, and where the row hash and the check vector lie in read-only
/// memory, which starts right after the one-digest public input.
pub proof fn lemma_row_guest_values_meaning(c: DbpRowCommitment, v: Seq<(&'static str, usize)>)
    requires
        c.profile.is_valid(),
        named_values(v, row_guest_values(c.profile)),
    ensures
        v.len() == 6,
        v[0].0@ == "M_EXT_PLACEHOLDER"@ && v[0].1 == c.profile.m,
        v[1].0@ == "C_EXT_PLACEHOLDER"@ && v[1].1 == c.profile.c,
        v[2].0@ == "CELL_BASE_LEN_PLACEHOLDER"@ && v[2].1 == c.profile.c * EXT_DEGREE,
        v[3].0@ == "N_CELLS_PLACEHOLDER"@ && v[3].1 * c.profile.c == c.profile.m,
        v[4].0@ == "PUBLIC_ROW_HASH_PTR_PLACEHOLDER"@ && v[4].1 == zero_view().len(),
        v[5].0@ == "CHECK_VECTOR_PTR_PLACEHOLDER"@,
        forall|cv: Seq<[u32; EXT_DEGREE]>| {
            let rod = #[trigger] row_read_only(c, cv);
            &&& rod.subrange(v[4].1 - DIGEST_LEN, v[5].1 - DIGEST_LEN) == c.row_hash@
            &&& rod.subrange(v[5].1 - DIGEST_LEN, rod.len() as int) == words(cv)
        },
{
    let s = row_guest_values(c.profile);
    assert forall|i: int| 0 <= i < 6 implies v[i].0@ == s[i].0 && v[i].1 as int == s[i].1 by {
        assert(v[i].0@ == s[i].0 && v[i].1 as int == s[i].1);
    }
    lemma_valid_cell_counts(c.profile);
    assert forall|cv: Seq<[u32; EXT_DEGREE]>| {
        let rod = #[trigger] row_read_only(c, cv);
        &&& rod.subrange(v[4].1 - DIGEST_LEN, v[5].1 - DIGEST_LEN) == c.row_hash@
        &&& rod.subrange(v[5].1 - DIGEST_LEN, rod.len() as int) == words(cv)
    } by {
        let rod = c.row_hash@ + words(cv);
        assert(rod.subrange(0, 8) =~= c.row_hash@);
        assert(rod.subrange(8, rod.len() as int) =~= words(cv));
    }
}

/// What the aggregation guest is compiled with, in terms of the aggregate
/// commitment it proves: the row count, the column trees' leaf count (the
/// least power of two at least `n`) and its logarithm, the cell count, the
/// depth of the outer tree, and where the root lies in read-only memory,
/// which starts right after the one-digest public input.
pub proof fn lemma_aggregate_guest_values_meaning(c: DbpCommitment, v: Seq<(&'static str, usize)>)
    requires
        c.profile.is_valid(),
        named_values(v, aggregate_guest_values(c.profile)),
    ensures
        v.len() == 6,
        v[0].0@ == "N_PLACEHOLDER"@ && v[0].1 == c.profile.n,
        v[1].0@ == "N_PADDED_PLACEHOLDER"@ && crate::poly::is_next_pow2(c.profile.n as nat, v[1].1 as nat),
        v[2].0@ == "LOG_N_PADDED_PLACEHOLDER"@ && pow2(v[2].1 as nat) == v[1].1,
        v[3].0@ == "N_CELLS_PLACEHOLDER"@ && v[3].1 * c.profile.c == c.profile.m,
        v[4].0@ == "OUTER_MERKLE_DEPTH_PLACEHOLDER"@ && pow2(v[4].1 as nat) == v[3].1,
        v[5].0@ == "PUBLIC_ROOT_PTR_PLACEHOLDER"@ && v[5].1 == zero_view().len(),
        aggregate_read_only(c).subrange(v[5].1 - DIGEST_LEN, v[5].1 - DIGEST_LEN + DIGEST_LEN) == c.root@,
{
    let s = aggregate_guest_values(c.profile);
    assert forall|i: int| 0 <= i < 6 implies v[i].0@ == s[i].0 && v[i].1 as int == s[i].1 by {
        assert(v[i].0@ == s[i].0 && v[i].1 as int == s[i].1);
    }
    crate::poly::lemma_padded_len(c.profile.n as nat);
    crate::merkle::lemma_pow2_log2(padded_len(c.profile.n as nat));
    lemma_valid_cell_counts(c.profile);
    assert(c.root@.subrange(0, 8) =~= c.root@);
}

} // verus!
