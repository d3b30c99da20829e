//! Cell-first commitments: every cell of every codeword row is hashed; the
//! digests of one cell column form a Merkle tree over the padded rows, and
//! row hashes chain the digests of a row's cells.
use crate::field::{all_ext_wf, Ext};
use crate::hashing::{chain_hash, compress_pair, dviews, zero_digest, zero_view, Digest};
use crate::layout::{cell_digest, cell_hash};
use crate::merkle::{is_pow2, merkle_root, merkle_root_of};
use crate::profile::ExtProfile;
use vstd::prelude::*;

verus! {

/// Cell `cell` (of `c` symbols) of a codeword row.
pub open spec fn cell_of(row: Seq<Ext>, cell: int, c: int) -> Seq<Ext> {
    row.subrange(cell * c, cell * c + c)
}

/// The digest of cell `cell` of row `row`.
pub open spec fn cell_digest_of(cw: Seq<Vec<Ext>>, row: int, cell: int, c: int) -> Seq<u32> {
    cell_digest(cell_of(cw[row]@, cell, c))
}

/// The leaves of the Merkle tree of one cell column: the cell digests of
/// every row, then zero digests up to `np` leaves.
pub open spec fn column_leaves(cw: Seq<Vec<Ext>>, cell: int, c: int, np: nat) -> Seq<Seq<u32>> {
    Seq::new(np, |row: int| if row < cw.len() { cell_digest_of(cw, row, cell, c) } else { zero_view() })
}

/// The Merkle roots of all cell columns.
pub open spec fn column_roots_of(cw: Seq<Vec<Ext>>, n_cells: nat, c: int, np: nat) -> Seq<Seq<u32>> {
    Seq::new(n_cells, |cell: int| merkle_root(column_leaves(cw, cell, c, np)))
}

/// The digests of the first `count` cells of row `row`.
pub open spec fn row_cells(cw: Seq<Vec<Ext>>, row: int, c: int, count: nat) -> Seq<Seq<u32>> {
    Seq::new(count, |cell: int| cell_digest_of(cw, row, cell, c))
}

/// Codewords of `n` rows of `m` canonical symbols.
pub open spec fn codewords_shape(cw: Seq<Vec<Ext>>, n: nat, m: nat) -> bool {
    &&& cw.len() == n
    &&& forall|row: int| 0 <= row < n ==> (#[trigger] cw[row]).len() == m && all_ext_wf(cw[row]@)
}

/// Cell geometry of a valid profile: cells tile the row, and a cell's
/// coordinates fill whole digests.
pub proof fn lemma_cell_geometry(profile: ExtProfile, cell: int)
    requires
        profile.is_decodable(),
        0 <= cell < profile.m / profile.c,
    ensures
        0 <= cell * profile.c,
        cell * profile.c + profile.c <= profile.m,
        profile.c >= 1,
        profile.c <= usize::MAX / 5,
        (profile.c * 5) % 8 == 0,
        profile.m <= 0x100_0000,
{
    crate::poly::lemma_small_pow2_len(profile.m as nat);
    let c = profile.c as int;
    let nc = profile.m / profile.c;
    vstd::arithmetic::div_mod::lemma_fundamental_div_mod(profile.m as int, c);
    assert(profile.m == c * nc);
    assert(cell + 1 <= nc);
    vstd::arithmetic::mul::lemma_mul_inequality(cell + 1, nc as int, c);
    vstd::arithmetic::mul::lemma_mul_is_distributive_add_other_way(c, cell, 1);
    vstd::arithmetic::mul::lemma_mul_nonnegative(cell, c);
    vstd::arithmetic::mul::lemma_mul_is_commutative(c, nc as int);
    vstd::arithmetic::mul::lemma_mul_is_commutative(c, cell + 1);
    vstd::arithmetic::div_mod::lemma_mod_pos_bound(profile.m as int, c);
    vstd::arithmetic::div_mod::lemma_div_pos_is_pos(profile.m as int, c);
    assert(c <= profile.m) by {
        vstd::arithmetic::mul::lemma_mul_inequality(1, nc as int, c);
    }
}

/// The cell digests of every cell column, each column padded with zero
/// digests to `n_padded` rows.
pub fn cell_digest_columns(profile: ExtProfile, codewords: &Vec<Vec<Ext>>, n_padded: usize) -> (r: Vec<Vec<Digest>>)
    requires
        profile.is_valid(),
        codewords_shape(codewords@, profile.n as nat, profile.m as nat),
        n_padded >= profile.n,
    ensures
        r.len() == profile.m / profile.c,
        forall|cell: int| 0 <= cell < r.len() ==> (#[trigger] r@[cell]).len() == n_padded
            && dviews(r@[cell]@) == column_leaves(codewords@, cell, profile.c as int, n_padded as nat),
{
    let n_cells = profile.n_cells();
    let mut columns: Vec<Vec<Digest>> = Vec::new();
    let mut cell: usize = 0;
    while cell < n_cells
        invariant
            cell <= n_cells,
            n_cells == profile.m / profile.c,
            profile.is_valid(),
            codewords_shape(codewords@, profile.n as nat, profile.m as nat),
            n_padded >= profile.n,
            columns.len() == cell,
            forall|j: int| 0 <= j < cell ==> (#[trigger] columns@[j]).len() == n_padded
                && dviews(columns@[j]@) == column_leaves(codewords@, j, profile.c as int, n_padded as nat),
        decreases n_cells - cell,
    {
        proof {
            lemma_cell_geometry(profile, cell as int);
        }
        let start = cell * profile.c;
        let mut column: Vec<Digest> = Vec::new();
        let mut row: usize = 0;
        while row < n_padded
            invariant
                row <= n_padded,
                n_padded >= profile.n,
                start == cell * profile.c,
                start + profile.c <= profile.m,
                profile.c >= 1,
                profile.c <= usize::MAX / 5,
                (profile.c * 5) % 8 == 0,
                codewords_shape(codewords@, profile.n as nat, profile.m as nat),
                column.len() == row,
                forall|j: int| 0 <= j < row ==> #[trigger] column@[j]@ == column_leaves(codewords@, cell as int, profile.c as int, n_padded as nat)[j],
            decreases n_padded - row,
        {
            if row < profile.n {
                let slice = vstd::slice::slice_subrange(codewords[row].as_slice(), start, start + profile.c);
                assert(slice@ =~= cell_of(codewords@[row as int]@, cell as int, profile.c as int));
                let d = cell_hash(slice);
                column.push(d);
            } else {
                column.push(zero_digest());
            }
            row = row + 1;
        }
        assert(dviews(column@) =~= column_leaves(codewords@, cell as int, profile.c as int, n_padded as nat));
        columns.push(column);
        cell = cell + 1;
    }
    columns
}

/// The Merkle root of every column.
pub fn column_roots(columns: &Vec<Vec<Digest>>, ghost_leaves: Ghost<Seq<Seq<Seq<u32>>>>) -> (r: Vec<Digest>)
    requires
        ghost_leaves@.len() == columns.len(),
        forall|cell: int| 0 <= cell < columns.len() ==> is_pow2((#[trigger] columns@[cell]).len() as nat)
            && dviews(columns@[cell]@) == ghost_leaves@[cell],
    ensures
        dviews(r@) == Seq::new(columns.len() as nat, |cell: int| merkle_root(ghost_leaves@[cell])),
{
    let mut roots: Vec<Digest> = Vec::new();
    let mut cell: usize = 0;
    while cell < columns.len()
        invariant
            cell <= columns.len(),
            ghost_leaves@.len() == columns.len(),
            forall|j: int| 0 <= j < columns.len() ==> is_pow2((#[trigger] columns@[j]).len() as nat)
                && dviews(columns@[j]@) == ghost_leaves@[j],
            roots.len() == cell,
            forall|j: int| 0 <= j < cell ==> #[trigger] roots@[j]@ == merkle_root(ghost_leaves@[j]),
        decreases columns.len() - cell,
    {
        let root = merkle_root_of(&columns[cell]);
        roots.push(root);
        cell = cell + 1;
    }
    assert(dviews(roots@) =~= Seq::new(columns.len() as nat, |cell: int| merkle_root(ghost_leaves@[cell])));
    roots
}

/// The compression chain over row `row` of the first `count` columns.
pub fn row_chain(columns: &Vec<Vec<Digest>>, row: usize, count: usize) -> (r: Digest)
    requires
        1 <= count <= columns.len(),
        forall|cell: int| 0 <= cell < columns.len() ==> row < (#[trigger] columns@[cell]).len(),
    ensures
        r@ == chain_hash(Seq::new(count as nat, |cell: int| columns@[cell]@[row as int]@)),
{
    let ghost cv = Seq::new(count as nat, |cell: int| columns@[cell]@[row as int]@);
    if count == 1 {
        let z = zero_digest();
        return compress_pair(&z, &columns[0][row]);
    }
    let mut state = compress_pair(&columns[0][row], &columns[1][row]);
    let mut i: usize = 2;
    while i < count
        invariant
            2 <= i <= count,
            count <= columns.len(),
            forall|cell: int| 0 <= cell < columns.len() ==> row < (#[trigger] columns@[cell]).len(),
            cv == Seq::new(count as nat, |cell: int| columns@[cell]@[row as int]@),
            state@ == crate::hashing::chain_state(cv, i as nat),
        decreases count - i,
    {
        state = compress_pair(&state, &columns[i][row]);
        i = i + 1;
    }
    state
}

} // verus!
