//! Memory layout of the commitment precompile's scratch area: where the
//! cell digests, row hashes, column roots and the hashing temporaries of a
//! supported commitment profile live, and whether they fit.
use crate::merkle::is_pow2;
use crate::poly::{next_power_of_two, padded_len};
use crate::profile::is_power_of_two;
use crate::{DIGEST_LEN, EXT_DEGREE};
use vstd::prelude::*;

verus! {

/// Words available to the precompile's scratch area.
pub const PQ_DAS_COMMITMENT_SCRATCH_LEN: usize = 5_079_064;

/// The layout of one commitment profile in the precompile's memory.
#[derive(Debug, Clone, Copy, PartialEq, Eq, Structural)]
pub struct CommitmentProfile {
    pub rows: usize,
    pub rows_padded: usize,
    pub row_len: usize,
    pub k: usize,
    pub cell_size: usize,
    pub cell_base_len: usize,
    pub n_cells: usize,
    pub systematic_cells: usize,
    pub cell_chunks: usize,
    pub row_stride: usize,
    pub row_hashes_offset: usize,
    pub column_roots_offset: usize,
    pub cell_temps_offset: usize,
    pub cell_temps_per_cell: usize,
    pub row_temps_offset: usize,
    pub row_temps_per_row: usize,
    pub column_temps_offset: usize,
    pub column_temps_per_column: usize,
    pub row_root_temps_offset: usize,
    pub outer_temps_offset: usize,
    pub zero_digest_offset: usize,
    pub scratch_len: usize,
}

/// The (rows, row length, cell size) triples the precompile supports.
pub open spec fn supported_triple(rows: nat, row_len: nat, cell_size: nat) -> bool {
    ||| rows == 15 && row_len == 32_768 && cell_size == 32
    ||| rows == 14 && row_len == 32_768 && cell_size == 128
    ||| rows == 30 && row_len == 32_768 && cell_size == 32
    ||| rows == 14 && row_len == 65_536 && cell_size == 128
    ||| rows == 14 && row_len == 65_536 && cell_size == 64
}

/// The layout: cell digests of every (padded) row and cell, then the row
/// hashes, the column roots, and the temporaries of the cell, row, column,
/// row-root and outer hash chains, then one zero digest.
pub open spec fn commitment_layout(rows: nat, row_len: nat, cell_size: nat) -> CommitmentProfile {
    let d = DIGEST_LEN as int;
    let rows_padded = padded_len(rows) as int;
    let k = row_len as int / 2;
    let cell_base_len = cell_size as int * EXT_DEGREE as int;
    let n_cells = row_len as int / cell_size as int;
    let systematic_cells = k / cell_size as int;
    let cell_chunks = cell_base_len / d;
    let row_hashes_offset = n_cells * rows_padded * d;
    let column_roots_offset = row_hashes_offset + rows_padded * d;
    let cell_temps_offset = column_roots_offset + n_cells * d;
    let cell_temps_per_cell = (cell_chunks - 2) * d;
    let row_temps_offset = cell_temps_offset + rows * n_cells * cell_temps_per_cell;
    let row_temps_per_row = (systematic_cells - 2) * d;
    let column_temps_offset = row_temps_offset + rows * row_temps_per_row;
    let column_temps_per_column = (rows_padded - 1) * d;
    let row_root_temps_offset = column_temps_offset + n_cells * column_temps_per_column;
    let outer_temps_offset = row_root_temps_offset + (rows_padded - 1) * d;
    let zero_digest_offset = outer_temps_offset + (n_cells - 1) * d;
    CommitmentProfile {
        rows: rows as usize,
        rows_padded: rows_padded as usize,
        row_len: row_len as usize,
        k: k as usize,
        cell_size: cell_size as usize,
        cell_base_len: cell_base_len as usize,
        n_cells: n_cells as usize,
        systematic_cells: systematic_cells as usize,
        cell_chunks: cell_chunks as usize,
        row_stride: (row_len * EXT_DEGREE) as usize,
        row_hashes_offset: row_hashes_offset as usize,
        column_roots_offset: column_roots_offset as usize,
        cell_temps_offset: cell_temps_offset as usize,
        cell_temps_per_cell: cell_temps_per_cell as usize,
        row_temps_offset: row_temps_offset as usize,
        row_temps_per_row: row_temps_per_row as usize,
        column_temps_offset: column_temps_offset as usize,
        column_temps_per_column: column_temps_per_column as usize,
        row_root_temps_offset: row_root_temps_offset as usize,
        outer_temps_offset: outer_temps_offset as usize,
        zero_digest_offset: zero_digest_offset as usize,
        scratch_len: (zero_digest_offset + d) as usize,
    }
}

/// A supported triple whose cells divide both halves of the row, with at
/// least two padded rows, cells, systematic cells and digest chunks per
/// cell (powers of two where the trees need them), and whose layout fits
/// the scratch area.
pub open spec fn layout_ok(rows: nat, row_len: nat, cell_size: nat) -> bool {
    let l = commitment_layout(rows, row_len, cell_size);
    &&& supported_triple(rows, row_len, cell_size)
    &&& row_len % cell_size == 0
    &&& (row_len / 2) % cell_size == 0
    &&& padded_len(rows) >= 2
    &&& is_pow2(padded_len(rows))
    &&& row_len / cell_size >= 2
    &&& is_pow2(row_len / cell_size)
    &&& (cell_size * EXT_DEGREE) as int / (DIGEST_LEN as int) >= 2
    &&& (row_len / 2) / cell_size >= 2
    &&& l.scratch_len <= PQ_DAS_COMMITMENT_SCRATCH_LEN
}

/// What the relay needs of a layout: the sizes of a supported profile,
/// and each region of the scratch area placed after the one before it.
pub open spec fn layout_bounds(l: CommitmentProfile) -> bool {
    let d = DIGEST_LEN as int;
    &&& 1 <= l.rows <= 30
    &&& l.rows <= l.rows_padded <= 60
    &&& 2 <= l.rows_padded
    &&& is_pow2(l.rows_padded as nat)
    &&& 2 <= l.n_cells <= 2048
    &&& is_pow2(l.n_cells as nat)
    &&& 2 <= l.cell_chunks <= 80
    &&& 2 <= l.systematic_cells <= l.n_cells
    &&& l.cell_base_len == l.cell_chunks * d
    &&& l.row_stride == l.n_cells * l.cell_base_len
    &&& l.row_hashes_offset == l.n_cells * l.rows_padded * d
    &&& l.column_roots_offset == l.row_hashes_offset + l.rows_padded * d
    &&& l.cell_temps_offset == l.column_roots_offset + l.n_cells * d
    &&& l.cell_temps_per_cell == (l.cell_chunks - 2) * d
    &&& l.row_temps_offset == l.cell_temps_offset + l.rows * l.n_cells * l.cell_temps_per_cell
    &&& l.row_temps_per_row == (l.systematic_cells - 2) * d
    &&& l.column_temps_offset == l.row_temps_offset + l.rows * l.row_temps_per_row
    &&& l.column_temps_per_column == (l.rows_padded - 1) * d
    &&& l.row_root_temps_offset == l.column_temps_offset + l.n_cells * l.column_temps_per_column
    &&& l.outer_temps_offset == l.row_root_temps_offset + (l.rows_padded - 1) * d
    &&& l.zero_digest_offset == l.outer_temps_offset + (l.n_cells - 1) * d
    &&& l.scratch_len == l.zero_digest_offset + d
    &&& l.scratch_len <= PQ_DAS_COMMITMENT_SCRATCH_LEN
}

impl CommitmentProfile {
    /// The layout of a supported profile; `None` for an unsupported one or
    /// one whose layout does not fit.
    pub fn supported(rows: usize, row_len: usize, cell_size: usize) -> (r: Option<CommitmentProfile>)
        ensures
            r == if layout_ok(rows as nat, row_len as nat, cell_size as nat) {
                Some(commitment_layout(rows as nat, row_len as nat, cell_size as nat))
            } else {
                None::<CommitmentProfile>
            },
            r matches Some(l) ==> layout_bounds(l),
    {
        let listed = (rows == 15 && row_len == 32_768 && cell_size == 32) || (rows == 14 && row_len == 32_768
            && cell_size == 128) || (rows == 30 && row_len == 32_768 && cell_size == 32) || (rows == 14 && row_len
            == 65_536 && cell_size == 128) || (rows == 14 && row_len == 65_536 && cell_size == 64);
        if !listed {
            return None;
        }
        if row_len % cell_size != 0 || (row_len / 2) % cell_size != 0 {
            return None;
        }
        let rows_padded = next_power_of_two(rows);
        let k = row_len / 2;
        let cell_base_len = cell_size * EXT_DEGREE;
        let n_cells = row_len / cell_size;
        let systematic_cells = k / cell_size;
        let cell_chunks = cell_base_len / DIGEST_LEN;
        if rows_padded < 2 || !is_power_of_two(rows_padded) || n_cells < 2 || !is_power_of_two(n_cells) {
            return None;
        }
        if cell_chunks < 2 || systematic_cells < 2 {
            return None;
        }
        proof {
            assert(rows_padded <= 60);
            assert(n_cells <= 2048) by {
                vstd::arithmetic::div_mod::lemma_div_is_ordered(row_len as int, 65_536, cell_size as int);
                vstd::arithmetic::div_mod::lemma_div_is_ordered_by_denominator(65_536, 32, cell_size as int);
            }
            assert(cell_chunks <= 80);
            assert(cell_base_len == cell_chunks * 8);
            assert(rows_padded >= rows);
            assert(systematic_cells <= n_cells) by {
                vstd::arithmetic::div_mod::lemma_div_is_ordered(k as int, row_len as int, cell_size as int);
            }
            assert(row_len * 5 == n_cells * (cell_size * 5)) by {
                vstd::arithmetic::div_mod::lemma_fundamental_div_mod(row_len as int, cell_size as int);
                assert(row_len == cell_size * n_cells);
                assert(row_len * 5 == n_cells * (cell_size * 5)) by (nonlinear_arith)
                    requires
                        row_len == cell_size * n_cells,
                ;
            }
            assert(systematic_cells <= 1024) by {
                vstd::arithmetic::div_mod::lemma_div_is_ordered(k as int, 32_768, cell_size as int);
                vstd::arithmetic::div_mod::lemma_div_is_ordered_by_denominator(32_768, 32, cell_size as int);
            }
            assert(n_cells * rows_padded <= 2048 * 60) by (nonlinear_arith)
                requires
                    n_cells <= 2048,
                    rows_padded <= 60,
            ;
            assert(rows * n_cells <= 30 * 2048) by (nonlinear_arith)
                requires
                    n_cells <= 2048,
                    rows <= 30,
            ;
            assert(rows * n_cells * ((cell_chunks - 2) * 8) <= 30 * 2048 * 640) by (nonlinear_arith)
                requires
                    rows * n_cells <= 30 * 2048,
                    2 <= cell_chunks <= 80,
            ;
            assert(rows * ((systematic_cells - 2) * 8) <= 30 * 8192) by (nonlinear_arith)
                requires
                    rows <= 30,
                    2 <= systematic_cells <= 1024,
            ;
            assert(n_cells * ((rows_padded - 1) * 8) <= 2048 * 480) by (nonlinear_arith)
                requires
                    n_cells <= 2048,
                    2 <= rows_padded <= 60,
            ;
        }
        let row_stride = row_len * EXT_DEGREE;
        let cell_digests_len = n_cells * rows_padded * DIGEST_LEN;
        let row_hashes_offset = cell_digests_len;
        let row_hashes_len = rows_padded * DIGEST_LEN;
        let column_roots_offset = row_hashes_offset + row_hashes_len;
        let column_roots_len = n_cells * DIGEST_LEN;
        let cell_temps_offset = column_roots_offset + column_roots_len;
        let cell_temps_per_cell = (cell_chunks - 2) * DIGEST_LEN;
        let cell_temps_len = rows * n_cells * cell_temps_per_cell;
        let row_temps_offset = cell_temps_offset + cell_temps_len;
        let row_temps_per_row = (systematic_cells - 2) * DIGEST_LEN;
        let row_temps_len = rows * row_temps_per_row;
        let column_temps_offset = row_temps_offset + row_temps_len;
        let column_temps_per_column = (rows_padded - 1) * DIGEST_LEN;
        let column_temps_len = n_cells * column_temps_per_column;
        let row_root_temps_offset = column_temps_offset + column_temps_len;
        let row_root_temps_len = (rows_padded - 1) * DIGEST_LEN;
        let outer_temps_offset = row_root_temps_offset + row_root_temps_len;
        let outer_temps_len = (n_cells - 1) * DIGEST_LEN;
        let zero_digest_offset = outer_temps_offset + outer_temps_len;
        let scratch_len = zero_digest_offset + DIGEST_LEN;
        if scratch_len > PQ_DAS_COMMITMENT_SCRATCH_LEN {
            return None;
        }
        Some(
            CommitmentProfile {
                rows,
                rows_padded,
                row_len,
                k,
                cell_size,
                cell_base_len,
                n_cells,
                systematic_cells,
                cell_chunks,
                row_stride,
                row_hashes_offset,
                column_roots_offset,
                cell_temps_offset,
                cell_temps_per_cell,
                row_temps_offset,
                row_temps_per_row,
                column_temps_offset,
                column_temps_per_column,
                row_root_temps_offset,
                outer_temps_offset,
                zero_digest_offset,
                scratch_len,
            },
        )
    }
}

/// The least power of two at least `n` is unique.
proof fn lemma_next_pow2_is(n: nat, r: nat)
    requires
        crate::poly::is_next_pow2(n, r),
        n >= 1,
    ensures
        padded_len(n) == r,
{
    crate::poly::lemma_padded_len(n);
    let q = padded_len(n);
    if q < r {
        crate::poly::lemma_pow2_le_half(q, r);
    } else if r < q {
        crate::poly::lemma_pow2_le_half(r, q);
    }
}

/// What a supported layout is: the padded row count is the least power of
/// two at least the row count; the message is half the row; a cell holds
/// `cell_size` elements of five words; the cells tile the row and its
/// systematic half; a cell's words fill whole digests; and the scratch area
/// is, in order, one digest per cell of every padded row, one row hash per
/// padded row, one root per column, the `chunks - 2` temporaries of every
/// cell's hash chain, the `systematic - 2` temporaries of every row-hash
/// chain, the `padded rows - 1` temporaries of every column tree, the
/// `padded rows - 1` of the row tree and the `cells - 1` of the outer tree,
/// and one zero digest, within the precompile's scratch length.
pub proof fn lemma_layout_meaning(rows: nat, row_len: nat, cell_size: nat)
    requires
        layout_ok(rows, row_len, cell_size),
    ensures
        ({
            let l = commitment_layout(rows, row_len, cell_size);
            let d = DIGEST_LEN as int;
            &&& l.rows == rows && l.row_len == row_len && l.cell_size == cell_size
            &&& crate::poly::is_next_pow2(rows, l.rows_padded as nat)
            &&& l.k * 2 == row_len
            &&& l.cell_base_len == cell_size * EXT_DEGREE
            &&& l.n_cells * cell_size == row_len
            &&& l.systematic_cells * cell_size == l.k
            &&& l.cell_chunks * d == l.cell_base_len
            &&& l.row_stride == row_len * EXT_DEGREE
            &&& l.row_hashes_offset == l.n_cells * l.rows_padded * d
            &&& l.column_roots_offset - l.row_hashes_offset == l.rows_padded * d
            &&& l.cell_temps_offset - l.column_roots_offset == l.n_cells * d
            &&& l.cell_temps_per_cell == (l.cell_chunks - 2) * d
            &&& l.row_temps_offset - l.cell_temps_offset == rows * l.n_cells * l.cell_temps_per_cell
            &&& l.row_temps_per_row == (l.systematic_cells - 2) * d
            &&& l.column_temps_offset - l.row_temps_offset == rows * l.row_temps_per_row
            &&& l.column_temps_per_column == (l.rows_padded - 1) * d
            &&& l.row_root_temps_offset - l.column_temps_offset == l.n_cells * l.column_temps_per_column
            &&& l.outer_temps_offset - l.row_root_temps_offset == (l.rows_padded - 1) * d
            &&& l.zero_digest_offset - l.outer_temps_offset == (l.n_cells - 1) * d
            &&& l.scratch_len - l.zero_digest_offset == d
            &&& l.scratch_len <= PQ_DAS_COMMITMENT_SCRATCH_LEN
        }),
{
    let l = commitment_layout(rows, row_len, cell_size);
    if rows == 30 {
        reveal_with_fuel(is_pow2, 6);
        assert(crate::poly::is_next_pow2(30, 32));
        lemma_next_pow2_is(30, 32);
        assert(l.rows_padded == 32);
    } else {
        reveal_with_fuel(is_pow2, 5);
        assert(crate::poly::is_next_pow2(rows, 16));
        lemma_next_pow2_is(rows, 16);
        assert(l.rows_padded == 16);
    }
    if rows == 15 && row_len == 32768 && cell_size == 32 {
        assert(rows == 15 && row_len == 32768 && cell_size == 32);
        assert(l.n_cells == 1024 && l.cell_chunks == 20 && l.systematic_cells == 512);
        assert(l.cell_temps_per_cell == 144 && l.row_temps_per_row == 4080 && l.column_temps_per_column == 120);
        assert(rows * l.n_cells * l.cell_temps_per_cell == 2211840) by (nonlinear_arith)
            requires
                rows == 15,
                l.n_cells == 1024,
                l.cell_temps_per_cell == 144,
        ;
        assert(rows * l.row_temps_per_row == 61200) by (nonlinear_arith)
            requires
                rows == 15,
                l.row_temps_per_row == 4080,
        ;
        assert(l.n_cells * l.column_temps_per_column == 122880) by (nonlinear_arith)
            requires
                l.n_cells == 1024,
                l.column_temps_per_column == 120,
        ;
        assert(l.n_cells * l.rows_padded * 8 == 131072) by (nonlinear_arith)
            requires
                l.n_cells == 1024,
                l.rows_padded == 16,
        ;
    } else if rows == 14 && row_len == 32768 && cell_size == 128 {
        assert(rows == 14 && row_len == 32768 && cell_size == 128);
        assert(l.n_cells == 256 && l.cell_chunks == 80 && l.systematic_cells == 128);
        assert(l.cell_temps_per_cell == 624 && l.row_temps_per_row == 1008 && l.column_temps_per_column == 120);
        assert(rows * l.n_cells * l.cell_temps_per_cell == 2236416) by (nonlinear_arith)
            requires
                rows == 14,
                l.n_cells == 256,
                l.cell_temps_per_cell == 624,
        ;
        assert(rows * l.row_temps_per_row == 14112) by (nonlinear_arith)
            requires
                rows == 14,
                l.row_temps_per_row == 1008,
        ;
        assert(l.n_cells * l.column_temps_per_column == 30720) by (nonlinear_arith)
            requires
                l.n_cells == 256,
                l.column_temps_per_column == 120,
        ;
        assert(l.n_cells * l.rows_padded * 8 == 32768) by (nonlinear_arith)
            requires
                l.n_cells == 256,
                l.rows_padded == 16,
        ;
    } else if rows == 30 && row_len == 32768 && cell_size == 32 {
        assert(rows == 30 && row_len == 32768 && cell_size == 32);
        assert(l.n_cells == 1024 && l.cell_chunks == 20 && l.systematic_cells == 512);
        assert(l.cell_temps_per_cell == 144 && l.row_temps_per_row == 4080 && l.column_temps_per_column == 248);
        assert(rows * l.n_cells * l.cell_temps_per_cell == 4423680) by (nonlinear_arith)
            requires
                rows == 30,
                l.n_cells == 1024,
                l.cell_temps_per_cell == 144,
        ;
        assert(rows * l.row_temps_per_row == 122400) by (nonlinear_arith)
            requires
                rows == 30,
                l.row_temps_per_row == 4080,
        ;
        assert(l.n_cells * l.column_temps_per_column == 253952) by (nonlinear_arith)
            requires
                l.n_cells == 1024,
                l.column_temps_per_column == 248,
        ;
        assert(l.n_cells * l.rows_padded * 8 == 262144) by (nonlinear_arith)
            requires
                l.n_cells == 1024,
                l.rows_padded == 32,
        ;
    } else if rows == 14 && row_len == 65536 && cell_size == 128 {
        assert(rows == 14 && row_len == 65536 && cell_size == 128);
        assert(l.n_cells == 512 && l.cell_chunks == 80 && l.systematic_cells == 256);
        assert(l.cell_temps_per_cell == 624 && l.row_temps_per_row == 2032 && l.column_temps_per_column == 120);
        assert(rows * l.n_cells * l.cell_temps_per_cell == 4472832) by (nonlinear_arith)
            requires
                rows == 14,
                l.n_cells == 512,
                l.cell_temps_per_cell == 624,
        ;
        assert(rows * l.row_temps_per_row == 28448) by (nonlinear_arith)
            requires
                rows == 14,
                l.row_temps_per_row == 2032,
        ;
        assert(l.n_cells * l.column_temps_per_column == 61440) by (nonlinear_arith)
            requires
                l.n_cells == 512,
                l.column_temps_per_column == 120,
        ;
        assert(l.n_cells * l.rows_padded * 8 == 65536) by (nonlinear_arith)
            requires
                l.n_cells == 512,
                l.rows_padded == 16,
        ;
    } else {
        assert(rows == 14 && row_len == 65536 && cell_size == 64);
        assert(l.n_cells == 1024 && l.cell_chunks == 40 && l.systematic_cells == 512);
        assert(l.cell_temps_per_cell == 304 && l.row_temps_per_row == 4080 && l.column_temps_per_column == 120);
        assert(rows * l.n_cells * l.cell_temps_per_cell == 4358144) by (nonlinear_arith)
            requires
                rows == 14,
                l.n_cells == 1024,
                l.cell_temps_per_cell == 304,
        ;
        assert(rows * l.row_temps_per_row == 57120) by (nonlinear_arith)
            requires
                rows == 14,
                l.row_temps_per_row == 4080,
        ;
        assert(l.n_cells * l.column_temps_per_column == 122880) by (nonlinear_arith)
            requires
                l.n_cells == 1024,
                l.column_temps_per_column == 120,
        ;
        assert(l.n_cells * l.rows_padded * 8 == 131072) by (nonlinear_arith)
            requires
                l.n_cells == 1024,
                l.rows_padded == 16,
        ;
    }

}

} // verus!
