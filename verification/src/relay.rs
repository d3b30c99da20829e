//! The commitment precompile's relay: the order in which it zeroes digests
//! and compresses pairs of digests in memory to hash the codeword cells,
//! chain the row hashes, build the row tree, the column trees and the
//! outer tree, and bind the two roots into the public root.
use crate::commit::{cell_digest_of, cell_of, column_leaves as codeword_column_leaves, column_roots_of, row_cells};
use crate::dbp_ext::{aux_consistent, cells_of, padded_leaves, row_hashes_of, threshold, ExtAuxiliaryData};
use crate::field::{Ext, P};
use crate::hashing::{chunks_of, dviews};
use crate::layout::flat;
use crate::poly::{is_next_pow2, padded_len};
use crate::v3_ext::{final_root_of, ExtCommitment};
use crate::hashing::{chain_hash, chain_state, poseidon_compress, zero_view};
use crate::merkle::{is_pow2, layer_at, log2, merkle_root, pair_layer};
use crate::vm_layout::{commitment_layout, layout_bounds, layout_ok, CommitmentProfile};
use crate::DIGEST_LEN;
use vstd::prelude::*;

verus! {

/// One step of the relay.
#[derive(Clone, Copy, Debug, PartialEq, Eq, Structural)]
pub enum RelayStep {
    /// Compress the digests at `left` and `right` into the digest at `out`.
    Compress { left: usize, right: usize, out: usize },
    /// Write a zero digest at `at`.
    ZeroDigest { at: usize },
}

/// The compression of the digests at `a` and `b` into `c`.
pub open spec fn compress_step(a: int, b: int, c: int) -> RelayStep {
    RelayStep::Compress { left: a as usize, right: b as usize, out: c as usize }
}

/// Digest of cell `cell` of row `row`.
pub open spec fn cell_digest_at(l: CommitmentProfile, sb: int, cell: int, row: int) -> int {
    sb + (cell * l.rows_padded * DIGEST_LEN + row * DIGEST_LEN)
}

/// Hash of row `row`.
pub open spec fn row_hash_at(l: CommitmentProfile, sb: int, row: int) -> int {
    sb + (l.row_hashes_offset + row * DIGEST_LEN)
}

/// Root of column `cell`.
pub open spec fn column_root_at(l: CommitmentProfile, sb: int, cell: int) -> int {
    sb + (l.column_roots_offset + cell * DIGEST_LEN)
}

/// Temporary `t` of the hash chain of cell `cell` in row `row`.
pub open spec fn cell_temp_at(l: CommitmentProfile, sb: int, row: int, cell: int, t: int) -> int {
    sb + (l.cell_temps_offset + (row * l.n_cells + cell) * l.cell_temps_per_cell + t * DIGEST_LEN)
}

/// Temporary `t` of the row-hash chain of row `row`.
pub open spec fn row_temp_at(l: CommitmentProfile, sb: int, row: int, t: int) -> int {
    sb + (l.row_temps_offset + row * l.row_temps_per_row + t * DIGEST_LEN)
}

/// Temporary `t` of the tree of column `cell`.
pub open spec fn column_temp_at(l: CommitmentProfile, sb: int, cell: int, t: int) -> int {
    sb + (l.column_temps_offset + cell * l.column_temps_per_column + t * DIGEST_LEN)
}

/// Temporary `t` of the row tree.
pub open spec fn row_root_temp_at(l: CommitmentProfile, sb: int, t: int) -> int {
    sb + (l.row_root_temps_offset + t * DIGEST_LEN)
}

/// Temporary `t` of the outer tree.
pub open spec fn outer_temp_at(l: CommitmentProfile, sb: int, t: int) -> int {
    sb + (l.outer_temps_offset + t * DIGEST_LEN)
}

/// The zero digest.
pub open spec fn zero_digest_at(l: CommitmentProfile, sb: int) -> int {
    sb + l.zero_digest_offset
}

/// The middle links of a cell's hash chain.
pub open spec fn cell_chain_mid(l: CommitmentProfile, sb: int, row: int, cell: int, input: int) -> Seq<RelayStep> {
    Seq::new(
        (l.cell_chunks - 3) as nat,
        |j: int|
            compress_step(
                cell_temp_at(l, sb, row, cell, j),
                input + (j + 2) * DIGEST_LEN,
                cell_temp_at(l, sb, row, cell, j + 1),
            ),
    )
}

/// The middle links of a row-hash chain.
pub open spec fn row_chain_mid(l: CommitmentProfile, sb: int, row: int) -> Seq<RelayStep> {
    Seq::new(
        (l.systematic_cells - 3) as nat,
        |j: int| compress_step(row_temp_at(l, sb, row, j), cell_digest_at(l, sb, j + 2, row), row_temp_at(l, sb, row, j + 1)),
    )
}

/// The hash chain of one cell of `cell_chunks` digests at `input` into
/// `dest`: the first two digests, then each further digest into the running
/// temporary.
pub open spec fn cell_chain(l: CommitmentProfile, sb: int, row: int, cell: int, input: int, dest: int) -> Seq<RelayStep> {
    let ch = l.cell_chunks as int;
    if ch == 2 {
        seq![compress_step(input, input + DIGEST_LEN, dest)]
    } else {
        seq![compress_step(input, input + DIGEST_LEN, cell_temp_at(l, sb, row, cell, 0))] + cell_chain_mid(l, sb, row, cell, input)
            + seq![compress_step(cell_temp_at(l, sb, row, cell, ch - 3), input + (ch - 1) * DIGEST_LEN, dest)]
    }
}

/// The row-hash chain of row `row` over the digests of its systematic
/// cells.
pub open spec fn row_chain(l: CommitmentProfile, sb: int, row: int) -> Seq<RelayStep> {
    let s = l.systematic_cells as int;
    if s == 2 {
        seq![compress_step(cell_digest_at(l, sb, 0, row), cell_digest_at(l, sb, 1, row), row_hash_at(l, sb, row))]
    } else {
        seq![compress_step(cell_digest_at(l, sb, 0, row), cell_digest_at(l, sb, 1, row), row_temp_at(l, sb, row, 0))]
            + row_chain_mid(l, sb, row) + seq![
            compress_step(row_temp_at(l, sb, row, s - 3), cell_digest_at(l, sb, s - 1, row), row_hash_at(l, sb, row)),
        ]
    }
}

/// Where the nodes of the level above `len` nodes go: the root into
/// `dest`, other nodes into consecutive temporaries from `cursor` on.
pub open spec fn level_outputs(len: nat, temps: int, cursor: int, dest: int) -> Seq<int> {
    let half = len / 2;
    Seq::new(half, |i: int| if half == 1 { dest } else { temps + (cursor + i) * DIGEST_LEN })
}

/// The compressions that build the level above `cur`.
pub open spec fn level_calls(cur: Seq<int>, temps: int, cursor: int, dest: int) -> Seq<RelayStep> {
    let outs = level_outputs(cur.len(), temps, cursor, dest);
    Seq::new(outs.len(), |i: int| compress_step(cur[2 * i], cur[2 * i + 1], outs[i]))
}

/// The compressions that build a Merkle tree over the digests at `cur`,
/// level by level, its root into `dest`.
pub open spec fn merkle_calls(cur: Seq<int>, temps: int, cursor: int, dest: int) -> Seq<RelayStep>
    decreases cur.len(),
{
    if cur.len() <= 1 {
        Seq::empty()
    } else {
        let half = cur.len() / 2;
        level_calls(cur, temps, cursor, dest) + merkle_calls(
            level_outputs(cur.len(), temps, cursor, dest),
            temps,
            cursor + if half == 1 { 0 } else { half as int },
            dest,
        )
    }
}

/// The regions of a layout lie within its scratch area, in order.
proof fn lemma_offsets(l: CommitmentProfile)
    requires
        layout_bounds(l),
    ensures
        l.row_hashes_offset <= l.column_roots_offset <= l.cell_temps_offset <= l.row_temps_offset
            <= l.column_temps_offset <= l.row_root_temps_offset <= l.outer_temps_offset <= l.zero_digest_offset
            < l.scratch_len <= 5_079_064,
        l.row_hashes_offset == l.n_cells * l.rows_padded * 8,
        l.n_cells * l.rows_padded <= 2048 * 60,
{
    assert(l.n_cells * l.rows_padded <= 2048 * 60) by (nonlinear_arith)
        requires
            l.n_cells <= 2048,
            l.rows_padded <= 60,
    ;
    assert(l.rows * l.n_cells * l.cell_temps_per_cell >= 0) by (nonlinear_arith);
    assert(l.rows * l.row_temps_per_row >= 0) by (nonlinear_arith);
    assert(l.n_cells * l.column_temps_per_column >= 0) by (nonlinear_arith);
}

fn cell_digest_addr(l: CommitmentProfile, sb: usize, cell: usize, row: usize) -> (r: usize)
    requires
        layout_bounds(l),
        sb < P,
        cell < l.n_cells,
        row < l.rows_padded,
    ensures
        r == cell_digest_at(l, sb as int, cell as int, row as int),
{
    proof {
        assert(cell * l.rows_padded <= 2048 * 60) by (nonlinear_arith)
            requires
                cell < l.n_cells <= 2048,
                l.rows_padded <= 60,
        ;
    }
    sb + (cell * l.rows_padded * DIGEST_LEN + row * DIGEST_LEN)
}

fn row_hash_addr(l: CommitmentProfile, sb: usize, row: usize) -> (r: usize)
    requires
        layout_bounds(l),
        sb < P,
        row < l.rows_padded,
    ensures
        r == row_hash_at(l, sb as int, row as int),
{
    proof {
        lemma_offsets(l);
    }
    sb + (l.row_hashes_offset + row * DIGEST_LEN)
}

fn column_root_addr(l: CommitmentProfile, sb: usize, cell: usize) -> (r: usize)
    requires
        layout_bounds(l),
        sb < P,
        cell < l.n_cells,
    ensures
        r == column_root_at(l, sb as int, cell as int),
{
    proof {
        lemma_offsets(l);
    }
    sb + (l.column_roots_offset + cell * DIGEST_LEN)
}

fn cell_temp_addr(l: CommitmentProfile, sb: usize, row: usize, cell: usize, t: usize) -> (r: usize)
    requires
        layout_bounds(l),
        sb < P,
        row < l.rows,
        cell < l.n_cells,
        t < l.cell_chunks,
    ensures
        r == cell_temp_at(l, sb as int, row as int, cell as int, t as int),
{
    proof {
        lemma_offsets(l);
        assert(row * l.n_cells <= 30 * 2048) by (nonlinear_arith)
            requires
                row < l.rows <= 30,
                l.n_cells <= 2048,
        ;
        assert((row * l.n_cells + cell) * l.cell_temps_per_cell <= 32 * 2048 * 640) by (nonlinear_arith)
            requires
                row * l.n_cells <= 30 * 2048,
                row * l.n_cells + cell <= 30 * 2048 + 2048,
                cell < l.n_cells <= 2048,
                l.cell_temps_per_cell == (l.cell_chunks - 2) * 8,
                l.cell_chunks <= 80,
        ;
    }
    sb + (l.cell_temps_offset + (row * l.n_cells + cell) * l.cell_temps_per_cell + t * DIGEST_LEN)
}

fn row_temp_addr(l: CommitmentProfile, sb: usize, row: usize, t: usize) -> (r: usize)
    requires
        layout_bounds(l),
        sb < P,
        row < l.rows,
        t < l.systematic_cells,
    ensures
        r == row_temp_at(l, sb as int, row as int, t as int),
{
    proof {
        lemma_offsets(l);
        assert(row * l.row_temps_per_row <= 30 * 2048 * 8) by (nonlinear_arith)
            requires
                row < l.rows <= 30,
                l.row_temps_per_row == (l.systematic_cells - 2) * 8,
                l.systematic_cells <= 2048,
        ;
    }
    sb + (l.row_temps_offset + row * l.row_temps_per_row + t * DIGEST_LEN)
}

fn column_temp_addr(l: CommitmentProfile, sb: usize, cell: usize, t: usize) -> (r: usize)
    requires
        layout_bounds(l),
        sb < P,
        cell < l.n_cells,
        t < l.rows_padded,
    ensures
        r == column_temp_at(l, sb as int, cell as int, t as int),
        r < sb + 0x100_0000,
{
    proof {
        lemma_offsets(l);
        assert(cell * l.column_temps_per_column <= 2048 * 480) by (nonlinear_arith)
            requires
                cell < l.n_cells <= 2048,
                l.column_temps_per_column == (l.rows_padded - 1) * 8,
                l.rows_padded <= 60,
        ;
    }
    sb + (l.column_temps_offset + cell * l.column_temps_per_column + t * DIGEST_LEN)
}

fn row_root_temp_addr(l: CommitmentProfile, sb: usize, t: usize) -> (r: usize)
    requires
        layout_bounds(l),
        sb < P,
        t < l.rows_padded,
    ensures
        r == row_root_temp_at(l, sb as int, t as int),
{
    proof {
        lemma_offsets(l);
    }
    sb + (l.row_root_temps_offset + t * DIGEST_LEN)
}

fn outer_temp_addr(l: CommitmentProfile, sb: usize, t: usize) -> (r: usize)
    requires
        layout_bounds(l),
        sb < P,
        t < l.n_cells,
    ensures
        r == outer_temp_at(l, sb as int, t as int),
{
    proof {
        lemma_offsets(l);
    }
    sb + (l.outer_temps_offset + t * DIGEST_LEN)
}

/// Appends the hash chain of one cell.
fn push_cell_chain(
    steps: &mut Vec<RelayStep>,
    l: CommitmentProfile,
    sb: usize,
    row: usize,
    cell: usize,
    input: usize,
    dest: usize,
)
    requires
        layout_bounds(l),
        sb < P,
        row < l.rows,
        cell < l.n_cells,
        input + l.cell_base_len <= usize::MAX,
    ensures
        final(steps)@ == old(steps)@ + cell_chain(l, sb as int, row as int, cell as int, input as int, dest as int),
{
    let ch = l.cell_chunks;
    if ch == 2 {
        steps.push(RelayStep::Compress { left: input, right: input + DIGEST_LEN, out: dest });
        return;
    }
    let ghost start = old(steps)@;
    let ghost mid = cell_chain_mid(l, sb as int, row as int, cell as int, input as int);
    let first = cell_temp_addr(l, sb, row, cell, 0);
    steps.push(RelayStep::Compress { left: input, right: input + DIGEST_LEN, out: first });
    let ghost head = steps@;
    let mut chunk: usize = 1;
    while chunk < ch - 2
        invariant
            layout_bounds(l),
            sb < P,
            row < l.rows,
            cell < l.n_cells,
            input + l.cell_base_len <= usize::MAX,
            ch == l.cell_chunks,
            3 <= ch,
            1 <= chunk <= ch - 2,
            mid == cell_chain_mid(l, sb as int, row as int, cell as int, input as int),
            steps@ == head + mid.subrange(0, chunk - 1),
        decreases ch - 2 - chunk,
    {
        let prev = cell_temp_addr(l, sb, row, cell, chunk - 1);
        let out = cell_temp_addr(l, sb, row, cell, chunk);
        steps.push(RelayStep::Compress { left: prev, right: input + (chunk + 1) * DIGEST_LEN, out });
        proof {
            assert(mid.subrange(0, chunk as int) =~= mid.subrange(0, chunk - 1).push(mid[chunk - 1]));
        }
        chunk = chunk + 1;
    }
    let last = cell_temp_addr(l, sb, row, cell, ch - 3);
    steps.push(RelayStep::Compress { left: last, right: input + (ch - 1) * DIGEST_LEN, out: dest });
    proof {
        assert(mid.subrange(0, ch - 3) =~= mid);
    }
}

/// Appends the row-hash chain of one row.
fn push_row_chain(steps: &mut Vec<RelayStep>, l: CommitmentProfile, sb: usize, row: usize)
    requires
        layout_bounds(l),
        sb < P,
        row < l.rows,
    ensures
        final(steps)@ == old(steps)@ + row_chain(l, sb as int, row as int),
{
    let s = l.systematic_cells;
    let a = cell_digest_addr(l, sb, 0, row);
    let b = cell_digest_addr(l, sb, 1, row);
    if s == 2 {
        let h = row_hash_addr(l, sb, row);
        steps.push(RelayStep::Compress { left: a, right: b, out: h });
        return;
    }
    let ghost mid = row_chain_mid(l, sb as int, row as int);
    let first = row_temp_addr(l, sb, row, 0);
    steps.push(RelayStep::Compress { left: a, right: b, out: first });
    let ghost head = steps@;
    let mut cell: usize = 2;
    while cell < s - 1
        invariant
            layout_bounds(l),
            sb < P,
            row < l.rows,
            s == l.systematic_cells,
            3 <= s,
            2 <= cell <= s - 1,
            mid == row_chain_mid(l, sb as int, row as int),
            steps@ == head + mid.subrange(0, cell - 2),
        decreases s - 1 - cell,
    {
        let prev = row_temp_addr(l, sb, row, cell - 2);
        let d = cell_digest_addr(l, sb, cell, row);
        let out = row_temp_addr(l, sb, row, cell - 1);
        steps.push(RelayStep::Compress { left: prev, right: d, out });
        proof {
            assert(mid.subrange(0, cell - 1) =~= mid.subrange(0, cell - 2).push(mid[cell - 2]));
        }
        cell = cell + 1;
    }
    let last = row_temp_addr(l, sb, row, s - 3);
    let d = cell_digest_addr(l, sb, s - 1, row);
    let h = row_hash_addr(l, sb, row);
    steps.push(RelayStep::Compress { left: last, right: d, out: h });
    proof {
        assert(mid.subrange(0, s - 3) =~= mid);
    }
}

/// The integers of a sequence of addresses.
pub open spec fn ints(s: Seq<usize>) -> Seq<int> {
    s.map_values(|x: usize| x as int)
}

/// Appends the compressions of a Merkle tree over the digests at `leaves`,
/// its root into `dest` and its inner nodes into temporaries from `temps`.
fn push_merkle(steps: &mut Vec<RelayStep>, leaves: Vec<usize>, temps: usize, dest: usize)
    requires
        leaves.len() >= 1,
        temps + leaves.len() * DIGEST_LEN <= usize::MAX,
    ensures
        final(steps)@ == old(steps)@ + merkle_calls(ints(leaves@), temps as int, 0, dest as int),
{
    let ghost start = old(steps)@;
    let ghost total = merkle_calls(ints(leaves@), temps as int, 0, dest as int);
    let ghost n = leaves.len();
    let mut current = leaves;
    let mut cursor: usize = 0;
    while current.len() > 1
        invariant
            current.len() >= 1,
            cursor + current.len() <= n,
            temps + n * DIGEST_LEN <= usize::MAX,
            start + total == steps@ + merkle_calls(ints(current@), temps as int, cursor as int, dest as int),
        decreases current.len(),
    {
        let next_len = current.len() / 2;
        let ghost cur = ints(current@);
        let ghost outs = level_outputs(cur.len(), temps as int, cursor as int, dest as int);
        let ghost calls = level_calls(cur, temps as int, cursor as int, dest as int);
        let ghost before = steps@;
        let mut next: Vec<usize> = Vec::new();
        let mut node: usize = 0;
        while node < next_len
            invariant
                next_len == current.len() / 2,
                cur == ints(current@),
                node <= next_len,
                cursor + current.len() <= n,
                temps + n * DIGEST_LEN <= usize::MAX,
                outs == level_outputs(cur.len(), temps as int, cursor as int, dest as int),
                calls == level_calls(cur, temps as int, cursor as int, dest as int),
                steps@ == before + calls.subrange(0, node as int),
                ints(next@) == outs.subrange(0, node as int),
            decreases next_len - node,
        {
            let out = if next_len == 1 {
                dest
            } else {
                temps + (cursor + node) * DIGEST_LEN
            };
            steps.push(RelayStep::Compress { left: current[2 * node], right: current[2 * node + 1], out });
            let ghost old_next = next@;
            next.push(out);
            proof {
                assert(ints(next@) =~= ints(old_next).push(out as int));
                assert(outs[node as int] == out as int);
                assert(calls.subrange(0, node + 1) =~= calls.subrange(0, node as int).push(calls[node as int]));
                assert(ints(next@) =~= outs.subrange(0, node + 1));
            }
            node = node + 1;
        }
        proof {
            assert(calls.subrange(0, next_len as int) =~= calls);
            assert(ints(next@) =~= outs);
        }
        if next_len != 1 {
            cursor = cursor + next_len;
        }
        current = next;
    }
    proof {
        assert(steps@ + merkle_calls(ints(current@), temps as int, cursor as int, dest as int) == steps@ + Seq::<RelayStep>::empty());
        assert(steps@ + Seq::<RelayStep>::empty() =~= steps@);
    }
}

/// The hash chains of the first `c` cells of row `row`, whose codeword
/// starts at `cb` in memory.
pub open spec fn cells_calls(l: CommitmentProfile, cb: int, sb: int, row: int, c: nat) -> Seq<RelayStep>
    decreases c,
{
    if c == 0 {
        Seq::empty()
    } else {
        let cell = c - 1;
        cells_calls(l, cb, sb, row, (c - 1) as nat) + cell_chain(
            l,
            sb,
            row,
            cell,
            cb + row * l.row_stride + cell * l.cell_base_len,
            cell_digest_at(l, sb, cell, row),
        )
    }
}

/// For each of the first `r` rows: its cells' hash chains, then its
/// row-hash chain.
pub open spec fn rows_calls(l: CommitmentProfile, cb: int, sb: int, r: nat) -> Seq<RelayStep>
    decreases r,
{
    if r == 0 {
        Seq::empty()
    } else {
        rows_calls(l, cb, sb, (r - 1) as nat) + cells_calls(l, cb, sb, r - 1, l.n_cells as nat) + row_chain(l, sb, r - 1)
    }
}

/// Zero digests as the hashes of the padding rows.
pub open spec fn zero_rows(l: CommitmentProfile, sb: int) -> Seq<RelayStep> {
    Seq::new(
        (l.rows_padded - l.rows) as nat,
        |i: int| RelayStep::ZeroDigest { at: row_hash_at(l, sb, l.rows + i) as usize },
    )
}

/// The leaves of the row tree: every (padded) row hash.
pub open spec fn row_leaves(l: CommitmentProfile, sb: int) -> Seq<int> {
    Seq::new(l.rows_padded as nat, |i: int| row_hash_at(l, sb, i))
}

/// The leaves of the tree of column `cell`: the cell's digests, then the
/// zero digest for each padding row.
pub open spec fn column_leaves(l: CommitmentProfile, sb: int, cell: int) -> Seq<int> {
    Seq::new(
        l.rows_padded as nat,
        |row: int| if row < l.rows { cell_digest_at(l, sb, cell, row) } else { zero_digest_at(l, sb) },
    )
}

/// The trees of the first `c` columns.
pub open spec fn columns_calls(l: CommitmentProfile, sb: int, c: nat) -> Seq<RelayStep>
    decreases c,
{
    if c == 0 {
        Seq::empty()
    } else {
        columns_calls(l, sb, (c - 1) as nat) + merkle_calls(
            column_leaves(l, sb, c - 1),
            column_temp_at(l, sb, c - 1, 0),
            0,
            column_root_at(l, sb, c - 1),
        )
    }
}

/// The leaves of the outer tree: the column roots.
pub open spec fn outer_leaves(l: CommitmentProfile, sb: int) -> Seq<int> {
    Seq::new(l.n_cells as nat, |c: int| column_root_at(l, sb, c))
}

/// The whole relay for layout `l`, codeword at `cb`, public root at `rp`
/// and scratch area at `sb`: zero the zero digest; hash every cell and
/// chain every row hash; zero the padding rows' hashes; build the row tree,
/// every column tree and the outer tree; compress the row root and the
/// outer root into the public root.
pub open spec fn relay_schedule(l: CommitmentProfile, cb: int, rp: int, sb: int) -> Seq<RelayStep> {
    seq![RelayStep::ZeroDigest { at: zero_digest_at(l, sb) as usize }] + rows_calls(l, cb, sb, l.rows as nat) + zero_rows(l, sb)
        + merkle_calls(row_leaves(l, sb), row_root_temp_at(l, sb, 0), 0, row_root_temp_at(l, sb, l.rows_padded - 2))
        + columns_calls(l, sb, l.n_cells as nat) + merkle_calls(
        outer_leaves(l, sb),
        outer_temp_at(l, sb, 0),
        0,
        outer_temp_at(l, sb, l.n_cells - 2),
    ) + seq![
        compress_step(row_root_temp_at(l, sb, l.rows_padded - 2), outer_temp_at(l, sb, l.n_cells - 2), rp),
    ]
}

/// Appends the hash chains of every cell of row `row`, then its row-hash
/// chain.
fn push_row(steps: &mut Vec<RelayStep>, l: CommitmentProfile, cb: usize, sb: usize, row: usize)
    requires
        layout_bounds(l),
        sb < P,
        cb < P,
        row < l.rows,
    ensures
        final(steps)@ == old(steps)@ + cells_calls(l, cb as int, sb as int, row as int, l.n_cells as nat) + row_chain(
            l,
            sb as int,
            row as int,
        ),
{
    let ghost start = old(steps)@;
    proof {
        assert(row * l.row_stride <= 30 * (2048 * 640)) by (nonlinear_arith)
            requires
                row < l.rows <= 30,
                l.row_stride == l.n_cells * l.cell_base_len,
                l.n_cells <= 2048,
                l.cell_base_len == l.cell_chunks * 8,
                l.cell_chunks <= 80,
        ;
    }
    let row_base = cb + row * l.row_stride;
    let mut cell: usize = 0;
    while cell < l.n_cells
        invariant
            layout_bounds(l),
            sb < P,
            cb < P,
            row < l.rows,
            row_base == cb + row * l.row_stride,
            row * l.row_stride <= 30 * (2048 * 640),
            cell <= l.n_cells,
            steps@ == start + cells_calls(l, cb as int, sb as int, row as int, cell as nat),
        decreases l.n_cells - cell,
    {
        proof {
            assert(cell * l.cell_base_len <= 2048 * 640) by (nonlinear_arith)
                requires
                    cell < l.n_cells <= 2048,
                    l.cell_base_len == l.cell_chunks * 8,
                    l.cell_chunks <= 80,
            ;
        }
        let input = row_base + cell * l.cell_base_len;
        let dest = cell_digest_addr(l, sb, cell, row);
        push_cell_chain(steps, l, sb, row, cell, input, dest);
        cell = cell + 1;
    }
    push_row_chain(steps, l, sb, row);
}

/// The relay of the commitment precompile for `rows` rows of `row_len`
/// extension elements in cells of `cell_size`, the codeword at
/// `codeword_base`, the public root at `public_root_ptr` and the scratch
/// area at `scratch_base`; `None` for an unsupported profile.  The
/// addresses are field elements, so below `P`.
pub fn commitment_relay(
    rows: usize,
    row_len: usize,
    cell_size: usize,
    codeword_base: usize,
    public_root_ptr: usize,
    scratch_base: usize,
) -> (r: Option<Vec<RelayStep>>)
    requires
        codeword_base < P,
        public_root_ptr < P,
        scratch_base < P,
    ensures
        r is Some <==> layout_ok(rows as nat, row_len as nat, cell_size as nat),
        r is Some ==> layout_bounds(commitment_layout(rows as nat, row_len as nat, cell_size as nat)),
        r matches Some(s) ==> s@ == relay_schedule(
            commitment_layout(rows as nat, row_len as nat, cell_size as nat),
            codeword_base as int,
            public_root_ptr as int,
            scratch_base as int,
        ),
{
    let l = match CommitmentProfile::supported(rows, row_len, cell_size) {
        None => return None,
        Some(l) => l,
    };
    let cb = codeword_base;
    let sb = scratch_base;
    proof {
        lemma_offsets(l);
    }
    let mut steps: Vec<RelayStep> = Vec::new();
    steps.push(RelayStep::ZeroDigest { at: sb + l.zero_digest_offset });
    let ghost head = steps@;
    let mut row: usize = 0;
    while row < l.rows
        invariant
            layout_bounds(l),
            sb < P,
            cb < P,
            row <= l.rows,
            steps@ == head + rows_calls(l, cb as int, sb as int, row as nat),
        decreases l.rows - row,
    {
        push_row(&mut steps, l, cb, sb, row);
        proof {
            assert(head + rows_calls(l, cb as int, sb as int, (row + 1) as nat) =~= head + rows_calls(
                l,
                cb as int,
                sb as int,
                row as nat,
            ) + cells_calls(l, cb as int, sb as int, row as int, l.n_cells as nat) + row_chain(l, sb as int, row as int));
        }
        row = row + 1;
    }
    let ghost after_rows = steps@;
    let mut pad: usize = l.rows;
    while pad < l.rows_padded
        invariant
            layout_bounds(l),
            sb < P,
            l.rows <= pad <= l.rows_padded,
            steps@ == after_rows + zero_rows(l, sb as int).subrange(0, pad - l.rows),
        decreases l.rows_padded - pad,
    {
        let at = row_hash_addr(l, sb, pad);
        steps.push(RelayStep::ZeroDigest { at });
        proof {
            let z = zero_rows(l, sb as int);
            assert(z.subrange(0, pad + 1 - l.rows) =~= z.subrange(0, pad - l.rows).push(z[pad - l.rows]));
        }
        pad = pad + 1;
    }
    proof {
        assert(zero_rows(l, sb as int).subrange(0, l.rows_padded - l.rows) =~= zero_rows(l, sb as int));
    }
    let mut row_leaf_addrs: Vec<usize> = Vec::new();
    let mut i: usize = 0;
    while i < l.rows_padded
        invariant
            layout_bounds(l),
            sb < P,
            i <= l.rows_padded,
            ints(row_leaf_addrs@) =~= row_leaves(l, sb as int).subrange(0, i as int),
        decreases l.rows_padded - i,
    {
        let a = row_hash_addr(l, sb, i);
        let ghost old_v = row_leaf_addrs@;
        row_leaf_addrs.push(a);
        proof {
            assert(ints(row_leaf_addrs@) =~= ints(old_v).push(a as int));
        }
        i = i + 1;
    }
    proof {
        assert(row_leaves(l, sb as int).subrange(0, l.rows_padded as int) =~= row_leaves(l, sb as int));
    }
    let row_temps = row_root_temp_addr(l, sb, 0);
    let row_root = row_root_temp_addr(l, sb, l.rows_padded - 2);
    push_merkle(&mut steps, row_leaf_addrs, row_temps, row_root);
    let ghost after_row_tree = steps@;
    let zero_at = sb + l.zero_digest_offset;
    let mut cell: usize = 0;
    while cell < l.n_cells
        invariant
            layout_bounds(l),
            sb < P,
            zero_at == zero_digest_at(l, sb as int),
            cell <= l.n_cells,
            steps@ == after_row_tree + columns_calls(l, sb as int, cell as nat),
        decreases l.n_cells - cell,
    {
        let mut leaves: Vec<usize> = Vec::new();
        let mut r: usize = 0;
        while r < l.rows_padded
            invariant
                layout_bounds(l),
                sb < P,
                zero_at == zero_digest_at(l, sb as int),
                cell < l.n_cells,
                r <= l.rows_padded,
                ints(leaves@) =~= column_leaves(l, sb as int, cell as int).subrange(0, r as int),
            decreases l.rows_padded - r,
        {
            let a = if r < l.rows {
                cell_digest_addr(l, sb, cell, r)
            } else {
                zero_at
            };
            let ghost old_v = leaves@;
            leaves.push(a);
            proof {
                assert(ints(leaves@) =~= ints(old_v).push(a as int));
            }
            r = r + 1;
        }
        proof {
            assert(column_leaves(l, sb as int, cell as int).subrange(0, l.rows_padded as int) =~= column_leaves(
                l,
                sb as int,
                cell as int,
            ));
        }
        let temps = column_temp_addr(l, sb, cell, 0);
        let root = column_root_addr(l, sb, cell);
        push_merkle(&mut steps, leaves, temps, root);
        cell = cell + 1;
    }
    let mut outer: Vec<usize> = Vec::new();
    let mut c: usize = 0;
    while c < l.n_cells
        invariant
            layout_bounds(l),
            sb < P,
            c <= l.n_cells,
            ints(outer@) =~= outer_leaves(l, sb as int).subrange(0, c as int),
        decreases l.n_cells - c,
    {
        let a = column_root_addr(l, sb, c);
        let ghost old_v = outer@;
        outer.push(a);
        proof {
            assert(ints(outer@) =~= ints(old_v).push(a as int));
        }
        c = c + 1;
    }
    proof {
        assert(outer_leaves(l, sb as int).subrange(0, l.n_cells as int) =~= outer_leaves(l, sb as int));
    }
    let outer_temps = outer_temp_addr(l, sb, 0);
    let outer_root = outer_temp_addr(l, sb, l.n_cells - 2);
    push_merkle(&mut steps, outer, outer_temps, outer_root);
    steps.push(RelayStep::Compress { left: row_root, right: outer_root, out: public_root_ptr });
    proof {
        assert(steps@ =~= relay_schedule(l, cb as int, public_root_ptr as int, sb as int));
    }
    Some(steps)
}

/// Memory as digests by address: what one step leaves.
pub open spec fn run_step(mem: Map<int, Seq<u32>>, s: RelayStep) -> Map<int, Seq<u32>> {
    match s {
        RelayStep::Compress { left, right, out } => mem.insert(
            out as int,
            poseidon_compress(mem[left as int], mem[right as int]),
        ),
        RelayStep::ZeroDigest { at } => mem.insert(at as int, zero_view()),
    }
}

/// What the steps leave, run in order.
pub open spec fn run_steps(mem: Map<int, Seq<u32>>, steps: Seq<RelayStep>) -> Map<int, Seq<u32>>
    decreases steps.len(),
{
    if steps.len() == 0 {
        mem
    } else {
        run_step(run_steps(mem, steps.drop_last()), steps.last())
    }
}

/// Running two schedules one after the other is running their concatenation.
pub proof fn lemma_run_concat(mem: Map<int, Seq<u32>>, a: Seq<RelayStep>, b: Seq<RelayStep>)
    ensures
        run_steps(mem, a + b) == run_steps(run_steps(mem, a), b),
    decreases b.len(),
{
    if b.len() == 0 {
        assert(a + b =~= a);
    } else {
        lemma_run_concat(mem, a, b.drop_last());
        assert((a + b).drop_last() =~= a + b.drop_last());
        assert((a + b).last() == b.last());
    }
}

/// Addresses that fit a machine word.
pub open spec fn addressable(s: Seq<int>) -> bool {
    forall|i: int| 0 <= i < s.len() ==> 0 <= #[trigger] s[i] <= usize::MAX
}

/// The first `k` calls of a level leave the compressed pairs in the first
/// `k` outputs and every other address as it was.
proof fn lemma_level_prefix(
    mem: Map<int, Seq<u32>>,
    cur: Seq<int>,
    v: Seq<Seq<u32>>,
    temps: int,
    cursor: int,
    dest: int,
    k: int,
)
    requires
        cur.len() == v.len(),
        cur.len() % 2 == 0,
        addressable(cur),
        addressable(level_outputs(cur.len(), temps, cursor, dest)),
        forall|i: int, j: int|
            0 <= i < cur.len() / 2 && 0 <= j < cur.len() ==> level_outputs(cur.len(), temps, cursor, dest)[i] != cur[j],
        forall|i: int, j: int|
            0 <= i < j < cur.len() / 2 ==> level_outputs(cur.len(), temps, cursor, dest)[i] != level_outputs(
                cur.len(),
                temps,
                cursor,
                dest,
            )[j],
        forall|i: int| 0 <= i < cur.len() ==> mem[#[trigger] cur[i]] == v[i],
        0 <= k <= cur.len() / 2,
    ensures
        ({
            let outs = level_outputs(cur.len(), temps, cursor, dest);
            let after = run_steps(mem, level_calls(cur, temps, cursor, dest).subrange(0, k));
            &&& forall|i: int| 0 <= i < k ==> after[#[trigger] outs[i]] == poseidon_compress(v[2 * i], v[2 * i + 1])
            &&& forall|a: int| (forall|i: int| 0 <= i < k ==> outs[i] != a) ==> after[a] == mem[a]
        }),
    decreases k,
{
    let outs = level_outputs(cur.len(), temps, cursor, dest);
    let calls = level_calls(cur, temps, cursor, dest);
    if k == 0 {
        assert(calls.subrange(0, 0) =~= Seq::<RelayStep>::empty());
    } else {
        lemma_level_prefix(mem, cur, v, temps, cursor, dest, k - 1);
        let before = run_steps(mem, calls.subrange(0, k - 1));
        assert(calls.subrange(0, k).drop_last() =~= calls.subrange(0, k - 1));
        let i0 = k - 1;
        assert(calls[i0] == compress_step(cur[2 * i0], cur[2 * i0 + 1], outs[i0]));
        assert(before[cur[2 * i0]] == mem[cur[2 * i0]]);
        assert(before[cur[2 * i0 + 1]] == mem[cur[2 * i0 + 1]]);
    }
}

/// A layer above is the same whether counted from the leaves or from the
/// layer of their parents.
proof fn lemma_layer_step(l: Seq<Seq<u32>>, d: nat)
    ensures
        layer_at(l, d + 1) == layer_at(pair_layer(l), d),
    decreases d,
{
    assert(layer_at(l, d + 1) == pair_layer(layer_at(l, d)));
    if d > 0 {
        lemma_layer_step(l, (d - 1) as nat);
        assert(layer_at(pair_layer(l), d) == pair_layer(layer_at(pair_layer(l), (d - 1) as nat)));
    } else {
        assert(layer_at(l, 0) == l);
        assert(layer_at(pair_layer(l), 0) == pair_layer(l));
    }
}

/// The relay's tree schedule over the digests at `cur` leaves their Merkle
/// root at `dest`, when the `cur.len() - 2` temporaries it writes (from
/// `cursor` on) and `dest` are apart from the leaves and from one another.
pub proof fn lemma_merkle_calls_root(
    mem: Map<int, Seq<u32>>,
    cur: Seq<int>,
    v: Seq<Seq<u32>>,
    temps: int,
    cursor: int,
    dest: int,
)
    requires
        cur.len() == v.len(),
        is_pow2(cur.len()),
        cur.len() >= 2,
        addressable(cur),
        0 <= dest <= usize::MAX,
        0 <= cursor,
        0 <= temps,
        temps + (cursor + cur.len()) * DIGEST_LEN <= usize::MAX,
        forall|i: int| 0 <= i < cur.len() ==> mem[#[trigger] cur[i]] == v[i],
        forall|i: int| 0 <= i < cur.len() ==> #[trigger] cur[i] != dest,
        forall|i: int|
            0 <= i < cur.len() ==> #[trigger] cur[i] < temps + cursor * DIGEST_LEN || cur[i] >= temps + (cursor
                + cur.len() - 2) * DIGEST_LEN,
        dest < temps + cursor * DIGEST_LEN || dest >= temps + (cursor + cur.len() - 2) * DIGEST_LEN,
    ensures
        run_steps(mem, merkle_calls(cur, temps, cursor, dest))[dest] == merkle_root(v),
        forall|a: int|
            a != dest && (a < temps + cursor * DIGEST_LEN || a >= temps + (cursor + cur.len() - 2) * DIGEST_LEN)
                ==> #[trigger] run_steps(mem, merkle_calls(cur, temps, cursor, dest))[a] == mem[a],
    decreases cur.len(),
{
    let n = cur.len();
    let h: int = (n / 2) as int;
    let outs = level_outputs(n, temps, cursor, dest);
    let calls = level_calls(cur, temps, cursor, dest);
    assert(n % 2 == 0 && is_pow2(h as nat));
    assert forall|i: int, j: int| 0 <= i < j < h implies outs[i] != outs[j] by {
        if h != 1 {
            assert(temps + (cursor + i) * DIGEST_LEN < temps + (cursor + j) * DIGEST_LEN);
        }
    }
    assert forall|i: int, j: int| 0 <= i < h && 0 <= j < n implies outs[i] != cur[j] by {
        if h != 1 {
            assert(cur[j] < temps + cursor * DIGEST_LEN || cur[j] >= temps + (cursor + n - 2) * DIGEST_LEN);
        }
    }
    assert(addressable(outs));
    lemma_level_prefix(mem, cur, v, temps, cursor, dest, h);
    assert(calls.subrange(0, h) =~= calls);
    let mid = run_steps(mem, calls);
    let w = pair_layer(v);
    assert(w.len() == h);
    lemma_run_concat(mem, calls, merkle_calls(outs, temps, cursor + if h == 1 { 0 } else { h }, dest));
    lemma_layer_step(v, log2(h as nat));
    assert(log2(n as nat) == 1 + log2(h as nat));
    if h == 1 {
        assert(outs[0] == dest);
        assert(merkle_calls(outs, temps, cursor, dest) =~= Seq::<RelayStep>::empty());
        assert(mid[dest] == w[0]);
        assert(layer_at(w, 0) == w);
        assert(run_steps(mid, Seq::<RelayStep>::empty()) == mid);
        assert(calls + Seq::<RelayStep>::empty() =~= calls);
        assert forall|a: int| a != dest implies mid[a] == mem[a] by {
            assert(outs[0] != a);
        }
    } else {
        let c2 = cursor + h;
        assert forall|i: int| 0 <= i < h implies mid[#[trigger] outs[i]] == w[i] by {}
        assert forall|i: int| 0 <= i < h implies #[trigger] outs[i] != dest by {
            assert(outs[i] == temps + (cursor + i) * DIGEST_LEN);
        }
        assert forall|i: int| 0 <= i < h implies #[trigger] outs[i] < temps + c2 * DIGEST_LEN || outs[i] >= temps + (c2
            + h - 2) * DIGEST_LEN by {
            assert(outs[i] == temps + (cursor + i) * DIGEST_LEN);
        }
        lemma_merkle_calls_root(mid, outs, w, temps, c2, dest);
        assert forall|a: int|
            a != dest && (a < temps + cursor * DIGEST_LEN || a >= temps + (cursor + n - 2) * DIGEST_LEN) implies mid[a]
            == mem[a] by {
            assert forall|i: int| 0 <= i < h implies outs[i] != a by {
                assert(outs[i] == temps + (cursor + i) * DIGEST_LEN);
            }
        }
    }
}

/// A compression chain over the digests at `ins` into `dest`, through the
/// temporaries `tmp`: the first two inputs, then each further input into the
/// running temporary, the last call writing `dest`.
pub open spec fn chain_calls(ins: Seq<int>, tmp: Seq<int>, dest: int) -> Seq<RelayStep> {
    let n = ins.len() as int;
    if n == 2 {
        seq![compress_step(ins[0], ins[1], dest)]
    } else {
        seq![compress_step(ins[0], ins[1], tmp[0])] + Seq::new(
            (n - 3) as nat,
            |j: int| compress_step(tmp[j], ins[j + 2], tmp[j + 1]),
        ) + seq![compress_step(tmp[n - 3], ins[n - 1], dest)]
    }
}

/// The hash chain of a cell is a compression chain over its chunks.
pub proof fn lemma_cell_chain_shape(l: CommitmentProfile, sb: int, row: int, cell: int, input: int, dest: int)
    requires
        l.cell_chunks >= 2,
    ensures
        cell_chain(l, sb, row, cell, input, dest) == chain_calls(
            Seq::new(l.cell_chunks as nat, |j: int| input + j * DIGEST_LEN),
            Seq::new((l.cell_chunks - 2) as nat, |j: int| cell_temp_at(l, sb, row, cell, j)),
            dest,
        ),
{
    let ins = Seq::new(l.cell_chunks as nat, |j: int| input + j * DIGEST_LEN);
    let tmp = Seq::new((l.cell_chunks - 2) as nat, |j: int| cell_temp_at(l, sb, row, cell, j));
    if l.cell_chunks != 2 {
        assert(cell_chain_mid(l, sb, row, cell, input) =~= Seq::new(
            (l.cell_chunks - 3) as nat,
            |j: int| compress_step(tmp[j], ins[j + 2], tmp[j + 1]),
        ));
    }
    assert(cell_chain(l, sb, row, cell, input, dest) =~= chain_calls(ins, tmp, dest));
}

/// The row-hash chain is a compression chain over the row's systematic
/// cell digests.
pub proof fn lemma_row_chain_shape(l: CommitmentProfile, sb: int, row: int)
    requires
        l.systematic_cells >= 2,
    ensures
        row_chain(l, sb, row) == chain_calls(
            Seq::new(l.systematic_cells as nat, |j: int| cell_digest_at(l, sb, j, row)),
            Seq::new((l.systematic_cells - 2) as nat, |j: int| row_temp_at(l, sb, row, j)),
            row_hash_at(l, sb, row),
        ),
{
    let ins = Seq::new(l.systematic_cells as nat, |j: int| cell_digest_at(l, sb, j, row));
    let tmp = Seq::new((l.systematic_cells - 2) as nat, |j: int| row_temp_at(l, sb, row, j));
    if l.systematic_cells != 2 {
        assert(row_chain_mid(l, sb, row) =~= Seq::new(
            (l.systematic_cells - 3) as nat,
            |j: int| compress_step(tmp[j], ins[j + 2], tmp[j + 1]),
        ));
    }
    assert(row_chain(l, sb, row) =~= chain_calls(ins, tmp, row_hash_at(l, sb, row)));
}

/// After the first call and `k` further links, the running temporary holds
/// the chain state of the first `k + 2` inputs; no input is overwritten.
proof fn lemma_chain_prefix(mem: Map<int, Seq<u32>>, ins: Seq<int>, tmp: Seq<int>, v: Seq<Seq<u32>>, k: int)
    requires
        ins.len() == v.len(),
        ins.len() >= 3,
        tmp.len() == ins.len() - 2,
        addressable(ins),
        addressable(tmp),
        forall|i: int| 0 <= i < ins.len() ==> mem[#[trigger] ins[i]] == v[i],
        forall|i: int, j: int| 0 <= i < tmp.len() && 0 <= j < ins.len() ==> tmp[i] != ins[j],
        0 <= k <= ins.len() - 3,
    ensures
        ({
            let after = run_steps(mem, chain_calls(ins, tmp, 0).subrange(0, k + 1));
            &&& after[tmp[k]] == chain_state(v, (k + 2) as nat)
            &&& forall|i: int| 0 <= i < ins.len() ==> after[#[trigger] ins[i]] == v[i]
            &&& forall|a: int| (forall|i: int| 0 <= i <= k ==> tmp[i] != a) ==> #[trigger] after[a] == mem[a]
        }),
    decreases k,
{
    let calls = chain_calls(ins, tmp, 0);
    assert(0 <= tmp[k] <= usize::MAX);
    if k == 0 {
        assert(0 <= ins[0] <= usize::MAX && 0 <= ins[1] <= usize::MAX);
        assert(calls.subrange(0, 1) =~= seq![compress_step(ins[0], ins[1], tmp[0])]);
        assert(calls.subrange(0, 1).drop_last() =~= Seq::<RelayStep>::empty());
        assert(calls.subrange(0, 1).last() == compress_step(ins[0], ins[1], tmp[0]));
        assert(run_steps(mem, Seq::<RelayStep>::empty()) == mem);
        assert(run_steps(mem, calls.subrange(0, 1).drop_last()) == mem);
        let after = run_steps(mem, calls.subrange(0, 1));
        assert(after == run_step(mem, compress_step(ins[0], ins[1], tmp[0])));
        assert(after == mem.insert(tmp[0], poseidon_compress(mem[ins[0]], mem[ins[1]])));
        assert forall|i: int| 0 <= i < ins.len() implies after[#[trigger] ins[i]] == v[i] by {
            assert(tmp[0] != ins[i]);
        }
        assert forall|a: int| (forall|i: int| 0 <= i <= 0 ==> tmp[i] != a) implies #[trigger] after[a] == mem[a] by {
            assert(tmp[0] != a);
        }
    } else {
        lemma_chain_prefix(mem, ins, tmp, v, k - 1);
        assert(0 <= tmp[k - 1] <= usize::MAX && 0 <= ins[k + 1] <= usize::MAX);
        assert(calls.subrange(0, k + 1).drop_last() =~= calls.subrange(0, k));
        assert(calls[k] == compress_step(tmp[k - 1], ins[k + 1], tmp[k]));
        assert(calls.subrange(0, k + 1).last() == calls[k]);
        let before = run_steps(mem, calls.subrange(0, k));
        let after = run_steps(mem, calls.subrange(0, k + 1));
        assert(after == run_step(before, calls[k]));
        assert(after == before.insert(tmp[k], poseidon_compress(before[tmp[k - 1]], before[ins[k + 1]])));
        assert forall|i: int| 0 <= i < ins.len() implies after[#[trigger] ins[i]] == v[i] by {
            assert(tmp[k] != ins[i]);
        }
        assert forall|a: int| (forall|i: int| 0 <= i <= k ==> tmp[i] != a) implies #[trigger] after[a] == mem[a] by {
            assert(tmp[k] != a);
            assert(forall|i: int| 0 <= i <= k - 1 ==> tmp[i] != a);
            assert(before[a] == mem[a]);
        }
        assert(chain_state(v, (k + 2) as nat) == poseidon_compress(chain_state(v, (k + 1) as nat), v[k + 1]));
    }
}

/// A compression chain leaves the chain hash of the digests at its inputs
/// in `dest`, when the temporaries and `dest` are apart from the inputs.
pub proof fn lemma_chain_calls_hash(mem: Map<int, Seq<u32>>, ins: Seq<int>, tmp: Seq<int>, dest: int, v: Seq<Seq<u32>>)
    requires
        ins.len() == v.len(),
        ins.len() >= 2,
        tmp.len() == ins.len() - 2,
        addressable(ins),
        addressable(tmp),
        0 <= dest <= usize::MAX,
        forall|i: int| 0 <= i < ins.len() ==> mem[#[trigger] ins[i]] == v[i],
        forall|i: int, j: int| 0 <= i < tmp.len() && 0 <= j < ins.len() ==> tmp[i] != ins[j],
    ensures
        run_steps(mem, chain_calls(ins, tmp, dest))[dest] == chain_hash(v),
        forall|a: int|
            a != dest && (forall|i: int| 0 <= i < tmp.len() ==> tmp[i] != a) ==> #[trigger] run_steps(
                mem,
                chain_calls(ins, tmp, dest),
            )[a] == mem[a],
{
    let n = ins.len() as int;
    let calls = chain_calls(ins, tmp, dest);
    if n == 2 {
        assert(0 <= ins[0] <= usize::MAX && 0 <= ins[1] <= usize::MAX);
        assert(calls.drop_last() =~= Seq::<RelayStep>::empty());
        assert(calls.last() == compress_step(ins[0], ins[1], dest));
        assert(run_steps(mem, Seq::<RelayStep>::empty()) == mem);
        assert(run_steps(mem, calls.drop_last()) == mem);
        assert(run_steps(mem, calls) == run_step(mem, compress_step(ins[0], ins[1], dest)));
    } else {
        lemma_chain_prefix(mem, ins, tmp, v, n - 3);
        assert(0 <= tmp[n - 3] <= usize::MAX && 0 <= ins[n - 1] <= usize::MAX);
        let pre0 = chain_calls(ins, tmp, 0).subrange(0, n - 2);
        assert(calls.drop_last() =~= pre0);
        assert(calls.last() == compress_step(tmp[n - 3], ins[n - 1], dest));
        let before = run_steps(mem, pre0);
        assert(run_steps(mem, calls) == run_step(before, compress_step(tmp[n - 3], ins[n - 1], dest)));
        assert(before[tmp[n - 3]] == chain_state(v, (n - 1) as nat));
        assert forall|a: int| a != dest && (forall|i: int| 0 <= i < tmp.len() ==> tmp[i] != a) implies before[a] == mem[a] by {
            assert(forall|i: int| 0 <= i <= n - 3 ==> tmp[i] != a);
        }
        assert(before[ins[n - 1]] == v[n - 1]);
        assert(chain_state(v, n as nat) == poseidon_compress(chain_state(v, (n - 1) as nat), v[n - 1]));
    }
}

/// Cell digests lie in the cell-digest region, one slot per (cell, row).
proof fn lemma_cell_digest_slot(l: CommitmentProfile, c1: int, r1: int, c2: int, r2: int)
    requires
        layout_bounds(l),
        0 <= c1 < l.n_cells,
        0 <= r1 < l.rows_padded,
        0 <= c2 < l.n_cells,
        0 <= r2 < l.rows_padded,
    ensures
        0 <= c1 * l.rows_padded * DIGEST_LEN + r1 * DIGEST_LEN,
        c1 * l.rows_padded * DIGEST_LEN + r1 * DIGEST_LEN + DIGEST_LEN <= l.row_hashes_offset,
        (c1 != c2 || r1 != r2) ==> c1 * l.rows_padded * DIGEST_LEN + r1 * DIGEST_LEN != c2 * l.rows_padded * DIGEST_LEN
            + r2 * DIGEST_LEN,
{
    let rp = l.rows_padded as int;
    assert(c1 * rp * 8 + r1 * 8 + 8 <= l.n_cells * rp * 8) by (nonlinear_arith)
        requires
            0 <= c1 < l.n_cells,
            0 <= r1 < rp,
    ;
    assert(0 <= c1 * rp * 8) by (nonlinear_arith)
        requires
            0 <= c1,
            0 <= rp,
    ;
    if c1 != c2 || r1 != r2 {
        if c1 == c2 {
        } else if c1 < c2 {
            assert(c1 * rp * 8 + r1 * 8 < c2 * rp * 8 + r2 * 8) by (nonlinear_arith)
                requires
                    c1 < c2,
                    0 <= r1 < rp,
                    0 <= r2,
            ;
        } else {
            assert(c2 * rp * 8 + r2 * 8 < c1 * rp * 8 + r1 * 8) by (nonlinear_arith)
                requires
                    c2 < c1,
                    0 <= r2 < rp,
                    0 <= r1,
            ;
        }
    }
}

/// The temporaries of a cell's hash chain lie in the cell-temporaries
/// region.
proof fn lemma_cell_temp_slot(l: CommitmentProfile, r: int, c: int, t: int)
    requires
        layout_bounds(l),
        0 <= r < l.rows,
        0 <= c < l.n_cells,
        0 <= t < l.cell_chunks - 2,
    ensures
        l.cell_temps_offset <= l.cell_temps_offset + (r * l.n_cells + c) * l.cell_temps_per_cell + t * DIGEST_LEN,
        l.cell_temps_offset + (r * l.n_cells + c) * l.cell_temps_per_cell + t * DIGEST_LEN + DIGEST_LEN <= l.row_temps_offset,
{
    let q = r * l.n_cells + c;
    assert(0 <= q < l.rows * l.n_cells) by (nonlinear_arith)
        requires
            0 <= r < l.rows,
            0 <= c < l.n_cells,
            q == r * l.n_cells + c,
    ;
    assert(0 <= q * l.cell_temps_per_cell) by (nonlinear_arith)
        requires
            0 <= q,
            0 <= l.cell_temps_per_cell,
    ;
    assert(q * l.cell_temps_per_cell + l.cell_temps_per_cell <= l.rows * l.n_cells * l.cell_temps_per_cell)
        by (nonlinear_arith)
        requires
            0 <= q < l.rows * l.n_cells,
            0 <= l.cell_temps_per_cell,
    ;
}

/// The temporaries of a row-hash chain lie in the row-temporaries region.
proof fn lemma_row_temp_slot(l: CommitmentProfile, r: int, t: int)
    requires
        layout_bounds(l),
        0 <= r < l.rows,
        0 <= t < l.systematic_cells - 2,
    ensures
        l.row_temps_offset <= l.row_temps_offset + r * l.row_temps_per_row + t * DIGEST_LEN,
        l.row_temps_offset + r * l.row_temps_per_row + t * DIGEST_LEN + DIGEST_LEN <= l.column_temps_offset,
{
    assert(0 <= r * l.row_temps_per_row) by (nonlinear_arith)
        requires
            0 <= r,
            0 <= l.row_temps_per_row,
    ;
    assert(r * l.row_temps_per_row + l.row_temps_per_row <= l.rows * l.row_temps_per_row) by (nonlinear_arith)
        requires
            0 <= r < l.rows,
            0 <= l.row_temps_per_row,
    ;
}

/// The temporaries of a column tree lie in the column-temporaries region.
proof fn lemma_column_temp_slot(l: CommitmentProfile, c: int)
    requires
        layout_bounds(l),
        0 <= c < l.n_cells,
    ensures
        l.column_temps_offset <= l.column_temps_offset + c * l.column_temps_per_column,
        l.column_temps_offset + c * l.column_temps_per_column + (l.rows_padded - 1) * DIGEST_LEN <= l.row_root_temps_offset,
{
    assert(0 <= c * l.column_temps_per_column) by (nonlinear_arith)
        requires
            0 <= c,
            0 <= l.column_temps_per_column,
    ;
    assert(c * l.column_temps_per_column + l.column_temps_per_column <= l.n_cells * l.column_temps_per_column)
        by (nonlinear_arith)
        requires
            0 <= c < l.n_cells,
            0 <= l.column_temps_per_column,
    ;
}

/// The digest chunks of cell `cell` of row `row`.
pub open spec fn cell_chunk_values(l: CommitmentProfile, chunks: Seq<Seq<u32>>, row: int, cell: int) -> Seq<Seq<u32>> {
    Seq::new(l.cell_chunks as nat, |j: int| chunks[(row * l.n_cells + cell) * l.cell_chunks + j])
}

/// The digest of cell `cell` of row `row`: the chain hash of its chunks.
pub open spec fn cell_value(l: CommitmentProfile, chunks: Seq<Seq<u32>>, row: int, cell: int) -> Seq<u32> {
    chain_hash(cell_chunk_values(l, chunks, row, cell))
}

/// The hash of row `row`: the chain hash of its systematic cells' digests.
pub open spec fn row_value(l: CommitmentProfile, chunks: Seq<Seq<u32>>, row: int) -> Seq<u32> {
    chain_hash(Seq::new(l.systematic_cells as nat, |c: int| cell_value(l, chunks, row, c)))
}

/// The codeword's digest chunks lie in memory from `cb` on.
pub open spec fn codeword_loaded(mem: Map<int, Seq<u32>>, cb: int, chunks: Seq<Seq<u32>>) -> bool {
    forall|w: int| 0 <= w < chunks.len() ==> mem[cb + w * DIGEST_LEN] == #[trigger] chunks[w]
}

/// Where the relay may run: the codeword and the scratch area apart, and
/// every address a machine word.
pub open spec fn relay_placement(l: CommitmentProfile, cb: int, sb: int) -> bool {
    &&& layout_bounds(l)
    &&& 0 <= cb < P
    &&& 0 <= sb < P
    &&& cb + l.rows * l.row_stride <= sb || sb + l.scratch_len <= cb
}

/// Chunk `j` of cell `cell` of row `row` is chunk number
/// `(row * n_cells + cell) * cell_chunks + j` of the codeword.
proof fn lemma_chunk_address(l: CommitmentProfile, row: int, cell: int, j: int)
    requires
        layout_bounds(l),
        0 <= row < l.rows,
        0 <= cell < l.n_cells,
        0 <= j < l.cell_chunks,
    ensures
        row * l.row_stride + cell * l.cell_base_len + j * DIGEST_LEN == ((row * l.n_cells + cell) * l.cell_chunks + j)
            * DIGEST_LEN,
        0 <= (row * l.n_cells + cell) * l.cell_chunks + j < l.rows * l.n_cells * l.cell_chunks,
        l.rows * l.row_stride == l.rows * l.n_cells * l.cell_chunks * DIGEST_LEN,
        l.rows * l.row_stride <= 30 * (2048 * 640),
{
    let n = l.n_cells as int;
    let ch = l.cell_chunks as int;
    assert(row * l.row_stride + cell * l.cell_base_len + j * 8 == ((row * n + cell) * ch + j) * 8) by (nonlinear_arith)
        requires
            l.row_stride == n * l.cell_base_len,
            l.cell_base_len == ch * 8,
    ;
    assert(0 <= (row * n + cell) * ch + j < l.rows * n * ch) by (nonlinear_arith)
        requires
            0 <= row < l.rows,
            0 <= cell < n,
            0 <= j < ch,
    ;
    assert(l.rows * l.row_stride == l.rows * n * ch * 8) by (nonlinear_arith)
        requires
            l.row_stride == n * l.cell_base_len,
            l.cell_base_len == ch * 8,
    ;
    assert(l.rows * l.row_stride <= 30 * (2048 * 640)) by (nonlinear_arith)
        requires
            l.row_stride == n * l.cell_base_len,
            l.cell_base_len == ch * 8,
            l.rows <= 30,
            n <= 2048,
            ch <= 80,
    ;
}

/// After the cell chains of the first `c` cells of row `row`, their digests
/// are in place, and nothing but those digests and cell temporaries has
/// changed.
proof fn lemma_cells_progress(
    mem: Map<int, Seq<u32>>,
    l: CommitmentProfile,
    cb: int,
    sb: int,
    chunks: Seq<Seq<u32>>,
    row: int,
    c: nat,
)
    requires
        relay_placement(l, cb, sb),
        chunks.len() == l.rows * l.n_cells * l.cell_chunks,
        codeword_loaded(mem, cb, chunks),
        0 <= row < l.rows,
        c <= l.n_cells,
    ensures
        forall|c2: int| 0 <= c2 < c ==> #[trigger] run_steps(mem, cells_calls(l, cb, sb, row, c))[cell_digest_at(l, sb, c2, row)]
            == cell_value(l, chunks, row, c2),
        forall|a: int|
            (a < sb + l.cell_temps_offset || a >= sb + l.row_temps_offset) && (forall|c2: int| 0 <= c2 < c ==> a != #[trigger] cell_digest_at(l, sb, c2, row))
                ==> #[trigger] run_steps(mem, cells_calls(l, cb, sb, row, c))[a] == mem[a],
    decreases c,
{
    if c == 0 {
        assert(cells_calls(l, cb, sb, row, 0) =~= Seq::<RelayStep>::empty());
    } else {
        let cell = c - 1;
        lemma_cells_progress(mem, l, cb, sb, chunks, row, (c - 1) as nat);
        let prev = cells_calls(l, cb, sb, row, (c - 1) as nat);
        let m0 = run_steps(mem, prev);
        let input = cb + row * l.row_stride + cell * l.cell_base_len;
        let dest = cell_digest_at(l, sb, cell, row);
        let ins = Seq::new(l.cell_chunks as nat, |j: int| input + j * DIGEST_LEN);
        let tmp = Seq::new((l.cell_chunks - 2) as nat, |j: int| cell_temp_at(l, sb, row, cell, j));
        let v = cell_chunk_values(l, chunks, row, cell);
        lemma_cell_chain_shape(l, sb, row, cell, input, dest);
        lemma_run_concat(mem, prev, cell_chain(l, sb, row, cell, input, dest));
        lemma_offsets(l);
        lemma_cell_digest_slot(l, cell, row, cell, row);
        assert forall|j: int| 0 <= j < ins.len() implies m0[#[trigger] ins[j]] == v[j] && 0 <= ins[j] <= usize::MAX
            && (ins[j] < sb || ins[j] >= sb + l.scratch_len) by {
            lemma_chunk_address(l, row, cell, j);
            let w = (row * l.n_cells + cell) * l.cell_chunks + j;
            assert(ins[j] == cb + w * DIGEST_LEN);
            assert(mem[cb + w * DIGEST_LEN] == chunks[w]);
            assert(w * DIGEST_LEN < l.rows * l.row_stride);
            assert(v[j] == chunks[w]);
            assert(ins[j] < sb || ins[j] >= sb + l.scratch_len);
            assert forall|c2: int| 0 <= c2 < c - 1 implies ins[j] != #[trigger] cell_digest_at(l, sb, c2, row) by {
                lemma_cell_digest_slot(l, c2, row, c2, row);
            }
            assert(m0[ins[j]] == mem[ins[j]]);
        }
        assert forall|i: int| 0 <= i < tmp.len() implies 0 <= #[trigger] tmp[i] <= usize::MAX && sb + l.cell_temps_offset <= tmp[i]
            < sb + l.row_temps_offset by {
            lemma_cell_temp_slot(l, row, cell, i);
        }
        assert(addressable(ins));
        assert(addressable(tmp));
        assert forall|i: int, j: int| 0 <= i < tmp.len() && 0 <= j < ins.len() implies tmp[i] != ins[j] by {
            assert(sb + l.cell_temps_offset <= tmp[i] < sb + l.row_temps_offset);
            assert(ins[j] < sb || ins[j] >= sb + l.scratch_len);
        }
        lemma_chain_calls_hash(m0, ins, tmp, dest, v);
        let after = run_steps(mem, cells_calls(l, cb, sb, row, c));
        assert(cells_calls(l, cb, sb, row, c) == prev + cell_chain(l, sb, row, cell, input, dest));
        assert forall|c2: int| 0 <= c2 < c implies #[trigger] after[cell_digest_at(l, sb, c2, row)] == cell_value(l, chunks, row, c2) by {
            if c2 < cell {
                let a = cell_digest_at(l, sb, c2, row);
                lemma_cell_digest_slot(l, c2, row, cell, row);
                assert forall|i: int| 0 <= i < tmp.len() implies tmp[i] != a by {
                    assert(sb + l.cell_temps_offset <= tmp[i]);
                }
            }
        }
        assert forall|a: int|
            (a < sb + l.cell_temps_offset || a >= sb + l.row_temps_offset) && (forall|c2: int| 0 <= c2 < c ==> a != #[trigger] cell_digest_at(l, sb, c2, row))
            implies #[trigger] after[a] == mem[a] by {
            assert(a != cell_digest_at(l, sb, cell, row));
            assert forall|i: int| 0 <= i < tmp.len() implies tmp[i] != a by {
                assert(sb + l.cell_temps_offset <= tmp[i] < sb + l.row_temps_offset);
            }
            assert(forall|c2: int| 0 <= c2 < c - 1 ==> a != #[trigger] cell_digest_at(l, sb, c2, row));
        }
    }
}

/// After the first `r` rows, their cell digests and row hashes are in
/// place, and nothing outside the cell-digest, row-hash and temporaries
/// regions before the column temporaries has changed.
proof fn lemma_rows_progress(
    mem: Map<int, Seq<u32>>,
    l: CommitmentProfile,
    cb: int,
    sb: int,
    chunks: Seq<Seq<u32>>,
    r: nat,
)
    requires
        relay_placement(l, cb, sb),
        chunks.len() == l.rows * l.n_cells * l.cell_chunks,
        codeword_loaded(mem, cb, chunks),
        r <= l.rows,
    ensures
        forall|r2: int, c2: int|
            0 <= r2 < r && 0 <= c2 < l.n_cells ==> #[trigger] run_steps(mem, rows_calls(l, cb, sb, r))[cell_digest_at(l, sb, c2, r2)]
                == cell_value(l, chunks, r2, c2),
        forall|r2: int| 0 <= r2 < r ==> #[trigger] run_steps(mem, rows_calls(l, cb, sb, r))[row_hash_at(l, sb, r2)] == row_value(l, chunks, r2),
        forall|a: int| (a < sb || a >= sb + l.column_temps_offset) ==> #[trigger] run_steps(mem, rows_calls(l, cb, sb, r))[a] == mem[a],
    decreases r,
{
    lemma_offsets(l);
    if r == 0 {
        assert(rows_calls(l, cb, sb, 0) =~= Seq::<RelayStep>::empty());
    } else {
        let row = r - 1;
        lemma_rows_progress(mem, l, cb, sb, chunks, (r - 1) as nat);
        let a_steps = rows_calls(l, cb, sb, (r - 1) as nat);
        let b_steps = cells_calls(l, cb, sb, row, l.n_cells as nat);
        let c_steps = row_chain(l, sb, row);
        assert(rows_calls(l, cb, sb, r) == a_steps + b_steps + c_steps);
        lemma_run_concat(mem, a_steps + b_steps, c_steps);
        lemma_run_concat(mem, a_steps, b_steps);
        let m0 = run_steps(mem, a_steps);
        assert forall|w: int| 0 <= w < chunks.len() implies m0[cb + w * DIGEST_LEN] == #[trigger] chunks[w] by {
            assert(w * DIGEST_LEN < l.rows * l.row_stride) by {
                lemma_chunk_address(l, 0, 0, 0);
            }
        }
        lemma_cells_progress(m0, l, cb, sb, chunks, row, l.n_cells as nat);
        let m1 = run_steps(m0, b_steps);
        let ins = Seq::new(l.systematic_cells as nat, |j: int| cell_digest_at(l, sb, j, row));
        let tmp = Seq::new((l.systematic_cells - 2) as nat, |j: int| row_temp_at(l, sb, row, j));
        let v = Seq::new(l.systematic_cells as nat, |c: int| cell_value(l, chunks, row, c));
        let dest = row_hash_at(l, sb, row);
        lemma_row_chain_shape(l, sb, row);
        assert forall|j: int| 0 <= j < ins.len() implies m1[#[trigger] ins[j]] == v[j] && 0 <= ins[j] <= usize::MAX
            && sb <= ins[j] < sb + l.row_hashes_offset by {
            lemma_cell_digest_slot(l, j, row, j, row);
        }
        assert forall|i: int| 0 <= i < tmp.len() implies 0 <= #[trigger] tmp[i] <= usize::MAX && sb + l.row_temps_offset <= tmp[i]
            < sb + l.column_temps_offset by {
            lemma_row_temp_slot(l, row, i);
        }
        assert(addressable(ins));
        assert(addressable(tmp));
        assert forall|i: int, j: int| 0 <= i < tmp.len() && 0 <= j < ins.len() implies tmp[i] != ins[j] by {
            assert(sb + l.row_temps_offset <= tmp[i]);
            assert(ins[j] < sb + l.row_hashes_offset);
        }
        lemma_chain_calls_hash(m1, ins, tmp, dest, v);
        assert(v == Seq::new(l.systematic_cells as nat, |c: int| cell_value(l, chunks, row, c)));
        let m2 = run_steps(mem, rows_calls(l, cb, sb, r));
        assert(m2 == run_steps(m1, c_steps));
        assert forall|r2: int, c2: int| 0 <= r2 < r && 0 <= c2 < l.n_cells implies #[trigger] m2[cell_digest_at(l, sb, c2, r2)]
            == cell_value(l, chunks, r2, c2) by {
            let a = cell_digest_at(l, sb, c2, r2);
            lemma_cell_digest_slot(l, c2, r2, c2, r2);
            assert(a != dest);
            assert forall|i: int| 0 <= i < tmp.len() implies tmp[i] != a by {
                assert(sb + l.row_temps_offset <= tmp[i]);
            }
            assert(m2[a] == m1[a]);
            if r2 < row {
                assert forall|c3: int| 0 <= c3 < l.n_cells implies a != #[trigger] cell_digest_at(l, sb, c3, row) by {
                    lemma_cell_digest_slot(l, c2, r2, c3, row);
                }
                assert(m1[a] == m0[a]);
            }
        }
        assert forall|r2: int| 0 <= r2 < r implies #[trigger] m2[row_hash_at(l, sb, r2)] == row_value(l, chunks, r2) by {
            let a = row_hash_at(l, sb, r2);
            if r2 < row {
                assert(a != dest);
                assert forall|i: int| 0 <= i < tmp.len() implies tmp[i] != a by {
                    assert(sb + l.row_temps_offset <= tmp[i]);
                }
                assert(m2[a] == m1[a]);
                assert forall|c3: int| 0 <= c3 < l.n_cells implies a != #[trigger] cell_digest_at(l, sb, c3, row) by {
                    lemma_cell_digest_slot(l, c3, row, c3, row);
                }
                assert(m1[a] == m0[a]);
            }
        }
        assert forall|a: int| (a < sb || a >= sb + l.column_temps_offset) implies #[trigger] m2[a] == mem[a] by {
            assert(a != dest);
            assert forall|i: int| 0 <= i < tmp.len() implies tmp[i] != a by {
                assert(tmp[i] < sb + l.column_temps_offset);
            }
            assert(m2[a] == m1[a]);
            assert forall|c3: int| 0 <= c3 < l.n_cells implies a != #[trigger] cell_digest_at(l, sb, c3, row) by {
                lemma_cell_digest_slot(l, c3, row, c3, row);
            }
            assert(m1[a] == m0[a]);
        }
    }
}

/// The leaves of the row tree: each row's hash, and zero for the padding
/// rows.
pub open spec fn row_leaf_values(l: CommitmentProfile, chunks: Seq<Seq<u32>>) -> Seq<Seq<u32>> {
    Seq::new(l.rows_padded as nat, |r: int| if r < l.rows { row_value(l, chunks, r) } else { zero_view() })
}

/// The leaves of the tree of column `cell`: the column's cell digests, and
/// zero for the padding rows.
pub open spec fn column_leaf_values(l: CommitmentProfile, chunks: Seq<Seq<u32>>, cell: int) -> Seq<Seq<u32>> {
    Seq::new(l.rows_padded as nat, |r: int| if r < l.rows { cell_value(l, chunks, r, cell) } else { zero_view() })
}

/// The root the relay computes: the row tree's root compressed with the
/// root of the tree over the column roots.
pub open spec fn relay_root(l: CommitmentProfile, chunks: Seq<Seq<u32>>) -> Seq<u32> {
    poseidon_compress(
        merkle_root(row_leaf_values(l, chunks)),
        merkle_root(Seq::new(l.n_cells as nat, |c: int| merkle_root(column_leaf_values(l, chunks, c)))),
    )
}

/// The first `k` zero writes of the padding rows.
proof fn lemma_zero_rows_prefix(mem: Map<int, Seq<u32>>, l: CommitmentProfile, sb: int, k: int)
    requires
        layout_bounds(l),
        0 <= sb < P,
        0 <= k <= l.rows_padded - l.rows,
    ensures
        forall|i: int| 0 <= i < k ==> #[trigger] run_steps(mem, zero_rows(l, sb).subrange(0, k))[row_hash_at(l, sb, l.rows + i)]
            == zero_view(),
        forall|a: int|
            (forall|i: int| 0 <= i < k ==> a != #[trigger] row_hash_at(l, sb, l.rows + i)) ==> #[trigger] run_steps(
                mem,
                zero_rows(l, sb).subrange(0, k),
            )[a] == mem[a],
    decreases k,
{
    lemma_offsets(l);
    let z = zero_rows(l, sb);
    if k == 0 {
        assert(z.subrange(0, 0) =~= Seq::<RelayStep>::empty());
    } else {
        lemma_zero_rows_prefix(mem, l, sb, k - 1);
        assert(z.subrange(0, k).drop_last() =~= z.subrange(0, k - 1));
        assert(z.subrange(0, k).last() == z[k - 1]);
        let at = row_hash_at(l, sb, l.rows + k - 1);
        assert(0 <= at <= usize::MAX);
        let before = run_steps(mem, z.subrange(0, k - 1));
        assert(run_steps(mem, z.subrange(0, k)) == before.insert(at, zero_view()));
    }
}

/// After the trees of the first `c` columns, their roots are in place, and
/// nothing outside the column temporaries and those roots has changed.
proof fn lemma_columns_progress(mem: Map<int, Seq<u32>>, l: CommitmentProfile, sb: int, chunks: Seq<Seq<u32>>, c: nat)
    requires
        layout_bounds(l),
        0 <= sb < P,
        c <= l.n_cells,
        forall|r: int, c2: int|
            0 <= r < l.rows && 0 <= c2 < l.n_cells ==> mem[#[trigger] cell_digest_at(l, sb, c2, r)] == cell_value(l, chunks, r, c2),
        mem[zero_digest_at(l, sb)] == zero_view(),
    ensures
        forall|c2: int| 0 <= c2 < c ==> #[trigger] run_steps(mem, columns_calls(l, sb, c))[column_root_at(l, sb, c2)]
            == merkle_root(column_leaf_values(l, chunks, c2)),
        forall|a: int|
            (a < sb + l.column_temps_offset || a >= sb + l.row_root_temps_offset) && (forall|c2: int| 0 <= c2 < c ==> a
                != #[trigger] column_root_at(l, sb, c2)) ==> #[trigger] run_steps(mem, columns_calls(l, sb, c))[a] == mem[a],
    decreases c,
{
    lemma_offsets(l);
    if c == 0 {
        assert(columns_calls(l, sb, 0) =~= Seq::<RelayStep>::empty());
    } else {
        let cell = c - 1;
        lemma_columns_progress(mem, l, sb, chunks, (c - 1) as nat);
        let prev = columns_calls(l, sb, (c - 1) as nat);
        let m0 = run_steps(mem, prev);
        let cur = column_leaves(l, sb, cell);
        let v = column_leaf_values(l, chunks, cell);
        let temps = column_temp_at(l, sb, cell, 0);
        let dest = column_root_at(l, sb, cell);
        let tree = merkle_calls(cur, temps, 0, dest);
        assert(columns_calls(l, sb, c) == prev + tree);
        lemma_run_concat(mem, prev, tree);
        lemma_column_temp_slot(l, cell);
        assert forall|i: int| 0 <= i < cur.len() implies m0[#[trigger] cur[i]] == v[i] && 0 <= cur[i] <= usize::MAX && sb
            <= cur[i] && (cur[i] < sb + l.row_hashes_offset || cur[i] == zero_digest_at(l, sb)) by {
            if i < l.rows {
                lemma_cell_digest_slot(l, cell, i, cell, i);
            }
        }
        assert(addressable(cur));
        assert forall|i: int| 0 <= i < cur.len() implies #[trigger] cur[i] != dest && (cur[i] < temps || cur[i] >= temps + (0
            + cur.len() - 2) * DIGEST_LEN) by {}
        lemma_merkle_calls_root(m0, cur, v, temps, 0, dest);
        let after = run_steps(mem, columns_calls(l, sb, c));
        assert forall|c2: int| 0 <= c2 < c implies #[trigger] after[column_root_at(l, sb, c2)] == merkle_root(
            column_leaf_values(l, chunks, c2),
        ) by {
            if c2 < cell {
                let a = column_root_at(l, sb, c2);
                assert(a != dest && (a < temps + 0 * DIGEST_LEN || a >= temps + (0 + cur.len() - 2) * DIGEST_LEN));
            }
        }
        assert forall|a: int|
            (a < sb + l.column_temps_offset || a >= sb + l.row_root_temps_offset) && (forall|c2: int| 0 <= c2 < c ==> a
                != #[trigger] column_root_at(l, sb, c2)) implies #[trigger] after[a] == mem[a] by {
            assert(a != column_root_at(l, sb, cell));
            assert(a < temps + 0 * DIGEST_LEN || a >= temps + (0 + cur.len() - 2) * DIGEST_LEN);
            assert(forall|c2: int| 0 <= c2 < c - 1 ==> a != #[trigger] column_root_at(l, sb, c2));
        }
    }
}

/// Running the relay over memory that holds the codeword's digest chunks
/// from `cb` on leaves at `rp` the commitment's root: the root of the tree
/// over the row hashes compressed with the root of the tree over the
/// column roots, each row hash chaining the digests of the row's
/// systematic cells, each cell digest chaining the cell's chunks, and each
/// column tree over the column's cell digests padded with zero digests.
pub proof fn lemma_relay_computes_root(
    l: CommitmentProfile,
    cb: int,
    rp: int,
    sb: int,
    mem: Map<int, Seq<u32>>,
    chunks: Seq<Seq<u32>>,
)
    requires
        relay_placement(l, cb, sb),
        0 <= rp < P,
        chunks.len() == l.rows * l.n_cells * l.cell_chunks,
        codeword_loaded(mem, cb, chunks),
    ensures
        run_steps(mem, relay_schedule(l, cb, rp, sb))[rp] == relay_root(l, chunks),
{
    lemma_offsets(l);
    let zd = zero_digest_at(l, sb);
    let rp_root = row_root_temp_at(l, sb, l.rows_padded - 2);
    let out_root = outer_temp_at(l, sb, l.n_cells - 2);
    let s0 = seq![RelayStep::ZeroDigest { at: zd as usize }];
    let rs = rows_calls(l, cb, sb, l.rows as nat);
    let zs = zero_rows(l, sb);
    let rt = merkle_calls(row_leaves(l, sb), row_root_temp_at(l, sb, 0), 0, rp_root);
    let cs = columns_calls(l, sb, l.n_cells as nat);
    let ot = merkle_calls(outer_leaves(l, sb), outer_temp_at(l, sb, 0), 0, out_root);
    let fin = seq![compress_step(rp_root, out_root, rp)];
    assert(relay_schedule(l, cb, rp, sb) == s0 + rs + zs + rt + cs + ot + fin);
    lemma_run_concat(mem, s0 + rs + zs + rt + cs + ot, fin);
    lemma_run_concat(mem, s0 + rs + zs + rt + cs, ot);
    lemma_run_concat(mem, s0 + rs + zs + rt, cs);
    lemma_run_concat(mem, s0 + rs + zs, rt);
    lemma_run_concat(mem, s0 + rs, zs);
    lemma_run_concat(mem, s0, rs);
    // The zero digest.
    assert(s0.drop_last() =~= Seq::<RelayStep>::empty());
    assert(run_steps(mem, Seq::<RelayStep>::empty()) == mem);
    let m1 = run_steps(mem, s0);
    assert(m1 == mem.insert(zd, zero_view()));
    assert forall|w: int| 0 <= w < chunks.len() implies m1[cb + w * DIGEST_LEN] == #[trigger] chunks[w] by {
        lemma_chunk_address(l, 0, 0, 0);
        assert(w * DIGEST_LEN < l.rows * l.row_stride);
    }
    // The rows.
    lemma_rows_progress(m1, l, cb, sb, chunks, l.rows as nat);
    let m2 = run_steps(m1, rs);
    assert(m2[zd] == zero_view());
    // The padding rows' hashes.
    let k = l.rows_padded - l.rows;
    lemma_zero_rows_prefix(m2, l, sb, k);
    assert(zs.subrange(0, k) =~= zs);
    let m3 = run_steps(m2, zs);
    let row_cur = row_leaves(l, sb);
    let row_v = row_leaf_values(l, chunks);
    assert forall|i: int| 0 <= i < row_cur.len() implies m3[#[trigger] row_cur[i]] == row_v[i] && 0 <= row_cur[i] <= usize::MAX
        && sb + l.row_hashes_offset <= row_cur[i] < sb + l.column_roots_offset by {
        if i < l.rows {
            assert forall|j: int| 0 <= j < k implies row_cur[i] != #[trigger] row_hash_at(l, sb, l.rows + j) by {}
        } else {
            assert(row_cur[i] == row_hash_at(l, sb, l.rows + (i - l.rows)));
        }
    }
    assert forall|r: int, c: int| 0 <= r < l.rows && 0 <= c < l.n_cells implies m3[#[trigger] cell_digest_at(l, sb, c, r)]
        == cell_value(l, chunks, r, c) by {
        lemma_cell_digest_slot(l, c, r, c, r);
        assert forall|j: int| 0 <= j < k implies cell_digest_at(l, sb, c, r) != #[trigger] row_hash_at(l, sb, l.rows + j) by {}
    }
    assert forall|j: int| 0 <= j < k implies zd != #[trigger] row_hash_at(l, sb, l.rows + j) by {}
    assert(m3[zd] == zero_view());
    // The row tree.
    let rtemps = row_root_temp_at(l, sb, 0);
    assert(addressable(row_cur));
    assert forall|i: int| 0 <= i < row_cur.len() implies #[trigger] row_cur[i] != rp_root && (row_cur[i] < rtemps || row_cur[i]
        >= rtemps + (0 + row_cur.len() - 2) * DIGEST_LEN) by {}
    lemma_merkle_calls_root(m3, row_cur, row_v, rtemps, 0, rp_root);
    let m4 = run_steps(m3, rt);
    assert forall|r: int, c: int| 0 <= r < l.rows && 0 <= c < l.n_cells implies m4[#[trigger] cell_digest_at(l, sb, c, r)]
        == cell_value(l, chunks, r, c) by {
        lemma_cell_digest_slot(l, c, r, c, r);
        let a = cell_digest_at(l, sb, c, r);
        assert(a != rp_root && (a < rtemps + 0 * DIGEST_LEN || a >= rtemps + (0 + row_cur.len() - 2) * DIGEST_LEN));
    }
    assert(zd != rp_root && (zd < rtemps + 0 * DIGEST_LEN || zd >= rtemps + (0 + row_cur.len() - 2) * DIGEST_LEN));
    assert(m4[zd] == zero_view());
    // The column trees.
    lemma_columns_progress(m4, l, sb, chunks, l.n_cells as nat);
    let m5 = run_steps(m4, cs);
    assert forall|c2: int| 0 <= c2 < l.n_cells implies rp_root != #[trigger] column_root_at(l, sb, c2) by {}
    assert(m5[rp_root] == merkle_root(row_v));
    // The outer tree.
    let out_cur = outer_leaves(l, sb);
    let out_v = Seq::new(l.n_cells as nat, |c: int| merkle_root(column_leaf_values(l, chunks, c)));
    let otemps = outer_temp_at(l, sb, 0);
    assert forall|i: int| 0 <= i < out_cur.len() implies m5[#[trigger] out_cur[i]] == out_v[i] && 0 <= out_cur[i] <= usize::MAX
        && out_cur[i] != out_root && (out_cur[i] < otemps || out_cur[i] >= otemps + (0 + out_cur.len() - 2) * DIGEST_LEN) by {}
    assert(addressable(out_cur));
    lemma_merkle_calls_root(m5, out_cur, out_v, otemps, 0, out_root);
    let m6 = run_steps(m5, ot);
    assert(rp_root != out_root && (rp_root < otemps + 0 * DIGEST_LEN || rp_root >= otemps + (0 + out_cur.len() - 2) * DIGEST_LEN));
    assert(m6[rp_root] == merkle_root(row_v));
    // The final compression.
    assert(fin.drop_last() =~= Seq::<RelayStep>::empty());
    assert(run_steps(m6, Seq::<RelayStep>::empty()) == m6);
    assert(0 <= rp_root <= usize::MAX && 0 <= out_root <= usize::MAX);
    assert(run_steps(m6, fin) == m6.insert(rp, poseidon_compress(m6[rp_root], m6[out_root])));
}

/// The codewords' digest chunks in the order the relay reads them: chunk
/// `j` of cell `cell` of row `row` at `(row * n_cells + cell) * cell_chunks + j`.
pub open spec fn codeword_chunks(l: CommitmentProfile, cw: Seq<Vec<Ext>>) -> Seq<Seq<u32>> {
    let per_row = l.n_cells * l.cell_chunks;
    Seq::new(
        (l.rows * per_row) as nat,
        |w: int|
            chunks_of(flat(cell_of(cw[w / per_row]@, (w % per_row) / (l.cell_chunks as int), l.cell_size as int)))[w
                % (l.cell_chunks as int)],
    )
}

/// Position `(row * n_cells + cell) * cell_chunks + j` splits back into
/// its row, cell and chunk.
proof fn lemma_chunk_index(n: int, ch: int, row: int, cell: int, j: int)
    requires
        0 < n,
        0 < ch,
        0 <= row,
        0 <= cell < n,
        0 <= j < ch,
    ensures
        ((row * n + cell) * ch + j) / (n * ch) == row,
        (((row * n + cell) * ch + j) % (n * ch)) / ch == cell,
        ((row * n + cell) * ch + j) % ch == j,
{
    let w = (row * n + cell) * ch + j;
    let inner = cell * ch + j;
    assert(0 <= inner < n * ch) by (nonlinear_arith)
        requires
            0 <= cell < n,
            0 <= j < ch,
            inner == cell * ch + j,
    ;
    assert(w == row * (n * ch) + inner) by (nonlinear_arith)
        requires
            w == (row * n + cell) * ch + j,
            inner == cell * ch + j,
    ;
    vstd::arithmetic::div_mod::lemma_fundamental_div_mod_converse(w, n * ch, row, inner);
    vstd::arithmetic::div_mod::lemma_fundamental_div_mod_converse(inner, ch, cell, j);
    assert(w == ((row * n + cell)) * ch + j);
    vstd::arithmetic::div_mod::lemma_fundamental_div_mod_converse(w, ch, row * n + cell, j);
}

/// The relay's root over the codewords that the commitment was built from
/// is the commitment's final root.
pub proof fn lemma_relay_root_is_commitment_root(c: ExtCommitment, aux: ExtAuxiliaryData, l: CommitmentProfile)
    requires
        aux_consistent(aux),
        c.profile == aux.profile,
        dviews(c.row_hashes@) == row_hashes_of(aux.codewords@, c.profile),
        c.root_col@ == merkle_root(dviews(aux.column_roots@)),
        layout_ok(c.profile.n as nat, c.profile.m as nat, c.profile.c as nat),
        l == commitment_layout(c.profile.n as nat, c.profile.m as nat, c.profile.c as nat),
        layout_bounds(l),
    ensures
        relay_root(l, codeword_chunks(l, aux.codewords@)) == final_root_of(c),
{
    let p = c.profile;
    let cw = aux.codewords@;
    let chunks = codeword_chunks(l, cw);
    let n = l.n_cells as int;
    let ch = l.cell_chunks as int;
    assert(l.rows == p.n);
    assert(l.n_cells == p.m / p.c);
    assert(l.cell_size == p.c);
    assert(p.n == 14 || p.n == 15 || p.n == 30);
    if p.n == 30 {
        reveal_with_fuel(is_pow2, 6);
        assert(is_next_pow2(30, 32));
    } else {
        reveal_with_fuel(is_pow2, 5);
        assert(is_next_pow2(p.n as nat, 16));
    }
    assert(is_next_pow2(p.n as nat, padded_len(p.n as nat)));
    assert(padded_len(p.n as nat) <= 61);
    assert(l.rows_padded == padded_len(p.n as nat));
    assert(l.cell_chunks == (p.c * 5) / 8);
    assert(p.c * 5 == ch * 8);
    assert(l.systematic_cells == threshold(p)) by {
        let k = (p.m / 2) as int;
        let cc = p.c as int;
        assert(k % cc == 0);
        vstd::arithmetic::div_mod::lemma_fundamental_div_mod(k, cc);
        vstd::arithmetic::div_mod::lemma_fundamental_div_mod_converse(k + cc - 1, cc, k / cc, cc - 1);
        assert(p.k == k);
    }
    assert forall|r: int, cell: int| 0 <= r < p.n && 0 <= cell < n implies #[trigger] cell_value(l, chunks, r, cell)
        == cell_digest_of(cw, r, cell, p.c as int) by {
        crate::commit::lemma_cell_geometry(p, cell);
        assert(cw[r].len() == p.m);
        let cells = chunks_of(flat(cell_of(cw[r]@, cell, p.c as int)));
        assert(cells.len() == ch);
        assert forall|j: int| 0 <= j < ch implies #[trigger] cell_chunk_values(l, chunks, r, cell)[j] == cells[j] by {
            lemma_chunk_index(n, ch, r, cell, j);
            let w = (r * n + cell) * ch + j;
            assert(0 <= w < l.rows * (n * ch)) by (nonlinear_arith)
                requires
                    0 <= r < l.rows,
                    0 <= cell < n,
                    0 <= j < ch,
                    w == (r * n + cell) * ch + j,
            ;
            assert(chunks[w] == cells[j]);
        }
        assert(cell_chunk_values(l, chunks, r, cell) =~= cells);
    }
    let row_v = row_leaf_values(l, chunks);
    let row_h = padded_leaves(dviews(c.row_hashes@), padded_len(p.n as nat));
    assert forall|r: int| 0 <= r < row_v.len() implies #[trigger] row_v[r] == row_h[r] by {
        if r < p.n {
            crate::dbp_ext::lemma_threshold_bounds(p);
            assert(Seq::new(l.systematic_cells as nat, |cc: int| cell_value(l, chunks, r, cc)) =~= row_cells(
                cw,
                r,
                p.c as int,
                threshold(p),
            ));
        }
    }
    assert(row_v =~= row_h);
    let col_v = Seq::new(l.n_cells as nat, |cc: int| merkle_root(column_leaf_values(l, chunks, cc)));
    assert forall|cc: int| 0 <= cc < col_v.len() implies #[trigger] col_v[cc] == column_roots_of(
        cw,
        cells_of(p),
        p.c as int,
        padded_len(p.n as nat),
    )[cc] by {
        assert(column_leaf_values(l, chunks, cc) =~= codeword_column_leaves(cw, cc, p.c as int, padded_len(p.n as nat)));
    }
    assert(col_v =~= dviews(aux.column_roots@));
}

/// Running the relay of a commitment's profile over memory that holds, from
/// `cb` on, the digest chunks of the codewords the commitment was built
/// from leaves the commitment's root at `rp`.
pub proof fn lemma_relay_yields_commitment_root(
    c: ExtCommitment,
    aux: ExtAuxiliaryData,
    cb: int,
    rp: int,
    sb: int,
    mem: Map<int, Seq<u32>>,
)
    requires
        aux_consistent(aux),
        c.profile == aux.profile,
        dviews(c.row_hashes@) == row_hashes_of(aux.codewords@, c.profile),
        c.root_col@ == merkle_root(dviews(aux.column_roots@)),
        c.root@ == final_root_of(c),
        layout_ok(c.profile.n as nat, c.profile.m as nat, c.profile.c as nat),
        relay_placement(commitment_layout(c.profile.n as nat, c.profile.m as nat, c.profile.c as nat), cb, sb),
        0 <= rp < P,
        codeword_loaded(
            mem,
            cb,
            codeword_chunks(commitment_layout(c.profile.n as nat, c.profile.m as nat, c.profile.c as nat), aux.codewords@),
        ),
    ensures
        run_steps(
            mem,
            relay_schedule(commitment_layout(c.profile.n as nat, c.profile.m as nat, c.profile.c as nat), cb, rp, sb),
        )[rp] == c.root@,
{
    let l = commitment_layout(c.profile.n as nat, c.profile.m as nat, c.profile.c as nat);
    let chunks = codeword_chunks(l, aux.codewords@);
    assert(0 <= l.rows * (l.n_cells * l.cell_chunks)) by (nonlinear_arith);
    assert(l.rows * (l.n_cells * l.cell_chunks) == l.rows * l.n_cells * l.cell_chunks) by (nonlinear_arith);
    lemma_relay_computes_root(l, cb, rp, sb, mem, chunks);
    lemma_relay_root_is_commitment_root(c, aux, l);
}

} // verus!
